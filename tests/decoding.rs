use celeste_map::{
    bounding_box, parse, parse_attribute, parse_lookup_string, parse_short, parse_string,
    read_varlen_length, room_details, Attribute, BoundingBox, DecodeError,
};
use celeste_map::cursor::{read_exact_utf8, read_i32, read_i64, read_u32, read_u64, read_u8};

const MAGIC: [u8; 12] = [11, b'C', b'E', b'L', b'E', b'S', b'T', b'E', b' ', b'M', b'A', b'P'];

fn inline_string(out: &mut Vec<u8>, s: &str) {
    out.push(s.len() as u8);
    out.extend_from_slice(s.as_bytes());
}

fn short(out: &mut Vec<u8>, v: i16) {
    out.extend_from_slice(&v.to_le_bytes());
}

fn table() -> Vec<String> {
    ["Map", "levels", "level", "x", "y", "width", "height", "solids", "innerText"]
        .iter()
        .map(|s| s.to_string())
        .collect()
}

/// A header, a package name and the string table of `table()`.
fn preamble() -> Vec<u8> {
    let mut out = MAGIC.to_vec();
    inline_string(&mut out, "pkg");
    let t = table();
    short(&mut out, t.len() as i16);
    for s in &t {
        inline_string(&mut out, s);
    }
    out
}

/// A map with two rooms under "levels".
fn sample_map() -> Vec<u8> {
    let mut out = preamble();
    // root "Map": no attributes, one child
    short(&mut out, 0);
    out.push(0);
    short(&mut out, 1);
    // "levels": no attributes, two children
    short(&mut out, 1);
    out.push(0);
    short(&mut out, 2);
    // first room
    short(&mut out, 2);
    out.push(4);
    short(&mut out, 3);
    out.push(3);
    out.extend_from_slice(&0i32.to_le_bytes());
    short(&mut out, 4);
    out.push(3);
    out.extend_from_slice(&0i32.to_le_bytes());
    short(&mut out, 5);
    out.push(3);
    out.extend_from_slice(&320i32.to_le_bytes());
    short(&mut out, 6);
    out.push(3);
    out.extend_from_slice(&184i32.to_le_bytes());
    short(&mut out, 1);
    short(&mut out, 7);
    out.push(1);
    short(&mut out, 8);
    out.push(6);
    inline_string(&mut out, "01\n10");
    short(&mut out, 0);
    // second room
    short(&mut out, 2);
    out.push(4);
    short(&mut out, 3);
    out.push(2);
    short(&mut out, 400);
    short(&mut out, 4);
    out.push(8);
    out.extend_from_slice(&(-100i64).to_le_bytes());
    short(&mut out, 5);
    out.push(1);
    out.push(100);
    short(&mut out, 6);
    out.push(3);
    out.extend_from_slice(&50i32.to_le_bytes());
    short(&mut out, 1);
    short(&mut out, 7);
    out.push(1);
    short(&mut out, 8);
    out.push(7);
    short(&mut out, 4);
    out.extend_from_slice(&[2, b'0', 1, b'1']);
    short(&mut out, 0);
    out
}

/// A file whose root is named "Map" and carries the one given attribute.
fn map_with_attribute(name_index: i16, value: &[u8]) -> Vec<u8> {
    let mut out = preamble();
    short(&mut out, 0);
    out.push(1);
    short(&mut out, name_index);
    out.extend_from_slice(value);
    short(&mut out, 0);
    out
}

#[test]
fn varlen_single_byte() {
    let mut curr = 0;
    assert_eq!(read_varlen_length(&[0x05], &mut curr), Ok(5));
    assert_eq!(curr, 1);
}

#[test]
fn varlen_two_bytes() {
    let mut curr = 0;
    assert_eq!(read_varlen_length(&[0x80, 0x01], &mut curr), Ok(128));
    assert_eq!(curr, 2);
}

#[test]
fn varlen_five_groups() {
    let mut curr = 0;
    assert_eq!(read_varlen_length(&[0xFF, 0xFF, 0xFF, 0xFF, 0x7F], &mut curr), Ok((1u64 << 35) - 1));
    assert_eq!(curr, 5);
}

#[test]
fn varlen_six_continuation_bytes_too_long() {
    let mut curr = 0;
    assert_eq!(read_varlen_length(&[0x80; 6], &mut curr), Err(DecodeError::LengthTooLong));
    assert_eq!(curr, 0);
}

#[test]
fn varlen_truncated() {
    let mut curr = 0;
    assert_eq!(read_varlen_length(&[0x80, 0x80], &mut curr), Err(DecodeError::UnexpectedEnd));
    assert_eq!(curr, 0);
}

#[test]
fn string_inline() {
    let mut curr = 1;
    let bytes = [9, 3, b'a', b'b', b'c', 7];
    assert_eq!(parse_string(&bytes, &mut curr), Ok("abc".to_string()));
    assert_eq!(curr, 5);
}

#[test]
fn string_multibyte_utf8() {
    let mut curr = 0;
    let bytes = [3, b'x', 0xC3, 0xA9];
    assert_eq!(parse_string(&bytes, &mut curr), Ok("x\u{e9}".to_string()));
    assert_eq!(curr, 4);
}

#[test]
fn string_invalid_utf8() {
    let mut curr = 0;
    let bytes = [2, 0xC3, 0x28];
    assert_eq!(parse_string(&bytes, &mut curr), Err(DecodeError::InvalidUtf8));
    assert_eq!(curr, 0);
}

#[test]
fn string_longer_than_buffer() {
    let mut curr = 0;
    let bytes = [5, b'a', b'b'];
    assert_eq!(parse_string(&bytes, &mut curr), Err(DecodeError::UnexpectedEnd));
    assert_eq!(curr, 0);
}

#[test]
fn exact_utf8_empty() {
    let mut curr = 2;
    assert_eq!(read_exact_utf8(&[1, 2], &mut curr, 0), Ok(String::new()));
    assert_eq!(curr, 2);
}

#[test]
fn short_little_endian() {
    let mut curr = 0;
    assert_eq!(parse_short(&[0x34, 0x12], &mut curr), Ok(0x1234));
    assert_eq!(curr, 2);
    let mut curr = 0;
    assert_eq!(parse_short(&[0xFF, 0xFF], &mut curr), Ok(-1));
    let mut curr = 0;
    assert_eq!(parse_short(&[0x00, 0x80], &mut curr), Ok(i16::MIN));
}

#[test]
fn short_truncated_leaves_cursor() {
    let mut curr = 1;
    assert_eq!(parse_short(&[0, 1], &mut curr), Err(DecodeError::UnexpectedEnd));
    assert_eq!(curr, 1);
}

#[test]
fn fixed_width_reads() {
    let mut curr = 0;
    assert_eq!(read_u8(&[200], &mut curr), Ok(200));
    let mut curr = 0;
    assert_eq!(read_i32(&(-123456i32).to_le_bytes(), &mut curr), Ok(-123456));
    assert_eq!(curr, 4);
    let mut curr = 0;
    assert_eq!(read_i64(&i64::MIN.to_le_bytes(), &mut curr), Ok(i64::MIN));
    let mut curr = 0;
    assert_eq!(read_i64(&(-2i64).to_le_bytes(), &mut curr), Ok(-2));
    let mut curr = 0;
    assert_eq!(read_u32(&1.5f32.to_le_bytes(), &mut curr), Ok(1.5f32.to_bits()));
    let mut curr = 0;
    assert_eq!(read_u64(&(-2.25f64).to_le_bytes(), &mut curr), Ok((-2.25f64).to_bits()));
    assert_eq!(curr, 8);
    let mut curr = 0;
    assert_eq!(read_u64(&[0; 7], &mut curr), Err(DecodeError::UnexpectedEnd));
    assert_eq!(curr, 0);
}

#[test]
fn lookup_string_in_table() {
    let t = table();
    let mut curr = 0;
    assert_eq!(parse_lookup_string(&[2, 0], &mut curr, &t), Ok("level".to_string()));
    assert_eq!(curr, 2);
}

#[test]
fn lookup_string_bad_index() {
    let t = table();
    let mut curr = 0;
    assert_eq!(parse_lookup_string(&[9, 0], &mut curr, &t), Err(DecodeError::BadTableIndex));
    assert_eq!(curr, 0);
    assert_eq!(parse_lookup_string(&[0xFF, 0xFF], &mut curr, &t), Err(DecodeError::BadTableIndex));
    assert_eq!(curr, 0);
}

fn attribute(bytes: &[u8]) -> Result<Attribute, DecodeError> {
    let mut curr = 0;
    let t = table();
    let r = parse_attribute(bytes, &mut curr, &t);
    if r.is_ok() {
        assert_eq!(curr, bytes.len());
    } else {
        assert_eq!(curr, 0);
    }
    r
}

fn string_value(r: Result<Attribute, DecodeError>) -> String {
    match r {
        Ok(Attribute::String(s)) => s,
        other => panic!("expected a string attribute, got {:?}", other),
    }
}

#[test]
fn bool_attribute_false() {
    assert!(matches!(attribute(&[0, 0x00]), Ok(Attribute::Bool(false))));
}

#[test]
fn bool_attribute_true() {
    assert!(matches!(attribute(&[0, 0x01]), Ok(Attribute::Bool(true))));
    assert!(matches!(attribute(&[0, 0x7F]), Ok(Attribute::Bool(true))));
}

#[test]
fn numeric_attributes() {
    assert!(matches!(attribute(&[1, 250]), Ok(Attribute::Byte(250))));
    assert!(matches!(attribute(&[2, 0x18, 0xFC]), Ok(Attribute::Short(-1000))));
    assert!(matches!(attribute(&[3, 0x40, 0x42, 0x0F, 0x00]), Ok(Attribute::Int(1_000_000))));
    let mut long = vec![8];
    long.extend_from_slice(&(-5_000_000_000i64).to_le_bytes());
    assert!(matches!(attribute(&long), Ok(Attribute::Long(-5_000_000_000))));
}

#[test]
fn real_attributes_keep_bits() {
    let mut float = vec![4];
    float.extend_from_slice(&0.5f32.to_le_bytes());
    match attribute(&float) {
        Ok(Attribute::Float(bits)) => assert_eq!(f32::from_bits(bits), 0.5),
        other => panic!("{:?}", other),
    }
    let mut double = vec![9];
    double.extend_from_slice(&3.75f64.to_le_bytes());
    match attribute(&double) {
        Ok(Attribute::Double(bits)) => assert_eq!(f64::from_bits(bits), 3.75),
        other => panic!("{:?}", other),
    }
}

#[test]
fn table_string_attribute() {
    assert_eq!(string_value(attribute(&[5, 8, 0])), "innerText");
}

#[test]
fn table_string_attribute_bad_index() {
    assert_eq!(attribute(&[5, 9, 0]).unwrap_err(), DecodeError::BadTableIndex);
    assert_eq!(attribute(&[5, 0x00, 0x01]).unwrap_err(), DecodeError::BadTableIndex);
}

#[test]
fn inline_string_attribute() {
    assert_eq!(string_value(attribute(&[6, 2, b'h', b'i'])), "hi");
}

#[test]
fn rle_string_attribute() {
    assert_eq!(string_value(attribute(&[7, 4, 0, 0x03, 0x41, 0x02, 0x42])), "AAABB");
}

#[test]
fn rle_string_high_byte_is_latin1() {
    assert_eq!(string_value(attribute(&[7, 2, 0, 0x02, 0xE9])), "\u{e9}\u{e9}");
}

#[test]
fn rle_string_empty_and_zero_runs() {
    assert_eq!(string_value(attribute(&[7, 0, 0])), "");
    assert_eq!(string_value(attribute(&[7, 4, 0, 0, b'x', 1, b'y'])), "y");
}

#[test]
fn rle_string_negative_length() {
    assert_eq!(attribute(&[7, 0xFE, 0xFF]).unwrap_err(), DecodeError::NegativeLength);
}

#[test]
fn rle_string_odd_length() {
    assert_eq!(attribute(&[7, 3, 0, 1, b'a', 1]).unwrap_err(), DecodeError::OddLength);
}

#[test]
fn rle_string_truncated() {
    assert_eq!(attribute(&[7, 4, 0, 1, b'a']).unwrap_err(), DecodeError::UnexpectedEnd);
}

#[test]
fn unknown_attribute_type() {
    assert_eq!(attribute(&[10, 0]).unwrap_err(), DecodeError::UnknownAttributeType(10));
    assert_eq!(attribute(&[255]).unwrap_err(), DecodeError::UnknownAttributeType(255));
}

#[test]
fn attribute_missing_tag() {
    assert_eq!(attribute(&[]).unwrap_err(), DecodeError::UnexpectedEnd);
}

#[test]
fn decode_sample_map() {
    let map = parse(&sample_map()).unwrap();
    assert_eq!(map.package_name, "pkg");
    assert_eq!(map.root.name, "Map");
    assert!(map.root.attributes.is_empty());
    let levels = map.root.get_child("levels").unwrap();
    assert_eq!(levels.children.len(), 2);
    let first = &levels.children[0];
    assert_eq!(first.name, "level");
    let names: Vec<&str> = first.attributes.iter().map(|a| a.0.as_str()).collect();
    assert_eq!(names, vec!["x", "y", "width", "height"]);
    assert_eq!(first.get_attribute("width").unwrap().as_integer(), Some(320));
    let second = &levels.children[1];
    assert_eq!(second.get_attribute("x").unwrap().as_integer(), Some(400));
    assert_eq!(second.get_attribute("y").unwrap().as_integer(), Some(-100));
    assert_eq!(second.get_attribute("width").unwrap().as_integer(), Some(100));
    let solids = second.get_child("solids").unwrap();
    assert_eq!(solids.get_attribute("innerText").unwrap().as_string().unwrap(), "001");
    assert!(second.get_attribute("missing").is_none());
    assert!(second.get_child("missing").is_none());
}

#[test]
fn decoding_twice_gives_the_same_tree() {
    let bytes = sample_map();
    let a = parse(&bytes).unwrap();
    let b = parse(&bytes).unwrap();
    assert_eq!(format!("{:?}", a), format!("{:?}", b));
}

#[test]
fn trailing_bytes_rejected() {
    let mut bytes = sample_map();
    bytes.push(0);
    assert_eq!(parse(&bytes).unwrap_err(), DecodeError::TrailingBytes);
    bytes.extend_from_slice(&[0xFF; 40]);
    assert_eq!(parse(&bytes).unwrap_err(), DecodeError::TrailingBytes);
}

#[test]
fn every_truncation_fails() {
    let bytes = sample_map();
    for k in 0..12 {
        assert_eq!(parse(&bytes[..k]).unwrap_err(), DecodeError::BadMagic, "cut at {}", k);
    }
    for k in 12..bytes.len() {
        assert_eq!(parse(&bytes[..k]).unwrap_err(), DecodeError::UnexpectedEnd, "cut at {}", k);
    }
}

#[test]
fn bad_magic_rejected() {
    let mut bytes = sample_map();
    bytes[3] = b'X';
    assert_eq!(parse(&bytes).unwrap_err(), DecodeError::BadMagic);
    let mut bytes = sample_map();
    bytes[0] = 12;
    assert_eq!(parse(&bytes).unwrap_err(), DecodeError::BadMagic);
    assert_eq!(parse(b"not a map at all, whatever follows").unwrap_err(), DecodeError::BadMagic);
    assert_eq!(parse(&[11, b'C', b'X']).unwrap_err(), DecodeError::BadMagic);
}

#[test]
fn negative_table_size() {
    let mut bytes = MAGIC.to_vec();
    inline_string(&mut bytes, "pkg");
    short(&mut bytes, -2);
    assert_eq!(parse(&bytes).unwrap_err(), DecodeError::NegativeTableSize);
}

#[test]
fn negative_child_count() {
    let mut bytes = preamble();
    short(&mut bytes, 0);
    bytes.push(0);
    bytes.extend_from_slice(&[0xFF, 0xFF]);
    assert_eq!(parse(&bytes).unwrap_err(), DecodeError::NegativeChildCount);
}

#[test]
fn element_name_bad_table_index() {
    let mut bytes = preamble();
    short(&mut bytes, 9);
    bytes.push(0);
    short(&mut bytes, 0);
    assert_eq!(parse(&bytes).unwrap_err(), DecodeError::BadTableIndex);
}

#[test]
fn attribute_in_file_bad_table_index() {
    let bytes = map_with_attribute(3, &[5, 20, 0]);
    assert_eq!(parse(&bytes).unwrap_err(), DecodeError::BadTableIndex);
}

#[test]
fn attribute_in_file_unknown_type() {
    let bytes = map_with_attribute(3, &[12]);
    assert_eq!(parse(&bytes).unwrap_err(), DecodeError::UnknownAttributeType(12));
}

#[test]
fn attribute_count_is_unsigned() {
    let mut bytes = preamble();
    short(&mut bytes, 0);
    bytes.push(200);
    for _ in 0..200 {
        short(&mut bytes, 3);
        bytes.extend_from_slice(&[1, 7]);
    }
    short(&mut bytes, 0);
    let map = parse(&bytes).unwrap();
    assert_eq!(map.root.attributes.len(), 200);
}

#[test]
fn duplicate_attributes_keep_order_and_first_wins() {
    let mut bytes = preamble();
    short(&mut bytes, 0);
    bytes.push(2);
    short(&mut bytes, 3);
    bytes.extend_from_slice(&[1, 1]);
    short(&mut bytes, 3);
    bytes.extend_from_slice(&[1, 2]);
    short(&mut bytes, 0);
    let map = parse(&bytes).unwrap();
    assert_eq!(map.root.attributes.len(), 2);
    assert_eq!(map.root.get_attribute("x").unwrap().as_integer(), Some(1));
    assert!(matches!(map.root.attributes[1].1, Attribute::Byte(2)));
}

#[test]
fn attribute_accessors() {
    assert_eq!(Attribute::Bool(true).as_bool(), Some(true));
    assert_eq!(Attribute::Byte(3).as_bool(), None);
    assert_eq!(Attribute::Short(-3).as_integer(), Some(-3));
    assert_eq!(Attribute::Int(-70000).as_integer(), Some(-70000));
    assert_eq!(Attribute::Long(i64::MAX).as_integer(), Some(i64::MAX));
    assert_eq!(Attribute::Float(0).as_integer(), None);
    assert_eq!(Attribute::String("s".to_string()).as_string().unwrap(), "s");
    assert!(Attribute::Byte(1).as_string().is_none());
}

#[test]
fn short_buffers_are_bad_magic() {
    assert_eq!(parse(&[]).unwrap_err(), DecodeError::BadMagic);
    assert_eq!(parse(&[11]).unwrap_err(), DecodeError::BadMagic);
    assert_eq!(parse(&MAGIC[..11]).unwrap_err(), DecodeError::BadMagic);
}

#[test]
fn sample_bounding_box() {
    let map = parse(&sample_map()).unwrap();
    assert_eq!(bounding_box(&map), Some(BoundingBox { x: 0, y: -100, width: 500, height: 284 }));
}

#[test]
fn sample_room_details() {
    let map = parse(&sample_map()).unwrap();
    let rooms = room_details(&map).unwrap();
    assert_eq!(rooms.len(), 2);
    assert_eq!((rooms[0].x, rooms[0].y, rooms[0].width, rooms[0].height), (0, 0, 320, 184));
    assert_eq!(rooms[0].tiles, "01\n10");
    assert_eq!((rooms[1].x, rooms[1].y, rooms[1].width, rooms[1].height), (400, -100, 100, 50));
    assert_eq!(rooms[1].tiles, "001");
}

#[test]
fn statistics_without_levels() {
    let mut bytes = preamble();
    short(&mut bytes, 0);
    bytes.push(0);
    short(&mut bytes, 0);
    let map = parse(&bytes).unwrap();
    assert_eq!(bounding_box(&map), None);
    assert!(room_details(&map).is_none());
}

#[test]
fn deeply_nested_elements() {
    let levels = 5000;
    let mut bytes = preamble();
    for _ in 0..levels {
        short(&mut bytes, 0);
        bytes.push(0);
        short(&mut bytes, 1);
    }
    short(&mut bytes, 2);
    bytes.push(0);
    short(&mut bytes, 0);
    let map = parse(&bytes).unwrap();
    let mut depth = 0;
    let mut e = &map.root;
    while let Some(c) = e.children.first() {
        e = c;
        depth += 1;
    }
    assert_eq!(depth, levels);
    assert_eq!(e.name, "level");
}

fn sample_mod(category: &str, dates: &[u64]) -> celeste_map::ModDetail {
    celeste_map::ModDetail {
        name: "m".to_string(),
        gamebanana_id: 7,
        files: dates
            .iter()
            .enumerate()
            .map(|(i, d)| celeste_map::FileDetails { url: format!("u{}", i), created_date: *d })
            .collect(),
        category_name: category.to_string(),
    }
}

#[test]
fn latest_file_takes_newest_last_on_ties() {
    let m = sample_mod("Maps", &[3, 9, 1, 9, 4]);
    assert_eq!(celeste_map::latest_file(&m.files).unwrap().url, "u3");
    let m = sample_mod("Maps", &[]);
    assert!(celeste_map::latest_file(&m.files).is_none());
}

#[test]
fn map_mod_category() {
    assert!(celeste_map::is_map_mod(&sample_mod("Maps", &[1])));
    assert!(!celeste_map::is_map_mod(&sample_mod("Tools", &[1])));
    assert!(!celeste_map::is_map_mod(&sample_mod("maps", &[1])));
}
