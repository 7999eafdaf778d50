//! Bounds-checked sequential reads over an immutable byte buffer.
//!
//! Every read takes the buffer and a cursor position. A read either succeeds,
//! moving the cursor just past what it consumed, or fails and leaves the cursor
//! where it was. Each read has a spec counterpart over `Seq<u8>` and an `int`
//! position that returns the value read together with the position after it.
use vstd::prelude::*;

verus! {

/// Why a buffer could not be decoded.
#[derive(Debug, Clone, Copy, PartialEq, Eq, Structural)]
pub enum DecodeError {
    /// The buffer does not start with the format's header.
    BadMagic,
    /// Bytes remain after the root element.
    TrailingBytes,
    /// A variable-length integer continues past five groups.
    LengthTooLong,
    /// The string table announces a negative number of entries.
    NegativeTableSize,
    /// An element announces a negative number of children.
    NegativeChildCount,
    /// A run-length-encoded string announces a negative byte length.
    NegativeLength,
    /// A run-length-encoded string announces an odd byte length.
    OddLength,
    /// A string-table reference is negative or past the end of the table.
    BadTableIndex,
    /// A read needs more bytes than remain in the buffer.
    UnexpectedEnd,
    /// A string's bytes are not well-formed UTF-8.
    InvalidUtf8,
    /// An attribute carries a type tag outside the known range.
    UnknownAttributeType(u8),
}

/// What an exec read returned, and where it left the cursor, agrees with the
/// spec read `s` started at `before`: on success the value's view and the new
/// position match, on failure the error matches and the cursor has not moved.
pub open spec fn advances_as<T: View>(
    r: Result<T, DecodeError>,
    s: Result<(T::V, int), DecodeError>,
    before: usize,
    after: usize,
) -> bool {
    match (r, s) {
        (Ok(v), Ok((w, e))) => v@ == w && after as int == e,
        (Err(x), Err(y)) => x == y && after == before,
        _ => false,
    }
}

/// `n` raw bytes at `pos`.
pub open spec fn spec_take(b: Seq<u8>, pos: int, n: int) -> Result<(Seq<u8>, int), DecodeError> {
    if 0 <= pos && 0 <= n && pos + n <= b.len() {
        Ok((b.subrange(pos, pos + n), pos + n))
    } else {
        Err(DecodeError::UnexpectedEnd)
    }
}

/// One byte at `pos`.
pub open spec fn spec_u8(b: Seq<u8>, pos: int) -> Result<(u8, int), DecodeError> {
    if 0 <= pos && pos + 1 <= b.len() {
        Ok((b[pos], pos + 1))
    } else {
        Err(DecodeError::UnexpectedEnd)
    }
}

/// The unsigned little-endian value of the two bytes at `pos`.
pub open spec fn le16(b: Seq<u8>, pos: int) -> int {
    b[pos] + 256 * b[pos + 1]
}

/// The unsigned little-endian value of the four bytes at `pos`.
pub open spec fn le32(b: Seq<u8>, pos: int) -> int {
    le16(b, pos) + 0x1_0000 * le16(b, pos + 2)
}

/// The unsigned little-endian value of the eight bytes at `pos`.
pub open spec fn le64(b: Seq<u8>, pos: int) -> int {
    le32(b, pos) + 0x1_0000_0000 * le32(b, pos + 4)
}

/// Two's complement reading of an unsigned value of `bits` bits.
pub open spec fn signed(u: int, bits: nat) -> int {
    let half = vstd::arithmetic::power2::pow2((bits - 1) as nat) as int;
    if u < half {
        u
    } else {
        u - 2 * half
    }
}

/// Little-endian `i16` at `pos`.
pub open spec fn spec_i16(b: Seq<u8>, pos: int) -> Result<(i16, int), DecodeError> {
    if 0 <= pos && pos + 2 <= b.len() {
        Ok((signed(le16(b, pos), 16) as i16, pos + 2))
    } else {
        Err(DecodeError::UnexpectedEnd)
    }
}

/// Little-endian `i32` at `pos`.
pub open spec fn spec_i32(b: Seq<u8>, pos: int) -> Result<(i32, int), DecodeError> {
    if 0 <= pos && pos + 4 <= b.len() {
        Ok((signed(le32(b, pos), 32) as i32, pos + 4))
    } else {
        Err(DecodeError::UnexpectedEnd)
    }
}

/// Little-endian `i64` at `pos`.
pub open spec fn spec_i64(b: Seq<u8>, pos: int) -> Result<(i64, int), DecodeError> {
    if 0 <= pos && pos + 8 <= b.len() {
        Ok((signed(le64(b, pos), 64) as i64, pos + 8))
    } else {
        Err(DecodeError::UnexpectedEnd)
    }
}

/// Little-endian 32-bit pattern at `pos` (the bits of an `f32`).
pub open spec fn spec_u32(b: Seq<u8>, pos: int) -> Result<(u32, int), DecodeError> {
    if 0 <= pos && pos + 4 <= b.len() {
        Ok((le32(b, pos) as u32, pos + 4))
    } else {
        Err(DecodeError::UnexpectedEnd)
    }
}

/// Little-endian 64-bit pattern at `pos` (the bits of an `f64`).
pub open spec fn spec_u64(b: Seq<u8>, pos: int) -> Result<(u64, int), DecodeError> {
    if 0 <= pos && pos + 8 <= b.len() {
        Ok((le64(b, pos) as u64, pos + 8))
    } else {
        Err(DecodeError::UnexpectedEnd)
    }
}

/// The most 7-bit groups a length may take.
pub const MAX_LENGTH_GROUPS: usize = 5;

/// `low + scale * v` for a successful read `r` of `v`; errors pass through.
pub open spec fn scaled(low: int, scale: int, r: Result<(int, int), DecodeError>) -> Result<
    (int, int),
    DecodeError,
> {
    match r {
        Ok((v, e)) => Ok((low + scale * v, e)),
        Err(x) => Err(x),
    }
}

/// Variable-length unsigned integer at `pos`, when `groups` groups have already
/// been read: each byte gives its low seven bits, least significant group
/// first, and a set high bit announces another group.
pub open spec fn spec_varlen_from(b: Seq<u8>, pos: int, groups: nat) -> Result<
    (int, int),
    DecodeError,
>
    decreases MAX_LENGTH_GROUPS - groups,
{
    if groups >= MAX_LENGTH_GROUPS {
        Err(DecodeError::LengthTooLong)
    } else if !(0 <= pos && pos < b.len()) {
        Err(DecodeError::UnexpectedEnd)
    } else if b[pos] < 128 {
        Ok((b[pos] as int, pos + 1))
    } else {
        scaled(b[pos] - 128, 128, spec_varlen_from(b, pos + 1, groups + 1))
    }
}

/// Variable-length unsigned integer at `pos`.
pub open spec fn spec_varlen(b: Seq<u8>, pos: int) -> Result<(int, int), DecodeError> {
    spec_varlen_from(b, pos, 0)
}

/// The text that well-formed UTF-8 bytes encode, or `None` for ill-formed bytes.
pub uninterp spec fn utf8_text(bytes: Seq<u8>) -> Option<Seq<char>>;

/// `n` bytes at `pos` read as UTF-8 text.
pub open spec fn spec_utf8(b: Seq<u8>, pos: int, n: int) -> Result<(Seq<char>, int), DecodeError> {
    match spec_take(b, pos, n) {
        Ok((bytes, e)) => match utf8_text(bytes) {
            Some(s) => Ok((s, e)),
            None => Err(DecodeError::InvalidUtf8),
        },
        Err(x) => Err(x),
    }
}

/// A string given by its varlen byte length and then its UTF-8 bytes.
pub open spec fn spec_string(b: Seq<u8>, pos: int) -> Result<(Seq<char>, int), DecodeError> {
    match spec_varlen(b, pos) {
        Ok((n, p)) => spec_utf8(b, p, n),
        Err(x) => Err(x),
    }
}

/// Relies on `String::from_utf8`: it succeeds exactly on well-formed UTF-8 and
/// then holds the text the bytes encode; ASCII bytes encode themselves.
#[verifier::external_body]
fn string_from_utf8(bytes: Vec<u8>) -> (r: Option<String>)
    ensures
        match r {
            Some(s) => utf8_text(bytes@) == Some(s@),
            None => utf8_text(bytes@) is None,
        },
        (forall|i: int| 0 <= i < bytes@.len() ==> bytes@[i] < 128) ==> r is Some && r->Some_0@
            == Seq::new(bytes@.len(), |i: int| bytes@[i] as char),
{
    String::from_utf8(bytes).ok()
}

/// Reads one byte.
pub fn read_u8(bytes: &[u8], curr: &mut usize) -> (r: Result<u8, DecodeError>)
    ensures
        advances_as(r, spec_u8(bytes@, *old(curr) as int), *old(curr), *final(curr)),
{
    if *curr >= bytes.len() {
        return Err(DecodeError::UnexpectedEnd);
    }
    let byte = bytes[*curr];
    *curr = *curr + 1;
    Ok(byte)
}

/// Reads the unsigned little-endian value of two bytes; the caller checks that they are there.
fn le16_at(bytes: &[u8], p: usize) -> (r: u16)
    requires
        p + 2 <= bytes.len(),
    ensures
        r as int == le16(bytes@, p as int),
{
    bytes[p] as u16 + 256 * (bytes[p + 1] as u16)
}

/// Reads the unsigned little-endian value of four bytes; the caller checks that they are there.
fn le32_at(bytes: &[u8], p: usize) -> (r: u32)
    requires
        p + 4 <= bytes.len(),
    ensures
        r as int == le32(bytes@, p as int),
{
    le16_at(bytes, p) as u32 + 0x1_0000 * (le16_at(bytes, p + 2) as u32)
}

/// Reads the unsigned little-endian value of eight bytes; the caller checks that they are there.
fn le64_at(bytes: &[u8], p: usize) -> (r: u64)
    requires
        p + 8 <= bytes.len(),
    ensures
        r as int == le64(bytes@, p as int),
{
    le32_at(bytes, p) as u64 + 0x1_0000_0000 * (le32_at(bytes, p + 4) as u64)
}

/// Reads a little-endian `i16`.
pub fn parse_short(bytes: &[u8], curr: &mut usize) -> (r: Result<i16, DecodeError>)
    ensures
        advances_as(r, spec_i16(bytes@, *old(curr) as int), *old(curr), *final(curr)),
{
    if bytes.len() < 2 || *curr > bytes.len() - 2 {
        return Err(DecodeError::UnexpectedEnd);
    }
    let u = le16_at(bytes, *curr);
    *curr = *curr + 2;
    proof {
        vstd::arithmetic::power2::lemma2_to64();
    }
    if u < 0x8000 {
        Ok(u as i16)
    } else {
        Ok((u as i32 - 0x1_0000) as i16)
    }
}

/// Reads a little-endian `i32`.
pub fn read_i32(bytes: &[u8], curr: &mut usize) -> (r: Result<i32, DecodeError>)
    ensures
        advances_as(r, spec_i32(bytes@, *old(curr) as int), *old(curr), *final(curr)),
{
    if bytes.len() < 4 || *curr > bytes.len() - 4 {
        return Err(DecodeError::UnexpectedEnd);
    }
    let u = le32_at(bytes, *curr);
    *curr = *curr + 4;
    proof {
        vstd::arithmetic::power2::lemma2_to64();
    }
    if u < 0x8000_0000 {
        Ok(u as i32)
    } else {
        Ok((u as i64 - 0x1_0000_0000) as i32)
    }
}

/// Reads a little-endian `i64`.
pub fn read_i64(bytes: &[u8], curr: &mut usize) -> (r: Result<i64, DecodeError>)
    ensures
        advances_as(r, spec_i64(bytes@, *old(curr) as int), *old(curr), *final(curr)),
{
    if bytes.len() < 8 || *curr > bytes.len() - 8 {
        return Err(DecodeError::UnexpectedEnd);
    }
    let u = le64_at(bytes, *curr);
    *curr = *curr + 8;
    proof {
        vstd::arithmetic::power2::lemma2_to64();
        vstd::arithmetic::power2::lemma2_to64_rest();
    }
    if u < 0x8000_0000_0000_0000 {
        Ok(u as i64)
    } else {
        Ok((u - 0x8000_0000_0000_0000) as i64 + i64::MIN)
    }
}

/// Reads the little-endian bit pattern of an `f32`.
pub fn read_u32(bytes: &[u8], curr: &mut usize) -> (r: Result<u32, DecodeError>)
    ensures
        advances_as(r, spec_u32(bytes@, *old(curr) as int), *old(curr), *final(curr)),
{
    if bytes.len() < 4 || *curr > bytes.len() - 4 {
        return Err(DecodeError::UnexpectedEnd);
    }
    let u = le32_at(bytes, *curr);
    *curr = *curr + 4;
    Ok(u)
}

/// Reads the little-endian bit pattern of an `f64`.
pub fn read_u64(bytes: &[u8], curr: &mut usize) -> (r: Result<u64, DecodeError>)
    ensures
        advances_as(r, spec_u64(bytes@, *old(curr) as int), *old(curr), *final(curr)),
{
    if bytes.len() < 8 || *curr > bytes.len() - 8 {
        return Err(DecodeError::UnexpectedEnd);
    }
    let u = le64_at(bytes, *curr);
    *curr = *curr + 8;
    Ok(u)
}

/// `128` raised to the number of groups read so far.
pub open spec fn group_scale(groups: nat) -> int
    decreases groups,
{
    if groups == 0 {
        1
    } else {
        128 * group_scale((groups - 1) as nat)
    }
}

/// Reads a variable-length unsigned integer of at most five 7-bit groups.
pub fn read_varlen_length(bytes: &[u8], curr: &mut usize) -> (r: Result<u64, DecodeError>)
    ensures
        match (r, spec_varlen(bytes@, *old(curr) as int)) {
            (Ok(v), Ok((w, e))) => v as int == w && *final(curr) as int == e,
            (Err(x), Err(y)) => x == y && *final(curr) == *old(curr),
            _ => false,
        },
        r is Ok ==> *old(curr) < *final(curr),
{
    let start = *curr;
    let mut p: usize = start;
    let mut value: u64 = 0;
    let mut scale: u64 = 1;
    let mut groups: usize = 0;
    proof {
        reveal_with_fuel(group_scale, 5);
    }
    loop
        invariant
            groups <= MAX_LENGTH_GROUPS,
            p == start + groups,
            *curr == start,
            *old(curr) == start,
            scale as int == group_scale(groups as nat),
            value < scale,
            spec_varlen(bytes@, start as int) == scaled(
                value as int,
                scale as int,
                spec_varlen_from(bytes@, p as int, groups as nat),
            ),
        decreases MAX_LENGTH_GROUPS - groups,
    {
        if groups == MAX_LENGTH_GROUPS {
            return Err(DecodeError::LengthTooLong);
        }
        if p >= bytes.len() {
            return Err(DecodeError::UnexpectedEnd);
        }
        let byte = bytes[p];
        let low = (byte % 128) as u64;
        assert(scale <= 0x1000_0000) by {
            reveal_with_fuel(group_scale, 5);
        }
        assert(value + low * scale < 128 * scale) by (nonlinear_arith)
            requires
                value < scale,
                low < 128,
        ;
        let ghost old_value = value;
        let ghost rest = spec_varlen_from(bytes@, p as int + 1, groups as nat + 1);
        value = value + low * scale;
        p = p + 1;
        groups = groups + 1;
        if byte < 128 {
            assert(old_value + scale * low == value) by (nonlinear_arith)
                requires
                    value == old_value + low * scale,
            ;
            *curr = p;
            return Ok(value);
        }
        proof {
            if let Ok((v, _)) = rest {
                assert(old_value + scale * (low + 128 * v) == value + (scale * 128) * v)
                    by (nonlinear_arith)
                    requires
                        value == old_value + low * scale,
                ;
            }
        }
        scale = scale * 128;
    }
}

/// Reads `n` bytes and decodes them as UTF-8.
pub fn read_exact_utf8(bytes: &[u8], curr: &mut usize, n: u64) -> (r: Result<String, DecodeError>)
    ensures
        advances_as(r, spec_utf8(bytes@, *old(curr) as int, n as int), *old(curr), *final(curr)),
        r is Ok ==> *old(curr) <= *final(curr),
{
    let start = *curr;
    if start > bytes.len() || n > (bytes.len() - start) as u64 {
        return Err(DecodeError::UnexpectedEnd);
    }
    let end = start + n as usize;
    let mut raw: Vec<u8> = Vec::new();
    let mut i: usize = start;
    while i < end
        invariant
            start <= i <= end <= bytes.len(),
            raw@ == bytes@.subrange(start as int, i as int),
        decreases end - i,
    {
        raw.push(bytes[i]);
        i = i + 1;
        assert(raw@ =~= bytes@.subrange(start as int, i as int));
    }
    match string_from_utf8(raw) {
        Some(s) => {
            *curr = end;
            Ok(s)
        },
        None => Err(DecodeError::InvalidUtf8),
    }
}

/// Reads a string given by its varlen byte length and then its UTF-8 bytes.
pub fn parse_string(bytes: &[u8], curr: &mut usize) -> (r: Result<String, DecodeError>)
    ensures
        advances_as(r, spec_string(bytes@, *old(curr) as int), *old(curr), *final(curr)),
        r is Ok ==> *old(curr) < *final(curr),
{
    let start = *curr;
    let n = read_varlen_length(bytes, curr)?;
    match read_exact_utf8(bytes, curr, n) {
        Ok(s) => Ok(s),
        Err(e) => {
            *curr = start;
            Err(e)
        },
    }
}

} // verus!
