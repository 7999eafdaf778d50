//! Decoding of string-table references, attribute values, elements and whole
//! files, each against a spec decoder over `Seq<u8>`.
use vstd::prelude::*;
use crate::cursor::{
    advances_as, parse_short, parse_string, read_i32, read_i64, read_u32, read_u64, read_u8,
    spec_i16, spec_i32, spec_i64, spec_string, spec_take, spec_u32, spec_u64, spec_u8,
    DecodeError,
};
use crate::tree::{AttrView, Attribute, Element, ElementView, LevelMap, MapView};

verus! {

/// The spec view of a decoded string table.
pub open spec fn table_view(table: Seq<String>) -> Seq<Seq<char>> {
    Seq::new(table.len(), |i: int| table[i]@)
}

/// A string given by its signed 16-bit index into `table`.
pub open spec fn spec_lookup(b: Seq<u8>, pos: int, table: Seq<Seq<char>>) -> Result<
    (Seq<char>, int),
    DecodeError,
> {
    match spec_i16(b, pos) {
        Ok((i, p)) => if 0 <= i < table.len() {
            Ok((table[i as int], p))
        } else {
            Err(DecodeError::BadTableIndex)
        },
        Err(x) => Err(x),
    }
}

/// Reads a string given by its index into the string table.
pub fn parse_lookup_string(bytes: &[u8], curr: &mut usize, lookup_table: &[String]) -> (r: Result<
    String,
    DecodeError,
>)
    ensures
        advances_as(
            r,
            spec_lookup(bytes@, *old(curr) as int, table_view(lookup_table@)),
            *old(curr),
            *final(curr),
        ),
{
    let start = *curr;
    let index = parse_short(bytes, curr)?;
    if index < 0 || index as usize >= lookup_table.len() {
        *curr = start;
        return Err(DecodeError::BadTableIndex);
    }
    Ok(lookup_table[index as usize].clone())
}

/// The text of run-length-encoded pairs: each pair (count, code) stands for
/// `count` copies of the character with that single-byte code, in order.
pub open spec fn rle_text(pairs: Seq<u8>) -> Seq<char>
    decreases pairs.len(),
{
    if pairs.len() < 2 {
        Seq::empty()
    } else {
        let n = pairs.len() - 2;
        rle_text(pairs.subrange(0, n)) + Seq::new(pairs[n] as nat, |_i: int| pairs[n + 1] as char)
    }
}

/// A run-length-encoded string: a signed 16-bit byte length, then that many
/// bytes of (count, code) pairs.
pub open spec fn spec_rle(b: Seq<u8>, pos: int) -> Result<(Seq<char>, int), DecodeError> {
    match spec_i16(b, pos) {
        Ok((len, p)) => if len < 0 {
            Err(DecodeError::NegativeLength)
        } else if len % 2 == 1 {
            Err(DecodeError::OddLength)
        } else {
            match spec_take(b, p, len as int) {
                Ok((pairs, e)) => Ok((rle_text(pairs), e)),
                Err(x) => Err(x),
            }
        },
        Err(x) => Err(x),
    }
}

/// Relies on `String::push`: appends one character at the end.
#[verifier::external_body]
fn push_char(s: &mut String, c: char)
    ensures
        final(s)@ == old(s)@.push(c),
{
    s.push(c)
}

/// Reads a run-length-encoded string.
fn read_rle_string(bytes: &[u8], curr: &mut usize) -> (r: Result<String, DecodeError>)
    ensures
        advances_as(r, spec_rle(bytes@, *old(curr) as int), *old(curr), *final(curr)),
{
    let start = *curr;
    let len = parse_short(bytes, curr)?;
    if len < 0 {
        *curr = start;
        return Err(DecodeError::NegativeLength);
    }
    if len % 2 == 1 {
        *curr = start;
        return Err(DecodeError::OddLength);
    }
    let p = *curr;
    let n = len as usize;
    if n > bytes.len() - p {
        *curr = start;
        return Err(DecodeError::UnexpectedEnd);
    }
    let ghost pairs = bytes@.subrange(p as int, p + n);
    let mut text = String::new();
    let mut i: usize = 0;
    assert(pairs.subrange(0, 0).len() == 0);
    while i < n
        invariant
            i % 2 == 0,
            n % 2 == 0,
            i <= n,
            p + n <= bytes.len(),
            pairs == bytes@.subrange(p as int, p + n),
            text@ == rle_text(pairs.subrange(0, i as int)),
        decreases n - i,
    {
        let count = bytes[p + i];
        let c = bytes[p + i + 1] as char;
        let ghost before = text@;
        let mut k: u8 = 0;
        while k < count
            invariant
                k <= count,
                text@ == before + Seq::new(k as nat, |_j: int| c),
            decreases count - k,
        {
            push_char(&mut text, c);
            k = k + 1;
            assert(text@ =~= before + Seq::new(k as nat, |_j: int| c));
        }
        i = i + 2;
        assert(pairs.subrange(0, i as int).subrange(0, i - 2) =~= pairs.subrange(0, i - 2));
        assert(text@ =~= rle_text(pairs.subrange(0, i as int)));
    }
    assert(pairs.subrange(0, n as int) =~= pairs);
    *curr = p + n;
    Ok(text)
}

/// A successful read of `T` turned into an attribute value by `f`.
pub open spec fn with_value<T>(r: Result<(T, int), DecodeError>, f: spec_fn(T) -> AttrView) -> Result<
    (AttrView, int),
    DecodeError,
> {
    match r {
        Ok((v, e)) => Ok((f(v), e)),
        Err(x) => Err(x),
    }
}

/// The value that follows type tag `tag`.
#[verifier::opaque]
pub open spec fn spec_attribute_value(b: Seq<u8>, pos: int, tag: u8, table: Seq<Seq<char>>) -> Result<
    (AttrView, int),
    DecodeError,
> {
    if tag == 0 {
        with_value(spec_u8(b, pos), |x: u8| AttrView::Bool(x != 0))
    } else if tag == 1 {
        with_value(spec_u8(b, pos), |x: u8| AttrView::Byte(x))
    } else if tag == 2 {
        with_value(spec_i16(b, pos), |x: i16| AttrView::Short(x))
    } else if tag == 3 {
        with_value(spec_i32(b, pos), |x: i32| AttrView::Int(x))
    } else if tag == 4 {
        with_value(spec_u32(b, pos), |x: u32| AttrView::Float(x))
    } else if tag == 5 {
        with_value(spec_lookup(b, pos, table), |s: Seq<char>| AttrView::String(s))
    } else if tag == 6 {
        with_value(spec_string(b, pos), |s: Seq<char>| AttrView::String(s))
    } else if tag == 7 {
        with_value(spec_rle(b, pos), |s: Seq<char>| AttrView::String(s))
    } else if tag == 8 {
        with_value(spec_i64(b, pos), |x: i64| AttrView::Long(x))
    } else if tag == 9 {
        with_value(spec_u64(b, pos), |x: u64| AttrView::Double(x))
    } else {
        Err(DecodeError::UnknownAttributeType(tag))
    }
}

/// One attribute value: a type tag byte, then the value it announces.
pub open spec fn spec_attribute(b: Seq<u8>, pos: int, table: Seq<Seq<char>>) -> Result<
    (AttrView, int),
    DecodeError,
> {
    match spec_u8(b, pos) {
        Ok((tag, p)) => spec_attribute_value(b, p, tag, table),
        Err(x) => Err(x),
    }
}

/// Reads one attribute value: a type tag byte, then the value it announces.
pub fn parse_attribute(bytes: &[u8], curr: &mut usize, lookup_table: &[String]) -> (r: Result<
    Attribute,
    DecodeError,
>)
    ensures
        advances_as(
            r,
            spec_attribute(bytes@, *old(curr) as int, table_view(lookup_table@)),
            *old(curr),
            *final(curr),
        ),
        r is Ok ==> *old(curr) < *final(curr),
{
    let start = *curr;
    let tag = read_u8(bytes, curr)?;
    proof {
        reveal(spec_attribute_value);
    }
    let r = if tag == 0 {
        match read_u8(bytes, curr) {
            Ok(x) => Ok(Attribute::Bool(x != 0)),
            Err(e) => Err(e),
        }
    } else if tag == 1 {
        match read_u8(bytes, curr) {
            Ok(x) => Ok(Attribute::Byte(x)),
            Err(e) => Err(e),
        }
    } else if tag == 2 {
        match parse_short(bytes, curr) {
            Ok(x) => Ok(Attribute::Short(x)),
            Err(e) => Err(e),
        }
    } else if tag == 3 {
        match read_i32(bytes, curr) {
            Ok(x) => Ok(Attribute::Int(x)),
            Err(e) => Err(e),
        }
    } else if tag == 4 {
        match read_u32(bytes, curr) {
            Ok(x) => Ok(Attribute::Float(x)),
            Err(e) => Err(e),
        }
    } else if tag == 5 {
        match parse_lookup_string(bytes, curr, lookup_table) {
            Ok(s) => Ok(Attribute::String(s)),
            Err(e) => Err(e),
        }
    } else if tag == 6 {
        match parse_string(bytes, curr) {
            Ok(s) => Ok(Attribute::String(s)),
            Err(e) => Err(e),
        }
    } else if tag == 7 {
        match read_rle_string(bytes, curr) {
            Ok(s) => Ok(Attribute::String(s)),
            Err(e) => Err(e),
        }
    } else if tag == 8 {
        match read_i64(bytes, curr) {
            Ok(x) => Ok(Attribute::Long(x)),
            Err(e) => Err(e),
        }
    } else if tag == 9 {
        match read_u64(bytes, curr) {
            Ok(x) => Ok(Attribute::Double(x)),
            Err(e) => Err(e),
        }
    } else {
        Err(DecodeError::UnknownAttributeType(tag))
    };
    if r.is_err() {
        *curr = start;
    }
    r
}

/// `x` placed before the items of a successful read `r`.
pub open spec fn pushed_front<T>(x: T, r: Result<(Seq<T>, int), DecodeError>) -> Result<
    (Seq<T>, int),
    DecodeError,
> {
    match r {
        Ok((s, e)) => Ok((seq![x] + s, e)),
        Err(y) => Err(y),
    }
}

/// `done` placed before the items of a successful read `r`.
pub open spec fn after_prefix<T>(done: Seq<T>, r: Result<(Seq<T>, int), DecodeError>) -> Result<
    (Seq<T>, int),
    DecodeError,
> {
    match r {
        Ok((s, e)) => Ok((done + s, e)),
        Err(y) => Err(y),
    }
}

/// `n` attributes, each a table-indexed name followed by a value.
pub open spec fn spec_attributes(b: Seq<u8>, pos: int, table: Seq<Seq<char>>, n: nat) -> Result<
    (Seq<(Seq<char>, AttrView)>, int),
    DecodeError,
>
    decreases n,
{
    if n == 0 {
        Ok((Seq::empty(), pos))
    } else {
        match spec_lookup(b, pos, table) {
            Ok((name, pos1)) => match spec_attribute(b, pos1, table) {
                Ok((v, pos2)) => pushed_front((name, v), spec_attributes(b, pos2, table, (n - 1) as nat)),
                Err(x) => Err(x),
            },
            Err(x) => Err(x),
        }
    }
}

/// The head of an element at `pos`: a table-indexed name, an unsigned
/// attribute count, the attributes and a signed, non-negative child count.
pub open spec fn spec_element_head(b: Seq<u8>, pos: int, table: Seq<Seq<char>>) -> Result<
    ((Seq<char>, Seq<(Seq<char>, AttrView)>, nat), int),
    DecodeError,
> {
    match spec_lookup(b, pos, table) {
        Ok((name, pos1)) => match spec_u8(b, pos1) {
            Ok((count, pos2)) => match spec_attributes(b, pos2, table, count as nat) {
                Ok((attributes, pos3)) => match spec_i16(b, pos3) {
                    Ok((child_count, pos4)) => if child_count < 0 {
                        Err(DecodeError::NegativeChildCount)
                    } else {
                        Ok(((name, attributes, child_count as nat), pos4))
                    },
                    Err(x) => Err(x),
                },
                Err(x) => Err(x),
            },
            Err(x) => Err(x),
        },
        Err(x) => Err(x),
    }
}

/// An element with the given name and attributes whose children are the
/// result of the read `r`.
pub open spec fn with_children(
    name: Seq<char>,
    attributes: Seq<(Seq<char>, AttrView)>,
    r: Result<(Seq<ElementView>, int), DecodeError>,
) -> Result<(ElementView, int), DecodeError> {
    match r {
        Ok((children, e)) => Ok((ElementView { name, attributes, children }, e)),
        Err(x) => Err(x),
    }
}

/// One element at `pos`: its head, then its children. `depth` bounds the
/// nesting; every element takes at least five bytes, so any bound above the
/// number of bytes left after `pos` gives the same result (see
/// `lemma_element_depth_irrelevant`).
pub open spec fn spec_element(b: Seq<u8>, pos: int, table: Seq<Seq<char>>, depth: nat) -> Result<
    (ElementView, int),
    DecodeError,
>
    decreases depth, 0nat,
{
    if depth == 0 {
        Err(DecodeError::UnexpectedEnd)
    } else {
        match spec_element_head(b, pos, table) {
            Ok(((name, attributes, n), p)) => with_children(
                name,
                attributes,
                spec_children(b, p, table, n, (depth - 1) as nat),
            ),
            Err(x) => Err(x),
        }
    }
}

/// `n` sibling elements in stream order.
pub open spec fn spec_children(
    b: Seq<u8>,
    pos: int,
    table: Seq<Seq<char>>,
    n: nat,
    depth: nat,
) -> Result<(Seq<ElementView>, int), DecodeError>
    decreases depth, n + 1,
{
    if n == 0 {
        Ok((Seq::empty(), pos))
    } else {
        match spec_element(b, pos, table, depth) {
            Ok((c, p)) => pushed_front(c, spec_children(b, p, table, (n - 1) as nat, depth)),
            Err(x) => Err(x),
        }
    }
}

/// The views of a sequence of elements.
pub open spec fn element_views(v: Seq<Element>) -> Seq<ElementView> {
    Seq::new(v.len(), |i: int| v[i]@)
}

/// The views of a sequence of (name, value) pairs.
pub open spec fn attribute_views(v: Seq<(String, Attribute)>) -> Seq<(Seq<char>, AttrView)> {
    Seq::new(v.len(), |i: int| (v[i].0@, v[i].1@))
}

/// Reads `n` attributes.
fn parse_attributes(bytes: &[u8], curr: &mut usize, lookup_table: &[String], n: u8) -> (r: Result<
    Vec<(String, Attribute)>,
    DecodeError,
>)
    ensures
        match (r, spec_attributes(bytes@, *old(curr) as int, table_view(lookup_table@), n as nat)) {
            (Ok(v), Ok((w, e))) => attribute_views(v@) == w && *final(curr) as int == e,
            (Err(x), Err(y)) => x == y && *final(curr) == *old(curr),
            _ => false,
        },
        r is Ok ==> *old(curr) <= *final(curr),
{
    let ghost table = table_view(lookup_table@);
    let start = *curr;
    let mut attributes: Vec<(String, Attribute)> = Vec::new();
    let mut i: u8 = 0;
    while i < n
        invariant
            i <= n,
            *old(curr) == start,
            start <= *curr,
            table == table_view(lookup_table@),
            spec_attributes(bytes@, start as int, table, n as nat) == after_prefix(
                attribute_views(attributes@),
                spec_attributes(bytes@, *curr as int, table, (n - i) as nat),
            ),
        decreases n - i,
    {
        let ghost here = *curr;
        let name = match parse_lookup_string(bytes, curr, lookup_table) {
            Ok(s) => s,
            Err(e) => {
                *curr = start;
                return Err(e);
            },
        };
        let value = match parse_attribute(bytes, curr, lookup_table) {
            Ok(v) => v,
            Err(e) => {
                *curr = start;
                return Err(e);
            },
        };
        let ghost done = attribute_views(attributes@);
        let ghost item = (name@, value@);
        attributes.push((name, value));
        i = i + 1;
        proof {
            assert(attribute_views(attributes@) =~= done.push(item));
            let rest = spec_attributes(bytes@, *curr as int, table, (n - i) as nat);
            if let Ok((s, e)) = rest {
                assert(done + (seq![item] + s) =~= done.push(item) + s);
            }
        }
    }
    proof {
        assert(attribute_views(attributes@) + Seq::empty() =~= attribute_views(attributes@));
    }
    Ok(attributes)
}

/// Reads the head of an element: its name, its attributes and its child count.
fn parse_element_head(bytes: &[u8], curr: &mut usize, lookup_table: &[String]) -> (r: Result<
    (String, Vec<(String, Attribute)>, i16),
    DecodeError,
>)
    ensures
        match (r, spec_element_head(bytes@, *old(curr) as int, table_view(lookup_table@))) {
            (Ok((name, attributes, n)), Ok(((w_name, w_attributes, w_n), e))) => {
                &&& name@ == w_name
                &&& attribute_views(attributes@) == w_attributes
                &&& n >= 0
                &&& n as nat == w_n
                &&& *final(curr) as int == e
            },
            (Err(x), Err(y)) => x == y && *final(curr) == *old(curr),
            _ => false,
        },
        r is Ok ==> *old(curr) < *final(curr) <= bytes.len(),
{
    let start = *curr;
    let name = parse_lookup_string(bytes, curr, lookup_table)?;
    let attribute_count = match read_u8(bytes, curr) {
        Ok(c) => c,
        Err(e) => {
            *curr = start;
            return Err(e);
        },
    };
    let attributes = match parse_attributes(bytes, curr, lookup_table, attribute_count) {
        Ok(a) => a,
        Err(e) => {
            *curr = start;
            return Err(e);
        },
    };
    let child_count = match parse_short(bytes, curr) {
        Ok(c) => c,
        Err(e) => {
            *curr = start;
            return Err(e);
        },
    };
    if child_count < 0 {
        *curr = start;
        return Err(DecodeError::NegativeChildCount);
    }
    Ok((name, attributes, child_count))
}

/// An element whose head has been read and whose children are being read.
struct Frame {
    name: String,
    attributes: Vec<(String, Attribute)>,
    children: Vec<Element>,
    /// Children still to be started.
    remaining: i16,
}

/// The spec view of a frame, with where its element started and the depth
/// bound it was read with.
ghost struct FrameView {
    name: Seq<char>,
    attributes: Seq<(Seq<char>, AttrView)>,
    done: Seq<ElementView>,
    remaining: nat,
    start: int,
    depth: nat,
}

spec fn frame_view(f: Frame, start: int, depth: nat) -> FrameView {
    FrameView {
        name: f.name@,
        attributes: attribute_views(f.attributes@),
        done: element_views(f.children@),
        remaining: f.remaining as nat,
        start,
        depth,
    }
}

spec fn frames_view(stack: Seq<Frame>, places: Seq<(int, nat)>) -> Seq<FrameView> {
    Seq::new(stack.len(), |i: int| frame_view(stack[i], places[i].0, places[i].1))
}

/// The element of frame `f` when its next child reads as `r`: the rest of
/// its children follow that child.
spec fn resume(
    b: Seq<u8>,
    table: Seq<Seq<char>>,
    f: FrameView,
    r: Result<(ElementView, int), DecodeError>,
) -> Result<(ElementView, int), DecodeError> {
    with_children(
        f.name,
        f.attributes,
        after_prefix(
            f.done,
            match r {
                Ok((c, e)) => pushed_front(
                    c,
                    spec_children(b, e, table, f.remaining, (f.depth - 1) as nat),
                ),
                Err(x) => Err(x),
            },
        ),
    )
}

/// The element of frame `f` when its remaining children start at `pos`.
spec fn resume_at(b: Seq<u8>, table: Seq<Seq<char>>, f: FrameView, pos: int) -> Result<
    (ElementView, int),
    DecodeError,
> {
    with_children(
        f.name,
        f.attributes,
        after_prefix(f.done, spec_children(b, pos, table, f.remaining, (f.depth - 1) as nat)),
    )
}

/// The outermost element, when the innermost open frame's element reads as `r`.
spec fn unwind(
    b: Seq<u8>,
    table: Seq<Seq<char>>,
    frames: Seq<FrameView>,
    r: Result<(ElementView, int), DecodeError>,
) -> Result<(ElementView, int), DecodeError>
    decreases frames.len(),
{
    if frames.len() == 0 {
        r
    } else {
        unwind(b, table, frames.drop_last(), resume(b, table, frames.last(), r))
    }
}

proof fn lemma_unwind_error(
    b: Seq<u8>,
    table: Seq<Seq<char>>,
    frames: Seq<FrameView>,
    x: DecodeError,
)
    ensures
        unwind(b, table, frames, Err(x)) == Err::<(ElementView, int), DecodeError>(x),
    decreases frames.len(),
{
    if frames.len() > 0 {
        lemma_unwind_error(b, table, frames.drop_last(), x);
    }
}

/// Reads one element and all of its descendants, keeping the open elements
/// on a stack of its own rather than on the call stack.
fn parse_element(bytes: &[u8], curr: &mut usize, lookup_table: &[String]) -> (r: Result<
    Element,
    DecodeError,
>)
    ensures
        advances_as(
            r,
            spec_element(bytes@, *old(curr) as int, table_view(lookup_table@), bytes@.len() + 1),
            *old(curr),
            *final(curr),
        ),
{
    let ghost b = bytes@;
    let ghost table = table_view(lookup_table@);
    let ghost depth: nat = bytes@.len() + 1;
    let start = *curr;
    let (name, attributes, n) = parse_element_head(bytes, curr, lookup_table)?;
    let mut stack: Vec<Frame> = Vec::new();
    stack.push(Frame { name, attributes, children: Vec::new(), remaining: n });
    let ghost mut places: Seq<(int, nat)> = seq![(start as int, depth)];
    proof {
        assert(element_views(stack@[0].children@) =~= Seq::<ElementView>::empty());
        let rest = spec_children(b, *curr as int, table, n as nat, (depth - 1) as nat);
        if let Ok((s, e)) = rest {
            assert(Seq::<ElementView>::empty() + s =~= s);
        }
        assert(frames_view(stack@, places).drop_last() =~= Seq::<FrameView>::empty());
    }
    loop
        invariant
            b == bytes@,
            table == table_view(lookup_table@),
            depth == bytes@.len() + 1,
            *old(curr) == start,
            start < *curr <= bytes.len(),
            stack@.len() == places.len(),
            stack@.len() >= 1,
            forall|i: int|
                0 <= i < places.len() ==> {
                    &&& (#[trigger] places[i]).1 >= 1
                    &&& places[i].1 > b.len() - places[i].0
                    &&& places[i].0 < *curr
                },
            forall|i: int| 0 <= i < stack@.len() ==> (#[trigger] stack@[i]).remaining >= 0,
            spec_element(b, start as int, table, depth) == unwind(
                b,
                table,
                frames_view(stack@, places).drop_last(),
                resume_at(b, table, frames_view(stack@, places).last(), *curr as int),
            ),
        decreases bytes.len() - *curr, stack@.len(),
    {
        let ghost fs = frames_view(stack@, places);
        let mut top = stack.pop().unwrap();
        let ghost top_place = places.last();
        let ghost below = places.drop_last();
        proof {
            assert(frames_view(stack@, below) =~= fs.drop_last());
            assert(fs.last() == frame_view(top, top_place.0, top_place.1));
        }
        if top.remaining == 0 {
            let element = Element { name: top.name, attributes: top.attributes, children: top.children };
            proof {
                assert(element@.children =~= element_views(element.children@));
                assert(element@.attributes =~= attribute_views(element.attributes@));
                assert(element_views(element.children@) + Seq::<ElementView>::empty() =~= element_views(element.children@));
                assert(resume_at(b, table, fs.last(), *curr as int) == Ok::<(ElementView, int), DecodeError>((element@, *curr as int)));
            }
            if stack.len() == 0 {
                proof {
                    assert(fs.drop_last() =~= Seq::<FrameView>::empty());
                }
                return Ok(element);
            }
            let mut parent = stack.pop().unwrap();
            let ghost parent_place = below.last();
            let ghost pf = frame_view(parent, parent_place.0, parent_place.1);
            proof {
                assert(fs.drop_last().last() == pf);
                assert(fs.drop_last().drop_last() =~= frames_view(stack@, below.drop_last()));
            }
            let ghost before = element_views(parent.children@);
            parent.children.push(element);
            stack.push(parent);
            proof {
                places = below;
                let nf = frames_view(stack@, places);
                assert(element_views(stack@.last().children@) =~= before.push(element@));
                assert(nf.drop_last() =~= fs.drop_last().drop_last());
                let rest = spec_children(b, *curr as int, table, pf.remaining, (pf.depth - 1) as nat);
                if let Ok((s, e)) = rest {
                    assert(before + (seq![element@] + s) =~= before.push(element@) + s);
                }
                assert(resume(b, table, pf, Ok((element@, *curr as int))) == resume_at(
                    b,
                    table,
                    nf.last(),
                    *curr as int,
                ));
                assert(spec_element(b, start as int, table, depth) == unwind(
                    b,
                    table,
                    nf.drop_last(),
                    resume_at(b, table, nf.last(), *curr as int),
                ));
            }
        } else {
            let ghost child_start = *curr;
            let ghost child_depth = (top_place.1 - 1) as nat;
            let ghost parent_view = frame_view(top, top_place.0, top_place.1);
            top.remaining = top.remaining - 1;
            let ghost reduced = frame_view(top, top_place.0, top_place.1);
            assert(resume_at(b, table, parent_view, child_start as int) == resume(
                b,
                table,
                reduced,
                spec_element(b, child_start as int, table, child_depth),
            ));
            stack.push(top);
            let (name, attributes, n) = match parse_element_head(bytes, curr, lookup_table) {
                Ok(h) => h,
                Err(e) => {
                    proof {
                        lemma_unwind_error(b, table, fs.drop_last().push(reduced), e);
                        assert(fs.drop_last().push(reduced).drop_last() =~= fs.drop_last());
                    }
                    *curr = start;
                    return Err(e);
                },
            };
            stack.push(Frame { name, attributes, children: Vec::new(), remaining: n });
            proof {
                places = below.push(top_place).push((child_start as int, child_depth));
                let nf = frames_view(stack@, places);
                assert(nf.drop_last() =~= fs.drop_last().push(reduced));
                assert(fs.drop_last().push(reduced).drop_last() =~= fs.drop_last());
                assert(fs.drop_last().push(reduced).last() == reduced);
                assert(element_views(stack@.last().children@) =~= Seq::<ElementView>::empty());
                let rest = spec_children(b, *curr as int, table, n as nat, (child_depth - 1) as nat);
                if let Ok((s, e)) = rest {
                    assert(Seq::<ElementView>::empty() + s =~= s);
                }
                assert(nf.last().depth == child_depth);
                assert(spec_element(b, child_start as int, table, child_depth) == resume_at(
                    b,
                    table,
                    nf.last(),
                    *curr as int,
                ));
                assert(spec_element(b, start as int, table, depth) == unwind(
                    b,
                    table,
                    nf.drop_last(),
                    resume_at(b, table, nf.last(), *curr as int),
                ));
            }
        }
    }
}

/// `n` strings of the string table, in stream order.
pub open spec fn spec_table(b: Seq<u8>, pos: int, n: nat) -> Result<(Seq<Seq<char>>, int), DecodeError>
    decreases n,
{
    if n == 0 {
        Ok((Seq::empty(), pos))
    } else {
        match spec_string(b, pos) {
            Ok((s, p)) => pushed_front(s, spec_table(b, p, (n - 1) as nat)),
            Err(x) => Err(x),
        }
    }
}

/// Reads the `n` strings of the string table.
fn parse_table(bytes: &[u8], curr: &mut usize, n: i16) -> (r: Result<Vec<String>, DecodeError>)
    requires
        n >= 0,
        *old(curr) <= bytes.len(),
    ensures
        match (r, spec_table(bytes@, *old(curr) as int, n as nat)) {
            (Ok(v), Ok((w, e))) => table_view(v@) == w && *final(curr) as int == e,
            (Err(x), Err(y)) => x == y && *final(curr) == *old(curr),
            _ => false,
        },
        r is Ok ==> *old(curr) <= *final(curr) <= bytes.len(),
{
    let start = *curr;
    let mut table: Vec<String> = Vec::new();
    let mut i: i16 = 0;
    while i < n
        invariant
            0 <= i <= n,
            *old(curr) == start,
            start <= *curr,
            *curr <= bytes.len(),
            spec_table(bytes@, start as int, n as nat) == after_prefix(
                table_view(table@),
                spec_table(bytes@, *curr as int, (n - i) as nat),
            ),
        decreases n - i,
    {
        let s = match parse_string(bytes, curr) {
            Ok(s) => s,
            Err(e) => {
                *curr = start;
                return Err(e);
            },
        };
        let ghost done = table_view(table@);
        let ghost item = s@;
        table.push(s);
        i = i + 1;
        proof {
            assert(table_view(table@) =~= done.push(item));
            let rest = spec_table(bytes@, *curr as int, (n - i) as nat);
            if let Ok((t, e)) = rest {
                assert(done + (seq![item] + t) =~= done.push(item) + t);
            }
        }
    }
    proof {
        assert(table_view(table@) + Seq::empty() =~= table_view(table@));
    }
    Ok(table)
}

/// The twelve header bytes: a length byte of 11, then "CELESTE MAP".
pub open spec fn magic() -> Seq<u8> {
    seq![11u8, 67, 69, 76, 69, 83, 84, 69, 32, 77, 65, 80]
}

/// `b` starts with the twelve header bytes.
pub open spec fn has_header(b: Seq<u8>) -> bool {
    b.len() >= 12 && b.subrange(0, 12) == magic()
}

/// Everything up to the end of the root element: the header, the package
/// name, the string table and the root element, with the position after it.
pub open spec fn spec_decode_prefix(b: Seq<u8>) -> Result<(MapView, int), DecodeError> {
    if !has_header(b) {
        Err(DecodeError::BadMagic)
    } else {
        match spec_string(b, 12) {
            Ok((package_name, pos1)) => match spec_i16(b, pos1) {
                Ok((size, pos2)) => if size < 0 {
                    Err(DecodeError::NegativeTableSize)
                } else {
                    match spec_table(b, pos2, size as nat) {
                        Ok((table, pos3)) => match spec_element(b, pos3, table, b.len() + 1) {
                            Ok((root, pos4)) => Ok((MapView { package_name, root }, pos4)),
                            Err(x) => Err(x),
                        },
                        Err(x) => Err(x),
                    }
                },
                Err(x) => Err(x),
            },
            Err(x) => Err(x),
        }
    }
}

/// A whole file: everything up to the end of the root element, which must
/// also be the end of the buffer.
pub open spec fn spec_decode(b: Seq<u8>) -> Result<MapView, DecodeError> {
    match spec_decode_prefix(b) {
        Ok((m, e)) => if e == b.len() {
            Ok(m)
        } else {
            Err(DecodeError::TrailingBytes)
        },
        Err(x) => Err(x),
    }
}

/// `r` is what decoding `b` gives: the decoded map's view on success, the
/// same error on failure.
pub open spec fn decoded_as(r: Result<LevelMap, DecodeError>, b: Seq<u8>) -> bool {
    match (r, spec_decode(b)) {
        (Ok(m), Ok(v)) => m@ == v,
        (Err(x), Err(y)) => x == y,
        _ => false,
    }
}

/// Decodes a whole file.
pub fn parse(map: &[u8]) -> (r: Result<LevelMap, DecodeError>)
    ensures
        decoded_as(r, map@),
{
    let header: Vec<u8> = vec![11u8, 67, 69, 76, 69, 83, 84, 69, 32, 77, 65, 80];
    assert(header@ =~= magic());
    if map.len() < 12 {
        return Err(DecodeError::BadMagic);
    }
    let mut i: usize = 0;
    while i < 12
        invariant
            i <= 12 <= map.len(),
            header@ == magic(),
            forall|j: int| 0 <= j < i ==> map@[j] == magic()[j],
        decreases 12 - i,
    {
        if map[i] != header[i] {
            assert(map@.subrange(0, 12)[i as int] != magic()[i as int]);
            return Err(DecodeError::BadMagic);
        }
        i = i + 1;
    }
    assert(map@.subrange(0, 12) =~= magic());
    let mut curr: usize = 12;
    let package_name = parse_string(map, &mut curr)?;
    let size = parse_short(map, &mut curr)?;
    if size < 0 {
        return Err(DecodeError::NegativeTableSize);
    }
    let lookup_table = parse_table(map, &mut curr, size)?;
    let root = parse_element(map, &mut curr, lookup_table.as_slice())?;
    if curr != map.len() {
        return Err(DecodeError::TrailingBytes);
    }
    Ok(LevelMap { package_name, root })
}

} // verus!
