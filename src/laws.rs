//! Properties of the decoder as a whole.
use vstd::prelude::*;
use crate::cursor::{
    le16, signed, spec_i16, spec_i32, spec_i64, spec_string, spec_take, spec_u32, spec_u64,
    spec_u8, spec_utf8, spec_varlen, spec_varlen_from, DecodeError,
    MAX_LENGTH_GROUPS,
};
use crate::decode::{
    decoded_as, has_header, magic, pushed_front, spec_attribute, spec_attribute_value, spec_attributes,
    spec_children, spec_decode, spec_decode_prefix, spec_element, spec_lookup,
    spec_table,
};
use crate::tree::{AttrView, LevelMap};

verus! {

/// Decoding depends on the bytes alone: any two results that decoding the
/// same buffer may give are the same tree, or the same error.
pub proof fn lemma_decode_deterministic(
    b: Seq<u8>,
    r1: Result<LevelMap, DecodeError>,
    r2: Result<LevelMap, DecodeError>,
)
    requires
        decoded_as(r1, b),
        decoded_as(r2, b),
    ensures
        match (r1, r2) {
            (Ok(m1), Ok(m2)) => m1@ == m2@,
            (Err(x), Err(y)) => x == y,
            _ => false,
        },
{
}

/// A buffer that decodes is consumed exactly: the root element ends at the
/// end of the buffer.
pub proof fn lemma_decode_consumes_all(b: Seq<u8>)
    requires
        spec_decode(b) is Ok,
    ensures
        spec_decode_prefix(b) is Ok,
        spec_decode_prefix(b)->Ok_0.1 == b.len(),
{
}

/// A buffer whose first twelve bytes are not the header, including one
/// shorter than twelve bytes, fails with `BadMagic`, whatever follows.
pub proof fn lemma_bad_header(b: Seq<u8>)
    requires
        b.len() < 12 || b.subrange(0, 12) != magic(),
    ensures
        spec_decode(b) == Err::<crate::tree::MapView, DecodeError>(DecodeError::BadMagic),
{
}

/// Tag 0 is a boolean: its payload byte reads as true exactly when it is not zero.
pub proof fn lemma_bool_attribute(b: Seq<u8>, pos: int, table: Seq<Seq<char>>)
    requires
        0 <= pos,
        pos + 2 <= b.len(),
        b[pos] == 0,
    ensures
        spec_attribute(b, pos, table) == Ok::<(AttrView, int), DecodeError>(
            (AttrView::Bool(b[pos + 1] != 0), pos + 2),
        ),
{
    reveal(spec_attribute_value);
}

/// A table-indexed string (tag 5) whose index is negative or not below the
/// table's size fails with `BadTableIndex`.
pub proof fn lemma_bad_table_index(b: Seq<u8>, pos: int, table: Seq<Seq<char>>)
    requires
        0 <= pos,
        pos + 3 <= b.len(),
        b[pos] == 5,
        signed(le16(b, pos + 1), 16) < 0 || signed(le16(b, pos + 1), 16) >= table.len(),
    ensures
        spec_attribute(b, pos, table) == Err::<(AttrView, int), DecodeError>(
            DecodeError::BadTableIndex,
        ),
{
    reveal(spec_attribute_value);
    vstd::arithmetic::power2::lemma2_to64();
}

/// An element whose child count reads as -1 (bytes `0xFF 0xFF`) fails with
/// `NegativeChildCount`.
pub proof fn lemma_negative_child_count(
    b: Seq<u8>,
    pos: int,
    table: Seq<Seq<char>>,
    depth: nat,
)
    requires
        depth >= 1,
        spec_lookup(b, pos, table) is Ok,
        spec_u8(b, spec_lookup(b, pos, table)->Ok_0.1) is Ok,
        spec_attributes(
            b,
            spec_u8(b, spec_lookup(b, pos, table)->Ok_0.1)->Ok_0.1,
            table,
            spec_u8(b, spec_lookup(b, pos, table)->Ok_0.1)->Ok_0.0 as nat,
        ) is Ok,
        ({
            let pos3 = spec_attributes(
                b,
                spec_u8(b, spec_lookup(b, pos, table)->Ok_0.1)->Ok_0.1,
                table,
                spec_u8(b, spec_lookup(b, pos, table)->Ok_0.1)->Ok_0.0 as nat,
            )->Ok_0.1;
            0 <= pos3 && pos3 + 2 <= b.len() && b[pos3] == 0xFF && b[pos3 + 1] == 0xFF
        }),
    ensures
        spec_element(b, pos, table, depth) == Err::<(crate::tree::ElementView, int), DecodeError>(
            DecodeError::NegativeChildCount,
        ),
{
    vstd::arithmetic::power2::lemma2_to64();
}

/// Five bytes in a row with the high bit set make a length too long.
pub proof fn lemma_length_too_long(b: Seq<u8>, pos: int)
    requires
        0 <= pos,
        pos + 5 <= b.len(),
        forall|i: int| pos <= i < pos + 5 ==> b[i] >= 128,
    ensures
        spec_varlen(b, pos) == Err::<(int, int), DecodeError>(DecodeError::LengthTooLong),
{
    reveal_with_fuel(spec_varlen_from, 6);
}

/// What a read that succeeded on `b` at `pos` gives on `b` cut to its first
/// `k` bytes: the same result if it ended within them, `UnexpectedEnd` if not.
pub open spec fn agrees_when_cut<T>(
    r: Result<(T, int), DecodeError>,
    cut: Result<(T, int), DecodeError>,
    pos: int,
    k: int,
) -> bool {
    match r {
        Ok((_, e)) => pos <= e && if e <= k {
            cut == r
        } else {
            cut == Err::<(T, int), DecodeError>(DecodeError::UnexpectedEnd)
        },
        Err(_) => true,
    }
}

/// A successful read `r` ends within a buffer of `len` bytes.
pub open spec fn ends_within<T>(r: Result<(T, int), DecodeError>, len: int) -> bool {
    match r {
        Ok((_, e)) => e <= len,
        Err(_) => true,
    }
}

proof fn lemma_fixed_cut(b: Seq<u8>, pos: int, k: int)
    requires
        0 <= k <= b.len(),
    ensures
        agrees_when_cut(spec_u8(b, pos), spec_u8(b.subrange(0, k), pos), pos, k),
        agrees_when_cut(spec_i16(b, pos), spec_i16(b.subrange(0, k), pos), pos, k),
        agrees_when_cut(spec_i32(b, pos), spec_i32(b.subrange(0, k), pos), pos, k),
        agrees_when_cut(spec_i64(b, pos), spec_i64(b.subrange(0, k), pos), pos, k),
        agrees_when_cut(spec_u32(b, pos), spec_u32(b.subrange(0, k), pos), pos, k),
        agrees_when_cut(spec_u64(b, pos), spec_u64(b.subrange(0, k), pos), pos, k),
{
}

proof fn lemma_take_cut(b: Seq<u8>, pos: int, n: int, k: int)
    requires
        0 <= pos <= k <= b.len(),
    ensures
        agrees_when_cut(spec_take(b, pos, n), spec_take(b.subrange(0, k), pos, n), pos, k),
        agrees_when_cut(spec_utf8(b, pos, n), spec_utf8(b.subrange(0, k), pos, n), pos, k),
{
    if 0 <= pos && 0 <= n && pos + n <= k {
        assert(b.subrange(0, k).subrange(pos, pos + n) =~= b.subrange(pos, pos + n));
    }
}

proof fn lemma_varlen_cut(b: Seq<u8>, pos: int, groups: nat, k: int)
    requires
        0 <= k <= b.len(),
    ensures
        agrees_when_cut(
            spec_varlen_from(b, pos, groups),
            spec_varlen_from(b.subrange(0, k), pos, groups),
            pos,
            k,
        ),
        ends_within(spec_varlen_from(b, pos, groups), b.len() as int),
    decreases MAX_LENGTH_GROUPS - groups,
{
    if groups < MAX_LENGTH_GROUPS && 0 <= pos < b.len() && b[pos] >= 128 {
        lemma_varlen_cut(b, pos + 1, groups + 1, k);
    }
}

proof fn lemma_string_cut(b: Seq<u8>, pos: int, k: int)
    requires
        0 <= k <= b.len(),
    ensures
        agrees_when_cut(spec_string(b, pos), spec_string(b.subrange(0, k), pos), pos, k),
        ends_within(spec_string(b, pos), b.len() as int),
{
    lemma_varlen_cut(b, pos, 0, k);
    if let Ok((n, p)) = spec_varlen(b, pos) {
        if p <= k {
            lemma_take_cut(b, p, n, k);
        }
    }
}

proof fn lemma_lookup_cut(b: Seq<u8>, pos: int, table: Seq<Seq<char>>, k: int)
    requires
        0 <= k <= b.len(),
    ensures
        agrees_when_cut(spec_lookup(b, pos, table), spec_lookup(b.subrange(0, k), pos, table), pos, k),
{
    lemma_fixed_cut(b, pos, k);
}

proof fn lemma_attribute_cut(b: Seq<u8>, pos: int, table: Seq<Seq<char>>, k: int)
    requires
        0 <= k <= b.len(),
    ensures
        agrees_when_cut(
            spec_attribute(b, pos, table),
            spec_attribute(b.subrange(0, k), pos, table),
            pos,
            k,
        ),
        ends_within(spec_attribute(b, pos, table), b.len() as int),
{
    let c = b.subrange(0, k);
    reveal(spec_attribute_value);
    lemma_fixed_cut(b, pos, k);
    if let Ok((tag, p)) = spec_u8(b, pos) {
        lemma_fixed_cut(b, p, k);
        lemma_lookup_cut(b, p, table, k);
        lemma_string_cut(b, p, k);
        if let Ok((len, q)) = spec_i16(b, p) {
            if q <= k {
                lemma_take_cut(b, q, len as int, k);
            }
        }
        assert(agrees_when_cut(
            spec_attribute_value(b, p, tag, table),
            spec_attribute_value(c, p, tag, table),
            p,
            k,
        ));
    }
}

/// A successful read of `x` ending at `p`, followed by a read `tail` from
/// `p`, agrees when cut if the tail does.
proof fn lemma_front_cut<T>(
    x: T,
    p: int,
    tail: Result<(Seq<T>, int), DecodeError>,
    tail_cut: Result<(Seq<T>, int), DecodeError>,
    pos: int,
    k: int,
)
    requires
        pos <= p <= k,
        agrees_when_cut(tail, tail_cut, p, k),
    ensures
        agrees_when_cut(pushed_front(x, tail), pushed_front(x, tail_cut), pos, k),
{
}

proof fn lemma_attributes_cut(b: Seq<u8>, pos: int, table: Seq<Seq<char>>, n: nat, k: int)
    requires
        0 <= pos <= k <= b.len(),
    ensures
        agrees_when_cut(
            spec_attributes(b, pos, table, n),
            spec_attributes(b.subrange(0, k), pos, table, n),
            pos,
            k,
        ),
        ends_within(spec_attributes(b, pos, table, n), b.len() as int),
    decreases n,
{
    let c = b.subrange(0, k);
    if n > 0 {
        lemma_lookup_cut(b, pos, table, k);
        if let Ok((name, pos1)) = spec_lookup(b, pos, table) {
            lemma_attribute_cut(b, pos1, table, b.len() as int);
            if let Ok((v, pos2)) = spec_attribute(b, pos1, table) {
                lemma_attributes_cut(b, pos2, table, (n - 1) as nat, b.len() as int);
                if pos1 <= k {
                    lemma_attribute_cut(b, pos1, table, k);
                    if pos2 <= k {
                        lemma_attributes_cut(b, pos2, table, (n - 1) as nat, k);
                        lemma_front_cut(
                            (name, v),
                            pos2,
                            spec_attributes(b, pos2, table, (n - 1) as nat),
                            spec_attributes(c, pos2, table, (n - 1) as nat),
                            pos,
                            k,
                        );
                    }
                }
            }
        }
    }
}

proof fn lemma_table_cut(b: Seq<u8>, pos: int, n: nat, k: int)
    requires
        0 <= pos <= k <= b.len(),
    ensures
        agrees_when_cut(spec_table(b, pos, n), spec_table(b.subrange(0, k), pos, n), pos, k),
        ends_within(spec_table(b, pos, n), b.len() as int),
    decreases n,
{
    let c = b.subrange(0, k);
    if n > 0 {
        lemma_string_cut(b, pos, k);
        if let Ok((x, p)) = spec_string(b, pos) {
            lemma_string_cut(b, pos, b.len() as int);
            if p > k {
                lemma_table_cut(b, p, (n - 1) as nat, b.len() as int);
            } else {
                lemma_table_cut(b, p, (n - 1) as nat, k);
                lemma_front_cut(
                    x,
                    p,
                    spec_table(b, p, (n - 1) as nat),
                    spec_table(c, p, (n - 1) as nat),
                    pos,
                    k,
                );
            }
        }
    }
}

/// The element read, with any depth bound `d2` that exceeds what remains of
/// the cut buffer after `pos`.
proof fn lemma_element_cut(
    b: Seq<u8>,
    pos: int,
    table: Seq<Seq<char>>,
    depth: nat,
    k: int,
    d2: nat,
)
    requires
        0 <= k <= b.len(),
        d2 > k - pos,
    ensures
        match spec_element(b, pos, table, depth) {
            Ok((v, e)) => pos < e && if e <= k {
                spec_element(b.subrange(0, k), pos, table, d2) == Ok::<
                    (crate::tree::ElementView, int),
                    DecodeError,
                >((v, e))
            } else {
                spec_element(b.subrange(0, k), pos, table, d2) == Err::<
                    (crate::tree::ElementView, int),
                    DecodeError,
                >(DecodeError::UnexpectedEnd)
            },
            Err(_) => true,
        },
        ends_within(spec_element(b, pos, table, depth), b.len() as int),
    decreases depth, 0nat,
{
    let c = b.subrange(0, k);
    if depth > 0 {
        lemma_lookup_cut(b, pos, table, k);
        if let Ok((_, pos1)) = spec_lookup(b, pos, table) {
            lemma_fixed_cut(b, pos1, k);
            if let Ok((count, pos2)) = spec_u8(b, pos1) {
                lemma_attributes_cut(b, pos2, table, count as nat, b.len() as int);
                if pos2 <= k {
                    lemma_attributes_cut(b, pos2, table, count as nat, k);
                }
                if let Ok((_, pos3)) = spec_attributes(b, pos2, table, count as nat) {
                    lemma_fixed_cut(b, pos3, k);
                    if let Ok((child_count, pos4)) = spec_i16(b, pos3) {
                        if child_count >= 0 && pos4 > k {
                            lemma_children_cut(
                                b,
                                pos4,
                                table,
                                child_count as nat,
                                (depth - 1) as nat,
                                b.len() as int,
                                (b.len() - pos4 + 1) as nat,
                            );
                        }
                        if child_count >= 0 && pos4 <= k {
                            lemma_children_cut(
                                b,
                                pos4,
                                table,
                                child_count as nat,
                                (depth - 1) as nat,
                                k,
                                (d2 - 1) as nat,
                            );
                        }
                    }
                }
            }
        }
    }
}

proof fn lemma_children_cut(
    b: Seq<u8>,
    pos: int,
    table: Seq<Seq<char>>,
    n: nat,
    depth: nat,
    k: int,
    d2: nat,
)
    requires
        0 <= pos <= k <= b.len(),
        d2 > k - pos,
    ensures
        agrees_when_cut(
            spec_children(b, pos, table, n, depth),
            spec_children(b.subrange(0, k), pos, table, n, d2),
            pos,
            k,
        ),
        ends_within(spec_children(b, pos, table, n, depth), b.len() as int),
    decreases depth, n + 1,
{
    let c = b.subrange(0, k);
    if n > 0 {
        lemma_element_cut(b, pos, table, depth, k, d2);
        if let Ok((x, p)) = spec_element(b, pos, table, depth) {
            if p > k {
                lemma_children_cut(
                    b,
                    p,
                    table,
                    (n - 1) as nat,
                    depth,
                    b.len() as int,
                    (b.len() - p + 1) as nat,
                );
            } else {
                lemma_children_cut(b, p, table, (n - 1) as nat, depth, k, d2);
                lemma_front_cut(
                    x,
                    p,
                    spec_children(b, p, table, (n - 1) as nat, depth),
                    spec_children(c, p, table, (n - 1) as nat, d2),
                    pos,
                    k,
                );
            }
        }
    }
}

/// Cutting a buffer that decodes anywhere before its end leaves a buffer
/// that fails: with `BadMagic` when the cut falls inside the twelve header
/// bytes, with `UnexpectedEnd` when it falls after them.
pub proof fn lemma_truncated_buffer_fails(b: Seq<u8>, k: int)
    requires
        spec_decode(b) is Ok,
        0 <= k < b.len(),
    ensures
        k < 12 ==> spec_decode(b.subrange(0, k)) == Err::<crate::tree::MapView, DecodeError>(
            DecodeError::BadMagic,
        ),
        k >= 12 ==> spec_decode(b.subrange(0, k)) == Err::<crate::tree::MapView, DecodeError>(
            DecodeError::UnexpectedEnd,
        ),
{
    let c = b.subrange(0, k);
    if k >= 12 {
        assert(c.subrange(0, 12) =~= b.subrange(0, 12));
        lemma_string_cut(b, 12, k);
        let (_, pos1) = spec_string(b, 12)->Ok_0;
        lemma_fixed_cut(b, pos1, k);
        let (size, pos2) = spec_i16(b, pos1)->Ok_0;
        if pos2 <= k {
            lemma_table_cut(b, pos2, size as nat, k);
            let (table, pos3) = spec_table(b, pos2, size as nat)->Ok_0;
            if pos3 <= k {
                lemma_element_cut(b, pos3, table, b.len() + 1, k, (k + 1) as nat);
            }
        }
    }
}

/// A read that succeeded on `b` gives the same result on any buffer that
/// `b` is a prefix of.
pub open spec fn kept_when_extended<T>(
    r: Result<(T, int), DecodeError>,
    longer: Result<(T, int), DecodeError>,
) -> bool {
    r is Ok ==> longer == r
}

proof fn lemma_fixed_extend(b: Seq<u8>, extra: Seq<u8>, pos: int)
    ensures
        kept_when_extended(spec_u8(b, pos), spec_u8(b + extra, pos)),
        kept_when_extended(spec_i16(b, pos), spec_i16(b + extra, pos)),
        kept_when_extended(spec_i32(b, pos), spec_i32(b + extra, pos)),
        kept_when_extended(spec_i64(b, pos), spec_i64(b + extra, pos)),
        kept_when_extended(spec_u32(b, pos), spec_u32(b + extra, pos)),
        kept_when_extended(spec_u64(b, pos), spec_u64(b + extra, pos)),
{
}

proof fn lemma_take_extend(b: Seq<u8>, extra: Seq<u8>, pos: int, n: int)
    ensures
        kept_when_extended(spec_take(b, pos, n), spec_take(b + extra, pos, n)),
        kept_when_extended(spec_utf8(b, pos, n), spec_utf8(b + extra, pos, n)),
{
    if 0 <= pos && 0 <= n && pos + n <= b.len() {
        assert((b + extra).subrange(pos, pos + n) =~= b.subrange(pos, pos + n));
    }
}

proof fn lemma_varlen_extend(b: Seq<u8>, extra: Seq<u8>, pos: int, groups: nat)
    ensures
        kept_when_extended(
            spec_varlen_from(b, pos, groups),
            spec_varlen_from(b + extra, pos, groups),
        ),
    decreases MAX_LENGTH_GROUPS - groups,
{
    if groups < MAX_LENGTH_GROUPS && 0 <= pos < b.len() && b[pos] >= 128 {
        lemma_varlen_extend(b, extra, pos + 1, groups + 1);
    }
}

proof fn lemma_string_extend(b: Seq<u8>, extra: Seq<u8>, pos: int)
    ensures
        kept_when_extended(spec_string(b, pos), spec_string(b + extra, pos)),
{
    lemma_varlen_extend(b, extra, pos, 0);
    if let Ok((n, p)) = spec_varlen(b, pos) {
        lemma_take_extend(b, extra, p, n);
    }
}

proof fn lemma_attribute_extend(b: Seq<u8>, extra: Seq<u8>, pos: int, table: Seq<Seq<char>>)
    ensures
        kept_when_extended(spec_attribute(b, pos, table), spec_attribute(b + extra, pos, table)),
{
    reveal(spec_attribute_value);
    lemma_fixed_extend(b, extra, pos);
    if let Ok((tag, p)) = spec_u8(b, pos) {
        lemma_fixed_extend(b, extra, p);
        lemma_string_extend(b, extra, p);
        if let Ok((len, q)) = spec_i16(b, p) {
            lemma_take_extend(b, extra, q, len as int);
        }
        assert(kept_when_extended(
            spec_attribute_value(b, p, tag, table),
            spec_attribute_value(b + extra, p, tag, table),
        ));
    }
}

proof fn lemma_attributes_extend(
    b: Seq<u8>,
    extra: Seq<u8>,
    pos: int,
    table: Seq<Seq<char>>,
    n: nat,
)
    ensures
        kept_when_extended(
            spec_attributes(b, pos, table, n),
            spec_attributes(b + extra, pos, table, n),
        ),
    decreases n,
{
    if n > 0 {
        lemma_fixed_extend(b, extra, pos);
        if let Ok((_, p1)) = spec_lookup(b, pos, table) {
            lemma_attribute_extend(b, extra, p1, table);
            if let Ok((_, p2)) = spec_attribute(b, p1, table) {
                lemma_attributes_extend(b, extra, p2, table, (n - 1) as nat);
            }
        }
    }
}

proof fn lemma_table_extend(b: Seq<u8>, extra: Seq<u8>, pos: int, n: nat)
    ensures
        kept_when_extended(spec_table(b, pos, n), spec_table(b + extra, pos, n)),
    decreases n,
{
    if n > 0 {
        lemma_string_extend(b, extra, pos);
        if let Ok((_, p)) = spec_string(b, pos) {
            lemma_table_extend(b, extra, p, (n - 1) as nat);
        }
    }
}

proof fn lemma_element_extend(
    b: Seq<u8>,
    extra: Seq<u8>,
    pos: int,
    table: Seq<Seq<char>>,
    depth: nat,
    d2: nat,
)
    requires
        d2 >= depth,
    ensures
        kept_when_extended(
            spec_element(b, pos, table, depth),
            spec_element(b + extra, pos, table, d2),
        ),
    decreases depth, 0nat,
{
    if depth > 0 {
        lemma_fixed_extend(b, extra, pos);
        if let Ok((_, p1)) = spec_lookup(b, pos, table) {
            lemma_fixed_extend(b, extra, p1);
            if let Ok((count, p2)) = spec_u8(b, p1) {
                lemma_attributes_extend(b, extra, p2, table, count as nat);
                if let Ok((_, p3)) = spec_attributes(b, p2, table, count as nat) {
                    lemma_fixed_extend(b, extra, p3);
                    if let Ok((child_count, p4)) = spec_i16(b, p3) {
                        if child_count >= 0 {
                            lemma_children_extend(
                                b,
                                extra,
                                p4,
                                table,
                                child_count as nat,
                                (depth - 1) as nat,
                                (d2 - 1) as nat,
                            );
                        }
                    }
                }
            }
        }
    }
}

proof fn lemma_children_extend(
    b: Seq<u8>,
    extra: Seq<u8>,
    pos: int,
    table: Seq<Seq<char>>,
    n: nat,
    depth: nat,
    d2: nat,
)
    requires
        d2 >= depth,
    ensures
        kept_when_extended(
            spec_children(b, pos, table, n, depth),
            spec_children(b + extra, pos, table, n, d2),
        ),
    decreases depth, n + 1,
{
    if n > 0 {
        lemma_element_extend(b, extra, pos, table, depth, d2);
        if let Ok((_, p)) = spec_element(b, pos, table, depth) {
            lemma_children_extend(b, extra, p, table, (n - 1) as nat, depth, d2);
        }
    }
}

/// Bytes appended to a buffer that decodes make it fail with `TrailingBytes`.
pub proof fn lemma_appended_bytes_fail(b: Seq<u8>, extra: Seq<u8>)
    requires
        spec_decode(b) is Ok,
        extra.len() > 0,
    ensures
        spec_decode(b + extra) == Err::<crate::tree::MapView, DecodeError>(
            DecodeError::TrailingBytes,
        ),
{
    let c = b + extra;
    assert(c.subrange(0, 12) =~= b.subrange(0, 12));
    lemma_string_extend(b, extra, 12);
    let (_, pos1) = spec_string(b, 12)->Ok_0;
    lemma_fixed_extend(b, extra, pos1);
    let (size, pos2) = spec_i16(b, pos1)->Ok_0;
    lemma_table_extend(b, extra, pos2, size as nat);
    let (table, pos3) = spec_table(b, pos2, size as nat)->Ok_0;
    lemma_element_extend(b, extra, pos3, table, b.len() + 1, c.len() + 1);
}

/// The depth bound of an element read does not matter once it exceeds the
/// number of bytes that remain after the element's start.
pub proof fn lemma_element_depth_irrelevant(
    b: Seq<u8>,
    pos: int,
    table: Seq<Seq<char>>,
    d1: nat,
    d2: nat,
)
    requires
        d1 > b.len() - pos,
        d2 > b.len() - pos,
    ensures
        spec_element(b, pos, table, d1) == spec_element(b, pos, table, d2),
    decreases d1, 0nat,
{
    if d1 > 0 && d2 > 0 {
        if let Ok((_, p1)) = spec_lookup(b, pos, table) {
            if let Ok((count, p2)) = spec_u8(b, p1) {
                lemma_attributes_cut(b, p2, table, count as nat, b.len() as int);
                if let Ok((_, p3)) = spec_attributes(b, p2, table, count as nat) {
                    if let Ok((child_count, p4)) = spec_i16(b, p3) {
                        if child_count >= 0 {
                            lemma_children_depth_irrelevant(
                                b,
                                p4,
                                table,
                                child_count as nat,
                                (d1 - 1) as nat,
                                (d2 - 1) as nat,
                            );
                        }
                    }
                }
            }
        }
    }
}

proof fn lemma_children_depth_irrelevant(
    b: Seq<u8>,
    pos: int,
    table: Seq<Seq<char>>,
    n: nat,
    d1: nat,
    d2: nat,
)
    requires
        d1 > b.len() - pos,
        d2 > b.len() - pos,
    ensures
        spec_children(b, pos, table, n, d1) == spec_children(b, pos, table, n, d2),
    decreases d1, n + 1,
{
    if n > 0 {
        lemma_element_depth_irrelevant(b, pos, table, d1, d2);
        if 0 <= pos <= b.len() {
            lemma_element_cut(b, pos, table, d1, b.len() as int, d1);
        }
        if let Ok((_, p)) = spec_element(b, pos, table, d1) {
            lemma_children_depth_irrelevant(b, p, table, (n - 1) as nat, d1, d2);
        }
    }
}

} // verus!
