use vstd::prelude::*;
use vstd::utf8::{decode_utf8, encode_utf8, valid_utf8};
use crate::bytes::{u16_bytes, u16_of, u32_bytes, u32_of, u64_bytes, u64_of, Endian};
use crate::error::NbtError;
use crate::tag::{insert_entry, type_of, Entries, Tag};

verus! {

/// `n` bytes starting at `pos` lie inside `data`.
pub open spec fn fits(data: Seq<u8>, pos: int, n: int) -> bool {
    0 <= pos && 0 <= n && pos + n <= data.len()
}

/// The `n` bytes that start at `pos`.
pub open spec fn field(data: Seq<u8>, pos: int, n: int) -> Seq<u8> {
    data.subrange(pos, pos + n)
}

/// A 32-bit element count at `pos`: the signed prefix read as an unsigned magnitude.
pub open spec fn count_at(data: Seq<u8>, pos: int, e: Endian) -> nat {
    u32_of(field(data, pos, 4), e) as nat
}

/// Number of payload bytes of each element of the fixed-width variants,
/// and of the length prefix of the array variants.
pub open spec fn scalar_width(t: u8) -> int {
    if t == 1 {
        1
    } else if t == 2 {
        2
    } else if t == 3 || t == 5 {
        4
    } else if t == 4 || t == 6 {
        8
    } else {
        0
    }
}

/// Width of one element of the array variants (7, 11, 12).
pub open spec fn element_width(t: u8) -> int {
    if t == 7 {
        1
    } else if t == 11 {
        4
    } else {
        8
    }
}

/// A fixed-width value of type `t` (1 to 6) from its bytes.
pub open spec fn scalar_value(t: u8, b: Seq<u8>, e: Endian) -> Tag {
    if t == 1 {
        Tag::Byte(b[0] as i8)
    } else if t == 2 {
        Tag::Short(u16_of(b, e) as i16)
    } else if t == 3 {
        Tag::Int(u32_of(b, e) as i32)
    } else if t == 4 {
        Tag::Long(u64_of(b, e) as i64)
    } else if t == 5 {
        Tag::Float(u32_of(b, e))
    } else {
        Tag::Double(u64_of(b, e))
    }
}

/// An array value of type `t` (7, 11, 12) with `n` elements stored from `pos`.
pub open spec fn array_value(data: Seq<u8>, pos: int, t: u8, n: nat, e: Endian) -> Tag {
    if t == 7 {
        Tag::ByteArray(Seq::new(n, |i: int| data[pos + i] as i8))
    } else if t == 11 {
        Tag::IntArray(Seq::new(n, |i: int| u32_of(field(data, pos + 4 * i, 4), e) as i32))
    } else {
        Tag::LongArray(Seq::new(n, |i: int| u64_of(field(data, pos + 8 * i, 8), e) as i64))
    }
}

/// A length-prefixed UTF-8 string at `pos`, and the position after it.
pub open spec fn parse_string(data: Seq<u8>, pos: int, e: Endian) -> Result<(Seq<char>, int), NbtError> {
    if !fits(data, pos, 2) {
        Err(NbtError::UnexpectedEof)
    } else {
        let n = u16_of(field(data, pos, 2), e) as int;
        if !fits(data, pos + 2, n) {
            Err(NbtError::UnexpectedEof)
        } else if !valid_utf8(field(data, pos + 2, n)) {
            Err(NbtError::InvalidUtf8)
        } else {
            Ok((decode_utf8(field(data, pos + 2, n)), pos + 2 + n))
        }
    }
}

/// The position after a length-prefixed string at `pos`, its bytes unchecked.
pub open spec fn skip_string(data: Seq<u8>, pos: int, e: Endian) -> Result<int, NbtError> {
    if !fits(data, pos, 2) {
        Err(NbtError::UnexpectedEof)
    } else {
        let n = u16_of(field(data, pos, 2), e) as int;
        if !fits(data, pos + 2, n) {
            Err(NbtError::UnexpectedEof)
        } else {
            Ok(pos + 2 + n)
        }
    }
}

/// The value of type `t` encoded at `pos`, and the position after it.
pub open spec fn parse_tag(data: Seq<u8>, pos: int, t: u8, e: Endian) -> Result<(Tag, int), NbtError>
    decreases data.len() - pos, 1int,
{
    if t == 0 {
        Ok((Tag::End, pos))
    } else if 1 <= t <= 6 {
        if fits(data, pos, scalar_width(t)) {
            Ok((scalar_value(t, field(data, pos, scalar_width(t)), e), pos + scalar_width(t)))
        } else {
            Err(NbtError::UnexpectedEof)
        }
    } else if t == 7 || t == 11 || t == 12 {
        if !fits(data, pos, 4) {
            Err(NbtError::UnexpectedEof)
        } else {
            let n = count_at(data, pos, e);
            if fits(data, pos + 4, n * element_width(t)) {
                Ok((array_value(data, pos + 4, t, n, e), pos + 4 + n * element_width(t)))
            } else {
                Err(NbtError::UnexpectedEof)
            }
        }
    } else if t == 8 {
        match parse_string(data, pos, e) {
            Ok((s, p)) => Ok((Tag::String(s), p)),
            Err(err) => Err(err),
        }
    } else if t == 9 {
        if !fits(data, pos, 5) {
            Err(NbtError::UnexpectedEof)
        } else {
            let et = data[pos];
            match parse_items(data, pos + 5, et, count_at(data, pos + 1, e), e) {
                Ok((items, p)) => Ok((Tag::List(et, items), p)),
                Err(err) => Err(err),
            }
        }
    } else if t == 10 {
        match parse_entries(data, pos, Seq::empty(), e) {
            Ok((entries, p)) => Ok((Tag::Compound(entries), p)),
            Err(err) => Err(err),
        }
    } else {
        Err(NbtError::InvalidTagType(t))
    }
}

/// `n` values of type `t` encoded one after another from `pos`.
pub open spec fn parse_items(data: Seq<u8>, pos: int, t: u8, n: nat, e: Endian) -> Result<
    (Seq<Tag>, int),
    NbtError,
>
    decreases data.len() - pos, 2int,
{
    if n == 0 {
        Ok((Seq::empty(), pos))
    } else if t == 0 {
        Ok((Seq::new(n, |i: int| Tag::End), pos))
    } else if pos > data.len() {
        Err(NbtError::UnexpectedEof)
    } else {
        match parse_tag(data, pos, t, e) {
            Ok((v, p)) => if p <= pos || p > data.len() {
                Err(NbtError::UnexpectedEof)
            } else {
                match parse_items(data, p, t, (n - 1) as nat, e) {
                    Ok((rest, q)) => Ok((seq![v] + rest, q)),
                    Err(err) => Err(err),
                }
            },
            Err(err) => Err(err),
        }
    }
}

/// The entries of a compound body from `pos` up to and including its End byte,
/// each stored into `acc` in turn.
pub open spec fn parse_entries(data: Seq<u8>, pos: int, acc: Entries, e: Endian) -> Result<
    (Entries, int),
    NbtError,
>
    decreases data.len() - pos, 0int,
{
    if !fits(data, pos, 1) {
        Err(NbtError::UnexpectedEof)
    } else if data[pos] == 0 {
        Ok((acc, pos + 1))
    } else {
        match parse_string(data, pos + 1, e) {
            Ok((name, p)) => match parse_tag(data, p, data[pos], e) {
                Ok((v, q)) => if q < p || q > data.len() {
                    Err(NbtError::UnexpectedEof)
                } else {
                    parse_entries(data, q, insert_entry(acc, name, v), e)
                },
                Err(err) => Err(err),
            },
            Err(err) => Err(err),
        }
    }
}

/// The position after the value of type `t` encoded at `pos`, found without
/// building the value.
pub open spec fn skip_tag(data: Seq<u8>, pos: int, t: u8, e: Endian) -> Result<int, NbtError>
    decreases data.len() - pos, 1int,
{
    if t == 0 {
        Ok(pos)
    } else if 1 <= t <= 6 {
        if fits(data, pos, scalar_width(t)) {
            Ok(pos + scalar_width(t))
        } else {
            Err(NbtError::UnexpectedEof)
        }
    } else if t == 7 || t == 11 || t == 12 {
        if !fits(data, pos, 4) {
            Err(NbtError::UnexpectedEof)
        } else {
            let n = count_at(data, pos, e);
            if fits(data, pos + 4, n * element_width(t)) {
                Ok(pos + 4 + n * element_width(t))
            } else {
                Err(NbtError::UnexpectedEof)
            }
        }
    } else if t == 8 {
        skip_string(data, pos, e)
    } else if t == 9 {
        if !fits(data, pos, 5) {
            Err(NbtError::UnexpectedEof)
        } else {
            skip_items(data, pos + 5, data[pos], count_at(data, pos + 1, e), e)
        }
    } else if t == 10 {
        skip_entries(data, pos, e)
    } else {
        Err(NbtError::InvalidTagType(t))
    }
}

/// The position after `n` values of type `t` encoded from `pos`.
pub open spec fn skip_items(data: Seq<u8>, pos: int, t: u8, n: nat, e: Endian) -> Result<int, NbtError>
    decreases data.len() - pos, 2int,
{
    if n == 0 || t == 0 {
        Ok(pos)
    } else if pos > data.len() {
        Err(NbtError::UnexpectedEof)
    } else {
        match skip_tag(data, pos, t, e) {
            Ok(p) => if p <= pos || p > data.len() {
                Err(NbtError::UnexpectedEof)
            } else {
                skip_items(data, p, t, (n - 1) as nat, e)
            },
            Err(err) => Err(err),
        }
    }
}

/// The position after a compound body that starts at `pos`.
pub open spec fn skip_entries(data: Seq<u8>, pos: int, e: Endian) -> Result<int, NbtError>
    decreases data.len() - pos, 0int,
{
    if !fits(data, pos, 1) {
        Err(NbtError::UnexpectedEof)
    } else if data[pos] == 0 {
        Ok(pos + 1)
    } else {
        match skip_string(data, pos + 1, e) {
            Ok(p) => match skip_tag(data, p, data[pos], e) {
                Ok(q) => if q < p || q > data.len() {
                    Err(NbtError::UnexpectedEof)
                } else {
                    skip_entries(data, q, e)
                },
                Err(err) => Err(err),
            },
            Err(err) => Err(err),
        }
    }
}

/// A compound body read selectively: the entries named in `wanted` are decoded
/// into `acc`, the others are skipped.
pub open spec fn parse_selective(
    data: Seq<u8>,
    pos: int,
    wanted: Set<Seq<char>>,
    acc: Entries,
    e: Endian,
) -> Result<(Entries, int), NbtError>
    decreases data.len() - pos,
{
    if !fits(data, pos, 1) {
        Err(NbtError::UnexpectedEof)
    } else if data[pos] == 0 {
        Ok((acc, pos + 1))
    } else {
        match parse_string(data, pos + 1, e) {
            Ok((name, p)) => if wanted.contains(name) {
                match parse_tag(data, p, data[pos], e) {
                    Ok((v, q)) => if q < p || q > data.len() {
                        Err(NbtError::UnexpectedEof)
                    } else {
                        parse_selective(data, q, wanted, insert_entry(acc, name, v), e)
                    },
                    Err(err) => Err(err),
                }
            } else {
                match skip_tag(data, p, data[pos], e) {
                    Ok(q) => if q < p || q > data.len() {
                        Err(NbtError::UnexpectedEof)
                    } else {
                        parse_selective(data, q, wanted, acc, e)
                    },
                    Err(err) => Err(err),
                }
            },
            Err(err) => Err(err),
        }
    }
}


/// A decoded value ends inside the buffer, after its start; only End takes no bytes.
pub proof fn lemma_parse_tag_bounds(data: Seq<u8>, pos: int, t: u8, e: Endian)
    requires
        0 <= pos <= data.len(),
    ensures
        parse_tag(data, pos, t, e) matches Ok((v, p)) ==> pos <= p <= data.len() && (t != 0 ==> pos
            < p) && crate::tag::type_of(v) == t,
    decreases data.len() - pos, 1int,
{
    if t == 9 && fits(data, pos, 5) {
        lemma_parse_items_bounds(data, pos + 5, data[pos], count_at(data, pos + 1, e), e);
    } else if t == 10 {
        lemma_parse_entries_bounds(data, pos, Seq::empty(), e);
    }
}

/// Decoded list items end inside the buffer, and there are as many as asked.
pub proof fn lemma_parse_items_bounds(data: Seq<u8>, pos: int, t: u8, n: nat, e: Endian)
    requires
        0 <= pos <= data.len(),
    ensures
        parse_items(data, pos, t, n, e) matches Ok((s, q)) ==> pos <= q <= data.len() && s.len()
            == n,
    decreases data.len() - pos, 2int,
{
    if n > 0 && t != 0 {
        lemma_parse_tag_bounds(data, pos, t, e);
        if let Ok((v, p)) = parse_tag(data, pos, t, e) {
            if pos < p <= data.len() {
                lemma_parse_items_bounds(data, p, t, (n - 1) as nat, e);
            }
        }
    }
}

/// A decoded compound body ends inside the buffer, after its start.
pub proof fn lemma_parse_entries_bounds(data: Seq<u8>, pos: int, acc: Entries, e: Endian)
    requires
        0 <= pos <= data.len(),
    ensures
        parse_entries(data, pos, acc, e) matches Ok((s, q)) ==> pos < q <= data.len(),
    decreases data.len() - pos, 0int,
{
    if fits(data, pos, 1) && data[pos] != 0 {
        if let Ok((name, p)) = parse_string(data, pos + 1, e) {
            lemma_parse_tag_bounds(data, p, data[pos], e);
            if let Ok((v, q)) = parse_tag(data, p, data[pos], e) {
                if p <= q <= data.len() {
                    lemma_parse_entries_bounds(data, q, insert_entry(acc, name, v), e);
                }
            }
        }
    }
}

/// Skipping a value of type `t` ends where decoding it ends.
pub proof fn lemma_skip_matches_parse(data: Seq<u8>, pos: int, t: u8, e: Endian)
    requires
        0 <= pos <= data.len(),
        parse_tag(data, pos, t, e) is Ok,
    ensures
        skip_tag(data, pos, t, e) == Ok::<int, NbtError>(parse_tag(data, pos, t, e)->Ok_0.1),
    decreases data.len() - pos, 1int,
{
    if t == 9 {
        lemma_skip_items_matches(data, pos + 5, data[pos], count_at(data, pos + 1, e), e);
    } else if t == 10 {
        lemma_skip_entries_matches(data, pos, Seq::empty(), e);
    }
}

/// Skipping list items ends where decoding them ends.
pub proof fn lemma_skip_items_matches(data: Seq<u8>, pos: int, t: u8, n: nat, e: Endian)
    requires
        0 <= pos <= data.len(),
        parse_items(data, pos, t, n, e) is Ok,
    ensures
        skip_items(data, pos, t, n, e) == Ok::<int, NbtError>(parse_items(data, pos, t, n, e)->Ok_0.1),
    decreases data.len() - pos, 2int,
{
    if n > 0 && t != 0 {
        lemma_skip_matches_parse(data, pos, t, e);
        let p = parse_tag(data, pos, t, e)->Ok_0.1;
        lemma_skip_items_matches(data, p, t, (n - 1) as nat, e);
    }
}

/// Skipping a compound body ends where decoding it ends, whatever was gathered before.
pub proof fn lemma_skip_entries_matches(data: Seq<u8>, pos: int, acc: Entries, e: Endian)
    requires
        0 <= pos <= data.len(),
        parse_entries(data, pos, acc, e) is Ok,
    ensures
        skip_entries(data, pos, e) == Ok::<int, NbtError>(parse_entries(data, pos, acc, e)->Ok_0.1),
    decreases data.len() - pos, 0int,
{
    if data[pos] != 0 {
        let (name, p) = parse_string(data, pos + 1, e)->Ok_0;
        lemma_skip_matches_parse(data, p, data[pos], e);
        let (v, q) = parse_tag(data, p, data[pos], e)->Ok_0;
        lemma_skip_entries_matches(data, q, insert_entry(acc, name, v), e);
    }
}

/// A compound body read selectively, keeping what was read before any fault:
/// the entries named in `wanted` decoded into `acc` up to the End byte, or up to
/// the first entry that cannot be read. The position is the one after the End
/// byte, or the start of the entry that could not be read.
pub open spec fn selective_prefix(
    data: Seq<u8>,
    pos: int,
    wanted: Set<Seq<char>>,
    acc: Entries,
    e: Endian,
) -> (Entries, int)
    decreases data.len() - pos,
{
    if !fits(data, pos, 1) {
        (acc, pos)
    } else if data[pos] == 0 {
        (acc, pos + 1)
    } else {
        match parse_string(data, pos + 1, e) {
            Ok((name, p)) => if wanted.contains(name) {
                match parse_tag(data, p, data[pos], e) {
                    Ok((v, q)) => if q < p || q > data.len() {
                        (acc, pos)
                    } else {
                        selective_prefix(data, q, wanted, insert_entry(acc, name, v), e)
                    },
                    Err(err) => (acc, pos),
                }
            } else {
                match skip_tag(data, p, data[pos], e) {
                    Ok(q) => if q < p || q > data.len() {
                        (acc, pos)
                    } else {
                        selective_prefix(data, q, wanted, acc, e)
                    },
                    Err(err) => (acc, pos),
                }
            },
            Err(err) => (acc, pos),
        }
    }
}

/// Where the selective reading of a whole body succeeds, keeping what was read
/// before a fault gives the same entries and end.
pub proof fn lemma_prefix_matches_selective(
    data: Seq<u8>,
    pos: int,
    wanted: Set<Seq<char>>,
    acc: Entries,
    e: Endian,
)
    requires
        parse_selective(data, pos, wanted, acc, e) is Ok,
    ensures
        selective_prefix(data, pos, wanted, acc, e) == parse_selective(data, pos, wanted, acc, e)->Ok_0,
    decreases data.len() - pos,
{
    if fits(data, pos, 1) && data[pos] != 0 {
        let (name, p) = parse_string(data, pos + 1, e)->Ok_0;
        if wanted.contains(name) {
            let (v, q) = parse_tag(data, p, data[pos], e)->Ok_0;
            lemma_prefix_matches_selective(data, q, wanted, insert_entry(acc, name, v), e);
        } else {
            let q = skip_tag(data, p, data[pos], e)->Ok_0;
            lemma_prefix_matches_selective(data, q, wanted, acc, e);
        }
    }
}

/// A skipped value ends inside the buffer, after its start; only End takes no bytes.
pub proof fn lemma_skip_tag_bounds(data: Seq<u8>, pos: int, t: u8, e: Endian)
    requires
        0 <= pos <= data.len(),
    ensures
        skip_tag(data, pos, t, e) matches Ok(p) ==> pos <= p <= data.len() && (t != 0 ==> pos < p),
    decreases data.len() - pos, 1int,
{
    if t == 9 && fits(data, pos, 5) {
        lemma_skip_items_bounds(data, pos + 5, data[pos], count_at(data, pos + 1, e), e);
    } else if t == 10 {
        lemma_skip_entries_bounds(data, pos, e);
    }
}

/// Skipped list items end inside the buffer.
pub proof fn lemma_skip_items_bounds(data: Seq<u8>, pos: int, t: u8, n: nat, e: Endian)
    requires
        0 <= pos <= data.len(),
    ensures
        skip_items(data, pos, t, n, e) matches Ok(q) ==> pos <= q <= data.len(),
    decreases data.len() - pos, 2int,
{
    if n > 0 && t != 0 {
        lemma_skip_tag_bounds(data, pos, t, e);
        if let Ok(p) = skip_tag(data, pos, t, e) {
            if pos < p <= data.len() {
                lemma_skip_items_bounds(data, p, t, (n - 1) as nat, e);
            }
        }
    }
}

/// A skipped compound body ends inside the buffer, after its start.
pub proof fn lemma_skip_entries_bounds(data: Seq<u8>, pos: int, e: Endian)
    requires
        0 <= pos <= data.len(),
    ensures
        skip_entries(data, pos, e) matches Ok(q) ==> pos < q <= data.len(),
    decreases data.len() - pos, 0int,
{
    if fits(data, pos, 1) && data[pos] != 0 {
        if let Ok(p) = skip_string(data, pos + 1, e) {
            lemma_skip_tag_bounds(data, p, data[pos], e);
            if let Ok(q) = skip_tag(data, p, data[pos], e) {
                if p <= q <= data.len() {
                    lemma_skip_entries_bounds(data, q, e);
                }
            }
        }
    }
}

/// The value of the first entry named `name` in a compound body at `pos`,
/// the entries before it skipped.
pub open spec fn find_entry(data: Seq<u8>, pos: int, name: Seq<char>, e: Endian) -> Result<
    Option<Tag>,
    NbtError,
>
    decreases data.len() - pos,
{
    if !fits(data, pos, 1) {
        Err(NbtError::UnexpectedEof)
    } else if data[pos] == 0 {
        Ok(None)
    } else {
        match parse_string(data, pos + 1, e) {
            Ok((k, p)) => if k == name {
                match parse_tag(data, p, data[pos], e) {
                    Ok((v, q)) => Ok(Some(v)),
                    Err(err) => Err(err),
                }
            } else {
                match skip_tag(data, p, data[pos], e) {
                    Ok(q) => if q < p || q > data.len() {
                        Err(NbtError::UnexpectedEof)
                    } else {
                        find_entry(data, q, name, e)
                    },
                    Err(err) => Err(err),
                }
            },
            Err(err) => Err(err),
        }
    }
}

/// The top-level field `name` of a whole document: a compound type id,
/// the root name, then the root body.
pub open spec fn find_field(data: Seq<u8>, name: Seq<char>, e: Endian) -> Result<
    Option<Tag>,
    NbtError,
> {
    if !fits(data, 0, 1) {
        Err(NbtError::UnexpectedEof)
    } else if data[0] != 10 {
        Err(NbtError::InvalidHeader)
    } else {
        match parse_string(data, 1, e) {
            Ok((root_name, p)) => find_entry(data, p, name, e),
            Err(err) => Err(err),
        }
    }
}

/// The largest element count that a 32-bit signed length prefix can hold.
pub const MAX_COUNT: usize = 0x7fff_ffff;

/// The largest UTF-8 length that a 16-bit string prefix can hold.
pub const MAX_STRING_BYTES: usize = 0xffff;

/// Joins encoded parts in order; the first part that failed decides the error.
pub open spec fn join(parts: Seq<Result<Seq<u8>, NbtError>>) -> Result<Seq<u8>, NbtError>
    decreases parts.len(),
{
    if parts.len() == 0 {
        Ok(Seq::empty())
    } else {
        match parts[0] {
            Err(err) => Err(err),
            Ok(first) => match join(parts.drop_first()) {
                Ok(rest) => Ok(first + rest),
                Err(err) => Err(err),
            },
        }
    }
}

/// A string as a 16-bit length and its UTF-8 bytes.
pub open spec fn string_bytes(s: Seq<char>, e: Endian) -> Result<Seq<u8>, NbtError> {
    let b = encode_utf8(s);
    if b.len() > MAX_STRING_BYTES {
        Err(NbtError::InvalidStringLength(b.len() as usize))
    } else {
        Ok(u16_bytes(b.len() as u16, e) + b)
    }
}

/// The elements of an int array, four bytes each.
pub open spec fn ints_bytes(a: Seq<i32>, e: Endian) -> Seq<u8>
    decreases a.len(),
{
    if a.len() == 0 {
        Seq::empty()
    } else {
        u32_bytes(a[0] as u32, e) + ints_bytes(a.drop_first(), e)
    }
}

/// The elements of a long array, eight bytes each.
pub open spec fn longs_bytes(a: Seq<i64>, e: Endian) -> Seq<u8>
    decreases a.len(),
{
    if a.len() == 0 {
        Seq::empty()
    } else {
        u64_bytes(a[0] as u64, e) + longs_bytes(a.drop_first(), e)
    }
}

/// A 32-bit count prefix, refused above `MAX_COUNT`.
pub open spec fn count_bytes(n: nat, e: Endian) -> Result<Seq<u8>, NbtError> {
    if n > MAX_COUNT {
        Err(NbtError::InvalidArrayLength(n as usize))
    } else {
        Ok(u32_bytes(n as u32, e))
    }
}

/// Puts `pre` in front of an encoding that succeeded.
pub open spec fn after(pre: Seq<u8>, r: Result<Seq<u8>, NbtError>) -> Result<Seq<u8>, NbtError> {
    match r {
        Ok(b) => Ok(pre + b),
        Err(err) => Err(err),
    }
}

/// The encodings of list items of declared type `t`, each refused if its
/// type differs.
pub open spec fn list_parts(t: u8, items: Seq<Tag>, e: Endian) -> Seq<Result<Seq<u8>, NbtError>>
    decreases items,
{
    Seq::new(
        items.len(),
        |i: int|
            if 0 <= i < items.len() {
                if type_of(items[i]) != t {
                    Err(NbtError::ListTypeMismatch { expected: t, found: type_of(items[i]) })
                } else {
                    encode_tag(items[i], e)
                }
            } else {
                Err(NbtError::UnexpectedEof)
            },
    )
}

/// The encodings of compound entries: type id, name, value. An End value is refused.
pub open spec fn entry_parts(entries: Entries, e: Endian) -> Seq<Result<Seq<u8>, NbtError>>
    decreases entries,
{
    Seq::new(
        entries.len(),
        |i: int|
            if 0 <= i < entries.len() {
                if entries[i].1 is End {
                    Err(NbtError::InvalidTagType(0))
                } else {
                    match string_bytes(entries[i].0, e) {
                        Ok(k) => after(seq![type_of(entries[i].1)] + k, encode_tag(entries[i].1, e)),
                        Err(err) => Err(err),
                    }
                }
            } else {
                Err(NbtError::UnexpectedEof)
            },
    )
}

/// The encoding of a value of type `type_of(v)`, without its type id. It fails
/// where the format cannot hold the value: an over-long string or array, a
/// list item of another type than the list's, an End stored in a compound.
pub open spec fn encode_tag(v: Tag, e: Endian) -> Result<Seq<u8>, NbtError>
    decreases v,
{
    match v {
        Tag::End => Ok(Seq::empty()),
        Tag::Byte(x) => Ok(seq![x as u8]),
        Tag::Short(x) => Ok(u16_bytes(x as u16, e)),
        Tag::Int(x) => Ok(u32_bytes(x as u32, e)),
        Tag::Long(x) => Ok(u64_bytes(x as u64, e)),
        Tag::Float(x) => Ok(u32_bytes(x, e)),
        Tag::Double(x) => Ok(u64_bytes(x, e)),
        Tag::ByteArray(a) => match count_bytes(a.len(), e) {
            Ok(c) => Ok(c + Seq::new(a.len(), |i: int| a[i] as u8)),
            Err(err) => Err(err),
        },
        Tag::String(s) => string_bytes(s, e),
        Tag::List(t, items) => match count_bytes(items.len(), e) {
            Ok(c) => after(seq![t] + c, join(list_parts(t, items, e))),
            Err(err) => Err(err),
        },
        Tag::Compound(entries) => match join(entry_parts(entries, e)) {
            Ok(b) => Ok(b + seq![0u8]),
            Err(err) => Err(err),
        },
        Tag::IntArray(a) => match count_bytes(a.len(), e) {
            Ok(c) => Ok(c + ints_bytes(a, e)),
            Err(err) => Err(err),
        },
        Tag::LongArray(a) => match count_bytes(a.len(), e) {
            Ok(c) => Ok(c + longs_bytes(a, e)),
            Err(err) => Err(err),
        },
    }
}

} // verus!
