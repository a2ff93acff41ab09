use vstd::prelude::*;
use vstd::slice::{slice_subrange, slice_to_vec};
use vstd::utf8::{decode_utf8, valid_utf8};
use crate::bytes::{u16_of, u32_of, u64_of, Endian};
use crate::error::NbtError;
use crate::format::{
    count_at, element_width, field, fits, parse_entries, parse_items, parse_selective,
    parse_string, parse_tag, scalar_value, scalar_width, skip_entries, skip_items, skip_string,
    skip_tag, lemma_parse_tag_bounds, lemma_skip_tag_bounds, find_entry, find_field,
    selective_prefix, lemma_prefix_matches_selective,
};
use crate::tag::{tags_view, CompoundMap, NbtTag, Tag};

verus! {

/// Relies on `String::from_utf8`: it accepts exactly the valid UTF-8
/// sequences, and the string then holds the characters that they encode.
#[verifier::external_body]
fn string_from_utf8(bytes: Vec<u8>) -> (r: Option<String>)
    ensures
        r is Some <==> valid_utf8(bytes@),
        r matches Some(s) ==> s@ == decode_utf8(bytes@),
{
    String::from_utf8(bytes).ok()
}

/// An exec decoding result and the decoding that the format defines agree.
pub open spec fn agrees(r: Result<(NbtTag, usize), NbtError>, s: Result<(Tag, int), NbtError>) -> bool {
    match s {
        Ok((v, p)) => r matches Ok((t, q)) && t@ == v && q == p,
        Err(e) => r == Err::<(NbtTag, usize), NbtError>(e),
    }
}

/// Puts decoded items in front of the outcome of decoding the rest.
pub open spec fn prefixed(s: Seq<Tag>, r: Result<(Seq<Tag>, int), NbtError>) -> Result<
    (Seq<Tag>, int),
    NbtError,
> {
    match r {
        Ok((rest, q)) => Ok((s + rest, q)),
        Err(e) => Err(e),
    }
}

fn u16_at(data: &[u8], pos: usize, e: Endian) -> (r: u16)
    requires
        fits(data@, pos as int, 2),
    ensures
        r == u16_of(field(data@, pos as int, 2), e),
{
    let b0 = data[pos];
    let b1 = data[pos + 1];
    assert(field(data@, pos as int, 2) =~= seq![b0, b1]);
    assert(seq![b0, b1].reverse() =~= seq![b1, b0]);
    match e {
        Endian::Big => ((b0 as u16) << 8u16) | (b1 as u16),
        Endian::Little => ((b1 as u16) << 8u16) | (b0 as u16),
    }
}

fn u32_at(data: &[u8], pos: usize, e: Endian) -> (r: u32)
    requires
        fits(data@, pos as int, 4),
    ensures
        r == u32_of(field(data@, pos as int, 4), e),
{
    let b0 = data[pos];
    let b1 = data[pos + 1];
    let b2 = data[pos + 2];
    let b3 = data[pos + 3];
    assert(field(data@, pos as int, 4) =~= seq![b0, b1, b2, b3]);
    assert(seq![b0, b1, b2, b3].reverse() =~= seq![b3, b2, b1, b0]);
    match e {
        Endian::Big => ((b0 as u32) << 24u32) | ((b1 as u32) << 16u32) | ((b2 as u32) << 8u32) | (
        b3 as u32),
        Endian::Little => ((b3 as u32) << 24u32) | ((b2 as u32) << 16u32) | ((b1 as u32) << 8u32)
            | (b0 as u32),
    }
}

fn u64_at(data: &[u8], pos: usize, e: Endian) -> (r: u64)
    requires
        fits(data@, pos as int, 8),
    ensures
        r == u64_of(field(data@, pos as int, 8), e),
{
    let b0 = data[pos];
    let b1 = data[pos + 1];
    let b2 = data[pos + 2];
    let b3 = data[pos + 3];
    let b4 = data[pos + 4];
    let b5 = data[pos + 5];
    let b6 = data[pos + 6];
    let b7 = data[pos + 7];
    assert(field(data@, pos as int, 8) =~= seq![b0, b1, b2, b3, b4, b5, b6, b7]);
    assert(seq![b0, b1, b2, b3, b4, b5, b6, b7].reverse() =~= seq![b7, b6, b5, b4, b3, b2, b1, b0]);
    match e {
        Endian::Big => ((b0 as u64) << 56u64) | ((b1 as u64) << 48u64) | ((b2 as u64) << 40u64) | ((
        b3 as u64) << 32u64) | ((b4 as u64) << 24u64) | ((b5 as u64) << 16u64) | ((b6 as u64)
            << 8u64) | (b7 as u64),
        Endian::Little => ((b7 as u64) << 56u64) | ((b6 as u64) << 48u64) | ((b5 as u64) << 40u64)
            | ((b4 as u64) << 32u64) | ((b3 as u64) << 24u64) | ((b2 as u64) << 16u64) | ((
        b1 as u64) << 8u64) | (b0 as u64),
    }
}

/// The big-endian 32-bit value at `pos`.
pub fn u32_at_big(data: &[u8], pos: usize) -> (r: u32)
    requires
        fits(data@, pos as int, 4),
    ensures
        r == u32_of(field(data@, pos as int, 4), Endian::Big),
{
    u32_at(data, pos, Endian::Big)
}

/// Whether `n` bytes from `pos` lie inside the buffer.
fn has_room(data: &[u8], pos: usize, n: usize) -> (r: bool)
    ensures
        r == fits(data@, pos as int, n as int),
        data@.len() <= usize::MAX,
{
    pos <= data.len() && n <= data.len() - pos
}

proof fn lemma_room_for_elements(n: int, w: int, room: int)
    requires
        0 <= n,
        0 < w,
        0 <= room,
    ensures
        (n * w <= room) == (n <= room / w),
{
    assert((n * w <= room) == (n <= room / w)) by (nonlinear_arith)
        requires
            0 <= n,
            0 < w,
            0 <= room,
    ;
}

fn decode_scalar(data: &[u8], pos: usize, t: u8, e: Endian) -> (r: NbtTag)
    requires
        1 <= t <= 6,
        fits(data@, pos as int, scalar_width(t)),
    ensures
        r@ == scalar_value(t, field(data@, pos as int, scalar_width(t)), e),
{
    if t == 1 {
        NbtTag::Byte(data[pos] as i8)
    } else if t == 2 {
        NbtTag::Short(u16_at(data, pos, e) as i16)
    } else if t == 3 {
        NbtTag::Int(u32_at(data, pos, e) as i32)
    } else if t == 4 {
        NbtTag::Long(u64_at(data, pos, e) as i64)
    } else if t == 5 {
        NbtTag::Float(u32_at(data, pos, e))
    } else {
        NbtTag::Double(u64_at(data, pos, e))
    }
}

/// An array of type `t` (7, 11 or 12) whose count starts at `pos`.
fn decode_array(data: &[u8], pos: usize, t: u8, e: Endian) -> (r: Result<(NbtTag, usize), NbtError>)
    requires
        t == 7 || t == 11 || t == 12,
    ensures
        agrees(r, parse_tag(data@, pos as int, t, e)),
{
    if !has_room(data, pos, 4) {
        return Err(NbtError::UnexpectedEof);
    }
    let n = u32_at(data, pos, e) as usize;
    let start = pos + 4;
    let room = data.len() - start;
    let ghost w = element_width(t);
    proof {
        lemma_room_for_elements(n as int, w, room as int);
    }
    if t == 7 {
        if n > room {
            return Err(NbtError::UnexpectedEof);
        }
        let mut out: Vec<i8> = Vec::new();
        let mut i: usize = 0;
        while i < n
            invariant
                i <= n,
                start + n <= data@.len(),
                data@.len() <= usize::MAX,
                out@ == Seq::new(i as nat, |j: int| data@[start + j] as i8),
            decreases n - i,
        {
            out.push(data[start + i] as i8);
            i += 1;
            assert(out@ =~= Seq::new(i as nat, |j: int| data@[start + j] as i8));
        }
        Ok((NbtTag::ByteArray(out), start + n))
    } else if t == 11 {
        if n > room / 4 {
            return Err(NbtError::UnexpectedEof);
        }
        let mut out: Vec<i32> = Vec::new();
        let mut i: usize = 0;
        while i < n
            invariant
                i <= n,
                start + 4 * n <= data@.len(),
                data@.len() <= usize::MAX,
                out@ == Seq::new(i as nat, |j: int| u32_of(field(data@, start + 4 * j, 4), e) as i32),
            decreases n - i,
        {
            out.push(u32_at(data, start + 4 * i, e) as i32);
            i += 1;
            assert(out@ =~= Seq::new(
                i as nat,
                |j: int| u32_of(field(data@, start + 4 * j, 4), e) as i32,
            ));
        }
        Ok((NbtTag::IntArray(out), start + 4 * n))
    } else {
        if n > room / 8 {
            return Err(NbtError::UnexpectedEof);
        }
        let mut out: Vec<i64> = Vec::new();
        let mut i: usize = 0;
        while i < n
            invariant
                i <= n,
                start + 8 * n <= data@.len(),
                data@.len() <= usize::MAX,
                out@ == Seq::new(i as nat, |j: int| u64_of(field(data@, start + 8 * j, 8), e) as i64),
            decreases n - i,
        {
            out.push(u64_at(data, start + 8 * i, e) as i64);
            i += 1;
            assert(out@ =~= Seq::new(
                i as nat,
                |j: int| u64_of(field(data@, start + 8 * j, 8), e) as i64,
            ));
        }
        Ok((NbtTag::LongArray(out), start + 8 * n))
    }
}

/// A length-prefixed UTF-8 string at `pos`, and the position after it.
fn decode_string(data: &[u8], pos: usize, e: Endian) -> (r: Result<(String, usize), NbtError>)
    ensures
        match parse_string(data@, pos as int, e) {
            Ok((s, p)) => r matches Ok((x, q)) && x@ == s && q == p,
            Err(err) => r == Err::<(String, usize), NbtError>(err),
        },
{
    if !has_room(data, pos, 2) {
        return Err(NbtError::UnexpectedEof);
    }
    let n = u16_at(data, pos, e) as usize;
    if !has_room(data, pos + 2, n) {
        return Err(NbtError::UnexpectedEof);
    }
    let bytes = slice_to_vec(slice_subrange(data, pos + 2, pos + 2 + n));
    assert(bytes@ =~= field(data@, pos + 2, n as int));
    match string_from_utf8(bytes) {
        Some(s) => Ok((s, pos + 2 + n)),
        None => Err(NbtError::InvalidUtf8),
    }
}

/// The position after a length-prefixed string at `pos`; its bytes are not examined.
fn pass_string(data: &[u8], pos: usize, e: Endian) -> (r: Result<usize, NbtError>)
    ensures
        skip_agrees(r, skip_string(data@, pos as int, e)),
{
    if !has_room(data, pos, 2) {
        return Err(NbtError::UnexpectedEof);
    }
    let n = u16_at(data, pos, e) as usize;
    if !has_room(data, pos + 2, n) {
        return Err(NbtError::UnexpectedEof);
    }
    Ok(pos + 2 + n)
}

/// The value of type `t` encoded at `pos`, and the position after it.
fn decode_tag(data: &[u8], pos: usize, t: u8, e: Endian) -> (r: Result<(NbtTag, usize), NbtError>)
    ensures
        agrees(r, parse_tag(data@, pos as int, t, e)),
    decreases data@.len() - pos, 1int,
{
    if t == 0 {
        Ok((NbtTag::End, pos))
    } else if t <= 6 {
        let w: usize = if t == 1 {
            1
        } else if t == 2 {
            2
        } else if t == 3 || t == 5 {
            4
        } else {
            8
        };
        if has_room(data, pos, w) {
            Ok((decode_scalar(data, pos, t, e), pos + w))
        } else {
            Err(NbtError::UnexpectedEof)
        }
    } else if t == 7 || t == 11 || t == 12 {
        decode_array(data, pos, t, e)
    } else if t == 8 {
        match decode_string(data, pos, e) {
            Ok((s, p)) => Ok((NbtTag::String(s), p)),
            Err(err) => Err(err),
        }
    } else if t == 9 {
        decode_list(data, pos, e)
    } else if t == 10 {
        decode_compound(data, pos, e)
    } else {
        Err(NbtError::InvalidTagType(t))
    }
}

/// A list body (element type, count, items) at `pos`.
fn decode_list(data: &[u8], pos: usize, e: Endian) -> (r: Result<(NbtTag, usize), NbtError>)
    ensures
        agrees(r, parse_tag(data@, pos as int, 9, e)),
    decreases data@.len() - pos, 0int,
{
    if !has_room(data, pos, 5) {
        return Err(NbtError::UnexpectedEof);
    }
    let et = data[pos];
    let n = u32_at(data, pos + 1, e);
    let ghost count = count_at(data@, pos + 1, e);
    let ghost whole = parse_items(data@, pos + 5, et, count, e);
    let mut items: Vec<NbtTag> = Vec::new();
    let mut i: u32 = 0;
    if et == 0 {
        while i < n
            invariant
                i <= n,
                n == count,
                items@.len() == i,
                forall|j: int| 0 <= j < i ==> items@[j]@ == Tag::End,
            decreases n - i,
        {
            items.push(NbtTag::End);
            i += 1;
        }
        let r = NbtTag::List { tag_type: et, items };
        assert(r@->List_1 =~= parse_items(data@, pos + 5, et, count, e)->Ok_0.0);
        return Ok((r, pos + 5));
    }
    let mut p = pos + 5;
    while i < n
        invariant
            pos + 5 <= p <= data@.len(),
            data@.len() <= usize::MAX,
            i <= n,
            et != 0,
            et == data@[pos as int],
            fits(data@, pos as int, 5),
            count == count_at(data@, pos + 1, e),
            n == count,
            whole == parse_items(data@, pos + 5, et, count, e),
            whole == prefixed(tags_view(items@), parse_items(data@, p as int, et, (n - i) as nat, e)),
        decreases n - i,
    {
        proof {
            lemma_parse_tag_bounds(data@, p as int, et, e);
        }
        match decode_tag(data, p, et, e) {
            Ok((v, q)) => {
                proof {
                    let rest = parse_items(data@, q as int, et, (n - i - 1) as nat, e);
                    let ghost before = tags_view(items@);
                    assert(tags_view(items@.push(v)) =~= before.push(v@));
                    if let Ok((tail, z)) = rest {
                        assert(before + (seq![v@] + tail) =~= before.push(v@) + tail);
                    }
                }
                items.push(v);
                p = q;
                i += 1;
            },
            Err(err) => {
                return Err(err);
            },
        }
    }
    let ghost iv = items@;
    let r = NbtTag::List { tag_type: et, items };
    proof {
        assert(tags_view(iv) + Seq::<Tag>::empty() =~= tags_view(iv));
        assert(r@->List_1 =~= tags_view(iv));
    }
    Ok((r, p))
}

/// A compound body at `pos`, up to and including its End byte.
fn decode_compound(data: &[u8], pos: usize, e: Endian) -> (r: Result<(NbtTag, usize), NbtError>)
    ensures
        agrees(r, parse_tag(data@, pos as int, 10, e)),
    decreases data@.len() - pos, 0int,
{
    let mut map = CompoundMap::new();
    let mut p = pos;
    if pos > data.len() {
        return Err(NbtError::UnexpectedEof);
    }
    loop
        invariant
            pos <= p <= data@.len(),
            data@.len() <= usize::MAX,
            parse_entries(data@, pos as int, Seq::empty(), e) == parse_entries(data@, p as int, map@, e),
        decreases data@.len() - p,
    {
        if p >= data.len() {
            return Err(NbtError::UnexpectedEof);
        }
        let t = data[p];
        if t == 0 {
            return Ok((NbtTag::Compound(map), p + 1));
        }
        match decode_string(data, p + 1, e) {
            Ok((name, q)) => {
                proof {
                    lemma_parse_tag_bounds(data@, q as int, t, e);
                }
                match decode_tag(data, q, t, e) {
                    Ok((v, q2)) => {
                        map.insert(name, v);
                        p = q2;
                    },
                    Err(err) => {
                        return Err(err);
                    },
                }
            },
            Err(err) => {
                return Err(err);
            },
        }
    }
}

/// An exec skipping result and the skipping that the format defines agree.
pub open spec fn skip_agrees(r: Result<usize, NbtError>, s: Result<int, NbtError>) -> bool {
    match s {
        Ok(p) => r matches Ok(q) && q == p,
        Err(e) => r == Err::<usize, NbtError>(e),
    }
}

/// The position after the value of type `t` at `pos`; nothing is allocated.
fn pass_tag(data: &[u8], pos: usize, t: u8, e: Endian) -> (r: Result<usize, NbtError>)
    ensures
        skip_agrees(r, skip_tag(data@, pos as int, t, e)),
    decreases data@.len() - pos, 1int,
{
    if t == 0 {
        Ok(pos)
    } else if t <= 6 {
        let w: usize = if t == 1 {
            1
        } else if t == 2 {
            2
        } else if t == 3 || t == 5 {
            4
        } else {
            8
        };
        if has_room(data, pos, w) {
            Ok(pos + w)
        } else {
            Err(NbtError::UnexpectedEof)
        }
    } else if t == 7 || t == 11 || t == 12 {
        if !has_room(data, pos, 4) {
            return Err(NbtError::UnexpectedEof);
        }
        let n = u32_at(data, pos, e) as usize;
        let w: usize = if t == 7 {
            1
        } else if t == 11 {
            4
        } else {
            8
        };
        let room = data.len() - (pos + 4);
        assert(w as int == element_width(t));
        assert(n as nat == count_at(data@, pos as int, e));
        proof {
            lemma_room_for_elements(n as int, w as int, room as int);
        }
        if n > room / w {
            return Err(NbtError::UnexpectedEof);
        }
        assert(n * w <= room) by (nonlinear_arith)
            requires
                n <= room / w,
                w > 0,
        ;
        Ok(pos + 4 + n * w)
    } else if t == 8 {
        pass_string(data, pos, e)
    } else if t == 9 {
        pass_list(data, pos, e)
    } else if t == 10 {
        pass_compound(data, pos, e)
    } else {
        Err(NbtError::InvalidTagType(t))
    }
}

fn pass_list(data: &[u8], pos: usize, e: Endian) -> (r: Result<usize, NbtError>)
    ensures
        skip_agrees(r, skip_tag(data@, pos as int, 9, e)),
    decreases data@.len() - pos, 0int,
{
    if !has_room(data, pos, 5) {
        return Err(NbtError::UnexpectedEof);
    }
    let et = data[pos];
    let n = u32_at(data, pos + 1, e);
    let ghost count = count_at(data@, pos + 1, e);
    if et == 0 {
        return Ok(pos + 5);
    }
    let mut p = pos + 5;
    let mut i: u32 = 0;
    while i < n
        invariant
            pos + 5 <= p <= data@.len(),
            data@.len() <= usize::MAX,
            i <= n,
            et != 0,
            et == data@[pos as int],
            fits(data@, pos as int, 5),
            count == count_at(data@, pos + 1, e),
            n == count,
            skip_tag(data@, pos as int, 9, e) == skip_items(data@, p as int, et, (n - i) as nat, e),
        decreases n - i,
    {
        proof {
            lemma_skip_tag_bounds(data@, p as int, et, e);
        }
        match pass_tag(data, p, et, e) {
            Ok(q) => {
                p = q;
                i += 1;
            },
            Err(err) => {
                return Err(err);
            },
        }
    }
    Ok(p)
}

fn pass_compound(data: &[u8], pos: usize, e: Endian) -> (r: Result<usize, NbtError>)
    ensures
        skip_agrees(r, skip_tag(data@, pos as int, 10, e)),
    decreases data@.len() - pos, 0int,
{
    if pos > data.len() {
        return Err(NbtError::UnexpectedEof);
    }
    let mut p = pos;
    loop
        invariant
            pos <= p <= data@.len(),
            data@.len() <= usize::MAX,
            skip_entries(data@, pos as int, e) == skip_entries(data@, p as int, e),
        decreases data@.len() - p,
    {
        if p >= data.len() {
            return Err(NbtError::UnexpectedEof);
        }
        let t = data[p];
        if t == 0 {
            return Ok(p + 1);
        }
        match pass_string(data, p + 1, e) {
            Ok(q) => {
                proof {
                    lemma_skip_tag_bounds(data@, q as int, t, e);
                }
                match pass_tag(data, q, t, e) {
                    Ok(q2) => {
                        p = q2;
                    },
                    Err(err) => {
                        return Err(err);
                    },
                }
            },
            Err(err) => {
                return Err(err);
            },
        }
    }
}

/// The names listed in `wanted`.
pub open spec fn wanted_set(wanted: Seq<&str>) -> Set<Seq<char>> {
    Set::new(|k: Seq<char>| exists|i: int| 0 <= i < wanted.len() && wanted[i]@ == k)
}

fn is_wanted(name: &str, wanted: &[&str]) -> (r: bool)
    ensures
        r == wanted_set(wanted@).contains(name@),
{
    let mut i: usize = 0;
    while i < wanted.len()
        invariant
            i <= wanted@.len(),
            forall|j: int| 0 <= j < i ==> wanted@[j]@ != name@,
        decreases wanted@.len() - i,
    {
        if crate::tag::same_text(wanted[i], name) {
            return true;
        }
        i += 1;
    }
    false
}

/// A compound body at `pos` of which only the entries named in `wanted` are
/// decoded; a fault ends the reading and keeps what was read before it.
fn decode_selective(data: &[u8], pos: usize, wanted: &[&str], e: Endian) -> (r: (NbtTag, usize))
    ensures
        r.0@ == Tag::Compound(selective_prefix(data@, pos as int, wanted_set(wanted@), Seq::empty(), e).0),
        r.1 == selective_prefix(data@, pos as int, wanted_set(wanted@), Seq::empty(), e).1,
{
    let ghost w = wanted_set(wanted@);
    let mut map = CompoundMap::new();
    let mut p = pos;
    if pos > data.len() {
        return (NbtTag::Compound(map), p);
    }
    loop
        invariant
            pos <= p <= data@.len(),
            data@.len() <= usize::MAX,
            w == wanted_set(wanted@),
            selective_prefix(data@, pos as int, w, Seq::empty(), e) == selective_prefix(
                data@,
                p as int,
                w,
                map@,
                e,
            ),
        decreases data@.len() - p,
    {
        if p >= data.len() {
            return (NbtTag::Compound(map), p);
        }
        let t = data[p];
        if t == 0 {
            return (NbtTag::Compound(map), p + 1);
        }
        match decode_string(data, p + 1, e) {
            Ok((name, q)) => {
                if is_wanted(name.as_str(), wanted) {
                    proof {
                        lemma_parse_tag_bounds(data@, q as int, t, e);
                    }
                    match decode_tag(data, q, t, e) {
                        Ok((v, q2)) => {
                            map.insert(name, v);
                            p = q2;
                        },
                        Err(err) => {
                            return (NbtTag::Compound(map), p);
                        },
                    }
                } else {
                    proof {
                        lemma_skip_tag_bounds(data@, q as int, t, e);
                    }
                    match pass_tag(data, q, t, e) {
                        Ok(q2) => {
                            p = q2;
                        },
                        Err(err) => {
                            return (NbtTag::Compound(map), p);
                        },
                    }
                }
            },
            Err(err) => {
                return (NbtTag::Compound(map), p);
            },
        }
    }
}

/// The first entry named `name` in a compound body at `pos`.
fn search_entries(data: &[u8], pos: usize, name: &str, e: Endian) -> (r: Result<
    Option<NbtTag>,
    NbtError,
>)
    ensures
        match find_entry(data@, pos as int, name@, e) {
            Ok(Some(v)) => r matches Ok(Some(x)) && x@ == v,
            Ok(None) => r matches Ok(None),
            Err(err) => r == Err::<Option<NbtTag>, NbtError>(err),
        },
{
    if pos > data.len() {
        return Err(NbtError::UnexpectedEof);
    }
    let mut p = pos;
    loop
        invariant
            pos <= p <= data@.len(),
            data@.len() <= usize::MAX,
            find_entry(data@, pos as int, name@, e) == find_entry(data@, p as int, name@, e),
        decreases data@.len() - p,
    {
        if p >= data.len() {
            return Err(NbtError::UnexpectedEof);
        }
        let t = data[p];
        if t == 0 {
            return Ok(None);
        }
        match decode_string(data, p + 1, e) {
            Ok((key, q)) => {
                if crate::tag::same_text(key.as_str(), name) {
                    return match decode_tag(data, q, t, e) {
                        Ok((v, q2)) => Ok(Some(v)),
                        Err(err) => Err(err),
                    };
                }
                proof {
                    lemma_skip_tag_bounds(data@, q as int, t, e);
                }
                match pass_tag(data, q, t, e) {
                    Ok(q2) => {
                        p = q2;
                    },
                    Err(err) => {
                        return Err(err);
                    },
                }
            },
            Err(err) => {
                return Err(err);
            },
        }
    }
}

/// A cursor over an immutable buffer that decodes tags in a fixed byte order.
pub struct NbtReader<'a> {
    /// The buffer being read.
    pub data: &'a [u8],
    /// Offset of the next byte to read; it may be moved anywhere.
    pub cursor: usize,
    /// The byte order of multi-byte values.
    pub endian: Endian,
}

impl<'a> NbtReader<'a> {
    /// The contents of `data` as a sequence.
    pub open spec fn spec_data(&self) -> Seq<u8> {
        self.data@
    }

    /// The byte order in effect, as used in contracts.
    pub open spec fn spec_endian(&self) -> Endian {
        self.endian
    }

    /// The buffer and the byte order are those of `other`.
    pub open spec fn same_source(&self, other: &Self) -> bool {
        self.spec_data() == other.spec_data() && self.spec_endian() == other.spec_endian()
    }

    /// A reader at the start of `data`.
    pub fn new(data: &'a [u8], endian: Endian) -> (r: Self)
        ensures
            r.spec_data() == data@,
            r.spec_endian() == endian,
            r.cursor == 0,
    {
        NbtReader { data, cursor: 0, endian }
    }

    /// Number of bytes from the cursor to the end of the buffer.
    pub fn remaining(&self) -> (r: usize)
        ensures
            r == (if self.cursor <= self.spec_data().len() {
                self.spec_data().len() - self.cursor
            } else {
                0
            }),
    {
        if self.cursor <= self.data.len() {
            self.data.len() - self.cursor
        } else {
            0
        }
    }

    /// The next `len` bytes.
    pub fn read_bytes(&mut self, len: usize) -> (r: Result<&'a [u8], NbtError>)
        ensures
            final(self).same_source(old(self)),
            fits(old(self).spec_data(), old(self).cursor as int, len as int) ==> (r matches Ok(b)
                && b@ == field(old(self).spec_data(), old(self).cursor as int, len as int)
                && final(self).cursor == old(self).cursor + len),
            !fits(old(self).spec_data(), old(self).cursor as int, len as int) ==> (r
                == Err::<&'a [u8], NbtError>(NbtError::UnexpectedEof) && final(self).cursor == old(
            self).cursor),
    {
        if !has_room(self.data, self.cursor, len) {
            return Err(NbtError::UnexpectedEof);
        }
        let b = slice_subrange(self.data, self.cursor, self.cursor + len);
        self.cursor = self.cursor + len;
        Ok(b)
    }

    /// The next byte.
    pub fn read_u8(&mut self) -> (r: Result<u8, NbtError>)
        ensures
            final(self).same_source(old(self)),
            fits(old(self).spec_data(), old(self).cursor as int, 1) ==> (r
                == Ok::<u8, NbtError>(old(self).spec_data()[old(self).cursor as int])
                && final(self).cursor == old(self).cursor + 1),
            !fits(old(self).spec_data(), old(self).cursor as int, 1) ==> (r == Err::<
                u8,
                NbtError,
            >(NbtError::UnexpectedEof) && final(self).cursor == old(self).cursor),
    {
        if !has_room(self.data, self.cursor, 1) {
            return Err(NbtError::UnexpectedEof);
        }
        let b = self.data[self.cursor];
        self.cursor = self.cursor + 1;
        Ok(b)
    }

    /// The next byte as a signed value.
    pub fn read_i8(&mut self) -> (r: Result<i8, NbtError>)
        ensures
            final(self).same_source(old(self)),
            fits(old(self).spec_data(), old(self).cursor as int, 1) ==> (r == Ok::<i8, NbtError>(
                old(self).spec_data()[old(self).cursor as int] as i8)
                && final(self).cursor == old(self).cursor + 1),
            !fits(old(self).spec_data(), old(self).cursor as int, 1) ==> (r == Err::<
                i8,
                NbtError,
            >(NbtError::UnexpectedEof) && final(self).cursor == old(self).cursor),
    {
        match self.read_u8() {
            Ok(b) => Ok(b as i8),
            Err(err) => Err(err),
        }
    }

    /// The next two bytes as an unsigned value.
    pub fn read_u16(&mut self) -> (r: Result<u16, NbtError>)
        ensures
            final(self).same_source(old(self)),
            fits(old(self).spec_data(), old(self).cursor as int, 2) ==> (r == Ok::<u16, NbtError>(
                u16_of(field(old(self).spec_data(), old(self).cursor as int, 2), old(self).spec_endian()))
                && final(self).cursor == old(self).cursor + 2),
            !fits(old(self).spec_data(), old(self).cursor as int, 2) ==> (r == Err::<
                u16,
                NbtError,
            >(NbtError::UnexpectedEof) && final(self).cursor == old(self).cursor),
    {
        if !has_room(self.data, self.cursor, 2) {
            return Err(NbtError::UnexpectedEof);
        }
        let v = u16_at(self.data, self.cursor, self.endian);
        self.cursor = self.cursor + 2;
        Ok(v)
    }

    /// The next two bytes as a signed value.
    pub fn read_i16(&mut self) -> (r: Result<i16, NbtError>)
        ensures
            final(self).same_source(old(self)),
            fits(old(self).spec_data(), old(self).cursor as int, 2) ==> (r == Ok::<i16, NbtError>(
                u16_of(field(old(self).spec_data(), old(self).cursor as int, 2), old(self).spec_endian())
                    as i16) && final(self).cursor == old(self).cursor + 2),
            !fits(old(self).spec_data(), old(self).cursor as int, 2) ==> (r == Err::<
                i16,
                NbtError,
            >(NbtError::UnexpectedEof) && final(self).cursor == old(self).cursor),
    {
        match self.read_u16() {
            Ok(v) => Ok(v as i16),
            Err(err) => Err(err),
        }
    }

    /// The next four bytes as an unsigned value.
    pub fn read_u32(&mut self) -> (r: Result<u32, NbtError>)
        ensures
            final(self).same_source(old(self)),
            fits(old(self).spec_data(), old(self).cursor as int, 4) ==> (r == Ok::<u32, NbtError>(
                u32_of(field(old(self).spec_data(), old(self).cursor as int, 4), old(self).spec_endian()))
                && final(self).cursor == old(self).cursor + 4),
            !fits(old(self).spec_data(), old(self).cursor as int, 4) ==> (r == Err::<
                u32,
                NbtError,
            >(NbtError::UnexpectedEof) && final(self).cursor == old(self).cursor),
    {
        if !has_room(self.data, self.cursor, 4) {
            return Err(NbtError::UnexpectedEof);
        }
        let v = u32_at(self.data, self.cursor, self.endian);
        self.cursor = self.cursor + 4;
        Ok(v)
    }

    /// The next four bytes as a signed value.
    pub fn read_i32(&mut self) -> (r: Result<i32, NbtError>)
        ensures
            final(self).same_source(old(self)),
            fits(old(self).spec_data(), old(self).cursor as int, 4) ==> (r == Ok::<i32, NbtError>(
                u32_of(field(old(self).spec_data(), old(self).cursor as int, 4), old(self).spec_endian())
                    as i32) && final(self).cursor == old(self).cursor + 4),
            !fits(old(self).spec_data(), old(self).cursor as int, 4) ==> (r == Err::<
                i32,
                NbtError,
            >(NbtError::UnexpectedEof) && final(self).cursor == old(self).cursor),
    {
        match self.read_u32() {
            Ok(v) => Ok(v as i32),
            Err(err) => Err(err),
        }
    }

    /// The next eight bytes as an unsigned value.
    pub fn read_u64(&mut self) -> (r: Result<u64, NbtError>)
        ensures
            final(self).same_source(old(self)),
            fits(old(self).spec_data(), old(self).cursor as int, 8) ==> (r == Ok::<u64, NbtError>(
                u64_of(field(old(self).spec_data(), old(self).cursor as int, 8), old(self).spec_endian()))
                && final(self).cursor == old(self).cursor + 8),
            !fits(old(self).spec_data(), old(self).cursor as int, 8) ==> (r == Err::<
                u64,
                NbtError,
            >(NbtError::UnexpectedEof) && final(self).cursor == old(self).cursor),
    {
        if !has_room(self.data, self.cursor, 8) {
            return Err(NbtError::UnexpectedEof);
        }
        let v = u64_at(self.data, self.cursor, self.endian);
        self.cursor = self.cursor + 8;
        Ok(v)
    }

    /// The next eight bytes as a signed value.
    pub fn read_i64(&mut self) -> (r: Result<i64, NbtError>)
        ensures
            final(self).same_source(old(self)),
            fits(old(self).spec_data(), old(self).cursor as int, 8) ==> (r == Ok::<i64, NbtError>(
                u64_of(field(old(self).spec_data(), old(self).cursor as int, 8), old(self).spec_endian())
                    as i64) && final(self).cursor == old(self).cursor + 8),
            !fits(old(self).spec_data(), old(self).cursor as int, 8) ==> (r == Err::<
                i64,
                NbtError,
            >(NbtError::UnexpectedEof) && final(self).cursor == old(self).cursor),
    {
        match self.read_u64() {
            Ok(v) => Ok(v as i64),
            Err(err) => Err(err),
        }
    }

    /// A string: a 16-bit length, then that many bytes of UTF-8.
    /// On error the cursor does not move.
    pub fn read_string(&mut self) -> (r: Result<String, NbtError>)
        ensures
            final(self).same_source(old(self)),
            match parse_string(old(self).spec_data(), old(self).cursor as int, old(self).spec_endian()) {
                Ok((s, p)) => r matches Ok(x) && x@ == s && final(self).cursor == p,
                Err(err) => r == Err::<String, NbtError>(err) && final(self).cursor == old(self).cursor,
            },
    {
        match decode_string(self.data, self.cursor, self.endian) {
            Ok((s, p)) => {
                self.cursor = p;
                Ok(s)
            },
            Err(err) => Err(err),
        }
    }

    /// The value of type `tag_type` at the cursor, decoded in full.
    /// On error the cursor does not move.
    pub fn read_tag(&mut self, tag_type: u8) -> (r: Result<NbtTag, NbtError>)
        ensures
            final(self).same_source(old(self)),
            match parse_tag(
                old(self).spec_data(),
                old(self).cursor as int,
                tag_type,
                old(self).spec_endian(),
            ) {
                Ok((v, p)) => r matches Ok(x) && x@ == v && final(self).cursor == p,
                Err(err) => r == Err::<NbtTag, NbtError>(err) && final(self).cursor == old(self).cursor,
            },
    {
        match decode_tag(self.data, self.cursor, tag_type, self.endian) {
            Ok((v, p)) => {
                self.cursor = p;
                Ok(v)
            },
            Err(err) => Err(err),
        }
    }

    /// A compound body at the cursor of which only the entries named in
    /// `wanted_fields` are decoded; the others are skipped without being built.
    /// An entry that cannot be read ends the reading: the fields decoded before
    /// it are returned and the cursor stops at its start. This never fails.
    pub fn read_compound_selective(&mut self, wanted_fields: &[&str]) -> (r: Result<NbtTag, NbtError>)
        ensures
            final(self).same_source(old(self)),
            r matches Ok(x) && x@ == Tag::Compound(
                selective_prefix(
                    old(self).spec_data(),
                    old(self).cursor as int,
                    wanted_set(wanted_fields@),
                    Seq::empty(),
                    old(self).spec_endian(),
                ).0,
            ),
            final(self).cursor == selective_prefix(
                old(self).spec_data(),
                old(self).cursor as int,
                wanted_set(wanted_fields@),
                Seq::empty(),
                old(self).spec_endian(),
            ).1,
            parse_selective(
                old(self).spec_data(),
                old(self).cursor as int,
                wanted_set(wanted_fields@),
                Seq::empty(),
                old(self).spec_endian(),
            ) matches Ok((entries, p)) ==> (r matches Ok(x) && x@ == Tag::Compound(entries)
                && final(self).cursor == p),
    {
        proof {
            if parse_selective(
                self.data@,
                self.cursor as int,
                wanted_set(wanted_fields@),
                Seq::empty(),
                self.endian,
            ) is Ok {
                lemma_prefix_matches_selective(
                    self.data@,
                    self.cursor as int,
                    wanted_set(wanted_fields@),
                    Seq::empty(),
                    self.endian,
                );
            }
        }
        let (v, p) = decode_selective(self.data, self.cursor, wanted_fields, self.endian);
        self.cursor = p;
        Ok(v)
    }

    /// Moves the cursor past the value of type `tag_type` without building it.
    /// On error the cursor does not move.
    pub fn skip_tag(&mut self, tag_type: u8) -> (r: Result<(), NbtError>)
        ensures
            final(self).same_source(old(self)),
            match skip_tag(
                old(self).spec_data(),
                old(self).cursor as int,
                tag_type,
                old(self).spec_endian(),
            ) {
                Ok(p) => r is Ok && final(self).cursor == p,
                Err(err) => r == Err::<(), NbtError>(err) && final(self).cursor == old(self).cursor,
            },
    {
        match pass_tag(self.data, self.cursor, tag_type, self.endian) {
            Ok(p) => {
                self.cursor = p;
                Ok(())
            },
            Err(err) => Err(err),
        }
    }

    /// The top-level field `path` of the document held by the whole buffer,
    /// found by skipping the fields before it. The cursor does not move.
    pub fn find_path(&mut self, path: &str) -> (r: Result<Option<NbtTag>, NbtError>)
        ensures
            final(self).same_source(old(self)),
            final(self).cursor == old(self).cursor,
            match find_field(old(self).spec_data(), path@, old(self).spec_endian()) {
                Ok(Some(v)) => r matches Ok(Some(x)) && x@ == v,
                Ok(None) => r matches Ok(None),
                Err(err) => r == Err::<Option<NbtTag>, NbtError>(err),
            },
    {
        if self.data.len() == 0 {
            return Err(NbtError::UnexpectedEof);
        }
        let t = self.data[0];
        if t != 10 {
            return Err(NbtError::InvalidHeader);
        }
        match decode_string(self.data, 1, self.endian) {
            Ok((root_name, p)) => search_entries(self.data, p, path, self.endian),
            Err(err) => Err(err),
        }
    }
}

} // verus!
