use vstd::prelude::*;
use vstd::utf8::{encode_utf8, encode_utf8_decode_utf8, encode_utf8_valid_utf8};
use crate::bytes::{
    lemma_i16_cast, lemma_i32_cast, lemma_i64_cast, lemma_u16_round_trip, lemma_u32_round_trip,
    lemma_u64_round_trip, u16_bytes, u32_bytes, u64_bytes, Endian,
};
use crate::error::NbtError;
use crate::document::{document_bytes, document_of};
use crate::format::{
    count_at, encode_tag, parse_selective, lemma_skip_matches_parse, entry_parts, field, ints_bytes, join, list_parts, longs_bytes,
    parse_entries, parse_items, parse_string, parse_tag, string_bytes, lemma_parse_tag_bounds,
    MAX_COUNT,
};
use crate::tag::{
    insert_entry, keys_unique, lemma_insert_fresh, lemma_lookup_insert, lookup, type_of, Entries, Tag,
};

verus! {

/// The structural invariant of a value: in every compound, at every depth,
/// no two entries share a name.
pub open spec fn well_formed(v: Tag) -> bool
    decreases v, 0int,
{
    match v {
        Tag::List(t, items) => items_well_formed(items, 0),
        Tag::Compound(entries) => keys_unique(entries) && entries_well_formed(entries, 0),
        _ => true,
    }
}

/// The items from index `i` on are well formed.
pub open spec fn items_well_formed(items: Seq<Tag>, i: int) -> bool
    decreases items, items.len() - i,
{
    if i < 0 || i >= items.len() {
        true
    } else {
        well_formed(items[i]) && items_well_formed(items, i + 1)
    }
}

/// The values of the entries from index `i` on are well formed.
pub open spec fn entries_well_formed(entries: Entries, i: int) -> bool
    decreases entries, entries.len() - i,
{
    if i < 0 || i >= entries.len() {
        true
    } else {
        well_formed(entries[i].1) && entries_well_formed(entries, i + 1)
    }
}

/// Items that are each well formed make a well-formed tail from `i` on.
pub proof fn lemma_items_wf_intro(items: Seq<Tag>, i: int)
    requires
        0 <= i,
        forall|j: int| i <= j < items.len() ==> #[trigger] well_formed(items[j]),
    ensures
        items_well_formed(items, i),
    decreases items.len() - i,
{
    if i < items.len() {
        assert(well_formed(items[i]));
        lemma_items_wf_intro(items, i + 1);
    }
}

/// Entries whose values are each well formed make a well-formed tail from `i` on.
pub proof fn lemma_entries_wf_intro(entries: Entries, i: int)
    requires
        0 <= i,
        forall|j: int| i <= j < entries.len() ==> #[trigger] well_formed(entries[j].1),
    ensures
        entries_well_formed(entries, i),
    decreases entries.len() - i,
{
    if i < entries.len() {
        assert(well_formed(entries[i].1));
        lemma_entries_wf_intro(entries, i + 1);
    }
}

proof fn lemma_items_wf(items: Seq<Tag>, i: int, j: int)
    requires
        0 <= i <= j < items.len(),
        items_well_formed(items, i),
    ensures
        well_formed(items[j]),
    decreases j - i,
{
    if i < j {
        lemma_items_wf(items, i + 1, j);
    }
}

proof fn lemma_entries_wf(entries: Entries, i: int, j: int)
    requires
        0 <= i <= j < entries.len(),
        entries_well_formed(entries, i),
    ensures
        well_formed(entries[j].1),
    decreases j - i,
{
    if i < j {
        lemma_entries_wf(entries, i + 1, j);
    }
}

proof fn lemma_wf_item(v: Tag, j: int)
    requires
        v is List,
        well_formed(v),
        0 <= j < v->List_1.len(),
    ensures
        well_formed(v->List_1[j]),
{
    lemma_items_wf(v->List_1, 0, j);
}

proof fn lemma_wf_entry(v: Tag, j: int)
    requires
        v is Compound,
        well_formed(v),
        0 <= j < v->Compound_0.len(),
    ensures
        well_formed(v->Compound_0[j].1),
        keys_unique(v->Compound_0),
{
    lemma_entries_wf(v->Compound_0, 0, j);
}

/// `b` stands in `data` at `pos`.
pub open spec fn holds_at(data: Seq<u8>, pos: int, b: Seq<u8>) -> bool {
    0 <= pos && pos + b.len() <= data.len() && data.subrange(pos, pos + b.len()) == b
}

pub proof fn lemma_holds_split(data: Seq<u8>, pos: int, a: Seq<u8>, b: Seq<u8>)
    requires
        holds_at(data, pos, a + b),
    ensures
        holds_at(data, pos, a),
        holds_at(data, pos + a.len(), b),
{
    let ab = a + b;
    assert forall|i: int| 0 <= i < ab.len() implies data[pos + i] == ab[i] by {
        assert(data.subrange(pos, pos + ab.len())[i] == ab[i]);
    }
    assert forall|i: int| 0 <= i < a.len() implies data[pos + i] == a[i] by {
        assert(ab[i] == a[i]);
    }
    assert forall|i: int| 0 <= i < b.len() implies data[pos + a.len() + i] == b[i] by {
        assert(ab[a.len() + i] == b[i]);
    }
    assert(data.subrange(pos, pos + a.len()) =~= a);
    assert(data.subrange(pos + a.len(), pos + a.len() + b.len()) =~= b);
}

proof fn lemma_field_of(data: Seq<u8>, pos: int, b: Seq<u8>)
    requires
        holds_at(data, pos, b),
    ensures
        field(data, pos, b.len() as int) == b,
{
}

proof fn lemma_ints_bytes(a: Seq<i32>, e: Endian, i: int)
    requires
        0 <= i < a.len(),
    ensures
        ints_bytes(a, e).len() == 4 * a.len(),
        ints_bytes(a, e).subrange(4 * i, 4 * i + 4) == u32_bytes(a[i] as u32, e),
    decreases a.len(),
{
    lemma_u32_round_trip(a[0] as u32, e);
    lemma_ints_len(a, e);
    lemma_ints_len(a.drop_first(), e);
    if i == 0 {
        if a.len() > 1 {
            lemma_ints_bytes(a.drop_first(), e, 0);
        } else {
            assert(a.drop_first().len() == 0);
        }
        assert(ints_bytes(a, e).subrange(0, 4) =~= u32_bytes(a[0] as u32, e));
    } else {
        lemma_ints_bytes(a.drop_first(), e, i - 1);
        assert(ints_bytes(a, e).subrange(4 * i, 4 * i + 4) =~= ints_bytes(a.drop_first(), e).subrange(
            4 * (i - 1),
            4 * (i - 1) + 4,
        ));
    }
}

proof fn lemma_longs_bytes(a: Seq<i64>, e: Endian, i: int)
    requires
        0 <= i < a.len(),
    ensures
        longs_bytes(a, e).len() == 8 * a.len(),
        longs_bytes(a, e).subrange(8 * i, 8 * i + 8) == u64_bytes(a[i] as u64, e),
    decreases a.len(),
{
    lemma_u64_round_trip(a[0] as u64, e);
    lemma_longs_len(a, e);
    lemma_longs_len(a.drop_first(), e);
    if i == 0 {
        if a.len() > 1 {
            lemma_longs_bytes(a.drop_first(), e, 0);
        } else {
            assert(a.drop_first().len() == 0);
        }
        assert(longs_bytes(a, e).subrange(0, 8) =~= u64_bytes(a[0] as u64, e));
    } else {
        lemma_longs_bytes(a.drop_first(), e, i - 1);
        assert(longs_bytes(a, e).subrange(8 * i, 8 * i + 8) =~= longs_bytes(
            a.drop_first(),
            e,
        ).subrange(8 * (i - 1), 8 * (i - 1) + 8));
    }
}

proof fn lemma_ints_len(a: Seq<i32>, e: Endian)
    ensures
        ints_bytes(a, e).len() == 4 * a.len(),
    decreases a.len(),
{
    if a.len() > 0 {
        lemma_u32_round_trip(a[0] as u32, e);
        lemma_ints_len(a.drop_first(), e);
    }
}

proof fn lemma_longs_len(a: Seq<i64>, e: Endian)
    ensures
        longs_bytes(a, e).len() == 8 * a.len(),
    decreases a.len(),
{
    if a.len() > 0 {
        lemma_u64_round_trip(a[0] as u64, e);
        lemma_longs_len(a.drop_first(), e);
    }
}

/// Decoding the encoding of a string gives the string back.
pub proof fn lemma_string_round_trip(s: Seq<char>, e: Endian, data: Seq<u8>, pos: int)
    requires
        string_bytes(s, e) is Ok,
        holds_at(data, pos, string_bytes(s, e)->Ok_0),
    ensures
        parse_string(data, pos, e) == Ok::<(Seq<char>, int), NbtError>(
            (s, pos + string_bytes(s, e)->Ok_0.len()),
        ),
{
    let b = encode_utf8(s);
    lemma_u16_round_trip(b.len() as u16, e);
    lemma_holds_split(data, pos, u16_bytes(b.len() as u16, e), b);
    lemma_field_of(data, pos, u16_bytes(b.len() as u16, e));
    lemma_field_of(data, pos + 2, b);
    encode_utf8_valid_utf8(s);
    encode_utf8_decode_utf8(s);
}

proof fn lemma_count_round_trip(n: nat, e: Endian, data: Seq<u8>, pos: int)
    requires
        n <= MAX_COUNT,
        holds_at(data, pos, u32_bytes(n as u32, e)),
    ensures
        count_at(data, pos, e) == n,
{
    lemma_u32_round_trip(n as u32, e);
    lemma_field_of(data, pos, u32_bytes(n as u32, e));
}

/// Decoding what the encoder wrote gives the value back, and ends right after it.
pub proof fn lemma_tag_round_trip(v: Tag, e: Endian, data: Seq<u8>, pos: int)
    requires
        well_formed(v),
        encode_tag(v, e) is Ok,
        holds_at(data, pos, encode_tag(v, e)->Ok_0),
    ensures
        parse_tag(data, pos, type_of(v), e) == Ok::<(Tag, int), NbtError>(
            (v, pos + encode_tag(v, e)->Ok_0.len()),
        ),
    decreases v, 2int,
{
    let enc = encode_tag(v, e)->Ok_0;
    lemma_field_of(data, pos, enc);
    match v {
        Tag::End => {},
        Tag::Byte(x) => {
            assert(((x as u8) as i8) == x) by (bit_vector);
        },
        Tag::Short(x) => {
            lemma_u16_round_trip(x as u16, e);
            lemma_i16_cast(x);
        },
        Tag::Int(x) => {
            lemma_u32_round_trip(x as u32, e);
            lemma_i32_cast(x);
        },
        Tag::Long(x) => {
            lemma_u64_round_trip(x as u64, e);
            lemma_i64_cast(x);
        },
        Tag::Float(x) => {
            lemma_u32_round_trip(x, e);
        },
        Tag::Double(x) => {
            lemma_u64_round_trip(x, e);
        },
        Tag::String(s) => {
            lemma_string_round_trip(s, e, data, pos);
        },
        Tag::ByteArray(a) => lemma_byte_array_round_trip(a, e, data, pos),
        Tag::IntArray(a) => lemma_int_array_round_trip(a, e, data, pos),
        Tag::LongArray(a) => lemma_long_array_round_trip(a, e, data, pos),
        Tag::List(t, items) => lemma_list_round_trip(v, e, data, pos),
        Tag::Compound(entries) => lemma_compound_round_trip(v, e, data, pos),
    }
}

#[verifier::rlimit(40)]
proof fn lemma_byte_array_round_trip(a: Seq<i8>, e: Endian, data: Seq<u8>, pos: int)
    requires
        well_formed(Tag::ByteArray(a)),
        encode_tag(Tag::ByteArray(a), e) is Ok,
        holds_at(data, pos, encode_tag(Tag::ByteArray(a), e)->Ok_0),
    ensures
        parse_tag(data, pos, 7, e) == Ok::<(Tag, int), NbtError>(
            (Tag::ByteArray(a), pos + encode_tag(Tag::ByteArray(a), e)->Ok_0.len()),
        ),
{
    let enc = encode_tag(Tag::ByteArray(a), e)->Ok_0;
    lemma_field_of(data, pos, enc);

            let c = u32_bytes(a.len() as u32, e);
            let body = Seq::new(a.len(), |i: int| a[i] as u8);
            lemma_u32_round_trip(a.len() as u32, e);
            lemma_holds_split(data, pos, c, body);
            lemma_count_round_trip(a.len(), e, data, pos);
            assert forall|i: int| 0 <= i < a.len() implies (data[pos + 4 + i] as i8) == a[i] by {
                assert(data[pos + 4 + i] == body[i]);
                let x = a[i];
                assert(((x as u8) as i8) == x) by (bit_vector);
            }
            if let Tag::ByteArray(got) = parse_tag(data, pos, 7, e)->Ok_0.0 {
                assert(got =~= a);
            }
        }

#[verifier::rlimit(40)]
proof fn lemma_int_array_round_trip(a: Seq<i32>, e: Endian, data: Seq<u8>, pos: int)
    requires
        well_formed(Tag::IntArray(a)),
        encode_tag(Tag::IntArray(a), e) is Ok,
        holds_at(data, pos, encode_tag(Tag::IntArray(a), e)->Ok_0),
    ensures
        parse_tag(data, pos, 11, e) == Ok::<(Tag, int), NbtError>(
            (Tag::IntArray(a), pos + encode_tag(Tag::IntArray(a), e)->Ok_0.len()),
        ),
{
    let enc = encode_tag(Tag::IntArray(a), e)->Ok_0;
    lemma_field_of(data, pos, enc);

            let c = u32_bytes(a.len() as u32, e);
            lemma_u32_round_trip(a.len() as u32, e);
            lemma_ints_len(a, e);
            lemma_holds_split(data, pos, c, ints_bytes(a, e));
            lemma_count_round_trip(a.len(), e, data, pos);
            assert forall|i: int| 0 <= i < a.len() implies (crate::bytes::u32_of(
                field(data, pos + 4 + 4 * i, 4),
                e,
            ) as i32) == a[i] by {
                lemma_ints_bytes(a, e, i);
                assert(field(data, pos + 4 + 4 * i, 4) =~= ints_bytes(a, e).subrange(4 * i, 4 * i + 4));
                lemma_u32_round_trip(a[i] as u32, e);
                lemma_i32_cast(a[i]);
            }
            if let Tag::IntArray(got) = parse_tag(data, pos, 11, e)->Ok_0.0 {
                assert(got =~= a);
            }
        }

#[verifier::rlimit(40)]
proof fn lemma_long_array_round_trip(a: Seq<i64>, e: Endian, data: Seq<u8>, pos: int)
    requires
        well_formed(Tag::LongArray(a)),
        encode_tag(Tag::LongArray(a), e) is Ok,
        holds_at(data, pos, encode_tag(Tag::LongArray(a), e)->Ok_0),
    ensures
        parse_tag(data, pos, 12, e) == Ok::<(Tag, int), NbtError>(
            (Tag::LongArray(a), pos + encode_tag(Tag::LongArray(a), e)->Ok_0.len()),
        ),
{
    let enc = encode_tag(Tag::LongArray(a), e)->Ok_0;
    lemma_field_of(data, pos, enc);

            let c = u32_bytes(a.len() as u32, e);
            lemma_u32_round_trip(a.len() as u32, e);
            lemma_longs_len(a, e);
            lemma_holds_split(data, pos, c, longs_bytes(a, e));
            lemma_count_round_trip(a.len(), e, data, pos);
            assert forall|i: int| 0 <= i < a.len() implies (crate::bytes::u64_of(
                field(data, pos + 4 + 8 * i, 8),
                e,
            ) as i64) == a[i] by {
                lemma_longs_bytes(a, e, i);
                assert(field(data, pos + 4 + 8 * i, 8) =~= longs_bytes(a, e).subrange(8 * i, 8 * i + 8));
                lemma_u64_round_trip(a[i] as u64, e);
                lemma_i64_cast(a[i]);
            }
            if let Tag::LongArray(got) = parse_tag(data, pos, 12, e)->Ok_0.0 {
                assert(got =~= a);
            }
        }

#[verifier::rlimit(40)]
proof fn lemma_list_round_trip(v: Tag, e: Endian, data: Seq<u8>, pos: int)
    requires
        v is List,
        well_formed(v),
        encode_tag(v, e) is Ok,
        holds_at(data, pos, encode_tag(v, e)->Ok_0),
    ensures
        parse_tag(data, pos, 9, e) == Ok::<(Tag, int), NbtError>(
            (v, pos + encode_tag(v, e)->Ok_0.len()),
        ),
    decreases v, 1int,
{
    let t = v->List_0;
    let items = v->List_1;
    let enc = encode_tag(v, e)->Ok_0;
    lemma_field_of(data, pos, enc);

            let c = u32_bytes(items.len() as u32, e);
            let body = join(list_parts(t, items, e))->Ok_0;
            lemma_u32_round_trip(items.len() as u32, e);
            assert(enc == (seq![t] + c) + body);
            lemma_holds_split(data, pos, seq![t] + c, body);
            lemma_holds_split(data, pos, seq![t], c);
            assert(data[pos] == t) by {
                assert(data.subrange(pos, pos + 1)[0] == t);
            }
            lemma_count_round_trip(items.len(), e, data, pos + 1);
            let v = v;
            assert(v->List_1 == items);
            assert forall|j: int| 0 <= j < items.len() implies #[trigger] well_formed(items[j]) by {
                lemma_wf_item(v, j);
            }
            assert(list_parts(t, items, e).subrange(0, items.len() as int) =~= list_parts(t, items, e));
            lemma_items_round_trip(t, items, e, data, pos + 5, 0);
            assert(items.subrange(0, items.len() as int) =~= items);
            assert(list_parts(t, items, e).subrange(0, items.len() as int) =~= list_parts(t, items, e));
        }

#[verifier::rlimit(40)]
proof fn lemma_compound_round_trip(v: Tag, e: Endian, data: Seq<u8>, pos: int)
    requires
        v is Compound,
        well_formed(v),
        encode_tag(v, e) is Ok,
        holds_at(data, pos, encode_tag(v, e)->Ok_0),
    ensures
        parse_tag(data, pos, 10, e) == Ok::<(Tag, int), NbtError>(
            (v, pos + encode_tag(v, e)->Ok_0.len()),
        ),
    decreases v, 1int,
{
    let entries = v->Compound_0;
    let enc = encode_tag(v, e)->Ok_0;
    lemma_field_of(data, pos, enc);

            let body = join(entry_parts(entries, e))->Ok_0;
            lemma_holds_split(data, pos, body, seq![0u8]);
            assert(entries.subrange(0, 0) =~= Seq::<(Seq<char>, Tag)>::empty());
            assert(entry_parts(entries, e).subrange(0, entries.len() as int) =~= entry_parts(entries, e));
            let v = v;
            assert(v->Compound_0 == entries);
            assert forall|j: int| 0 <= j < entries.len() implies #[trigger] well_formed(entries[j].1) by {
                lemma_wf_entry(v, j);
            }
            lemma_entries_round_trip(entries, e, data, pos, 0);
        }

/// Decoding the encodings of the list items from index `i` on gives them back.
#[verifier::rlimit(60)]
proof fn lemma_items_round_trip(t: u8, items: Seq<Tag>, e: Endian, data: Seq<u8>, pos: int, i: int)
    requires
        0 <= i <= items.len(),
        forall|j: int| 0 <= j < items.len() ==> #[trigger] well_formed(items[j]),
        join(list_parts(t, items, e).subrange(i, items.len() as int)) is Ok,
        holds_at(data, pos, join(list_parts(t, items, e).subrange(i, items.len() as int))->Ok_0),
    ensures
        parse_items(data, pos, t, (items.len() - i) as nat, e) == Ok::<(Seq<Tag>, int), NbtError>(
            (
                items.subrange(i, items.len() as int),
                pos + join(list_parts(t, items, e).subrange(i, items.len() as int))->Ok_0.len(),
            ),
        ),
    decreases items, items.len() - i,
{
    let n = items.len() as int;
    let parts = list_parts(t, items, e);
    let rest = parts.subrange(i, n);
    if i == n {
        assert(items.subrange(n, n) =~= Seq::<Tag>::empty());
    } else {
        assert(rest[0] == parts[i]);
        assert(rest.drop_first() =~= parts.subrange(i + 1, n));
        let b = encode_tag(items[i], e)->Ok_0;
        let tail = join(parts.subrange(i + 1, n))->Ok_0;
        assert(type_of(items[i]) == t);
        lemma_holds_split(data, pos, b, tail);
        if t == 0 {
            assert forall|j: int| i <= j < n implies items[j] == Tag::End by {
                lemma_join_ok_at(parts, i, j);
            }
            assert(items.subrange(i, n) =~= Seq::new((n - i) as nat, |j: int| Tag::End));
            lemma_join_empty_parts(t, items, e, i);
        } else {
            lemma_tag_round_trip(items[i], e, data, pos);
            lemma_parse_tag_bounds(data, pos, t, e);
            lemma_items_round_trip(t, items, e, data, pos + b.len(), i + 1);
            assert(seq![items[i]] + items.subrange(i + 1, n) =~= items.subrange(i, n));
        }
    }
}

/// In a join that succeeded, every part succeeded.
proof fn lemma_join_ok_at(parts: Seq<Result<Seq<u8>, NbtError>>, i: int, j: int)
    requires
        0 <= i <= j < parts.len(),
        join(parts.subrange(i, parts.len() as int)) is Ok,
    ensures
        parts[j] is Ok,
    decreases j - i,
{
    let rest = parts.subrange(i, parts.len() as int);
    assert(rest[0] == parts[i]);
    if j > i {
        assert(rest.drop_first() =~= parts.subrange(i + 1, parts.len() as int));
        lemma_join_ok_at(parts, i + 1, j);
    }
}

/// The items of a list of End encode to nothing.
proof fn lemma_join_empty_parts(t: u8, items: Seq<Tag>, e: Endian, i: int)
    requires
        t == 0,
        0 <= i <= items.len(),
        join(list_parts(t, items, e).subrange(i, items.len() as int)) is Ok,
    ensures
        join(list_parts(t, items, e).subrange(i, items.len() as int))->Ok_0 == Seq::<u8>::empty(),
    decreases items.len() - i,
{
    let parts = list_parts(t, items, e);
    let n = items.len() as int;
    if i < n {
        let rest = parts.subrange(i, n);
        assert(rest[0] == parts[i]);
        assert(rest.drop_first() =~= parts.subrange(i + 1, n));
        lemma_join_empty_parts(t, items, e, i + 1);
        assert(Seq::<u8>::empty() + Seq::<u8>::empty() =~= Seq::<u8>::empty());
    }
}

/// Decoding the encodings of the compound entries from index `i` on, after
/// the entries before `i` were gathered, gives all the entries back.
#[verifier::rlimit(60)]
proof fn lemma_entries_round_trip(entries: Entries, e: Endian, data: Seq<u8>, pos: int, i: int)
    requires
        0 <= i <= entries.len(),
        keys_unique(entries),
        forall|j: int| 0 <= j < entries.len() ==> #[trigger] well_formed(entries[j].1),
        join(entry_parts(entries, e).subrange(i, entries.len() as int)) is Ok,
        holds_at(
            data,
            pos,
            join(entry_parts(entries, e).subrange(i, entries.len() as int))->Ok_0 + seq![0u8],
        ),
    ensures
        parse_entries(data, pos, entries.subrange(0, i), e) == Ok::<(Entries, int), NbtError>(
            (
                entries,
                pos + join(entry_parts(entries, e).subrange(i, entries.len() as int))->Ok_0.len() + 1,
            ),
        ),
    decreases entries, entries.len() - i,
{
    let n = entries.len() as int;
    let parts = entry_parts(entries, e);
    let rest = parts.subrange(i, n);
    let whole = join(rest)->Ok_0;
    lemma_holds_split(data, pos, whole, seq![0u8]);
    if i == n {
        assert(entries.subrange(0, n) =~= entries);
        assert(data[pos + whole.len()] == 0u8) by {
            assert(data.subrange(pos + whole.len(), pos + whole.len() + 1)[0] == 0u8);
        }
        assert(whole.len() == 0);
    } else {
        assert(rest[0] == parts[i]);
        assert(rest.drop_first() =~= parts.subrange(i + 1, n));
        let (k, v) = entries[i];
        let kb = string_bytes(k, e)->Ok_0;
        let vb = encode_tag(v, e)->Ok_0;
        let part = (seq![type_of(v)] + kb) + vb;
        let tail = join(parts.subrange(i + 1, n))->Ok_0;
        assert(whole + seq![0u8] == part + (tail + seq![0u8]));
        lemma_holds_split(data, pos, part, tail + seq![0u8]);
        lemma_holds_split(data, pos, seq![type_of(v)] + kb, vb);
        lemma_holds_split(data, pos, seq![type_of(v)], kb);
        assert(data[pos] == type_of(v)) by {
            assert(data.subrange(pos, pos + 1)[0] == type_of(v));
        }
        assert(type_of(v) != 0);
        lemma_string_round_trip(k, e, data, pos + 1);
        lemma_tag_round_trip(v, e, data, pos + 1 + kb.len());
        let prefix = entries.subrange(0, i);
        assert forall|j: int| 0 <= j < prefix.len() implies prefix[j].0 != k by {}
        assert(keys_unique(prefix));
        lemma_insert_fresh(prefix, k, v);
        assert(prefix.push((k, v)) =~= entries.subrange(0, i + 1));
        lemma_entries_round_trip(entries, e, data, pos + part.len(), i + 1);
    }
}

/// Reading back what was written gives the value back: for every well-formed
/// value that the format can hold and either byte order, decoding the encoding
/// as a value of the same type returns that value and consumes every byte.
/// Every value that `NbtWriter::write_tag` accepts meets both conditions: its
/// compounds keep names unique by their type invariant.
pub proof fn lemma_read_write_round_trip(v: Tag, e: Endian)
    requires
        well_formed(v),
        encode_tag(v, e) is Ok,
    ensures
        parse_tag(encode_tag(v, e)->Ok_0, 0, type_of(v), e) == Ok::<(Tag, int), NbtError>(
            (v, encode_tag(v, e)->Ok_0.len() as int),
        ),
{
    let b = encode_tag(v, e)->Ok_0;
    assert(b.subrange(0, b.len() as int) =~= b);
    lemma_tag_round_trip(v, e, b, 0);
}

/// The entries `sel` hold exactly the names of `full` that are in `wanted`,
/// with the same values.
pub open spec fn restricted(sel: Entries, full: Entries, wanted: Set<Seq<char>>) -> bool {
    forall|k: Seq<char>| #[trigger]
        lookup(sel, k) == (if wanted.contains(k) {
            lookup(full, k)
        } else {
            None
        })
}

/// Selective reading agrees with full reading: on a compound body that decodes
/// in full, reading only the names in `wanted` succeeds, stops at the same
/// position, and yields for each name in `wanted` the value of the full
/// decoding and no other name.
pub proof fn lemma_selective_parity(data: Seq<u8>, pos: int, wanted: Set<Seq<char>>, e: Endian)
    requires
        0 <= pos <= data.len(),
        parse_entries(data, pos, Seq::empty(), e) is Ok,
    ensures
        parse_selective(data, pos, wanted, Seq::empty(), e) is Ok,
        parse_selective(data, pos, wanted, Seq::empty(), e)->Ok_0.1 == parse_entries(
            data,
            pos,
            Seq::empty(),
            e,
        )->Ok_0.1,
        restricted(
            parse_selective(data, pos, wanted, Seq::empty(), e)->Ok_0.0,
            parse_entries(data, pos, Seq::empty(), e)->Ok_0.0,
            wanted,
        ),
{
    lemma_selective_step(data, pos, wanted, Seq::empty(), Seq::empty(), e);
}

proof fn lemma_selective_step(
    data: Seq<u8>,
    pos: int,
    wanted: Set<Seq<char>>,
    sel: Entries,
    full: Entries,
    e: Endian,
)
    requires
        0 <= pos <= data.len(),
        parse_entries(data, pos, full, e) is Ok,
        restricted(sel, full, wanted),
    ensures
        parse_selective(data, pos, wanted, sel, e) is Ok,
        parse_selective(data, pos, wanted, sel, e)->Ok_0.1 == parse_entries(data, pos, full, e)->Ok_0.1,
        restricted(
            parse_selective(data, pos, wanted, sel, e)->Ok_0.0,
            parse_entries(data, pos, full, e)->Ok_0.0,
            wanted,
        ),
    decreases data.len() - pos,
{
    if data[pos] != 0 {
        let t = data[pos];
        let (name, p) = parse_string(data, pos + 1, e)->Ok_0;
        let (v, q) = parse_tag(data, p, t, e)->Ok_0;
        let full2 = insert_entry(full, name, v);
        if wanted.contains(name) {
            let sel2 = insert_entry(sel, name, v);
            assert forall|k: Seq<char>| #[trigger]
                lookup(sel2, k) == (if wanted.contains(k) {
                    lookup(full2, k)
                } else {
                    None
                }) by {
                lemma_lookup_insert(sel, name, v, k);
                lemma_lookup_insert(full, name, v, k);
                assert(lookup(sel, k) == (if wanted.contains(k) { lookup(full, k) } else { None }));
            }
            lemma_selective_step(data, q, wanted, sel2, full2, e);
        } else {
            lemma_skip_matches_parse(data, p, t, e);
            assert forall|k: Seq<char>| #[trigger]
                lookup(sel, k) == (if wanted.contains(k) {
                    lookup(full2, k)
                } else {
                    None
                }) by {
                lemma_lookup_insert(full, name, v, k);
                assert(lookup(sel, k) == (if wanted.contains(k) { lookup(full, k) } else { None }));
            }
            lemma_selective_step(data, q, wanted, sel, full2, e);
        }
    }
}

/// A document reads back as written: for a well-formed compound root that the
/// format can hold and a root name of at most 65535 UTF-8 bytes, decoding the
/// uncompressed bytes of the document gives the same name and root.
pub proof fn lemma_document_round_trip(name: Seq<char>, root: Tag)
    requires
        root is Compound,
        well_formed(root),
        document_bytes(name, root) is Ok,
    ensures
        document_of(document_bytes(name, root)->Ok_0, Endian::Big, Seq::empty()) == Ok::<
            (Seq<char>, Tag),
            NbtError,
        >((name, root)),
{
    let b = document_bytes(name, root)->Ok_0;
    let nb = string_bytes(name, Endian::Big)->Ok_0;
    let vb = encode_tag(root, Endian::Big)->Ok_0;
    assert(b == (seq![10u8] + nb) + vb);
    assert(b.subrange(0, b.len() as int) =~= b);
    lemma_holds_split(b, 0, seq![10u8] + nb, vb);
    lemma_holds_split(b, 0, seq![10u8], nb);
    assert(b[0] == 10u8) by {
        assert(b.subrange(0, 1)[0] == b[0]);
    }
    lemma_string_round_trip(name, Endian::Big, b, 1);
    lemma_tag_round_trip(root, Endian::Big, b, 1 + nb.len() as int);
}

} // verus!
