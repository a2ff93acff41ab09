use vstd::prelude::*;
use crate::bytes::{u16_be, u16_bytes, u32_be, u32_bytes, u64_be, u64_bytes, Endian};
use crate::error::NbtError;
use crate::format::{
    after, count_bytes, encode_tag, entry_parts, ints_bytes, join, list_parts, longs_bytes,
    string_bytes, MAX_COUNT, MAX_STRING_BYTES,
};
use crate::tag::{keys_unique, tags_view, type_of, CompoundMap, NbtTag, Tag};
use crate::laws::{lemma_entries_wf_intro, lemma_items_wf_intro, well_formed};

verus! {

fn put_u16(out: &mut Vec<u8>, v: u16, e: Endian)
    ensures
        final(out)@ == old(out)@ + u16_bytes(v, e),
{
    let b0 = (v >> 8u16) as u8;
    let b1 = v as u8;
    assert(u16_be(v) == seq![b0, b1]);
    assert(seq![b0, b1].reverse() =~= seq![b1, b0]);
    match e {
        Endian::Big => {
            out.push(b0);
            out.push(b1);
        },
        Endian::Little => {
            out.push(b1);
            out.push(b0);
        },
    }
    assert(final(out)@ =~= old(out)@ + u16_bytes(v, e));
}

pub(crate) fn put_u32(out: &mut Vec<u8>, v: u32, e: Endian)
    ensures
        final(out)@ == old(out)@ + u32_bytes(v, e),
{
    let b0 = (v >> 24u32) as u8;
    let b1 = (v >> 16u32) as u8;
    let b2 = (v >> 8u32) as u8;
    let b3 = v as u8;
    assert(u32_be(v) == seq![b0, b1, b2, b3]);
    assert(seq![b0, b1, b2, b3].reverse() =~= seq![b3, b2, b1, b0]);
    match e {
        Endian::Big => {
            out.push(b0);
            out.push(b1);
            out.push(b2);
            out.push(b3);
        },
        Endian::Little => {
            out.push(b3);
            out.push(b2);
            out.push(b1);
            out.push(b0);
        },
    }
    assert(final(out)@ =~= old(out)@ + u32_bytes(v, e));
}

fn put_u64(out: &mut Vec<u8>, v: u64, e: Endian)
    ensures
        final(out)@ == old(out)@ + u64_bytes(v, e),
{
    let b0 = (v >> 56u64) as u8;
    let b1 = (v >> 48u64) as u8;
    let b2 = (v >> 40u64) as u8;
    let b3 = (v >> 32u64) as u8;
    let b4 = (v >> 24u64) as u8;
    let b5 = (v >> 16u64) as u8;
    let b6 = (v >> 8u64) as u8;
    let b7 = v as u8;
    assert(u64_be(v) == seq![b0, b1, b2, b3, b4, b5, b6, b7]);
    assert(seq![b0, b1, b2, b3, b4, b5, b6, b7].reverse() =~= seq![b7, b6, b5, b4, b3, b2, b1, b0]);
    match e {
        Endian::Big => {
            out.push(b0);
            out.push(b1);
            out.push(b2);
            out.push(b3);
            out.push(b4);
            out.push(b5);
            out.push(b6);
            out.push(b7);
        },
        Endian::Little => {
            out.push(b7);
            out.push(b6);
            out.push(b5);
            out.push(b4);
            out.push(b3);
            out.push(b2);
            out.push(b1);
            out.push(b0);
        },
    }
    assert(final(out)@ =~= old(out)@ + u64_bytes(v, e));
}

/// An exec encoding outcome and the encoding that the format defines agree.
pub open spec fn emitted(r: Result<(), NbtError>, before: Seq<u8>, now: Seq<u8>, s: Result<Seq<u8>, NbtError>) -> bool {
    match s {
        Ok(b) => r is Ok && now == before + b,
        Err(err) => r == Err::<(), NbtError>(err),
    }
}

pub(crate) fn put_bytes(out: &mut Vec<u8>, b: &[u8])
    ensures
        final(out)@ == old(out)@ + b@,
{
    let mut i: usize = 0;
    while i < b.len()
        invariant
            i <= b@.len(),
            out@ == old(out)@ + b@.subrange(0, i as int),
        decreases b@.len() - i,
    {
        out.push(b[i]);
        i += 1;
        assert(out@ =~= old(out)@ + b@.subrange(0, i as int));
    }
    assert(b@.subrange(0, b@.len() as int) =~= b@);
}

fn emit_string(out: &mut Vec<u8>, s: &str, e: Endian) -> (r: Result<(), NbtError>)
    ensures
        emitted(r, old(out)@, final(out)@, string_bytes(s@, e)),
{
    let b = s.as_bytes();
    if b.len() > MAX_STRING_BYTES {
        return Err(NbtError::InvalidStringLength(b.len()));
    }
    put_u16(out, b.len() as u16, e);
    put_bytes(out, b);
    assert(final(out)@ =~= old(out)@ + (u16_bytes(b@.len() as u16, e) + b@));
    Ok(())
}

fn emit_count(out: &mut Vec<u8>, n: usize, e: Endian) -> (r: Result<(), NbtError>)
    ensures
        emitted(r, old(out)@, final(out)@, count_bytes(n as nat, e)),
{
    if n > MAX_COUNT {
        return Err(NbtError::InvalidArrayLength(n));
    }
    put_u32(out, n as u32, e);
    Ok(())
}

fn emit_tag(out: &mut Vec<u8>, v: &NbtTag, e: Endian) -> (r: Result<(), NbtError>)
    ensures
        emitted(r, old(out)@, final(out)@, encode_tag(v@, e)),
        r is Ok ==> well_formed(v@),
    decreases v, 1int,
{
    match v {
        NbtTag::End => {
            assert(out@ =~= out@ + Seq::<u8>::empty());
            Ok(())
        },
        NbtTag::Byte(x) => {
            out.push(*x as u8);
            assert(out@ =~= old(out)@ + seq![*x as u8]);
            Ok(())
        },
        NbtTag::Short(x) => {
            put_u16(out, *x as u16, e);
            Ok(())
        },
        NbtTag::Int(x) => {
            put_u32(out, *x as u32, e);
            Ok(())
        },
        NbtTag::Long(x) => {
            put_u64(out, *x as u64, e);
            Ok(())
        },
        NbtTag::Float(x) => {
            put_u32(out, *x, e);
            Ok(())
        },
        NbtTag::Double(x) => {
            put_u64(out, *x, e);
            Ok(())
        },
        NbtTag::String(s) => emit_string(out, s.as_str(), e),
        NbtTag::ByteArray(a) => emit_byte_array(out, a.as_slice(), e),
        NbtTag::IntArray(a) => emit_int_array(out, a.as_slice(), e),
        NbtTag::LongArray(a) => emit_long_array(out, a.as_slice(), e),
        NbtTag::List { tag_type, items } => {
            assert(v@->List_1 =~= tags_view(items@));
            emit_list(out, *tag_type, items, e)
        },
        NbtTag::Compound(m) => emit_compound(out, m, e),
    }
}


fn emit_int_array(out: &mut Vec<u8>, a: &[i32], e: Endian) -> (r: Result<(), NbtError>)
    ensures
        emitted(r, old(out)@, final(out)@, encode_tag(Tag::IntArray(a@), e)),
{
    match emit_count(out, a.len(), e) {
        Ok(()) => {},
        Err(err) => {
            return Err(err);
        },
    }
    let ghost start = out@;
    let ghost w: Seq<u8> = Seq::empty();
    assert(a@.subrange(0, a@.len() as int) =~= a@);
    assert(w + ints_bytes(a@, e) =~= ints_bytes(a@, e));
    let mut i: usize = 0;
    while i < a.len()
        invariant
            i <= a@.len(),
            out@ == start + w,
            ints_bytes(a@, e) == w + ints_bytes(a@.subrange(i as int, a@.len() as int), e),
        decreases a@.len() - i,
    {
        proof {
            let rest = a@.subrange(i as int, a@.len() as int);
            assert(rest.drop_first() =~= a@.subrange(i + 1, a@.len() as int));
            assert(w + (u32_bytes(a@[i as int] as u32, e) + ints_bytes(rest.drop_first(), e)) =~= (w
                + u32_bytes(a@[i as int] as u32, e)) + ints_bytes(rest.drop_first(), e));
            w = w + u32_bytes(a@[i as int] as u32, e);
        }
        put_u32(out, a[i] as u32, e);
        i += 1;
    }
    assert(a@.subrange(a@.len() as int, a@.len() as int) =~= Seq::<i32>::empty());
    assert(w + Seq::<u8>::empty() =~= w);
    assert(final(out)@ =~= old(out)@ + (u32_bytes(a@.len() as u32, e) + ints_bytes(a@, e)));
    Ok(())
}

fn emit_long_array(out: &mut Vec<u8>, a: &[i64], e: Endian) -> (r: Result<(), NbtError>)
    ensures
        emitted(r, old(out)@, final(out)@, encode_tag(Tag::LongArray(a@), e)),
{
    match emit_count(out, a.len(), e) {
        Ok(()) => {},
        Err(err) => {
            return Err(err);
        },
    }
    let ghost start = out@;
    let ghost w: Seq<u8> = Seq::empty();
    assert(a@.subrange(0, a@.len() as int) =~= a@);
    assert(w + longs_bytes(a@, e) =~= longs_bytes(a@, e));
    let mut i: usize = 0;
    while i < a.len()
        invariant
            i <= a@.len(),
            out@ == start + w,
            longs_bytes(a@, e) == w + longs_bytes(a@.subrange(i as int, a@.len() as int), e),
        decreases a@.len() - i,
    {
        proof {
            let rest = a@.subrange(i as int, a@.len() as int);
            assert(rest.drop_first() =~= a@.subrange(i + 1, a@.len() as int));
            assert(w + (u64_bytes(a@[i as int] as u64, e) + longs_bytes(rest.drop_first(), e)) =~= (w
                + u64_bytes(a@[i as int] as u64, e)) + longs_bytes(rest.drop_first(), e));
            w = w + u64_bytes(a@[i as int] as u64, e);
        }
        put_u64(out, a[i] as u64, e);
        i += 1;
    }
    assert(a@.subrange(a@.len() as int, a@.len() as int) =~= Seq::<i64>::empty());
    assert(w + Seq::<u8>::empty() =~= w);
    assert(final(out)@ =~= old(out)@ + (u32_bytes(a@.len() as u32, e) + longs_bytes(a@, e)));
    Ok(())
}

fn emit_list(out: &mut Vec<u8>, t: u8, items: &Vec<NbtTag>, e: Endian) -> (r: Result<(), NbtError>)
    ensures
        emitted(r, old(out)@, final(out)@, encode_tag(Tag::List(t, tags_view(items@)), e)),
        r is Ok ==> well_formed(Tag::List(t, tags_view(items@))),
    decreases items, 0int,
{
    if items.len() > MAX_COUNT {
        return Err(NbtError::InvalidArrayLength(items.len()));
    }
    out.push(t);
    put_u32(out, items.len() as u32, e);
    let ghost start = out@;
    let ghost parts = list_parts(t, tags_view(items@), e);
    let ghost n = items@.len() as int;
    let ghost w: Seq<u8> = Seq::empty();
    assert(parts.subrange(0, n) =~= parts);
    let mut i: usize = 0;
    while i < items.len()
        invariant
            i <= n,
            n == items@.len(),
            n <= MAX_COUNT,
            parts == list_parts(t, tags_view(items@), e),
            parts.len() == n,
            out@ == start + w,
            join(parts) == after(w, join(parts.subrange(i as int, n))),
            forall|j: int| 0 <= j < i ==> #[trigger] well_formed(tags_view(items@)[j]),
        decreases n - i,
    {
        let item = &items[i];
        assert(tags_view(items@)[i as int] == item@);
        assert(parts[i as int] == (if type_of(item@) != t {
            Err(NbtError::ListTypeMismatch { expected: t, found: type_of(item@) })
        } else {
            encode_tag(item@, e)
        }));
        assert(parts.subrange(i as int, n)[0] == parts[i as int]);
        assert(parts.subrange(i as int, n).drop_first() =~= parts.subrange(i + 1, n));
        let found = item.type_id();
        if found != t {
            return Err(NbtError::ListTypeMismatch { expected: t, found });
        }
        match emit_tag(out, item, e) {
            Ok(()) => {
                proof {
                    let b = encode_tag(item@, e)->Ok_0;
                    let tail = join(parts.subrange(i + 1, n));
                    if let Ok(tb) = tail {
                        assert(w + (b + tb) =~= (w + b) + tb);
                    }
                    w = w + b;
                }
            },
            Err(err) => {
                return Err(err);
            },
        }
        i += 1;
    }
    assert(w + Seq::<u8>::empty() =~= w);
    assert(final(out)@ =~= old(out)@ + ((seq![t] + u32_bytes(n as u32, e)) + w));
    proof {
        lemma_items_wf_intro(tags_view(items@), 0);
    }
    Ok(())
}

fn emit_compound(out: &mut Vec<u8>, m: &CompoundMap, e: Endian) -> (r: Result<(), NbtError>)
    ensures
        emitted(r, old(out)@, final(out)@, encode_tag(Tag::Compound(m@), e)),
        r is Ok ==> well_formed(Tag::Compound(m@)),
    decreases m, 0int,
{
    let ghost start = out@;
    let ghost parts = entry_parts(m@, e);
    let ghost n = m.entries@.len() as int;
    let ghost w: Seq<u8> = Seq::empty();
    assert(parts.subrange(0, n) =~= parts);
    let mut i: usize = 0;
    while i < m.entries.len()
        invariant
            i <= n,
            n == m.entries@.len(),
            parts == entry_parts(m@, e),
            parts.len() == n,
            m@.len() == n,
            out@ == start + w,
            join(parts) == after(w, join(parts.subrange(i as int, n))),
            forall|j: int| 0 <= j < i ==> #[trigger] well_formed(m@[j].1),
        decreases n - i,
    {
        let key = &m.entries[i].0;
        let item = &m.entries[i].1;
        assert(m@[i as int] == (key@, item@));
        assert(parts.subrange(i as int, n)[0] == parts[i as int]);
        assert(parts.subrange(i as int, n).drop_first() =~= parts.subrange(i + 1, n));
        let ghost before = out@;
        let found = item.type_id();
        if found == 0 {
            return Err(NbtError::InvalidTagType(0));
        }
        out.push(found);
        match emit_string(out, key.as_str(), e) {
            Ok(()) => {},
            Err(err) => {
                return Err(err);
            },
        }
        match emit_tag(out, item, e) {
            Ok(()) => {
                proof {
                    let kb = string_bytes(key@, e)->Ok_0;
                    let b = encode_tag(item@, e)->Ok_0;
                    let part = (seq![found] + kb) + b;
                    assert(out@ =~= before + part);
                    let tail = join(parts.subrange(i + 1, n));
                    if let Ok(tb) = tail {
                        assert(w + (part + tb) =~= (w + part) + tb);
                    }
                    w = w + part;
                }
            },
            Err(err) => {
                return Err(err);
            },
        }
        i += 1;
    }
    out.push(0u8);
    assert(w + Seq::<u8>::empty() =~= w);
    assert(final(out)@ =~= old(out)@ + (w + seq![0u8]));
    proof {
        use_type_invariant(m);
        assert(keys_unique(m@));
        lemma_entries_wf_intro(m@, 0);
        assert(well_formed(Tag::Compound(m@)));
    }
    Ok(())
}

fn emit_byte_array(out: &mut Vec<u8>, a: &[i8], e: Endian) -> (r: Result<(), NbtError>)
    ensures
        emitted(r, old(out)@, final(out)@, encode_tag(Tag::ByteArray(a@), e)),
{
    match emit_count(out, a.len(), e) {
        Ok(()) => {},
        Err(err) => {
            return Err(err);
        },
    }
    let ghost start = out@;
    let mut i: usize = 0;
    while i < a.len()
        invariant
            i <= a@.len(),
            out@ == start + Seq::new(i as nat, |j: int| a@[j] as u8),
        decreases a@.len() - i,
    {
        out.push(a[i] as u8);
        i += 1;
        assert(out@ =~= start + Seq::new(i as nat, |j: int| a@[j] as u8));
    }
    assert(final(out)@ =~= old(out)@ + (u32_bytes(a@.len() as u32, e) + Seq::new(
        a@.len(),
        |j: int| a@[j] as u8,
    )));
    Ok(())
}

/// Encodes tags into a growing buffer in a fixed byte order.
pub struct NbtWriter {
    buffer: Vec<u8>,
    endian: Endian,
}

impl NbtWriter {
    /// The bytes written so far.
    pub closed spec fn written(&self) -> Seq<u8> {
        self.buffer@
    }

    /// The byte order of multi-byte values.
    pub closed spec fn spec_endian(&self) -> Endian {
        self.endian
    }

    /// After a call that returned `r`, the buffer has grown by what the format
    /// gives for `s`; after an error it is unchanged.
    pub open spec fn grew(&self, old_w: &Self, r: Result<(), NbtError>, s: Result<Seq<u8>, NbtError>) -> bool {
        &&& self.spec_endian() == old_w.spec_endian()
        &&& match s {
            Ok(b) => r is Ok && self.written() == old_w.written() + b,
            Err(err) => r == Err::<(), NbtError>(err) && self.written() == old_w.written(),
        }
    }

    /// An empty writer.
    pub fn new(endian: Endian) -> (r: Self)
        ensures
            r.written() == Seq::<u8>::empty(),
            r.spec_endian() == endian,
    {
        NbtWriter { buffer: Vec::new(), endian }
    }

    /// The bytes written.
    pub fn into_bytes(self) -> (r: Vec<u8>)
        ensures
            r@ == self.written(),
    {
        self.buffer
    }

    /// Appends one byte.
    pub fn write_u8(&mut self, value: u8)
        ensures
            final(self).written() == old(self).written().push(value),
            final(self).spec_endian() == old(self).spec_endian(),
    {
        self.buffer.push(value);
    }

    /// Appends one signed byte.
    pub fn write_i8(&mut self, value: i8)
        ensures
            final(self).written() == old(self).written().push(value as u8),
            final(self).spec_endian() == old(self).spec_endian(),
    {
        self.buffer.push(value as u8);
    }

    /// Appends a 16-bit value.
    pub fn write_u16(&mut self, value: u16)
        ensures
            final(self).written() == old(self).written() + u16_bytes(value, old(self).spec_endian()),
            final(self).spec_endian() == old(self).spec_endian(),
    {
        put_u16(&mut self.buffer, value, self.endian);
    }

    /// Appends a signed 16-bit value.
    pub fn write_i16(&mut self, value: i16)
        ensures
            final(self).written() == old(self).written() + u16_bytes(value as u16, old(self).spec_endian()),
            final(self).spec_endian() == old(self).spec_endian(),
    {
        put_u16(&mut self.buffer, value as u16, self.endian);
    }

    /// Appends a 32-bit value.
    pub fn write_u32(&mut self, value: u32)
        ensures
            final(self).written() == old(self).written() + u32_bytes(value, old(self).spec_endian()),
            final(self).spec_endian() == old(self).spec_endian(),
    {
        put_u32(&mut self.buffer, value, self.endian);
    }

    /// Appends a signed 32-bit value.
    pub fn write_i32(&mut self, value: i32)
        ensures
            final(self).written() == old(self).written() + u32_bytes(value as u32, old(self).spec_endian()),
            final(self).spec_endian() == old(self).spec_endian(),
    {
        put_u32(&mut self.buffer, value as u32, self.endian);
    }

    /// Appends a 64-bit value.
    pub fn write_u64(&mut self, value: u64)
        ensures
            final(self).written() == old(self).written() + u64_bytes(value, old(self).spec_endian()),
            final(self).spec_endian() == old(self).spec_endian(),
    {
        put_u64(&mut self.buffer, value, self.endian);
    }

    /// Appends a signed 64-bit value.
    pub fn write_i64(&mut self, value: i64)
        ensures
            final(self).written() == old(self).written() + u64_bytes(value as u64, old(self).spec_endian()),
            final(self).spec_endian() == old(self).spec_endian(),
    {
        put_u64(&mut self.buffer, value as u64, self.endian);
    }

    /// Appends a string: a 16-bit length, then its UTF-8 bytes. A string of
    /// more than 65535 bytes is refused.
    pub fn write_string(&mut self, value: &str) -> (r: Result<(), NbtError>)
        ensures
            final(self).grew(old(self), r, string_bytes(value@, old(self).spec_endian())),
    {
        let mut tmp: Vec<u8> = Vec::new();
        let r = emit_string(&mut tmp, value, self.endian);
        if r.is_ok() {
            self.buffer.append(&mut tmp);
        }
        r
    }

    /// Appends a byte array: a 32-bit count, then the elements.
    pub fn write_byte_array(&mut self, array: &[i8]) -> (r: Result<(), NbtError>)
        ensures
            final(self).grew(old(self), r, encode_tag(Tag::ByteArray(array@), old(self).spec_endian())),
    {
        let mut tmp: Vec<u8> = Vec::new();
        let r = emit_byte_array(&mut tmp, array, self.endian);
        if r.is_ok() {
            self.buffer.append(&mut tmp);
        }
        r
    }

    /// Appends an int array: a 32-bit count, then the elements.
    pub fn write_int_array(&mut self, array: &[i32]) -> (r: Result<(), NbtError>)
        ensures
            final(self).grew(old(self), r, encode_tag(Tag::IntArray(array@), old(self).spec_endian())),
    {
        let mut tmp: Vec<u8> = Vec::new();
        let r = emit_int_array(&mut tmp, array, self.endian);
        if r.is_ok() {
            self.buffer.append(&mut tmp);
        }
        r
    }

    /// Appends a long array: a 32-bit count, then the elements.
    pub fn write_long_array(&mut self, array: &[i64]) -> (r: Result<(), NbtError>)
        ensures
            final(self).grew(old(self), r, encode_tag(Tag::LongArray(array@), old(self).spec_endian())),
    {
        let mut tmp: Vec<u8> = Vec::new();
        let r = emit_long_array(&mut tmp, array, self.endian);
        if r.is_ok() {
            self.buffer.append(&mut tmp);
        }
        r
    }

    /// Appends the encoding of `tag` (without its type id). Values that the
    /// format cannot hold are refused and nothing is written. A value that is
    /// written is well formed, so reading it back gives it again (see
    /// `lemma_read_write_round_trip`).
    pub fn write_tag(&mut self, tag: &NbtTag) -> (r: Result<(), NbtError>)
        ensures
            final(self).grew(old(self), r, encode_tag(tag@, old(self).spec_endian())),
            r is Ok ==> well_formed(tag@),
    {
        let mut tmp: Vec<u8> = Vec::new();
        let r = emit_tag(&mut tmp, tag, self.endian);
        if r.is_ok() {
            self.buffer.append(&mut tmp);
        }
        r
    }
}

} // verus!
