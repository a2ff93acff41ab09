use vstd::prelude::*;
use vstd::utf8::{encode_utf8, encode_utf8_decode_utf8};

verus! {

/// The value that a `NbtTag` denotes: vectors become sequences and
/// strings become sequences of characters.
pub enum Tag {
    End,
    Byte(i8),
    Short(i16),
    Int(i32),
    Long(i64),
    Float(u32),
    Double(u64),
    ByteArray(Seq<i8>),
    String(Seq<char>),
    List(u8, Seq<Tag>),
    Compound(Seq<(Seq<char>, Tag)>),
    IntArray(Seq<i32>),
    LongArray(Seq<i64>),
}

/// The entries of a compound value, in the order in which they are stored.
pub type Entries = Seq<(Seq<char>, Tag)>;

/// The wire discriminant of each variant.
pub open spec fn type_of(t: Tag) -> u8 {
    match t {
        Tag::End => 0,
        Tag::Byte(_) => 1,
        Tag::Short(_) => 2,
        Tag::Int(_) => 3,
        Tag::Long(_) => 4,
        Tag::Float(_) => 5,
        Tag::Double(_) => 6,
        Tag::ByteArray(_) => 7,
        Tag::String(_) => 8,
        Tag::List(_, _) => 9,
        Tag::Compound(_) => 10,
        Tag::IntArray(_) => 11,
        Tag::LongArray(_) => 12,
    }
}

/// Index of the first entry named `k`, or -1 when there is none.
pub open spec fn key_index(s: Entries, k: Seq<char>) -> int
    decreases s.len(),
{
    if s.len() == 0 {
        -1
    } else {
        let i = key_index(s.drop_last(), k);
        if i >= 0 {
            i
        } else if s.last().0 == k {
            s.len() - 1
        } else {
            -1
        }
    }
}

/// The value stored under `k`, if any.
pub open spec fn lookup(s: Entries, k: Seq<char>) -> Option<Tag> {
    let i = key_index(s, k);
    if i >= 0 {
        Some(s[i].1)
    } else {
        None
    }
}

/// Stores `v` under `k`: an entry that holds `k` keeps its place and takes the
/// new value, otherwise the entry goes at the end.
pub open spec fn insert_entry(s: Entries, k: Seq<char>, v: Tag) -> Entries {
    let i = key_index(s, k);
    if i >= 0 {
        s.update(i, (k, v))
    } else {
        s.push((k, v))
    }
}

/// No two entries share a name.
pub open spec fn keys_unique(s: Entries) -> bool {
    forall|i: int, j: int| 0 <= i < j < s.len() ==> s[i].0 != s[j].0
}

/// Storing a value keeps the names unique.
pub proof fn lemma_insert_keeps_unique(s: Entries, k: Seq<char>, v: Tag)
    requires
        keys_unique(s),
    ensures
        keys_unique(insert_entry(s, k, v)),
{
    lemma_key_index(s, k);
    if key_index(s, k) < 0 {
        lemma_insert_fresh(s, k, v);
    }
}

/// What `key_index` returns, stated without recursion.
pub proof fn lemma_key_index(s: Entries, k: Seq<char>)
    ensures
        -1 <= key_index(s, k) < s.len(),
        key_index(s, k) >= 0 ==> s[key_index(s, k)].0 == k,
        forall|j: int| 0 <= j < s.len() && s[j].0 == k ==> key_index(s, k) >= 0 && key_index(s, k) <= j,
    decreases s.len(),
{
    if s.len() > 0 {
        lemma_key_index(s.drop_last(), k);
        assert forall|j: int| 0 <= j < s.len() - 1 implies s.drop_last()[j] == s[j] by {}
    }
}

/// `key_index` is determined by which entries hold the name.
pub proof fn lemma_key_index_same_keys(s: Entries, t: Entries, k: Seq<char>)
    requires
        s.len() == t.len(),
        forall|j: int| 0 <= j < s.len() ==> (s[j].0 == k) == (t[j].0 == k),
    ensures
        key_index(s, k) == key_index(t, k),
{
    lemma_key_index(s, k);
    lemma_key_index(t, k);
}

/// Looking a name up after an insertion.
pub proof fn lemma_lookup_insert(s: Entries, k: Seq<char>, v: Tag, k2: Seq<char>)
    ensures
        lookup(insert_entry(s, k, v), k2) == (if k2 == k {
            Some(v)
        } else {
            lookup(s, k2)
        }),
{
    let s2 = insert_entry(s, k, v);
    lemma_key_index(s, k);
    lemma_key_index(s, k2);
    lemma_key_index(s2, k2);
    let i = key_index(s, k);
    if i >= 0 {
        lemma_key_index_same_keys(s, s2, k2);
    } else {
        let j = key_index(s2, k2);
        if k2 != k {
            assert forall|m: int| 0 <= m < s.len() implies s2[m] == s[m] by {}
            if key_index(s, k2) >= 0 {
                assert(j <= key_index(s, k2));
            }
        }
    }
}

/// Inserting a name that is not present appends an entry and keeps names unique.
pub proof fn lemma_insert_fresh(s: Entries, k: Seq<char>, v: Tag)
    requires
        keys_unique(s),
        forall|j: int| 0 <= j < s.len() ==> s[j].0 != k,
    ensures
        insert_entry(s, k, v) == s.push((k, v)),
        keys_unique(s.push((k, v))),
{
    lemma_key_index(s, k);
}

/// A tree of tags. `Float` and `Double` hold the IEEE-754 bit patterns of
/// their values, which the format stores verbatim.
#[derive(Debug, PartialEq)]
pub enum NbtTag {
    End,
    Byte(i8),
    Short(i16),
    Int(i32),
    Long(i64),
    Float(u32),
    Double(u64),
    ByteArray(Vec<i8>),
    String(String),
    List { tag_type: u8, items: Vec<NbtTag> },
    Compound(CompoundMap),
    IntArray(Vec<i32>),
    LongArray(Vec<i64>),
}

/// A name-to-tag mapping that keeps its entries in insertion order.
#[derive(Debug, PartialEq)]
pub struct CompoundMap {
    pub(crate) entries: Vec<(String, NbtTag)>,
}

impl NbtTag {
    pub open spec fn view(&self) -> Tag
        decreases self,
    {
        match self {
            NbtTag::End => Tag::End,
            NbtTag::Byte(v) => Tag::Byte(*v),
            NbtTag::Short(v) => Tag::Short(*v),
            NbtTag::Int(v) => Tag::Int(*v),
            NbtTag::Long(v) => Tag::Long(*v),
            NbtTag::Float(v) => Tag::Float(*v),
            NbtTag::Double(v) => Tag::Double(*v),
            NbtTag::ByteArray(a) => Tag::ByteArray(a@),
            NbtTag::String(s) => Tag::String(s@),
            NbtTag::List { tag_type, items } => Tag::List(
                *tag_type,
                Seq::new(
                    items.len() as nat,
                    |i: int|
                        if 0 <= i < items.len() {
                            items[i].view()
                        } else {
                            Tag::End
                        },
                ),
            ),
            NbtTag::Compound(m) => Tag::Compound(m.view()),
            NbtTag::IntArray(a) => Tag::IntArray(a@),
            NbtTag::LongArray(a) => Tag::LongArray(a@),
        }
    }
}

impl CompoundMap {
    /// No two entries share a name.
    #[verifier::type_invariant]
    pub(crate) open spec fn unique(&self) -> bool {
        keys_unique(self@)
    }

    pub open(crate) spec fn view(&self) -> Entries
        decreases self, 1int,
    {
        entries_view(self.entries@)
    }
}

/// The entries that a vector of named tags denotes.
pub open(crate) spec fn entries_view(v: Seq<(String, NbtTag)>) -> Entries
    decreases v, 0int,
{
    Seq::new(
        v.len(),
        |i: int|
            if 0 <= i < v.len() {
                (v[i].0@, v[i].1.view())
            } else {
                (Seq::empty(), Tag::End)
            },
    )
}

/// The values of a sequence of tags.
pub open spec fn tags_view(v: Seq<NbtTag>) -> Seq<Tag> {
    v.map_values(|t: NbtTag| t@)
}

/// Whether two strings hold the same characters.
pub fn same_text(a: &str, b: &str) -> (r: bool)
    ensures
        r == (a@ == b@),
{
    let x = a.as_bytes();
    let y = b.as_bytes();
    proof {
        encode_utf8_decode_utf8(a@);
        encode_utf8_decode_utf8(b@);
    }
    if x.len() != y.len() {
        assert(x@ == encode_utf8(a@) && y@ == encode_utf8(b@));
        return false;
    }
    let mut i: usize = 0;
    while i < x.len()
        invariant
            x.len() == y.len(),
            i <= x.len(),
            x@ == encode_utf8(a@),
            y@ == encode_utf8(b@),
            forall|j: int| 0 <= j < i ==> x@[j] == y@[j],
        decreases x.len() - i,
    {
        if x[i] != y[i] {
            return false;
        }
        i += 1;
    }
    assert(x@ =~= y@);
    true
}

impl CompoundMap {
    /// An empty mapping.
    pub fn new() -> (r: Self)
        ensures
            r@ == Seq::<(Seq<char>, Tag)>::empty(),
    {
        let r = CompoundMap { entries: Vec::new() };
        assert(r@ =~= Seq::<(Seq<char>, Tag)>::empty());
        r
    }

    /// Number of entries.
    pub fn len(&self) -> (r: usize)
        ensures
            r == self@.len(),
    {
        self.entries.len()
    }

    /// Whether there is no entry.
    pub fn is_empty(&self) -> (r: bool)
        ensures
            r == (self@.len() == 0),
    {
        self.entries.len() == 0
    }

    /// Index of the entry named `key`, if any.
    fn position(&self, key: &str) -> (r: Option<usize>)
        ensures
            match r {
                Some(i) => i < self@.len() && key_index(self@, key@) == i,
                None => key_index(self@, key@) == -1,
            },
    {
        proof {
            lemma_key_index(self@, key@);
        }
        let mut i: usize = 0;
        while i < self.entries.len()
            invariant
                i <= self.entries.len(),
                self@.len() == self.entries.len(),
                forall|j: int| 0 <= j < i ==> self@[j].0 != key@,
            decreases self.entries.len() - i,
        {
            assert(self@[i as int] == (self.entries@[i as int].0@, self.entries@[i as int].1@));
            if same_text(self.entries[i].0.as_str(), key) {
                proof {
                    lemma_key_index(self@, key@);
                }
                return Some(i);
            }
            i += 1;
        }
        None
    }

    /// The value stored under `key`.
    pub fn get(&self, key: &str) -> (r: Option<&NbtTag>)
        ensures
            match lookup(self@, key@) {
                Some(v) => r matches Some(x) && x@ == v,
                None => r is None,
            },
    {
        match self.position(key) {
            Some(i) => Some(&self.entries[i].1),
            None => None,
        }
    }

    /// Whether an entry is named `key`.
    pub fn contains_key(&self, key: &str) -> (r: bool)
        ensures
            r == (lookup(self@, key@) is Some),
    {
        self.position(key).is_some()
    }

    /// Stores `value` under `key`; an entry already named `key` keeps its
    /// place and takes the new value.
    pub fn insert(&mut self, key: String, value: NbtTag)
        ensures
            final(self)@ == insert_entry(old(self)@, key@, value@),
    {
        proof {
            use_type_invariant(&*self);
        }
        let pos = self.position(key.as_str());
        let ghost before = self@;
        let mut taken = CompoundMap::new();
        std::mem::swap(self, &mut taken);
        let CompoundMap { entries: mut v } = taken;
        match pos {
            Some(i) => {
                v.set(i, (key, value));
            },
            None => {
                v.push((key, value));
            },
        }
        assert(entries_view(v@) =~= insert_entry(before, key@, value@)) by {
            lemma_key_index(before, key@);
        }
        proof {
            lemma_insert_keeps_unique(before, key@, value@);
        }
        let m = CompoundMap { entries: v };
        *self = m;
    }

    /// The names of the entries, in order.
    pub fn keys(&self) -> (r: Vec<String>)
        ensures
            r@.len() == self@.len(),
            forall|i: int| 0 <= i < r@.len() ==> r@[i]@ == self@[i].0,
    {
        let mut out: Vec<String> = Vec::new();
        let mut i: usize = 0;
        while i < self.entries.len()
            invariant
                i <= self.entries.len(),
                self@.len() == self.entries.len(),
                out@.len() == i,
                forall|j: int| 0 <= j < i ==> out@[j]@ == self@[j].0,
            decreases self.entries.len() - i,
        {
            out.push(self.entries[i].0.clone());
            i += 1;
        }
        out
    }

    /// The entry at `index`, in storage order.
    pub fn entry(&self, index: usize) -> (r: Option<(&String, &NbtTag)>)
        ensures
            index < self@.len() ==> (r matches Some((k, v)) && k@ == self@[index as int].0 && v@
                == self@[index as int].1),
            index >= self@.len() ==> r is None,
    {
        if index < self.entries.len() {
            Some((&self.entries[index].0, &self.entries[index].1))
        } else {
            None
        }
    }
}

impl NbtTag {
    /// The wire discriminant of the variant, 0 to 12.
    pub fn type_id(&self) -> (r: u8)
        ensures
            r == type_of(self@),
    {
        match self {
            NbtTag::End => 0,
            NbtTag::Byte(_) => 1,
            NbtTag::Short(_) => 2,
            NbtTag::Int(_) => 3,
            NbtTag::Long(_) => 4,
            NbtTag::Float(_) => 5,
            NbtTag::Double(_) => 6,
            NbtTag::ByteArray(_) => 7,
            NbtTag::String(_) => 8,
            NbtTag::List { .. } => 9,
            NbtTag::Compound(_) => 10,
            NbtTag::IntArray(_) => 11,
            NbtTag::LongArray(_) => 12,
        }
    }
}

/// The characters of a string value; empty for any other variant.
pub open spec fn string_of(t: Tag) -> Seq<char> {
    match t {
        Tag::String(s) => s,
        _ => Seq::empty(),
    }
}

/// The value stored under `key` when `t` is a compound.
pub open spec fn field_of(t: Tag, key: Seq<char>) -> Option<Tag> {
    match t {
        Tag::Compound(entries) => lookup(entries, key),
        _ => None,
    }
}

/// Whether the variant is one of the six numeric ones.
pub open spec fn is_numeric(t: Tag) -> bool {
    1 <= type_of(t) <= 6
}

/// Whether a numeric value differs from zero. A float is zero when all its
/// bits but the sign are clear; NaN is not zero.
pub open spec fn nonzero(t: Tag) -> bool {
    match t {
        Tag::Byte(v) => v != 0,
        Tag::Short(v) => v != 0,
        Tag::Int(v) => v != 0,
        Tag::Long(v) => v != 0,
        Tag::Float(b) => b & 0x7fff_ffffu32 != 0,
        Tag::Double(b) => b & 0x7fff_ffff_ffff_ffffu64 != 0,
        _ => false,
    }
}

impl NbtTag {
    /// A byte value.
    pub fn byte(value: i8) -> (r: NbtTag)
        ensures
            r@ == Tag::Byte(value),
    {
        NbtTag::Byte(value)
    }

    /// An int value.
    pub fn integer(value: i32) -> (r: NbtTag)
        ensures
            r@ == Tag::Int(value),
    {
        NbtTag::Int(value)
    }

    /// A string value.
    pub fn string(value: &str) -> (r: NbtTag)
        ensures
            r@ == Tag::String(value@),
    {
        NbtTag::String(value.to_owned())
    }

    /// An empty compound.
    pub fn compound() -> (r: NbtTag)
        ensures
            r@ == Tag::Compound(Seq::empty()),
    {
        NbtTag::Compound(CompoundMap::new())
    }

    /// An empty list of element type `tag_type`.
    pub fn list(tag_type: u8) -> (r: NbtTag)
        ensures
            r@ == Tag::List(tag_type, Seq::empty()),
    {
        let r = NbtTag::List { tag_type, items: Vec::new() };
        assert(r@->List_1 =~= Seq::<Tag>::empty());
        r
    }

    /// The characters of a string value; empty for any other variant.
    pub fn as_string(&self) -> (r: &str)
        ensures
            r@ == string_of(self@),
    {
        match self {
            NbtTag::String(s) => s.as_str(),
            _ => {
                proof {
                    reveal_strlit("");
                }
                ""
            },
        }
    }

    /// An integer value widened to 64 bits; `None` for any other variant.
    pub fn as_i64(&self) -> (r: Option<i64>)
        ensures
            r == (match self@ {
                Tag::Byte(v) => Some(v as i64),
                Tag::Short(v) => Some(v as i64),
                Tag::Int(v) => Some(v as i64),
                Tag::Long(v) => Some(v),
                _ => None,
            }),
    {
        match self {
            NbtTag::Byte(v) => Some(*v as i64),
            NbtTag::Short(v) => Some(*v as i64),
            NbtTag::Int(v) => Some(*v as i64),
            NbtTag::Long(v) => Some(*v),
            _ => None,
        }
    }

    /// The mapping of a compound value.
    pub fn as_compound(&self) -> (r: Option<&CompoundMap>)
        ensures
            match self@ {
                Tag::Compound(entries) => r matches Some(m) && m@ == entries,
                _ => r is None,
            },
    {
        match self {
            NbtTag::Compound(m) => Some(m),
            _ => None,
        }
    }

    /// The mapping of a compound value, for changing it in place.
    pub fn as_compound_mut(&mut self) -> (r: Option<&mut CompoundMap>)
        ensures
            old(self)@ is Compound <==> r is Some,
            r matches Some(m) ==> old(self)@ == Tag::Compound(m@) && final(self)@ == Tag::Compound(
                final(m)@,
            ),
            r is None ==> *final(self) == *old(self),
    {
        match self {
            NbtTag::Compound(m) => Some(m),
            _ => None,
        }
    }

    /// The element type and the items of a list value, for changing them in place.
    pub fn as_list_mut(&mut self) -> (r: Option<(&mut u8, &mut Vec<NbtTag>)>)
        ensures
            old(self)@ is List <==> r is Some,
            r matches Some((t, v)) ==> old(self)@ == Tag::List(*t, tags_view(v@)) && *final(self)
                == (NbtTag::List { tag_type: *final(t), items: *final(v) }),
            r is None ==> *final(self) == *old(self),
    {
        let ghost before = *self;
        match self {
            NbtTag::List { tag_type, items } => {
                assert(before@->List_1 =~= tags_view(items@));
                Some((tag_type, items))
            },
            _ => None,
        }
    }

    /// The element type and the items of a list value.
    pub fn as_list(&self) -> (r: Option<(&u8, &Vec<NbtTag>)>)
        ensures
            match self@ {
                Tag::List(t, items) => r matches Some((x, v)) && *x == t && tags_view(v@) == items,
                _ => r is None,
            },
    {
        match self {
            NbtTag::List { tag_type, items } => {
                assert(self@->List_1 =~= tags_view(items@));
                Some((tag_type, items))
            },
            _ => None,
        }
    }

    /// Whether the value is one of the numeric variants.
    pub fn is_number(&self) -> (r: bool)
        ensures
            r == is_numeric(self@),
    {
        let t = self.type_id();
        1 <= t && t <= 6
    }

    /// Whether the value is a string.
    pub fn is_string(&self) -> (r: bool)
        ensures
            r == (self@ is String),
    {
        self.type_id() == 8
    }

    /// Whether the value is a compound.
    pub fn is_compound(&self) -> (r: bool)
        ensures
            r == (self@ is Compound),
    {
        self.type_id() == 10
    }

    /// Whether the value is a list.
    pub fn is_list(&self) -> (r: bool)
        ensures
            r == (self@ is List),
    {
        self.type_id() == 9
    }

    /// The value stored under `key` when this is a compound.
    pub fn get(&self, key: &str) -> (r: Option<&NbtTag>)
        ensures
            match field_of(self@, key@) {
                Some(v) => r matches Some(x) && x@ == v,
                None => r is None,
            },
    {
        match self {
            NbtTag::Compound(m) => m.get(key),
            _ => None,
        }
    }

    /// The string stored under `key`; empty when there is none.
    pub fn get_string(&self, key: &str) -> (r: &str)
        ensures
            r@ == (match field_of(self@, key@) {
                Some(v) => string_of(v),
                None => Seq::empty(),
            }),
    {
        match self.get(key) {
            Some(t) => t.as_string(),
            None => {
                proof {
                    reveal_strlit("");
                }
                ""
            },
        }
    }

    /// The integer stored under `key`, widened to 64 bits.
    pub fn get_i64(&self, key: &str) -> (r: Option<i64>)
        ensures
            r == (match field_of(self@, key@) {
                Some(Tag::Byte(v)) => Some(v as i64),
                Some(Tag::Short(v)) => Some(v as i64),
                Some(Tag::Int(v)) => Some(v as i64),
                Some(Tag::Long(v)) => Some(v),
                _ => None,
            }),
    {
        match self.get(key) {
            Some(t) => t.as_i64(),
            None => None,
        }
    }

    /// Whether the number stored under `key` differs from zero; false when
    /// there is no number there.
    pub fn get_bool(&self, key: &str) -> (r: bool)
        ensures
            r == (match field_of(self@, key@) {
                Some(v) => nonzero(v),
                None => false,
            }),
    {
        match self.get(key) {
            Some(NbtTag::Byte(v)) => *v != 0,
            Some(NbtTag::Short(v)) => *v != 0,
            Some(NbtTag::Int(v)) => *v != 0,
            Some(NbtTag::Long(v)) => *v != 0,
            Some(NbtTag::Float(b)) => *b & 0x7fff_ffffu32 != 0,
            Some(NbtTag::Double(b)) => *b & 0x7fff_ffff_ffff_ffffu64 != 0,
            _ => false,
        }
    }

    /// The mapping stored under `key`, when it is a compound.
    pub fn get_compound(&self, key: &str) -> (r: Option<&CompoundMap>)
        ensures
            match field_of(self@, key@) {
                Some(Tag::Compound(entries)) => r matches Some(m) && m@ == entries,
                _ => r is None,
            },
    {
        match self.get(key) {
            Some(t) => t.as_compound(),
            None => None,
        }
    }
}

} // verus!
