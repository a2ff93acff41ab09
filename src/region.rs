use vstd::prelude::*;
use crate::bytes::{u32_bytes, u32_of, Endian};
use crate::compression::{unwrapped, wrapped, CompressionFormat};
use crate::document::{document_bytes, document_of, NbtFile};
use crate::error::NbtError;
use crate::format::field;
use crate::laws::{holds_at, lemma_document_round_trip, lemma_holds_split};
use crate::bytes::lemma_u32_round_trip;
use crate::tag::NbtTag;

verus! {

/// Slots per side of the square grid.
pub const REGION_SIZE: i32 = 32;

/// Slots in a region.
pub const CHUNK_COUNT: usize = 1024;

/// The allocation unit of a region buffer.
pub const SECTOR_SIZE: usize = 4096;

/// The location table and the timestamp table.
pub const HEADER_SIZE: usize = 8192;

/// What a region stores for one slot: compression id, timestamp, payload.
pub type Slot = (u8, u32, Seq<u8>);

/// Whether `(x, z)` addresses a slot.
pub open spec fn valid_xz(x: i32, z: i32) -> bool {
    0 <= x < 32 && 0 <= z < 32
}

/// The envelope that a compression id names; unknown ids are read as zlib.
pub open spec fn format_of_id(id: u8) -> CompressionFormat {
    if id == 1 {
        CompressionFormat::Gzip
    } else if id == 3 {
        CompressionFormat::Raw
    } else {
        CompressionFormat::Zlib
    }
}

/// The compression id of an envelope.
pub open spec fn id_of_format(f: CompressionFormat) -> u8 {
    match f {
        CompressionFormat::Gzip => 1,
        CompressionFormat::Zlib => 2,
        CompressionFormat::Raw => 3,
    }
}

/// The cached document, if any, is what the payload decodes to.
pub open spec fn cache_agrees(payload: Seq<u8>, id: u8, cache: Option<NbtFile>) -> bool {
    match cache {
        None => true,
        Some(f) => payload_document(payload, id) == Some(
            Ok::<(Seq<char>, crate::tag::Tag), NbtError>((f.root_name@, f.root@)),
        ),
    }
}

/// A document's envelope survives the trip through its compression id.
pub proof fn lemma_id_round_trip(f: CompressionFormat)
    ensures
        format_of_id(id_of_format(f)) == f,
{
}

/// What decoding a payload with compression id `id` gives: `None` when the
/// codec refuses it, else the outcome of decoding the big-endian document.
pub open spec fn payload_document(payload: Seq<u8>, id: u8) -> Option<
    Result<(Seq<char>, crate::tag::Tag), NbtError>,
> {
    match unwrapped(payload, format_of_id(id)) {
        None => None,
        Some(b) => Some(document_of(b, Endian::Big, Seq::empty())),
    }
}

/// One slot of a region: its coordinates, its still-compressed payload, and
/// the document decoded from it once asked for.
#[derive(Debug)]
pub struct Chunk {
    /// X coordinate, 0 to 31.
    pub x: i32,
    /// Z coordinate, 0 to 31.
    pub z: i32,
    /// Compression id: 1 gzip, 2 zlib, 3 none.
    pub compression: u8,
    /// Unix timestamp.
    pub timestamp: u32,
    raw_data: Vec<u8>,
    cached_nbt: Option<NbtFile>,
}

impl Chunk {
    /// The X coordinate.
    pub closed spec fn spec_x(&self) -> i32 {
        self.x
    }

    /// The Z coordinate.
    pub closed spec fn spec_z(&self) -> i32 {
        self.z
    }

    /// The coordinates `(x, z)`.
    pub fn position(&self) -> (r: (i32, i32))
        ensures
            r == (self.spec_x(), self.spec_z()),
    {
        (self.x, self.z)
    }

    /// The compression id.
    pub fn compression_id(&self) -> (r: u8)
        ensures
            r == self.slot().0,
    {
        self.compression
    }

    /// The timestamp.
    pub fn get_timestamp(&self) -> (r: u32)
        ensures
            r == self.slot().1,
    {
        self.timestamp
    }

    /// Compression id, timestamp and payload.
    pub closed spec fn slot(&self) -> Slot {
        (self.compression, self.timestamp, self.raw_data@)
    }

    /// The cached document agrees with the payload.
    pub closed spec fn consistent(&self) -> bool {
        cache_agrees(self.raw_data@, self.compression, self.cached_nbt)
    }

    /// Whether `(x, z)` addresses a slot of a region.
    pub fn valid_coordinates(x: i32, z: i32) -> (r: bool)
        ensures
            r == valid_xz(x, z),
    {
        0 <= x && x < 32 && 0 <= z && z < 32
    }

    /// The slot index `x + 32 z` of valid coordinates.
    pub fn coords_to_index(x: i32, z: i32) -> (r: Option<usize>)
        ensures
            valid_xz(x, z) ==> r == Some((x + 32 * z) as usize),
            !valid_xz(x, z) ==> r is None,
    {
        if Self::valid_coordinates(x, z) {
            Some((x + z * 32) as usize)
        } else {
            None
        }
    }

    /// The compression id of an envelope.
    pub fn compression_to_id(format: CompressionFormat) -> (r: u8)
        ensures
            r == id_of_format(format),
    {
        match format {
            CompressionFormat::Gzip => 1,
            CompressionFormat::Zlib => 2,
            CompressionFormat::Raw => 3,
        }
    }

    /// A chunk that holds a still-compressed payload.
    pub fn new(x: i32, z: i32, compression: u8, timestamp: u32, raw_data: Vec<u8>) -> (r: Result<Self, NbtError>)
        ensures
            valid_xz(x, z) ==> (r matches Ok(c) && c.spec_x() == x && c.spec_z() == z && c.slot() == (
                compression,
                timestamp,
                raw_data@,
            ) && c.consistent() && !c.cached_is_some()),
            !valid_xz(x, z) ==> r == Err::<Self, NbtError>(NbtError::InvalidCoordinates { x, z }),
    {
        if !Self::valid_coordinates(x, z) {
            return Err(NbtError::InvalidCoordinates { x, z });
        }
        Ok(Chunk { x, z, compression, timestamp, raw_data, cached_nbt: None })
    }

    /// A chunk that holds `nbt_file`, encoded at once in its own envelope.
    pub fn from_nbt(x: i32, z: i32, nbt_file: NbtFile, timestamp: u32) -> (r: Result<Self, NbtError>)
        ensures
            !valid_xz(x, z) ==> r == Err::<Self, NbtError>(NbtError::InvalidCoordinates { x, z }),
            valid_xz(x, z) ==> match document_bytes(nbt_file.root_name@, nbt_file.root@) {
                Ok(b) => r matches Ok(c) && c.spec_x() == x && c.spec_z() == z && c.slot() == (
                    id_of_format(nbt_file.compression),
                    timestamp,
                    wrapped(b, nbt_file.compression),
                ) && c.consistent() && c.cached_file() == Some(nbt_file),
                Err(err) => r == Err::<Self, NbtError>(err),
            },
    {
        if !Self::valid_coordinates(x, z) {
            return Err(NbtError::InvalidCoordinates { x, z });
        }
        let compression = Self::compression_to_id(nbt_file.compression);
        let raw_data = match nbt_file.write() {
            Ok(v) => v,
            Err(err) => {
                return Err(err);
            },
        };
        proof {
            lemma_id_round_trip(nbt_file.compression);
            lemma_document_round_trip(nbt_file.root_name@, nbt_file.root@);
        }
        Ok(Chunk { x, z, compression, timestamp, raw_data, cached_nbt: Some(nbt_file) })
    }

    /// The envelope of the payload; unknown ids are read as zlib.
    pub fn get_compression(&self) -> (r: CompressionFormat)
        ensures
            r == format_of_id(self.slot().0),
    {
        if self.compression == 1 {
            CompressionFormat::Gzip
        } else if self.compression == 3 {
            CompressionFormat::Raw
        } else {
            CompressionFormat::Zlib
        }
    }

    /// The still-compressed payload.
    pub fn get_raw_data(&self) -> (r: &[u8])
        ensures
            r@ == self.slot().2,
    {
        self.raw_data.as_slice()
    }

    /// Length of the payload.
    pub fn size(&self) -> (r: usize)
        ensures
            r == self.slot().2.len(),
    {
        self.raw_data.len()
    }

    /// The document decoded from the payload, without touching the cache.
    pub fn get_root_immutable(&self) -> (r: Result<NbtTag, NbtError>)
        ensures
            match unwrapped(self.slot().2, format_of_id(self.slot().0)) {
                None => r matches Err(NbtError::Compression(_)),
                Some(b) => match document_of(b, Endian::Big, Seq::empty()) {
                    Ok((name, root)) => r matches Ok(t) && t@ == root,
                    Err(err) => r == Err::<NbtTag, NbtError>(err),
                },
            },
    {
        match NbtFile::read_with_format(self.raw_data.as_slice(), self.get_compression(), Endian::Big, None) {
            Ok(f) => Ok(f.root),
            Err(err) => Err(err),
        }
    }

    /// Decodes the payload into the cache unless a document is cached already.
    /// A failure leaves the chunk as it was.
    pub fn load(&mut self) -> (r: Result<(), NbtError>)
        ensures
            final(self).slot() == old(self).slot(),
            final(self).spec_x() == old(self).spec_x(),
            final(self).spec_z() == old(self).spec_z(),
            old(self).consistent() ==> final(self).consistent(),
            old(self).cached_is_some() ==> r is Ok && *final(self) == *old(self),
            !old(self).cached_is_some() ==> match payload_document(old(self).slot().2, old(self).slot().0) {
                None => r matches Err(NbtError::Compression(_)) && *final(self) == *old(self),
                Some(Ok((name, root))) => r is Ok && (final(self).cached_file() matches Some(f)
                    && f.root@ == root && f.root_name@ == name),
                Some(Err(err)) => r == Err::<(), NbtError>(err) && *final(self) == *old(self),
            },
    {
        if self.cached_nbt.is_none() {
            match NbtFile::read_with_format(self.raw_data.as_slice(), self.get_compression(), Endian::Big, None) {
                Ok(f) => {
                    self.cached_nbt = Some(f);
                },
                Err(err) => {
                    return Err(err);
                },
            }
        }
        Ok(())
    }

    /// The document decoded from the payload, decoded on the first call and
    /// cached for the next ones.
    pub fn get_nbt(&mut self) -> (r: Result<&NbtFile, NbtError>)
        ensures
            final(self).slot() == old(self).slot(),
            final(self).spec_x() == old(self).spec_x(),
            final(self).spec_z() == old(self).spec_z(),
            old(self).consistent() ==> final(self).consistent(),
            old(self).cached_file() matches Some(f) ==> (r matches Ok(x) && *x == f),
            old(self).consistent() ==> match payload_document(old(self).slot().2, old(self).slot().0) {
                None => r matches Err(NbtError::Compression(_)),
                Some(Ok((name, root))) => r matches Ok(x) && x.root@ == root && x.root_name@ == name,
                Some(Err(err)) => r == Err::<&NbtFile, NbtError>(err),
            },
            !old(self).cached_is_some() ==> match payload_document(old(self).slot().2, old(self).slot().0) {
                None => r matches Err(NbtError::Compression(_)),
                Some(Ok((name, root))) => r matches Ok(x) && x.root@ == root && x.root_name@ == name
                    && final(self).cached_file() == Some(*x),
                Some(Err(err)) => r == Err::<&NbtFile, NbtError>(err),
            },
    {
        match self.load() {
            Ok(()) => {},
            Err(err) => {
                return Err(err);
            },
        }
        Ok(self.cached_nbt.as_ref().unwrap())
    }

    /// The root of the cached document, decoding it first if needed.
    pub fn get_root(&mut self) -> (r: Result<&NbtTag, NbtError>)
        ensures
            final(self).slot() == old(self).slot(),
            final(self).spec_x() == old(self).spec_x(),
            final(self).spec_z() == old(self).spec_z(),
            old(self).consistent() ==> final(self).consistent(),
            old(self).cached_root() matches Some(t0) ==> (r matches Ok(t) && *t == t0),
            old(self).consistent() ==> match payload_document(old(self).slot().2, old(self).slot().0) {
                None => r matches Err(NbtError::Compression(_)),
                Some(Ok((name, root))) => r matches Ok(t) && t@ == root,
                Some(Err(err)) => r == Err::<&NbtTag, NbtError>(err),
            },
            !old(self).cached_is_some() ==> match payload_document(old(self).slot().2, old(self).slot().0) {
                None => r matches Err(NbtError::Compression(_)),
                Some(Ok((name, root))) => r matches Ok(t) && t@ == root && final(self).cached_root()
                    == Some(*t),
                Some(Err(err)) => r == Err::<&NbtTag, NbtError>(err),
            },
    {
        match self.load() {
            Ok(()) => {},
            Err(err) => {
                return Err(err);
            },
        }
        Ok(&self.cached_nbt.as_ref().unwrap().root)
    }

    /// The cached document, if one is cached.
    pub closed spec fn cached_file(&self) -> Option<NbtFile> {
        self.cached_nbt
    }

    /// The root of the cached document, if one is cached.
    pub open spec fn cached_root(&self) -> Option<NbtTag> {
        match self.cached_file() {
            Some(f) => Some(f.root),
            None => None,
        }
    }

    /// Whether a document is cached.
    pub open spec fn cached_is_some(&self) -> bool {
        self.cached_file() is Some
    }

    /// Replaces the document: it is encoded into the payload at once and cached.
    pub fn set_nbt(&mut self, nbt_file: NbtFile) -> (r: Result<(), NbtError>)
        ensures
            final(self).spec_x() == old(self).spec_x(),
            final(self).spec_z() == old(self).spec_z(),
            r is Err ==> *final(self) == *old(self),
            match document_bytes(nbt_file.root_name@, nbt_file.root@) {
                Ok(b) => r is Ok && final(self).slot() == (
                    id_of_format(nbt_file.compression),
                    old(self).slot().1,
                    wrapped(b, nbt_file.compression),
                ) && final(self).consistent() && final(self).cached_file() == Some(nbt_file),
                Err(err) => r == Err::<(), NbtError>(err),
            },
    {
        let raw_data = match nbt_file.write() {
            Ok(v) => v,
            Err(err) => {
                return Err(err);
            },
        };
        proof {
            lemma_id_round_trip(nbt_file.compression);
            lemma_document_round_trip(nbt_file.root_name@, nbt_file.root@);
        }
        self.compression = Self::compression_to_id(nbt_file.compression);
        self.raw_data = raw_data;
        self.cached_nbt = Some(nbt_file);
        Ok(())
    }
}

/// The location-table offset (in sectors) stored in bytes 0..3 of slot `i`'s entry.
pub open spec fn location_offset(data: Seq<u8>, i: int) -> int {
    data[4 * i] as int * 65536 + data[4 * i + 1] as int * 256 + data[4 * i + 2] as int
}

/// What a region buffer holds in slot `i`: nothing when its sector count is
/// zero or when any of its reads would pass the end of the buffer.
pub open spec fn slot_at(data: Seq<u8>, i: int) -> Option<Slot> {
    let loc = 4 * i;
    if data[loc + 3] == 0 {
        None
    } else if loc + 4096 + 4 > data.len() {
        None
    } else {
        let ts = u32_of(field(data, loc + 4096, 4), Endian::Big);
        let co = location_offset(data, i) * 4096;
        if co + 5 > data.len() {
            None
        } else {
            let length = u32_of(field(data, co, 4), Endian::Big) as int;
            if length == 0 || co + 4 + length > data.len() {
                None
            } else {
                Some((data[co + 4], ts, data.subrange(co + 5, co + 4 + length)))
            }
        }
    }
}

/// Sectors that a payload of `n` bytes takes with its five-byte frame.
pub open spec fn sectors_of(n: int) -> int {
    (n + 5 + 4095) / 4096
}

pub open spec fn slot_sectors(s: Option<Slot>) -> int {
    match s {
        Some(c) => sectors_of(c.2.len() as int),
        None => 0,
    }
}

/// Sectors taken by the slots before `i`.
pub open spec fn sectors_before(s: Seq<Option<Slot>>, i: int) -> int
    decreases i,
{
    if i <= 0 {
        0
    } else {
        sectors_before(s, i - 1) + slot_sectors(s[i - 1])
    }
}

/// The location entry of slot `i`: sector offset in three bytes, then the sector count.
pub open spec fn location_entry(s: Seq<Option<Slot>>, i: int) -> Seq<u8> {
    match s[i] {
        None => seq![0u8, 0u8, 0u8, 0u8],
        Some(c) => {
            let o = 2 + sectors_before(s, i);
            seq![(o / 65536) as u8, ((o / 256) % 256) as u8, (o % 256) as u8, slot_sectors(s[i]) as u8]
        },
    }
}

/// The timestamp entry of slot `i`.
pub open spec fn timestamp_entry(s: Seq<Option<Slot>>, i: int) -> Seq<u8> {
    match s[i] {
        None => seq![0u8, 0u8, 0u8, 0u8],
        Some(c) => u32_bytes(c.1, Endian::Big),
    }
}

/// A payload framed by its length and compression id, padded to whole sectors.
pub open spec fn block(c: Slot) -> Seq<u8> {
    let n = c.2.len() as int;
    u32_bytes((n + 1) as u32, Endian::Big) + seq![c.0] + c.2 + Seq::new(
        (sectors_of(n) * 4096 - n - 5) as nat,
        |k: int| 0u8,
    )
}

pub open spec fn locations(s: Seq<Option<Slot>>, n: int) -> Seq<u8>
    decreases n,
{
    if n <= 0 {
        Seq::empty()
    } else {
        locations(s, n - 1) + location_entry(s, n - 1)
    }
}

pub open spec fn timestamps(s: Seq<Option<Slot>>, n: int) -> Seq<u8>
    decreases n,
{
    if n <= 0 {
        Seq::empty()
    } else {
        timestamps(s, n - 1) + timestamp_entry(s, n - 1)
    }
}

pub open spec fn blocks(s: Seq<Option<Slot>>, n: int) -> Seq<u8>
    decreases n,
{
    if n <= 0 {
        Seq::empty()
    } else {
        blocks(s, n - 1) + match s[n - 1] {
            Some(c) => block(c),
            None => Seq::empty(),
        }
    }
}

/// Every payload fits the 255 sectors that a location entry can count.
pub open spec fn layout_fits(s: Seq<Option<Slot>>) -> bool {
    forall|i: int| 0 <= i < s.len() ==> #[trigger] slot_sectors(s[i]) <= 255
}

/// The whole region buffer: location table, timestamp table, then the
/// payload blocks of the present slots in index order from sector 2.
pub open spec fn region_bytes(s: Seq<Option<Slot>>) -> Seq<u8> {
    locations(s, 1024) + timestamps(s, 1024) + blocks(s, 1024)
}

/// The 1024 slots of a region, position `x + 32 z`.
#[derive(Debug)]
pub struct Region {
    chunks: Vec<Option<Chunk>>,
}

/// A chunk in slot `i`, if any, has the coordinates `(i % 32, i / 32)`.
pub open spec fn at_home(c: Option<Chunk>, i: int) -> bool {
    c matches Some(k) ==> k.spec_x() as int == i % 32 && k.spec_z() as int == i / 32
}

pub open spec fn slot_of(c: Option<Chunk>) -> Option<Slot> {
    match c {
        Some(k) => Some(k.slot()),
        None => None,
    }
}

impl Region {
    /// The table holds exactly 1024 slots.
    pub closed spec fn has_all_slots(&self) -> bool {
        self.chunks@.len() == 1024
    }

    /// Every slot exists, and each stored chunk carries the coordinates of its slot.
    pub open spec fn wf(&self) -> bool {
        &&& self.has_all_slots()
        &&& forall|i: int| 0 <= i < 1024 ==> #[trigger] at_home(self.chunk_at(i), i)
    }

    /// The slots in index order.
    pub open spec fn slots(&self) -> Seq<Option<Slot>> {
        Seq::new(1024, |i: int| slot_of(self.chunk_at(i)))
    }

    /// The chunk stored in slot `i`.
    pub closed spec fn chunk_at(&self, i: int) -> Option<Chunk> {
        self.chunks@[i]
    }

    /// A region with every slot empty.
    pub fn new() -> (r: Self)
        ensures
            r.wf(),
            r.slots() == Seq::new(1024, |i: int| None::<Slot>),
    {
        let mut chunks: Vec<Option<Chunk>> = Vec::new();
        let mut i: usize = 0;
        while i < 1024
            invariant
                i <= 1024,
                chunks@.len() == i,
                forall|j: int| 0 <= j < i ==> chunks@[j] is None,
            decreases 1024 - i,
        {
            chunks.push(None);
            i += 1;
        }
        let r = Region { chunks };
        assert(r.slots() =~= Seq::new(1024, |i: int| None::<Slot>));
        r
    }

    /// Reads a region buffer. A buffer shorter than the two header sectors is
    /// refused; a slot whose reads would pass the end is left empty.
    pub fn read(data: &[u8]) -> (r: Result<Self, NbtError>)
        ensures
            r matches Ok(g) ==> g.wf(),
            data@.len() < 8192 ==> r matches Err(NbtError::InvalidRegionData(_)),
            data@.len() >= 8192 ==> (r matches Ok(g) && g.slots() == Seq::new(
                1024,
                |i: int| slot_at(data@, i),
            )),
            r matches Ok(g) ==> forall|i: int|
                0 <= i < 1024 ==> #[trigger] at_home(g.chunk_at(i), i),
    {
        if data.len() < HEADER_SIZE {
            return Err(NbtError::region_error("File too small for region header"));
        }
        let mut chunks: Vec<Option<Chunk>> = Vec::new();
        let mut i: usize = 0;
        while i < 1024
            invariant
                i <= 1024,
                data@.len() >= 8192,
                chunks@.len() == i,
                forall|j: int| 0 <= j < i ==> slot_of(#[trigger] chunks@[j]) == slot_at(data@, j),
                forall|j: int| 0 <= j < i ==> at_home(#[trigger] chunks@[j], j),
            decreases 1024 - i,
        {
            chunks.push(read_slot(data, i));
            i += 1;
        }
        let r = Region { chunks };
        assert(r.slots() =~= Seq::new(1024, |i: int| slot_at(data@, i)));
        Ok(r)
    }
}

/// The largest payload whose framed block fits in 255 sectors.
pub const MAX_PAYLOAD: usize = 1044475;

proof fn lemma_sectors_of(n: int)
    requires
        0 <= n,
    ensures
        1 <= sectors_of(n),
        sectors_of(n) * 4096 >= n + 5,
        sectors_of(n) * 4096 - n - 5 < 4096,
        (sectors_of(n) <= 255) == (n <= 1044475),
{
    assert(1 <= sectors_of(n)) by (nonlinear_arith)
        requires
            0 <= n,
            sectors_of(n) == (n + 5 + 4095) / 4096,
    ;
    assert(sectors_of(n) * 4096 >= n + 5 && sectors_of(n) * 4096 - n - 5 < 4096) by (nonlinear_arith)
        requires
            0 <= n,
            sectors_of(n) == (n + 5 + 4095) / 4096,
    ;
    assert((sectors_of(n) <= 255) == (n <= 1044475)) by (nonlinear_arith)
        requires
            0 <= n,
            sectors_of(n) == (n + 5 + 4095) / 4096,
    ;
}

proof fn lemma_sectors_before_bound(s: Seq<Option<Slot>>, i: int)
    requires
        0 <= i <= s.len(),
        layout_fits(s),
    ensures
        0 <= sectors_before(s, i) <= 255 * i,
    decreases i,
{
    if i > 0 {
        lemma_sectors_before_bound(s, i - 1);
        assert(slot_sectors(s[i - 1]) <= 255);
        if let Some(c) = s[i - 1] {
            lemma_sectors_of(c.2.len() as int);
        }
    }
}

impl Region {
    /// The whole region buffer, laid out afresh: the tables, then every present
    /// payload from sector 2 on, in index order. A payload too large for the
    /// 255 sectors that a location entry can count is refused.
    pub fn write(&self) -> (r: Result<Vec<u8>, NbtError>)
        requires
            self.wf(),
        ensures
            layout_fits(self.slots()) ==> (r matches Ok(v) && v@ == region_bytes(self.slots())),
            !layout_fits(self.slots()) ==> r matches Err(NbtError::InvalidRegionData(_)),
    {
        let ghost s = self.slots();
        assert(s.len() == 1024);
        let mut i: usize = 0;
        while i < 1024
            invariant
                i <= 1024,
                s == self.slots(),
                s.len() == 1024,
                self.chunks@.len() == 1024,
                forall|j: int| 0 <= j < i ==> #[trigger] slot_sectors(s[j]) <= 255,
            decreases 1024 - i,
        {
            match &self.chunks[i] {
                Some(c) => {
                    proof {
                        lemma_sectors_of(c.raw_data@.len() as int);
                    }
                    assert(s[i as int] == Some(c.slot()));
                    if c.raw_data.len() > MAX_PAYLOAD {
                        assert(slot_sectors(s[i as int]) > 255);
                        assert(!layout_fits(self.slots()));
                        return Err(NbtError::region_error("Chunk too large for its location entry"));
                    }
                },
                None => {
                    assert(s[i as int] is None);
                },
            }
            i += 1;
        }
        assert(layout_fits(s));
        let mut out: Vec<u8> = Vec::new();
        let mut cursor: usize = 2;
        i = 0;
        while i < 1024
            invariant
                i <= 1024,
                s == self.slots(),
                s.len() == 1024,
                self.chunks@.len() == 1024,
                layout_fits(s),
                cursor == 2 + sectors_before(s, i as int),
                out@ == locations(s, i as int),
            decreases 1024 - i,
        {
            proof {
                lemma_sectors_before_bound(s, i as int);
                lemma_sectors_before_bound(s, i as int + 1);
            }
            let ghost before = out@;
            match &self.chunks[i] {
                Some(c) => {
                    assert(s[i as int] == Some(c.slot()));
                    proof {
                        lemma_sectors_of(c.raw_data@.len() as int);
                    }
                    let n = c.raw_data.len();
                    let sectors = (n + 5 + 4095) / 4096;
                    out.push((cursor / 65536) as u8);
                    out.push(((cursor / 256) % 256) as u8);
                    out.push((cursor % 256) as u8);
                    out.push(sectors as u8);
                    cursor = cursor + sectors;
                },
                None => {
                    assert(s[i as int] is None);
                    out.push(0u8);
                    out.push(0u8);
                    out.push(0u8);
                    out.push(0u8);
                },
            }
            assert(out@ =~= before + location_entry(s, i as int));
            i += 1;
        }
        let ghost loc = out@;
        i = 0;
        while i < 1024
            invariant
                i <= 1024,
                s == self.slots(),
                s.len() == 1024,
                self.chunks@.len() == 1024,
                out@ == loc + timestamps(s, i as int),
            decreases 1024 - i,
        {
            let ghost before = out@;
            match &self.chunks[i] {
                Some(c) => {
                    assert(s[i as int] == Some(c.slot()));
                    crate::writer::put_u32(&mut out, c.timestamp, Endian::Big);
                },
                None => {
                    assert(s[i as int] is None);
                    out.push(0u8);
                    out.push(0u8);
                    out.push(0u8);
                    out.push(0u8);
                },
            }
            assert(out@ =~= loc + timestamps(s, i as int + 1));
            i += 1;
        }
        let ghost head = out@;
        i = 0;
        while i < 1024
            invariant
                i <= 1024,
                s == self.slots(),
                s.len() == 1024,
                self.chunks@.len() == 1024,
                layout_fits(s),
                out@ == head + blocks(s, i as int),
            decreases 1024 - i,
        {
            let ghost before = out@;
            match &self.chunks[i] {
                Some(c) => {
                    assert(s[i as int] == Some(c.slot()));
                    assert(slot_sectors(s[i as int]) <= 255);
                    proof {
                        lemma_sectors_of(c.raw_data@.len() as int);
                    }
                    let n = c.raw_data.len();
                    let sectors = (n + 5 + 4095) / 4096;
                    crate::writer::put_u32(&mut out, (n + 1) as u32, Endian::Big);
                    out.push(c.compression);
                    crate::writer::put_bytes(&mut out, c.raw_data.as_slice());
                    let pad = sectors * 4096 - n - 5;
                    let ghost mid = out@;
                    let mut k: usize = 0;
                    while k < pad
                        invariant
                            k <= pad,
                            out@ == mid + Seq::new(k as nat, |m: int| 0u8),
                        decreases pad - k,
                    {
                        out.push(0u8);
                        k += 1;
                        assert(out@ =~= mid + Seq::new(k as nat, |m: int| 0u8));
                    }
                    assert(out@ =~= before + block(c.slot()));
                },
                None => {
                    assert(s[i as int] is None);
                    assert(out@ =~= before + Seq::<u8>::empty());
                },
            }
            assert(out@ =~= head + blocks(s, i as int + 1));
            i += 1;
        }
        assert(out@ =~= region_bytes(s));
        Ok(out)
    }
}

/// The slot index of valid coordinates.
pub open spec fn index_of(x: i32, z: i32) -> int {
    x + 32 * z
}

/// Valid coordinates are recovered from their slot index.
pub proof fn lemma_index_coordinates(x: i32, z: i32)
    requires
        valid_xz(x, z),
    ensures
        0 <= index_of(x, z) < 1024,
        index_of(x, z) % 32 == x as int,
        index_of(x, z) / 32 == z as int,
{
    assert((x + 32 * z) % 32 == x && (x + 32 * z) / 32 == z) by (nonlinear_arith)
        requires
            0 <= x < 32,
            0 <= z < 32,
    ;
}

impl Region {
    /// The chunk at `(x, z)`.
    pub fn get_chunk(&self, x: i32, z: i32) -> (r: Result<Option<&Chunk>, NbtError>)
        requires
            self.wf(),
        ensures
            !valid_xz(x, z) ==> r == Err::<Option<&Chunk>, NbtError>(NbtError::InvalidCoordinates { x, z }),
            valid_xz(x, z) ==> (r matches Ok(o) && match self.chunk_at(index_of(x, z)) {
                Some(c) => o matches Some(k) && *k == c,
                None => o is None,
            }),
    {
        match Chunk::coords_to_index(x, z) {
            Some(i) => Ok(self.chunks[i].as_ref()),
            None => Err(NbtError::InvalidCoordinates { x, z }),
        }
    }

    /// The chunk at `(x, z)`, for changing it in place. The region stays well
    /// formed as long as the chunk keeps its coordinates.
    pub fn get_chunk_mut(&mut self, x: i32, z: i32) -> (r: Result<Option<&mut Chunk>, NbtError>)
        requires
            old(self).wf(),
        ensures
            !valid_xz(x, z) ==> r == Err::<Option<&mut Chunk>, NbtError>(NbtError::InvalidCoordinates { x, z })
                && *final(self) == *old(self),
            valid_xz(x, z) ==> (r matches Ok(o) && (o is Some <==> old(self).chunk_at(index_of(x, z)) is Some)),
            r is Ok ==> final(self).has_all_slots(),
            r is Ok ==> forall|j: int|
                0 <= j < 1024 && j != index_of(x, z) ==> #[trigger] final(self).chunk_at(j) == old(self).chunk_at(j),
            r matches Ok(None) ==> final(self).chunk_at(index_of(x, z)) is None,
            r matches Ok(Some(c)) ==> old(self).chunk_at(index_of(x, z)) == Some(*c),
            r matches Ok(Some(c)) ==> final(self).chunk_at(index_of(x, z)) == Some(*final(c)),
            r matches Ok(Some(c)) ==> (final(c).spec_x() == c.spec_x() && final(c).spec_z() == c.spec_z()
                ==> at_home(final(self).chunk_at(index_of(x, z)), index_of(x, z))),
    {
        match Chunk::coords_to_index(x, z) {
            Some(i) => {
                proof {
                    lemma_index_coordinates(x, z);
                    assert(at_home(self.chunk_at(i as int), i as int));
                }
                let slot = &mut self.chunks[i];
                match slot {
                    Some(c) => Ok(Some(c)),
                    None => Ok(None),
                }
            },
            None => Err(NbtError::InvalidCoordinates { x, z }),
        }
    }

    /// A region that differs from a well-formed one only in slot `i`, whose
    /// chunk (if any) is at home there, is well formed.
    pub proof fn lemma_wf_after_edit(old_r: &Region, new_r: &Region, i: int)
        requires
            old_r.wf(),
            new_r.has_all_slots(),
            0 <= i < 1024,
            at_home(new_r.chunk_at(i), i),
            forall|j: int| 0 <= j < 1024 && j != i ==> #[trigger] new_r.chunk_at(j) == old_r.chunk_at(j),
        ensures
            new_r.wf(),
    {
        assert forall|j: int| 0 <= j < 1024 implies #[trigger] at_home(new_r.chunk_at(j), j) by {
            if j != i {
                assert(new_r.chunk_at(j) == old_r.chunk_at(j));
                assert(at_home(old_r.chunk_at(j), j));
            }
        }
    }

    /// Stores `chunk` in the slot its coordinates name, replacing what was there.
    pub fn set_chunk(&mut self, chunk: Chunk) -> (r: Result<(), NbtError>)
        requires
            old(self).wf(),
        ensures
            final(self).wf(),
            !valid_xz(chunk.spec_x(), chunk.spec_z()) ==> r == Err::<(), NbtError>(
                NbtError::InvalidCoordinates { x: chunk.spec_x(), z: chunk.spec_z() },
            ) && *final(self) == *old(self),
            valid_xz(chunk.spec_x(), chunk.spec_z()) ==> r is Ok && final(self).chunk_at(
                index_of(chunk.spec_x(), chunk.spec_z()),
            ) == Some(chunk) && (forall|j: int|
                0 <= j < 1024 && j != index_of(chunk.spec_x(), chunk.spec_z()) ==> #[trigger] final(self).chunk_at(j) == old(self).chunk_at(j)) && final(self).slots() == old(self).slots().update(index_of(chunk.spec_x(), chunk.spec_z()), Some(chunk.slot())),
    {
        let x = chunk.x;
        let z = chunk.z;
        match Chunk::coords_to_index(x, z) {
            Some(i) => {
                proof {
                    lemma_index_coordinates(x, z);
                }
                self.chunks.set(i, Some(chunk));
                assert(self.slots() =~= old(self).slots().update(i as int, Some(chunk.slot())));
                assert forall|j: int| 0 <= j < 1024 implies #[trigger] at_home(self.chunk_at(j), j) by {
                    if j != i {
                        assert(at_home(old(self).chunk_at(j), j));
                    }
                }
                Ok(())
            },
            None => Err(NbtError::InvalidCoordinates { x, z }),
        }
    }

    /// Takes the chunk out of `(x, z)`, leaving the slot empty.
    pub fn remove_chunk(&mut self, x: i32, z: i32) -> (r: Result<Option<Chunk>, NbtError>)
        requires
            old(self).wf(),
        ensures
            final(self).wf(),
            !valid_xz(x, z) ==> r == Err::<Option<Chunk>, NbtError>(NbtError::InvalidCoordinates { x, z })
                && *final(self) == *old(self),
            valid_xz(x, z) ==> (r matches Ok(o) && o == old(self).chunk_at(index_of(x, z))
                && final(self).chunk_at(index_of(x, z)) is None && (forall|j: int|
                0 <= j < 1024 && j != index_of(x, z) ==> #[trigger] final(self).chunk_at(j) == old(self).chunk_at(j)) && final(self).slots() == old(self).slots().update(index_of(x, z), None)),
    {
        match Chunk::coords_to_index(x, z) {
            Some(i) => {
                let mut taken: Option<Chunk> = None;
                std::mem::swap(&mut taken, &mut self.chunks[i]);
                assert(self.slots() =~= old(self).slots().update(i as int, None));
                assert forall|j: int| 0 <= j < 1024 implies #[trigger] at_home(self.chunk_at(j), j) by {
                    if j != i {
                        assert(at_home(old(self).chunk_at(j), j));
                    }
                }
                Ok(taken)
            },
            None => Err(NbtError::InvalidCoordinates { x, z }),
        }
    }

    /// A region holding `chunks`, each in the slot its coordinates name; the
    /// first chunk with invalid coordinates is refused.
    pub fn from_chunks(chunks: Vec<Chunk>) -> (r: Result<Self, NbtError>)
        ensures
            r matches Ok(g) ==> g.wf(),
            r is Ok <==> (forall|i: int|
                0 <= i < chunks@.len() ==> valid_xz(#[trigger] chunks@[i].spec_x(), chunks@[i].spec_z())),
            r matches Err(e) ==> e matches NbtError::InvalidCoordinates { .. },
    {
        let mut region = Self::new();
        let ghost input = chunks@;
        let mut rest = chunks;
        let ghost all = rest@;
        let ghost k: int = 0;
        while rest.len() > 0
            invariant
                0 <= k <= all.len(),
                rest@ == all.subrange(k, all.len() as int),
                region.wf(),
                all == chunks@,
                forall|j: int| 0 <= j < k ==> valid_xz(#[trigger] all[j].spec_x(), all[j].spec_z()),
            decreases rest@.len(),
        {
            let c = rest.remove(0);
            proof {
                k = k + 1;
            }
            assert(rest@ =~= all.subrange(k, all.len() as int));
            match region.set_chunk(c) {
                Ok(()) => {},
                Err(e) => {
                    assert(!valid_xz(all[k - 1].spec_x(), all[k - 1].spec_z()));
                    return Err(e);
                },
            }
        }
        Ok(region)
    }

    /// Number of occupied slots.
    pub fn chunk_count(&self) -> (r: usize)
        requires
            self.wf(),
        ensures
            r == occupied(self.slots(), 1024),
    {
        let mut n: usize = 0;
        let mut i: usize = 0;
        while i < 1024
            invariant
                i <= 1024,
                self.chunks@.len() == 1024,
                n == occupied(self.slots(), i as int),
                n <= i,
            decreases 1024 - i,
        {
            assert(self.slots()[i as int] == slot_of(self.chunks@[i as int]));
            if self.chunks[i].is_some() {
                n += 1;
            }
            i += 1;
        }
        n
    }

    /// Whether every slot is empty.
    pub fn is_empty(&self) -> (r: bool)
        requires
            self.wf(),
        ensures
            r == (occupied(self.slots(), 1024) == 0),
    {
        self.chunk_count() == 0
    }

    /// The occupied slots' chunks among the first `n`, in index order.
    pub open spec fn present(&self, n: int) -> Seq<Chunk>
        decreases n,
    {
        if n <= 0 {
            Seq::empty()
        } else {
            self.present(n - 1) + match self.chunk_at(n - 1) {
                Some(c) => seq![c],
                None => Seq::empty(),
            }
        }
    }

    /// The coordinates stored in the occupied slots, in index order.
    pub fn get_chunk_positions(&self) -> (r: Vec<(i32, i32)>)
        requires
            self.wf(),
        ensures
            r@ == occupied_positions(self.slots(), 1024),
    {
        let mut out: Vec<(i32, i32)> = Vec::new();
        let mut i: usize = 0;
        while i < 1024
            invariant
                i <= 1024,
                self.wf(),
                self.chunks@.len() == 1024,
                out@ == occupied_positions(self.slots(), i as int),
            decreases 1024 - i,
        {
            assert(at_home(self.chunk_at(i as int), i as int));
            assert(self.slots()[i as int] == slot_of(self.chunk_at(i as int)));
            match &self.chunks[i] {
                Some(c) => out.push((c.x, c.z)),
                None => {},
            }
            assert(out@ =~= occupied_positions(self.slots(), i + 1));
            i += 1;
        }
        out
    }

    /// The chunks of the occupied slots, in index order.
    pub fn chunks(&self) -> (r: Vec<&Chunk>)
        requires
            self.wf(),
        ensures
            r@.map_values(|c: &Chunk| *c) == self.present(1024),
    {
        let mut out: Vec<&Chunk> = Vec::new();
        let mut i: usize = 0;
        while i < 1024
            invariant
                i <= 1024,
                self.chunks@.len() == 1024,
                out@.map_values(|c: &Chunk| *c) == self.present(i as int),
            decreases 1024 - i,
        {
            match &self.chunks[i] {
                Some(c) => out.push(c),
                None => {},
            }
            assert(out@.map_values(|c: &Chunk| *c) =~= self.present(i + 1));
            i += 1;
        }
        out
    }
}

/// The coordinates `(i % 32, i / 32)` of the occupied slots among the first
/// `n`, in index order.
pub open spec fn occupied_positions(s: Seq<Option<Slot>>, n: int) -> Seq<(i32, i32)>
    decreases n,
{
    if n <= 0 {
        Seq::empty()
    } else {
        occupied_positions(s, n - 1) + if s[n - 1] is Some {
            seq![(((n - 1) % 32) as i32, ((n - 1) / 32) as i32)]
        } else {
            Seq::empty()
        }
    }
}

/// Number of occupied slots among the first `n`.
pub open spec fn occupied(s: Seq<Option<Slot>>, n: int) -> int
    decreases n,
{
    if n <= 0 {
        0
    } else {
        occupied(s, n - 1) + if s[n - 1] is Some {
            1int
        } else {
            0int
        }
    }
}

/// Reads a region buffer; see `Region::read`.
pub fn read_region(data: &[u8]) -> (r: Result<Region, NbtError>)
    ensures
        r matches Ok(g) ==> g.wf(),
        data@.len() < 8192 ==> r matches Err(NbtError::InvalidRegionData(_)),
        data@.len() >= 8192 ==> (r matches Ok(g) && g.slots() == Seq::new(1024, |i: int| slot_at(data@, i))),
{
    Region::read(data)
}

/// Writes a region buffer; see `Region::write`.
pub fn write_region(region: &Region) -> (r: Result<Vec<u8>, NbtError>)
    requires
        region.wf(),
    ensures
        layout_fits(region.slots()) ==> (r matches Ok(v) && v@ == region_bytes(region.slots())),
        !layout_fits(region.slots()) ==> r matches Err(NbtError::InvalidRegionData(_)),
{
    region.write()
}

/// The chunk stored in slot `i` of a region buffer.
fn read_slot(data: &[u8], i: usize) -> (r: Option<Chunk>)
    requires
        i < 1024,
        data@.len() >= 8192,
    ensures
        slot_of(r) == slot_at(data@, i as int),
        at_home(r, i as int),
{
    let loc = 4 * i;
    if data[loc + 3] == 0 {
        return None;
    }
    let ts_at = loc + SECTOR_SIZE;
    if ts_at + 4 > data.len() {
        return None;
    }
    let ts = crate::reader::u32_at_big(data, ts_at);
    let offset = (data[loc] as u64) * 65536 + (data[loc + 1] as u64) * 256 + (data[loc + 2] as u64);
    let co64 = offset * 4096;
    if co64 + 5 > data.len() as u64 {
        return None;
    }
    let co = co64 as usize;
    let length = crate::reader::u32_at_big(data, co) as usize;
    if length == 0 || length > data.len() - co - 4 {
        return None;
    }
    let compression = data[co + 4];
    let payload = vstd::slice::slice_to_vec(vstd::slice::slice_subrange(data, co + 5, co + 4 + length));
    let x = (i % 32) as i32;
    let z = (i / 32) as i32;
    match Chunk::new(x, z, compression, ts, payload) {
        Ok(c) => Some(c),
        Err(_) => None,
    }
}

proof fn lemma_locations(s: Seq<Option<Slot>>, n: int, i: int)
    requires
        0 <= i < n <= s.len(),
    ensures
        locations(s, n).len() == 4 * n,
        locations(s, n).subrange(4 * i, 4 * i + 4) == location_entry(s, i),
    decreases n,
{
    lemma_locations_len(s, n);
    lemma_locations_len(s, n - 1);
    if i < n - 1 {
        lemma_locations(s, n - 1, i);
        assert(locations(s, n).subrange(4 * i, 4 * i + 4) =~= locations(s, n - 1).subrange(4 * i, 4 * i + 4));
    } else {
        assert(locations(s, n).subrange(4 * i, 4 * i + 4) =~= location_entry(s, i));
    }
}

proof fn lemma_locations_len(s: Seq<Option<Slot>>, n: int)
    requires
        0 <= n <= s.len(),
    ensures
        locations(s, n).len() == 4 * n,
    decreases n,
{
    if n > 0 {
        lemma_locations_len(s, n - 1);
    }
}

proof fn lemma_timestamps(s: Seq<Option<Slot>>, n: int, i: int)
    requires
        0 <= i < n <= s.len(),
    ensures
        timestamps(s, n).len() == 4 * n,
        timestamps(s, n).subrange(4 * i, 4 * i + 4) == timestamp_entry(s, i),
    decreases n,
{
    lemma_timestamps_len(s, n);
    lemma_timestamps_len(s, n - 1);
    if i < n - 1 {
        lemma_timestamps(s, n - 1, i);
        assert(timestamps(s, n).subrange(4 * i, 4 * i + 4) =~= timestamps(s, n - 1).subrange(4 * i, 4 * i + 4));
    } else {
        assert(timestamps(s, n).subrange(4 * i, 4 * i + 4) =~= timestamp_entry(s, i));
    }
}

proof fn lemma_timestamps_len(s: Seq<Option<Slot>>, n: int)
    requires
        0 <= n <= s.len(),
    ensures
        timestamps(s, n).len() == 4 * n,
    decreases n,
{
    if n > 0 {
        lemma_timestamps_len(s, n - 1);
        if let Some(c) = s[n - 1] {
            lemma_u32_round_trip(c.1, Endian::Big);
        }
    }
}

proof fn lemma_block_len(c: Slot)
    ensures
        block(c).len() == 4096 * sectors_of(c.2.len() as int),
{
    lemma_sectors_of(c.2.len() as int);
    lemma_u32_round_trip((c.2.len() + 1) as u32, Endian::Big);
}

proof fn lemma_blocks_len(s: Seq<Option<Slot>>, n: int)
    requires
        0 <= n <= s.len(),
    ensures
        blocks(s, n).len() == 4096 * sectors_before(s, n),
    decreases n,
{
    if n > 0 {
        lemma_blocks_len(s, n - 1);
        if let Some(c) = s[n - 1] {
            lemma_block_len(c);
        }
    }
}

proof fn lemma_blocks(s: Seq<Option<Slot>>, n: int, i: int)
    requires
        0 <= i < n <= s.len(),
        s[i] is Some,
    ensures
        holds_at(blocks(s, n), 4096 * sectors_before(s, i), block(s[i]->Some_0)),
    decreases n,
{
    lemma_blocks_len(s, n);
    lemma_blocks_len(s, n - 1);
    lemma_blocks_len(s, i);
    lemma_block_len(s[i]->Some_0);
    let b = block(s[i]->Some_0);
    let at = 4096 * sectors_before(s, i);
    if i < n - 1 {
        lemma_blocks(s, n - 1, i);
        lemma_sectors_before_mono(s, i + 1, n - 1);
        assert(blocks(s, n).subrange(at, at + b.len()) =~= blocks(s, n - 1).subrange(at, at + b.len()));
    } else {
        assert(blocks(s, n).subrange(at, at + b.len()) =~= b);
    }
}

proof fn lemma_sectors_before_mono(s: Seq<Option<Slot>>, a: int, b: int)
    requires
        0 <= a <= b <= s.len(),
    ensures
        sectors_before(s, a) <= sectors_before(s, b),
    decreases b - a,
{
    if a < b {
        lemma_sectors_before_mono(s, a, b - 1);
        if let Some(c) = s[b - 1] {
            lemma_sectors_of(c.2.len() as int);
        }
    }
}

proof fn lemma_offset_digits(o: int)
    requires
        0 <= o < 16777216,
    ensures
        ((o / 65536) as u8) as int * 65536 + (((o / 256) % 256) as u8) as int * 256 + ((o % 256) as u8) as int == o,
{
    assert(0 <= o / 65536 < 256) by (nonlinear_arith)
        requires
            0 <= o < 16777216,
    ;
    assert((o / 65536) * 65536 + ((o / 256) % 256) * 256 + o % 256 == o) by (nonlinear_arith)
        requires
            0 <= o < 16777216,
    ;
}

/// The bytes of slot `i`'s location entry in a region buffer written from `s`.
proof fn lemma_location_bytes(s: Seq<Option<Slot>>, i: int)
    requires
        s.len() == 1024,
        0 <= i < 1024,
    ensures
        region_bytes(s).len() >= 8192,
        region_bytes(s)[4 * i] == location_entry(s, i)[0],
        region_bytes(s)[4 * i + 1] == location_entry(s, i)[1],
        region_bytes(s)[4 * i + 2] == location_entry(s, i)[2],
        region_bytes(s)[4 * i + 3] == location_entry(s, i)[3],
        field(region_bytes(s), 4 * i + 4096, 4) == timestamp_entry(s, i),
{
    let data = region_bytes(s);
    let l = locations(s, 1024);
    let t = timestamps(s, 1024);
    let b = blocks(s, 1024);
    lemma_locations(s, 1024, i);
    lemma_timestamps(s, 1024, i);
    assert(data == (l + t) + b);
    let e = data.subrange(4 * i, 4 * i + 4);
    assert(e =~= l.subrange(4 * i, 4 * i + 4));
    assert(e[0] == data[4 * i] && e[1] == data[4 * i + 1] && e[2] == data[4 * i + 2] && e[3] == data[4
        * i + 3]);
    assert(field(data, 4 * i + 4096, 4) =~= t.subrange(4 * i, 4 * i + 4));
}

/// The framed block of an occupied slot `i` in a region buffer written from `s`.
proof fn lemma_block_bytes(s: Seq<Option<Slot>>, i: int)
    requires
        s.len() == 1024,
        0 <= i < 1024,
        s[i] is Some,
    ensures
        holds_at(region_bytes(s), (2 + sectors_before(s, i)) * 4096, block(s[i]->Some_0)),
{
    let data = region_bytes(s);
    let l = locations(s, 1024);
    let t = timestamps(s, 1024);
    let b = blocks(s, 1024);
    lemma_locations_len(s, 1024);
    lemma_timestamps_len(s, 1024);
    lemma_blocks_len(s, 1024);
    lemma_blocks(s, 1024, i);
    let blk = block(s[i]->Some_0);
    let at = 4096 * sectors_before(s, i);
    let co = (2 + sectors_before(s, i)) * 4096;
    assert(data == (l + t) + b);
    assert(data.subrange(co, co + blk.len()) =~= b.subrange(at, at + blk.len()));
}

/// What a region buffer holds in slot `i` of a region written from `s` is
/// what `s` holds there.
#[verifier::rlimit(60)]
pub proof fn lemma_region_slot(s: Seq<Option<Slot>>, i: int)
    requires
        s.len() == 1024,
        layout_fits(s),
        0 <= i < 1024,
    ensures
        slot_at(region_bytes(s), i) == s[i],
{
    let data = region_bytes(s);
    lemma_location_bytes(s, i);
    if let Some(c) = s[i] {
        let n = c.2.len() as int;
        lemma_sectors_of(n);
        assert(slot_sectors(s[i]) <= 255);
        lemma_sectors_before_bound(s, i);
        let o = 2 + sectors_before(s, i);
        lemma_offset_digits(o);
        assert(location_offset(data, i) == o);
        lemma_u32_round_trip(c.1, Endian::Big);
        lemma_block_bytes(s, i);
        let co = o * 4096;
        let pad = Seq::new((sectors_of(n) * 4096 - n - 5) as nat, |k: int| 0u8);
        let len_bytes = u32_bytes((n + 1) as u32, Endian::Big);
        lemma_u32_round_trip((n + 1) as u32, Endian::Big);
        assert(block(c) =~= len_bytes + (seq![c.0] + (c.2 + pad)));
        lemma_holds_split(data, co, len_bytes, seq![c.0] + (c.2 + pad));
        lemma_holds_split(data, co + 4, seq![c.0], c.2 + pad);
        lemma_holds_split(data, co + 5, c.2, pad);
        assert(data[co + 4] == c.0) by {
            assert(data.subrange(co + 4, co + 5)[0] == data[co + 4]);
        }
    }
}

/// Writing a region and reading the buffer back gives every slot back: the
/// same occupied positions, compression ids, timestamps and payload bytes.
pub proof fn lemma_region_round_trip(s: Seq<Option<Slot>>)
    requires
        s.len() == 1024,
        layout_fits(s),
    ensures
        region_bytes(s).len() >= 8192,
        Seq::new(1024, |i: int| slot_at(region_bytes(s), i)) == s,
{
    lemma_locations_len(s, 1024);
    lemma_timestamps_len(s, 1024);
    assert forall|i: int| 0 <= i < 1024 implies #[trigger] slot_at(region_bytes(s), i) == s[i] by {
        lemma_region_slot(s, i);
    }
    assert(Seq::new(1024, |i: int| slot_at(region_bytes(s), i)) =~= s);
}

/// Reading back what `Region::write` produced gives a region with the same
/// chunks in the same places: each slot is occupied in both or in neither, and
/// occupied slots agree on coordinates, compression id, timestamp and payload,
/// so the chunk count and the position list agree too.
pub proof fn lemma_region_write_then_read(r: &Region, bytes: Seq<u8>, g: &Region)
    requires
        r.wf(),
        layout_fits(r.slots()),
        bytes == region_bytes(r.slots()),
        g.wf(),
        g.slots() == Seq::new(1024, |i: int| slot_at(bytes, i)),
    ensures
        g.slots() == r.slots(),
        occupied(g.slots(), 1024) == occupied(r.slots(), 1024),
        occupied_positions(g.slots(), 1024) == occupied_positions(r.slots(), 1024),
        forall|i: int|
            0 <= i < 1024 ==> match (#[trigger] g.chunk_at(i), r.chunk_at(i)) {
                (Some(a), Some(b)) => a.spec_x() == b.spec_x() && a.spec_z() == b.spec_z() && a.slot()
                    == b.slot(),
                (None, None) => true,
                _ => false,
            },
{
    lemma_region_round_trip(r.slots());
    assert forall|i: int| 0 <= i < 1024 implies match (#[trigger] g.chunk_at(i), r.chunk_at(i)) {
        (Some(a), Some(b)) => a.spec_x() == b.spec_x() && a.spec_z() == b.spec_z() && a.slot() == b.slot(),
        (None, None) => true,
        _ => false,
    } by {
        assert(g.slots()[i] == r.slots()[i]);
        assert(at_home(g.chunk_at(i), i));
        assert(at_home(r.chunk_at(i), i));
    }
}

/// The size and tables of a written region: the buffer holds the two header
/// sectors and, for each occupied slot, `ceil((payload length + 5) / 4096)`
/// sectors; slot `i`'s location entry holds its starting sector (2 plus the
/// sectors of the slots before it) and its sector count, and its timestamp
/// entry holds its timestamp in big-endian order.
pub proof fn lemma_region_layout(s: Seq<Option<Slot>>)
    requires
        s.len() == 1024,
    ensures
        region_bytes(s).len() == 4096 * (2 + sectors_before(s, 1024)),
        forall|i: int|
            0 <= i < 1024 ==> #[trigger] region_bytes(s).subrange(4 * i, 4 * i + 4) == location_entry(s, i)
                && field(region_bytes(s), 4 * i + 4096, 4) == timestamp_entry(s, i),
{
    lemma_locations_len(s, 1024);
    lemma_timestamps_len(s, 1024);
    lemma_blocks_len(s, 1024);
    assert forall|i: int| 0 <= i < 1024 implies #[trigger] region_bytes(s).subrange(4 * i, 4 * i + 4)
        == location_entry(s, i) && field(region_bytes(s), 4 * i + 4096, 4) == timestamp_entry(s, i) by {
        lemma_location_bytes(s, i);
        let d = region_bytes(s);
        let e = location_entry(s, i);
        assert(d.subrange(4 * i, 4 * i + 4) =~= e);
    }
}

} // verus!
