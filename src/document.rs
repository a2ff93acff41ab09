use vstd::prelude::*;
use crate::bytes::Endian;
use crate::compression::{
    compress_data, decompress_optimized, detect_compression, detected, unwrapped, wrapped,
    CompressionFormat,
};
use crate::error::NbtError;
use crate::format::{after, encode_tag, fits, parse_string, parse_tag, selective_prefix, string_bytes};
use crate::reader::{wanted_set, NbtReader};
use crate::tag::{field_of, string_of, NbtTag, Tag};
use crate::writer::NbtWriter;
use crate::laws::well_formed;

verus! {

/// The root name and root value of a document: a compound type id, the root
/// name, then the root body. With names in `wanted`, only those top-level
/// fields are decoded, and a fault in the body keeps the fields read before
/// it. Bytes after the root are ignored.
pub open spec fn document_of(b: Seq<u8>, e: Endian, wanted: Seq<&str>) -> Result<
    (Seq<char>, Tag),
    NbtError,
> {
    if !fits(b, 0, 1) {
        Err(NbtError::UnexpectedEof)
    } else if b[0] != 10 {
        Err(NbtError::InvalidHeader)
    } else {
        match parse_string(b, 1, e) {
            Err(err) => Err(err),
            Ok((name, p)) => if wanted.len() == 0 {
                match parse_tag(b, p, 10, e) {
                    Ok((v, q)) => Ok((name, v)),
                    Err(err) => Err(err),
                }
            } else {
                Ok((name, Tag::Compound(selective_prefix(b, p, wanted_set(wanted), Seq::empty(), e).0)))
            },
        }
    }
}

/// The uncompressed big-endian bytes of a document; its root must be a compound.
pub open spec fn document_bytes(name: Seq<char>, root: Tag) -> Result<Seq<u8>, NbtError> {
    if !(root is Compound) {
        Err(NbtError::InvalidHeader)
    } else {
        match string_bytes(name, Endian::Big) {
            Ok(nb) => after(seq![10u8] + nb, encode_tag(root, Endian::Big)),
            Err(err) => Err(err),
        }
    }
}

/// A named root value with the envelope it is stored in.
#[derive(Debug)]
pub struct NbtFile {
    pub root: NbtTag,
    pub root_name: String,
    pub compression: CompressionFormat,
}

/// `r` holds the document that `s` describes, in envelope `c`.
pub open spec fn file_matches(r: Result<NbtFile, NbtError>, s: Result<(Seq<char>, Tag), NbtError>, c: CompressionFormat) -> bool {
    match s {
        Ok((name, root)) => r matches Ok(f) && f.root_name@ == name && f.root@ == root && f.compression == c,
        Err(err) => r == Err::<NbtFile, NbtError>(err),
    }
}

fn no_fields() -> (r: &'static [&'static str])
    ensures
        r@.len() == 0,
{
    let empty: &[&str] = &[];
    assert(empty@.len() == 0);
    empty
}

impl NbtFile {
    /// A document with the given parts.
    pub fn new(root: NbtTag, root_name: String, compression: CompressionFormat) -> (r: Self)
        ensures
            r.root == root,
            r.root_name == root_name,
            r.compression == compression,
    {
        NbtFile { root, root_name, compression }
    }

    /// A document with the given parts; documents are always written big-endian.
    pub fn new_with_settings(
        root: NbtTag,
        root_name: String,
        compression: CompressionFormat,
        endian: Endian,
    ) -> (r: Self)
        ensures
            r.root == root,
            r.root_name == root_name,
            r.compression == compression,
    {
        NbtFile { root, root_name, compression }
    }

    /// Decodes a document from its uncompressed bytes, recording `compression`
    /// as its envelope. A non-empty `fields` decodes only those top-level names.
    pub fn from_bytes(
        bytes: &[u8],
        compression: CompressionFormat,
        endian: Endian,
        fields: &[&str],
    ) -> (r: Result<Self, NbtError>)
        ensures
            file_matches(r, document_of(bytes@, endian, fields@), compression),
    {
        let mut reader = NbtReader::new(bytes, endian);
        let tag_type = match reader.read_u8() {
            Ok(t) => t,
            Err(err) => {
                return Err(err);
            },
        };
        if tag_type != 10 {
            return Err(NbtError::InvalidHeader);
        }
        let root_name = match reader.read_string() {
            Ok(s) => s,
            Err(err) => {
                return Err(err);
            },
        };
        let root = if fields.len() == 0 {
            reader.read_tag(tag_type)
        } else {
            reader.read_compound_selective(fields)
        };
        match root {
            Ok(root) => Ok(NbtFile { root, root_name, compression }),
            Err(err) => Err(err),
        }
    }

    /// Takes `data` out of the envelope `format` and decodes the document in it.
    pub fn read_with_format(
        data: &[u8],
        format: CompressionFormat,
        endian: Endian,
        fields: Option<&[&str]>,
    ) -> (r: Result<Self, NbtError>)
        ensures
            match unwrapped(data@, format) {
                None => r matches Err(NbtError::Compression(_)),
                Some(b) => file_matches(
                    r,
                    document_of(
                        b,
                        endian,
                        match fields {
                            Some(f) => f@,
                            None => Seq::empty(),
                        },
                    ),
                    format,
                ),
            },
    {
        let fields = match fields {
            Some(f) => f,
            None => no_fields(),
        };
        match decompress_optimized(data, format) {
            Ok(bytes) => Self::from_bytes(bytes.as_slice(), format, endian, fields),
            Err(err) => Err(err),
        }
    }

    /// Recognises the envelope of `data`, then decodes the big-endian document in it.
    pub fn read(data: &[u8], fields: Option<&[&str]>) -> (r: Result<Self, NbtError>)
        ensures
            match unwrapped(data@, detected(data@)) {
                None => r matches Err(NbtError::Compression(_)),
                Some(b) => file_matches(
                    r,
                    document_of(
                        b,
                        Endian::Big,
                        match fields {
                            Some(f) => f@,
                            None => Seq::empty(),
                        },
                    ),
                    detected(data@),
                ),
            },
    {
        let format = detect_compression(data);
        Self::read_with_format(data, format, Endian::Big, fields)
    }

    /// Like `read`, decoding only the top-level names in `fields` (all when empty).
    pub fn read_lazy(data: &[u8], fields: &[&str]) -> (r: Result<Self, NbtError>)
        ensures
            match unwrapped(data@, detected(data@)) {
                None => r matches Err(NbtError::Compression(_)),
                Some(b) => file_matches(r, document_of(b, Endian::Big, fields@), detected(data@)),
            },
    {
        Self::read(data, Some(fields))
    }

    /// `data` in a gzip envelope.
    pub fn compress_gzip(data: &[u8]) -> (r: Result<Vec<u8>, NbtError>)
        ensures
            r matches Ok(v) && v@ == wrapped(data@, CompressionFormat::Gzip) && unwrapped(
                v@,
                CompressionFormat::Gzip,
            ) == Some(data@),
    {
        compress_data(data, CompressionFormat::Gzip)
    }

    /// `data` in a zlib envelope.
    pub fn compress_zlib(data: &[u8]) -> (r: Result<Vec<u8>, NbtError>)
        ensures
            r matches Ok(v) && v@ == wrapped(data@, CompressionFormat::Zlib) && unwrapped(
                v@,
                CompressionFormat::Zlib,
            ) == Some(data@),
    {
        compress_data(data, CompressionFormat::Zlib)
    }

    /// `data` taken out of a gzip envelope.
    pub fn decompress_gzip(data: &[u8]) -> (r: Result<Vec<u8>, NbtError>)
        ensures
            match unwrapped(data@, CompressionFormat::Gzip) {
                Some(b) => r matches Ok(v) && v@ == b,
                None => r matches Err(NbtError::Compression(_)),
            },
    {
        decompress_optimized(data, CompressionFormat::Gzip)
    }

    /// `data` taken out of a zlib envelope.
    pub fn decompress_zlib(data: &[u8]) -> (r: Result<Vec<u8>, NbtError>)
        ensures
            match unwrapped(data@, CompressionFormat::Zlib) {
                Some(b) => r matches Ok(v) && v@ == b,
                None => r matches Err(NbtError::Compression(_)),
            },
    {
        decompress_optimized(data, CompressionFormat::Zlib)
    }

    /// The uncompressed big-endian bytes of the document.
    pub fn to_bytes(&self) -> (r: Result<Vec<u8>, NbtError>)
        ensures
            match document_bytes(self.root_name@, self.root@) {
                Ok(b) => r matches Ok(v) && v@ == b,
                Err(err) => r == Err::<Vec<u8>, NbtError>(err),
            },
            r is Ok ==> well_formed(self.root@),
    {
        if !self.root.is_compound() {
            return Err(NbtError::InvalidHeader);
        }
        let mut writer = NbtWriter::new(Endian::Big);
        writer.write_u8(10);
        match writer.write_string(self.root_name.as_str()) {
            Ok(()) => {},
            Err(err) => {
                return Err(err);
            },
        }
        match writer.write_tag(&self.root) {
            Ok(()) => {},
            Err(err) => {
                return Err(err);
            },
        }
        let ghost w = writer.written();
        let out = writer.into_bytes();
        proof {
            let nb = string_bytes(self.root_name@, Endian::Big)->Ok_0;
            let vb = encode_tag(self.root@, Endian::Big)->Ok_0;
            assert(w =~= (seq![10u8] + nb) + vb);
        }
        Ok(out)
    }

    /// The document encoded and put in its envelope.
    pub fn write(&self) -> (r: Result<Vec<u8>, NbtError>)
        ensures
            match document_bytes(self.root_name@, self.root@) {
                Ok(b) => r matches Ok(v) && v@ == wrapped(b, self.compression) && unwrapped(
                    v@,
                    self.compression,
                ) == Some(b) && detected(v@) == self.compression,
                Err(err) => r == Err::<Vec<u8>, NbtError>(err),
            },
            r is Ok ==> well_formed(self.root@),
    {
        match self.to_bytes() {
            Ok(bytes) => {
                proof {
                    if self.compression == CompressionFormat::Raw {
                        assert(bytes@[0] == 10u8);
                    }
                }
                compress_data(bytes.as_slice(), self.compression)
            },
            Err(err) => Err(err),
        }
    }

    /// The top-level field `key`.
    pub fn get(&self, key: &str) -> (r: Option<&NbtTag>)
        ensures
            match field_of(self.root@, key@) {
                Some(v) => r matches Some(x) && x@ == v,
                None => r is None,
            },
    {
        self.root.get(key)
    }

    /// The top-level string `key`; empty when there is none.
    pub fn get_string(&self, key: &str) -> (r: &str)
        ensures
            r@ == (match field_of(self.root@, key@) {
                Some(v) => string_of(v),
                None => Seq::empty(),
            }),
    {
        self.root.get_string(key)
    }
}

} // verus!
