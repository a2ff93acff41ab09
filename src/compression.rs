use std::io::{Read, Write};
use vstd::prelude::*;
use crate::error::NbtError;

verus! {

/// The envelope around an encoded document.
#[derive(Debug, Clone, Copy, PartialEq, Eq, Structural)]
pub enum CompressionFormat {
    Raw,
    Gzip,
    Zlib,
}

impl CompressionFormat {
    /// A small numeric code: 0 none, 1 gzip, 2 zlib.
    pub fn as_u8(self) -> (r: u8)
        ensures
            r == (match self {
                CompressionFormat::Raw => 0u8,
                CompressionFormat::Gzip => 1u8,
                CompressionFormat::Zlib => 2u8,
            }),
    {
        match self {
            CompressionFormat::Raw => 0,
            CompressionFormat::Gzip => 1,
            CompressionFormat::Zlib => 2,
        }
    }
}

/// The envelope that the first two bytes announce: `1F 8B` is gzip, `78 xx`
/// with bit 0x20 of `xx` clear is zlib, anything else is raw.
pub open spec fn detected(data: Seq<u8>) -> CompressionFormat {
    if data.len() < 2 {
        CompressionFormat::Raw
    } else if data[0] == 0x1f && data[1] == 0x8b {
        CompressionFormat::Gzip
    } else if data[0] == 0x78 && data[1] & 0x20 == 0 {
        CompressionFormat::Zlib
    } else {
        CompressionFormat::Raw
    }
}

/// Recognises the envelope of `data` from its first two bytes.
pub fn detect_compression(data: &[u8]) -> (r: CompressionFormat)
    ensures
        r == detected(data@),
{
    if data.len() < 2 {
        return CompressionFormat::Raw;
    }
    if data[0] == 0x1f && data[1] == 0x8b {
        return CompressionFormat::Gzip;
    }
    if data[0] == 0x78 && (data[1] & 0x20) == 0 {
        return CompressionFormat::Zlib;
    }
    CompressionFormat::Raw
}

/// What flate2's gzip decoder yields for a buffer, when it accepts it.
pub uninterp spec fn gunzipped(b: Seq<u8>) -> Option<Seq<u8>>;

/// What flate2's zlib decoder yields for a buffer, when it accepts it.
pub uninterp spec fn unzlibbed(b: Seq<u8>) -> Option<Seq<u8>>;

/// What flate2's gzip encoder at the default level writes for a buffer.
pub uninterp spec fn gzipped(b: Seq<u8>) -> Seq<u8>;

/// What flate2's zlib encoder at the default level writes for a buffer.
pub uninterp spec fn zlibbed(b: Seq<u8>) -> Seq<u8>;

/// Relies on `flate2::read::GzDecoder` read to the end: the output depends on
/// the input bytes alone; an error is reported as its message.
#[verifier::external_body]
fn gzip_decode(data: &[u8]) -> (r: Result<Vec<u8>, String>)
    ensures
        r is Ok <==> gunzipped(data@) is Some,
        r matches Ok(v) ==> v@ == gunzipped(data@)->Some_0,
{
    let mut out = Vec::new();
    match flate2::read::GzDecoder::new(data).read_to_end(&mut out) {
        Ok(_) => Ok(out),
        Err(e) => Err(e.to_string()),
    }
}

/// Relies on `flate2::read::ZlibDecoder` read to the end: the output depends
/// on the input bytes alone; an error is reported as its message.
#[verifier::external_body]
fn zlib_decode(data: &[u8]) -> (r: Result<Vec<u8>, String>)
    ensures
        r is Ok <==> unzlibbed(data@) is Some,
        r matches Ok(v) ==> v@ == unzlibbed(data@)->Some_0,
{
    let mut out = Vec::new();
    match flate2::read::ZlibDecoder::new(data).read_to_end(&mut out) {
        Ok(_) => Ok(out),
        Err(e) => Err(e.to_string()),
    }
}

/// Relies on `flate2::write::GzEncoder` at the default level, finished into a
/// vector: writing into a vector cannot fail and the codec accepts every
/// input, the output depends on the input bytes alone (the header carries no
/// time and a fixed system byte), it begins with the gzip magic bytes
/// `1F 8B` of its header, and it decodes back to the input.
#[verifier::external_body]
fn gzip_encode(data: &[u8]) -> (r: Result<Vec<u8>, String>)
    ensures
        r is Ok,
        r matches Ok(v) ==> v@ == gzipped(data@) && gunzipped(v@) == Some(data@),
        r matches Ok(v) ==> v@.len() >= 2 && v@[0] == 0x1fu8 && v@[1] == 0x8bu8,
{
    let mut enc = flate2::write::GzEncoder::new(Vec::new(), flate2::Compression::default());
    match enc.write_all(data) {
        Ok(()) => enc.finish().map_err(|e| e.to_string()),
        Err(e) => Err(e.to_string()),
    }
}

/// Relies on `flate2::write::ZlibEncoder` at the default level, finished into
/// a vector: writing into a vector cannot fail and the codec accepts every
/// input, the output depends on the input bytes alone, it begins with the
/// zlib header that miniz_oxide writes (`78`, then a flag byte with the
/// preset-dictionary bit 0x20 clear), and it decodes back to the input.
#[verifier::external_body]
fn zlib_encode(data: &[u8]) -> (r: Result<Vec<u8>, String>)
    ensures
        r is Ok,
        r matches Ok(v) ==> v@ == zlibbed(data@) && unzlibbed(v@) == Some(data@),
        r matches Ok(v) ==> v@.len() >= 2 && v@[0] == 0x78u8 && v@[1] & 0x20u8 == 0u8,
{
    let mut enc = flate2::write::ZlibEncoder::new(Vec::new(), flate2::Compression::default());
    match enc.write_all(data) {
        Ok(()) => enc.finish().map_err(|e| e.to_string()),
        Err(e) => Err(e.to_string()),
    }
}

/// The payload inside an envelope, when the codec accepts it.
pub open spec fn unwrapped(data: Seq<u8>, format: CompressionFormat) -> Option<Seq<u8>> {
    match format {
        CompressionFormat::Raw => Some(data),
        CompressionFormat::Gzip => gunzipped(data),
        CompressionFormat::Zlib => unzlibbed(data),
    }
}

/// A payload put in an envelope.
pub open spec fn wrapped(data: Seq<u8>, format: CompressionFormat) -> Seq<u8> {
    match format {
        CompressionFormat::Raw => data,
        CompressionFormat::Gzip => gzipped(data),
        CompressionFormat::Zlib => zlibbed(data),
    }
}

/// Takes `data` out of its envelope; a codec failure is a `Compression` error.
pub fn decompress_optimized(data: &[u8], format: CompressionFormat) -> (r: Result<Vec<u8>, NbtError>)
    ensures
        match unwrapped(data@, format) {
            Some(b) => r matches Ok(v) && v@ == b,
            None => r matches Err(NbtError::Compression(_)),
        },
{
    let r = match format {
        CompressionFormat::Raw => Ok(vstd::slice::slice_to_vec(data)),
        CompressionFormat::Gzip => gzip_decode(data),
        CompressionFormat::Zlib => zlib_decode(data),
    };
    match r {
        Ok(v) => Ok(v),
        Err(message) => Err(NbtError::Compression(message)),
    }
}

/// Puts `data` in an envelope. It always succeeds; the result unwraps to
/// `data` again and announces its envelope in its first two bytes.
pub fn compress_data(data: &[u8], format: CompressionFormat) -> (r: Result<Vec<u8>, NbtError>)
    ensures
        r matches Ok(v) && v@ == wrapped(data@, format) && unwrapped(v@, format) == Some(data@),
        format == CompressionFormat::Raw ==> (r matches Ok(v) && v@ == data@),
        format == CompressionFormat::Gzip ==> (r matches Ok(v) && detected(v@) == CompressionFormat::Gzip),
        format == CompressionFormat::Zlib ==> (r matches Ok(v) && detected(v@) == CompressionFormat::Zlib),
{
    let r = match format {
        CompressionFormat::Raw => Ok(vstd::slice::slice_to_vec(data)),
        CompressionFormat::Gzip => gzip_encode(data),
        CompressionFormat::Zlib => zlib_encode(data),
    };
    Ok(r.unwrap())
}

} // verus!
