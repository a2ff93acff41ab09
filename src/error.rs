use vstd::prelude::*;

verus! {

/// Every way in which decoding, encoding or addressing can fail.
#[derive(Debug, Clone, PartialEq, Eq)]
pub enum NbtError {
    /// The buffer ended before a read that the format requires.
    UnexpectedEof,
    /// A type id outside `0..=12` where a tag type was expected.
    InvalidTagType(u8),
    /// A string payload that is not valid UTF-8.
    InvalidUtf8,
    /// A string whose UTF-8 form is longer than a 16-bit length prefix can hold.
    InvalidStringLength(usize),
    /// An array or list with more elements than a 32-bit signed length prefix can hold.
    InvalidArrayLength(usize),
    /// A list item whose type id differs from the list's declared element type.
    ListTypeMismatch { expected: u8, found: u8 },
    /// The root tag is not a compound, or a container header is too short.
    InvalidHeader,
    /// The compression codec refused its input.
    Compression(String),
    /// A region buffer that cannot hold the region layout.
    InvalidRegionData(String),
    /// A region slot address outside `0..32`.
    InvalidCoordinates { x: i32, z: i32 },
}

impl NbtError {
    /// An error of the compression codec, with its message.
    pub fn compression_error(message: &str) -> (r: Self)
        ensures
            r matches NbtError::Compression(m) && m@ == message@,
    {
        NbtError::Compression(message.to_owned())
    }

    /// An error about the layout of a region buffer, with its message.
    pub fn region_error(message: &str) -> (r: Self)
        ensures
            r matches NbtError::InvalidRegionData(m) && m@ == message@,
    {
        NbtError::InvalidRegionData(message.to_owned())
    }
}

} // verus!
