//! The netpbm PPM format types. The codec itself (file bytes in and out) is
//! an outside collaborator of the processing core; the library only carries
//! the encoder's configuration: binary (P6) or plain-text (P3) output.

use vstd::prelude::*;

verus! {

/// How a PPM encoder writes pixel data.
#[derive(Copy, Clone, Debug, PartialEq, Eq, Structural, Hash)]
enum EncodingType {
    /// The binary P6 format.
    Binary,
    /// The plain-text P3 format.
    Plaintext,
}

/// Configuration of a PPM encoder.
#[derive(Copy, Clone, Debug, PartialEq, Eq, Structural, Hash)]
pub struct PpmEncoder {
    encoding: EncodingType,
}

/// Marker for a PPM decoder; decoding carries no configuration.
#[derive(Copy, Clone, Debug, PartialEq, Eq, Structural, Hash)]
pub struct PpmDecoder;

impl PpmEncoder {
    /// The encoder writes the binary (P6) format.
    pub closed spec fn is_binary(self) -> bool {
        self.encoding == EncodingType::Binary
    }

    /// Create a new PPM encoder, which uses the binary format.
    pub fn new() -> (r: PpmEncoder)
        ensures
            r.is_binary(),
    {
        PpmEncoder { encoding: EncodingType::Binary }
    }

    /// Creates a new PPM encoder for plain text. This results in very large
    /// file sizes, so it isn't recommended in general use.
    pub fn new_plaintext_encoder() -> (r: PpmEncoder)
        ensures
            !r.is_binary(),
    {
        PpmEncoder { encoding: EncodingType::Plaintext }
    }

    /// Whether this encoder writes the binary (P6) format rather than the
    /// plain-text (P3) one.
    pub fn uses_binary_format(&self) -> (r: bool)
        ensures
            r == self.is_binary(),
    {
        match self.encoding {
            EncodingType::Binary => true,
            EncodingType::Plaintext => false,
        }
    }
}

} // verus!
