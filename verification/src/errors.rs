use vstd::prelude::*;

verus! {

/// The closed error taxonomy of the codec.  Each variant carries a
/// human-readable detail string describing the point of failure.
#[derive(Debug)]
pub enum StegoError {
    /// The input bytes could not be parsed as a raster image.
    FormatError(String),
    /// The secret (or encrypted blob) cannot fit within the image's bit
    /// capacity alongside the 32-bit length header.
    CapacityError(String),
    /// The modified pixel buffer could not be re-serialized as a PNG.
    EncodeError(String),
    /// The image lacks enough bits for the declared payload length.
    InsufficientDataError(String),
    /// AEAD authentication failed: wrong password or tampered data.
    DecryptionError(String),
    /// The underlying AEAD seal operation failed.
    EncryptionError(String),
}

impl StegoError {
    /// The detail string carried by this error.
    pub open spec fn detail(&self) -> Seq<char> {
        match self {
            StegoError::FormatError(m) => m@,
            StegoError::CapacityError(m) => m@,
            StegoError::EncodeError(m) => m@,
            StegoError::InsufficientDataError(m) => m@,
            StegoError::DecryptionError(m) => m@,
            StegoError::EncryptionError(m) => m@,
        }
    }

    /// The human-readable detail carried by this error.
    pub fn message(&self) -> (r: String)
        ensures
            r@ == self.detail(),
    {
        match self {
            StegoError::FormatError(m) => m.clone(),
            StegoError::CapacityError(m) => m.clone(),
            StegoError::EncodeError(m) => m.clone(),
            StegoError::InsufficientDataError(m) => m.clone(),
            StegoError::DecryptionError(m) => m.clone(),
            StegoError::EncryptionError(m) => m.clone(),
        }
    }
}

} // verus!
