pub mod bits;
pub mod codec;
pub mod crypto;
pub mod errors;
pub mod pixels;

pub use errors::StegoError;
pub use pixels::PixelChannelStore;
