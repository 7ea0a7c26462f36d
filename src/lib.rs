//! A lossless codec for the LZNT1 byte-stream format used by NTFS file
//! compression: `compress` appends a chunked LZNT1 stream, `decompress`
//! decodes one, and the two are proved to be inverse to each other.

pub mod adaptive;
pub mod checks;
pub mod compress;
pub mod error;
pub mod format;
pub mod laws;
pub mod stream;
pub mod tokens;
pub mod decompress;

pub use compress::{compress, Lznt1Context};
pub use decompress::decompress;
pub use error::DecompressionError;
