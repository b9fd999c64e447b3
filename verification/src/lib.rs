//! Streaming CBC encryption and decryption over caller-supplied byte sinks
//! and sources, with a verified in-memory stream for testing.

pub mod bytestream;
pub mod cipher;
pub mod cryptostream;
pub mod error;
pub mod memorystream;
pub mod padding;

pub use bytestream::{Sink, Source};
pub use cipher::hash_string;
pub use cryptostream::{new_aes_decrypt_stream, new_aes_encrypt_stream, DecryptStream,
    EncryptStream};
pub use error::CryptoError;
pub use memorystream::MemoryStream;
