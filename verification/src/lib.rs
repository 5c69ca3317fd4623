//! Bencode: the self-delimiting serialization format used by BitTorrent
//! metainfo files (integers, byte strings, lists, key-sorted dictionaries).
//!
//! The decoder consumes one whole byte sequence and returns a [`typ::Type`]
//! value tree or a [`decode::DecodeError`]; the encoder consumes an
//! [`encode::Encodable`] host value and emits canonical Bencode bytes
//! (keys sorted by raw bytes, no duplicate keys, minimal integer digits).

pub mod decode;
pub mod encode;
pub mod errors;
pub mod laws;
pub mod typ;

pub use decode::decode;
pub use decode::DecodeError;
pub use decode::ValueKind;
pub use encode::encode;
pub use encode::to_encodable;
pub use encode::Encodable;
pub use encode::EncodeError;
pub use errors::ConverterError;
pub use typ::Type;

