//! Bencode, the serialization format of torrent metadata: a decoder that
//! checks structure and canonical form, an encoder that writes the unique
//! canonical encoding, and the files that a torrent describes.
//!
//! - `value`: the value type and its mathematical model.
//! - `grammar`: what decoding a byte sequence gives, as spec functions.
//! - `decode`: the decoder.
//! - `encoding`: what encoding a value gives, as spec functions.
//! - `encode`: the encoder, and equality of values.
//! - `error`: what can go wrong while decoding.
//! - `laws`: properties of decoding and encoding together.
//! - `files`: files and directories of a torrent.

pub mod decode;
pub mod encode;
pub mod encoding;
pub mod error;
pub mod files;
pub mod grammar;
pub mod laws;
pub mod value;
