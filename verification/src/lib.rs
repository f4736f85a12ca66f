//! Decoder for a bit-packed, LZW-family compressed byte stream.
//!
//! A stream is a sequence of codes, packed least significant bit first at a
//! width that starts at nine bits and that the stream itself can raise. A
//! code is a command, a literal byte, or an index into a dictionary that the
//! decoder rebuilds while it reads. [`decompress`] decodes a whole stream;
//! [`Reader`] and [`Decoder`] are its two halves, for callers that want to
//! take the codes one by one.
//!
//! Every function carries a contract over a mathematical model of the
//! stream: `ReaderState::read` for one code, `DecoderState::step` for what a
//! code does, and `decode` for the whole. The module `wire` proves that this
//! model reads the input as one string of bits, and the module `pack` that
//! codes laid out into bytes decode to what the decoder makes of them.

pub mod code;
pub mod decode;
pub mod decoder;
pub mod dictionary;
pub mod error;
pub mod pack;
pub mod reader;
pub mod source;
pub mod wire;

pub use crate::code::Code;
pub use crate::decode::decompress;
pub use crate::decoder::{resolve, Decoder, Phase};
pub use crate::dictionary::{Dictionary, DictionaryEntry};
pub use crate::error::DecodeError;
pub use crate::reader::Reader;
pub use crate::source::ByteStream;
