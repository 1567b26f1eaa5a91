//! The core of a small in-memory key-value server: a codec for the typed frames
//! of its wire protocol, a command layer, and a store whose entries can expire.
//!
//! The library does no input or output and reads no clock. Bytes come in as
//! slices, replies leave as vectors, and the time is an argument: a count of
//! milliseconds on a clock that the caller keeps.
//!
//! - [`value`]: the values of the protocol.
//! - [`wire`]: the wire format, as a function from values to bytes and a function
//!   from bytes to what they read as.
//! - [`encode`], [`decode`], [`decoder`]: writing frames, reading frames, and
//!   reading them from a stream that arrives in chunks.
//! - [`codec_laws`]: what is written is read back; a frame is read the same
//!   whatever follows it and however it is cut.
//! - [`command`], [`executor`]: from a decoded request to a command, and from a
//!   command to its reply and its effect on the store.
//! - [`store`], [`store_laws`]: the store, and what reads see after writes.
//! - [`session`]: one connection, from the chunks received to the bytes to send.
//! - [`decimal`], [`text`]: numerals and texts as bytes.

pub mod codec_laws;
pub mod command;
pub mod decimal;
pub mod decode;
pub mod decoder;
pub mod encode;
pub mod executor;
pub mod session;
pub mod store;
pub mod store_laws;
pub mod text;
pub mod value;
pub mod wire;
