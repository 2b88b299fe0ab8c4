//! Wire-protocol layer of a key-value server: typed protocol values, a
//! decoder from bytes to values, an encoder from values to bytes, and the
//! buffering policy that joins a byte stream to the decoder.

pub mod value;
pub mod scan;
pub mod decode;
pub mod encode;
pub mod framing;
