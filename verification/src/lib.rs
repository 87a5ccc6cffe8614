//! An adaptive arithmetic coder for byte streams: an order-0 model over 257
//! symbols drives a 32-bit interval coder whose output is packed into bytes,
//! most significant bit first.

pub mod ae;
pub mod bitio;
pub mod codec;
pub mod interval;
pub mod roundtrip;
pub mod symbols;

pub use ae::{CoderError, Decoder, Encoder};
pub use codec::{decode_all, encode_all};
