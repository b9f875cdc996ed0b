//! A reversible text encoding of bytes: each byte becomes two words of a
//! fixed sixteen-word vocabulary, one for its high nibble and one for its low
//! nibble, separated by single spaces.

pub mod codec;
pub mod stream;
pub mod vocab;

pub use codec::{decode, encode};
pub use stream::{decode_stream, encode_stream};
