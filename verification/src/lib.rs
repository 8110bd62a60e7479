//! A verified standard Base64 codec (RFC 4648): an encoder and a decoder
//! over byte buffers, together with the alphabet tables they share and
//! proofs of the round-trip, length and padding laws.

pub mod alphabet;
pub mod codec;
