//! A Fiat-Shamir transcript over the Meow duplex: messages are framed and
//! absorbed, and challenges are squeezed out as deterministic byte streams.

pub mod duplex;
pub mod rng;
pub mod transcript;
pub mod varint;

pub use rng::MeowRng;
pub use transcript::Transcript;
pub use varint::serialize_len;
