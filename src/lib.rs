//! Decoding of the rzCOBS byte encoding, and stream decoders that cut a
//! byte stream at `0x00` separators and turn each frame into a record.

pub mod buffer;
pub mod codec;
pub mod error;
pub mod laws;
pub mod stream;

pub use codec::rzcobs_decode;
pub use error::DecodeError;
pub use stream::{reported_len, table_outcome, Rzcobs, RzcobsOwned, Table};
