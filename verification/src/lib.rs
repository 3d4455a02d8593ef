//! Tagged netstrings: a length-prefixed, self-describing serialization format.
//!
//! Every value is one frame: a decimal length, `:`, that many bytes of
//! payload, and one byte that tells the type. The payload of a list or of a
//! map is made of frames again.

pub mod ascii;
pub mod bytes;
pub mod decode;
pub mod digits;
pub mod encode;
pub mod equality;
pub mod error;
pub mod float;
pub mod framing;
pub mod laws;
pub mod literal;
pub mod literal_proofs;
pub mod stream;
pub mod value;

pub use decode::{
    from_bytes, from_bytes_within, from_payload, from_reader, from_reader_within, from_str, Reader,
};
pub use encode::{to_bytes, to_bytes_within, to_writer, to_writer_within};
pub use error::Error;
pub use float::Float;
pub use literal::parse_float;
pub use stream::{from_body, from_body_within, read_prefix, Progress, Step};
pub use value::{Dict, TNetString};
