//! Rabin's Information Dispersal Algorithm over GF(256), together with the
//! sharefile container format that makes each share self-describing.
//!
//! A byte stream is split into `n` share streams such that any `k` of them
//! recover the original exactly.  Every share starts with a `HeaderV1`
//! carrying the scheme parameters and that share's row of the generator
//! matrix.  The finite-field primitives (GF(256) multiply and inverse, and
//! the Cauchy construction of the generator matrix) are supplied by the
//! `guff` and `guff_ida` crates through a small trusted boundary; everything
//! built on top of them is verified.

pub mod errors;
pub mod varint;
pub mod header;
pub mod gf256;
pub mod matrix;
pub mod split;
pub mod combine;
pub mod laws;

pub use combine::combine;
pub use errors::{FormatFault, IdaError, MismatchField};
pub use header::{read_sharefile_header, write_sharefile_header, HeaderV1};
pub use split::blockwise_split;
pub use varint::encode_length;
