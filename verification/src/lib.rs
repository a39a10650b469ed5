//! The boolean (arithmetic) decoder of VP9 compressed headers, on top of
//! `bitreader::BitReader`, with its probability-update helpers.
//!
//! `model` states what the decoder computes, `bool_reader` decodes with that
//! contract, `remap` holds the inverse probability remapping, `bits` the contract of
//! the underlying bit reader, and `laws` the properties that span several calls.
pub mod bits;
pub mod bool_reader;
pub mod error;
pub mod laws;
pub mod model;
pub mod remap;

pub use bool_reader::BoolReader;
pub use bool_reader::DecoderState;
pub use error::Vp9ParserError;
pub use remap::inv_recenter_nonneg;
pub use remap::inv_remap_prob;
