//! Errors of the boolean decoder.
use vstd::prelude::*;
use bitreader::BitReaderError;

verus! {

/// Why decoding failed.
#[derive(Debug)]
pub enum Vp9ParserError {
    /// The partition is empty, or its marker bit is set.
    InvalidPadding,
    /// The bit reader ran out of data.
    BitReader(BitReaderError),
}

} // verus!
