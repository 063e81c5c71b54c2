use crate::stego::header::PayloadType;
use vstd::prelude::*;

verus! {

/// A payload recovered from a carrier: its kind, its bytes and the file
/// extension that was recorded with it.
pub struct ExtractedPayload {
    pub payload_type: PayloadType,
    pub data: Vec<u8>,
    pub ext: String,
}

} // verus!
