use vstd::prelude::*;

verus! {

/// The one failure mode of the pipeline: a block whose length is zero or not
/// a power of two, a non-positive sample rate, or a coefficient table that
/// does not fit the block. Malformed input is rejected before any
/// computation; it is never truncated or padded.
#[derive(Clone, Copy, Debug, PartialEq, Eq, Structural)]
pub enum PitchError {
    InvalidInput,
}

} // verus!
