//! Decoded media.
use vstd::prelude::*;

verus! {

/// A decoded image: planes of single-precision pixels.
pub struct ImageTensor {
    pub data: Vec<u32>,
    pub channels: usize,
    pub height: usize,
    pub width: usize,
}

impl ImageTensor {
    pub open spec fn wf(&self) -> bool {
        self.data@.len() == self.channels * self.height * self.width
    }
}

} // verus!
