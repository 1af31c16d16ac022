//! The unit in which finished pixels travel from a worker to the frame.

use vstd::prelude::*;
use crate::color::{color_of, vec3_to_color, Color, ColorVec};

verus! {

/// A run of packed pixels and the place in the frame where it starts. A
/// chunk is made by one worker and consumed once.
#[derive(Debug, PartialEq, Eq)]
pub struct ScreenChunk {
    /// Offset of the first pixel in the flat frame.
    pub from: usize,
    /// The pixels, in frame order.
    pub data: Vec<Color>,
}

impl ScreenChunk {
    /// Whether the chunk holds pixel `p` of the frame.
    pub open spec fn covers(self, p: int) -> bool {
        self.from <= p < self.from + self.data@.len()
    }

    /// Encodes the linear colours of one row for display and tags them with
    /// the offset `from` of the row's first pixel.
    pub fn row(from: usize, colors: &Vec<ColorVec>) -> (chunk: ScreenChunk)
        ensures
            chunk.from == from,
            chunk.data@.len() == colors@.len(),
            forall|i: int|
                0 <= i < colors@.len() ==> #[trigger] chunk.data@[i] == color_of(colors@[i]),
            forall|i: int| 0 <= i < colors@.len() ==> #[trigger] chunk.data@[i] <= 0xff_ffff,
    {
        let mut data: Vec<Color> = Vec::new();
        let mut i: usize = 0;
        while i < colors.len()
            invariant
                i <= colors@.len(),
                data@.len() == i,
                forall|j: int| 0 <= j < i ==> #[trigger] data@[j] == color_of(colors@[j]),
                forall|j: int| 0 <= j < i ==> #[trigger] data@[j] <= 0xff_ffff,
            decreases colors@.len() - i,
        {
            data.push(vec3_to_color(&colors[i]));
            i += 1;
        }
        ScreenChunk { from, data }
    }
}

} // verus!
