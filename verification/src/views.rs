//! Views that fill a frame without tracing a ray.

use vstd::prelude::*;
use vstd::arithmetic::div_mod::lemma_multiply_divide_lt;
use crate::chunk::ScreenChunk;
use crate::color::{pack, packed, Color};

verus! {

/// A test card: red grows from left to right, green from the first pixel of
/// the frame to the last.
pub struct ColorsView;

impl ColorsView {
    /// Red level of the pixel at `index`: its column as a part of the width,
    /// on the scale of 255.
    pub open spec fn red_at(index: int, width: int) -> int {
        (index % width) * 255 / width
    }

    /// Green level of the pixel at `index`: the index as a part of the whole
    /// frame, on the scale of 255.
    pub open spec fn green_at(index: int, width: int, height: int) -> int {
        index * 255 / (width * height)
    }

    /// The whole frame as one chunk.
    pub fn step(&mut self, width: u32, height: u32) -> (chunk: ScreenChunk)
        requires
            width * height <= usize::MAX,
        ensures
            chunk.from == 0,
            chunk.data@.len() == width * height,
            forall|index: int|
                0 <= index < width * height ==> #[trigger] chunk.data@[index] == packed(
                    Self::red_at(index, width as int),
                    Self::green_at(index, width as int, height as int),
                    0,
                ),
    {
        let count: usize = width as usize * height as usize;
        let mut data: Vec<Color> = Vec::new();
        let mut index: usize = 0;
        while index < count
            invariant
                index <= count,
                count == width * height,
                data@.len() == index,
                forall|i: int|
                    0 <= i < index ==> #[trigger] data@[i] == packed(
                        Self::red_at(i, width as int),
                        Self::green_at(i, width as int, height as int),
                        0,
                    ),
            decreases count - index,
        {
            assert(width > 0 && count > 0) by (nonlinear_arith)
                requires
                    index < count,
                    count == width * height,
                    index >= 0,
            ;
            let column: u64 = (index % (width as usize)) as u64;
            proof {
                lemma_multiply_divide_lt(column * 255, width as int, 255);
                lemma_multiply_divide_lt(index * 255, count as int, 255);
            }
            let red: u64 = column * 255 / (width as u64);
            let green: u128 = (index as u128 * 255) / (count as u128);
            data.push(pack(red as u32, green as u32, 0));
            index += 1;
        }
        ScreenChunk { from: 0, data }
    }
}

} // verus!
