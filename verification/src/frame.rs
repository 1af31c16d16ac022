//! The flat buffer of packed pixels that chunks are written into.

use vstd::prelude::*;
use crate::chunk::ScreenChunk;
use crate::color::Color;

verus! {

/// The pixels after a run `data` has been written at offset `from`: the run
/// where it lies, the old pixels everywhere else.
pub open spec fn written(pixels: Seq<Color>, from: int, data: Seq<Color>) -> Seq<Color> {
    Seq::new(
        pixels.len(),
        |p: int|
            if from <= p < from + data.len() {
                data[p - from]
            } else {
                pixels[p]
            },
    )
}

/// The pixels after the chunks `chunks` have been written one after the
/// other.
pub open spec fn written_all(pixels: Seq<Color>, chunks: Seq<ScreenChunk>) -> Seq<Color>
    decreases chunks.len(),
{
    if chunks.len() == 0 {
        pixels
    } else {
        written(
            written_all(pixels, chunks.drop_last()),
            chunks.last().from as int,
            chunks.last().data@,
        )
    }
}

/// A frame of `width * height` packed pixels, row after row.
pub struct FrameBuffer {
    pixels: Vec<Color>,
}

impl View for FrameBuffer {
    type V = Seq<Color>;

    closed spec fn view(&self) -> Seq<Color> {
        self.pixels@
    }
}

impl FrameBuffer {
    /// Whether the chunk lies inside the frame.
    pub open spec fn holds(self, chunk: ScreenChunk) -> bool {
        chunk.from + chunk.data@.len() <= self@.len()
    }

    /// A frame of `width` by `height` pixels, all of them 0.
    pub fn new(width: u32, height: u32) -> (frame: FrameBuffer)
        requires
            width * height <= usize::MAX,
        ensures
            frame@ == Seq::new((width * height) as nat, |p: int| 0u32),
    {
        let count: usize = width as usize * height as usize;
        let mut pixels: Vec<Color> = Vec::new();
        let mut p: usize = 0;
        while p < count
            invariant
                p <= count,
                pixels@ == Seq::new(p as nat, |q: int| 0u32),
            decreases count - p,
        {
            pixels.push(0);
            p += 1;
            assert(pixels@ == Seq::new(p as nat, |q: int| 0u32));
        }
        FrameBuffer { pixels }
    }

    /// Number of pixels in the frame.
    pub fn len(&self) -> (count: usize)
        ensures
            count == self@.len(),
    {
        self.pixels.len()
    }

    /// The pixels, row after row.
    pub fn pixels(&self) -> (pixels: &Vec<Color>)
        ensures
            pixels@ == self@,
    {
        &self.pixels
    }

    /// Whether the chunk lies inside the frame.
    pub fn fits(&self, chunk: &ScreenChunk) -> (inside: bool)
        ensures
            inside == self.holds(*chunk),
    {
        chunk.from <= self.pixels.len() && chunk.data.len() <= self.pixels.len() - chunk.from
    }

    /// Copies the chunk to its place. No pixel outside the chunk changes.
    pub fn write(&mut self, chunk: &ScreenChunk)
        requires
            old(self).holds(*chunk),
        ensures
            final(self)@ == written(old(self)@, chunk.from as int, chunk.data@),
    {
        let mut i: usize = 0;
        while i < chunk.data.len()
            invariant
                i <= chunk.data@.len(),
                self.pixels.len() == old(self).pixels.len(),
                chunk.from + chunk.data.len() <= self.pixels.len(),
                forall|p: int|
                    0 <= p < self.pixels@.len() ==> #[trigger] self.pixels@[p] == (if chunk.from
                        <= p < chunk.from + i {
                        chunk.data@[p - chunk.from]
                    } else {
                        old(self).pixels@[p]
                    }),
            decreases chunk.data@.len() - i,
        {
            self.pixels.set(chunk.from + i, chunk.data[i]);
            i += 1;
        }
        assert(self.pixels@ =~= written(old(self)@, chunk.from as int, chunk.data@));
    }
}

/// Writing chunks keeps the size of the frame. A pixel that no chunk covers
/// keeps its value, and a covered pixel holds what the last chunk that covers
/// it brought.
pub proof fn lemma_pixel_after_writes(pixels: Seq<Color>, chunks: Seq<ScreenChunk>, p: int)
    requires
        0 <= p < pixels.len(),
    ensures
        written_all(pixels, chunks).len() == pixels.len(),
        (forall|k: int| 0 <= k < chunks.len() ==> !(#[trigger] chunks[k]).covers(p))
            ==> written_all(pixels, chunks)[p] == pixels[p],
        forall|k: int|
            0 <= k < chunks.len() && (#[trigger] chunks[k]).covers(p) && (forall|j: int|
                k < j < chunks.len() ==> !(#[trigger] chunks[j]).covers(p)) ==> written_all(
                pixels,
                chunks,
            )[p] == chunks[k].data@[p - chunks[k].from],
    decreases chunks.len(),
{
    if chunks.len() > 0 {
        let init = chunks.drop_last();
        let last = chunks.last();
        lemma_pixel_after_writes(pixels, init, p);
        assert(forall|k: int| 0 <= k < init.len() ==> init[k] == chunks[k]);
        assert forall|k: int|
            0 <= k < chunks.len() && (#[trigger] chunks[k]).covers(p) && (forall|j: int|
                k < j < chunks.len() ==> !(#[trigger] chunks[j]).covers(p)) implies written_all(
            pixels,
            chunks,
        )[p] == chunks[k].data@[p - chunks[k].from] by {
            if k < init.len() {
                assert(init[k] == chunks[k]);
                assert(!chunks[chunks.len() - 1].covers(p));
                assert forall|j: int| k < j < init.len() implies !(#[trigger] init[j]).covers(
                    p,
                ) by {
                    assert(init[j] == chunks[j]);
                }
            }
        }
        if forall|k: int| 0 <= k < chunks.len() ==> !(#[trigger] chunks[k]).covers(p) {
            assert(!chunks[chunks.len() - 1].covers(p));
            assert forall|k: int| 0 <= k < init.len() implies !(#[trigger] init[k]).covers(p) by {
                assert(init[k] == chunks[k]);
            }
        }
    }
}

/// Chunks that share no pixel may arrive in any order: each pixel of each
/// chunk ends up in the frame at its place, whatever the position of the
/// chunk in the sequence.
pub proof fn lemma_disjoint_chunks_land(
    pixels: Seq<Color>,
    chunks: Seq<ScreenChunk>,
    k: int,
    p: int,
)
    requires
        0 <= p < pixels.len(),
        0 <= k < chunks.len(),
        chunks[k].covers(p),
        forall|i: int, j: int|
            0 <= i < j < chunks.len() ==> !((#[trigger] chunks[i]).covers(p) && (
            #[trigger] chunks[j]).covers(p)),
    ensures
        written_all(pixels, chunks)[p] == chunks[k].data@[p - chunks[k].from],
{
    lemma_pixel_after_writes(pixels, chunks, p);
}

/// Row chunks fill the frame row by row, in whatever order they arrive and
/// however many are missing: where chunk `k` carries row `rows[k]` of a frame
/// `width` pixels wide and no row comes twice, every pixel of every chunk
/// stands at its column of its row.
pub proof fn lemma_rows_land_in_place(
    pixels: Seq<Color>,
    chunks: Seq<ScreenChunk>,
    rows: Seq<int>,
    width: int,
    height: int,
    k: int,
    column: int,
)
    requires
        0 <= width,
        pixels.len() == width * height,
        rows.len() == chunks.len(),
        forall|i: int| 0 <= i < rows.len() ==> 0 <= #[trigger] rows[i] < height,
        forall|i: int, j: int| 0 <= i < j < rows.len() ==> rows[i] != rows[j],
        forall|i: int|
            0 <= i < chunks.len() ==> (#[trigger] chunks[i]).from == rows[i] * width
                && chunks[i].data@.len() == width,
        0 <= k < chunks.len(),
        0 <= column < width,
    ensures
        0 <= rows[k] * width + column < pixels.len(),
        written_all(pixels, chunks)[rows[k] * width + column] == chunks[k].data@[column],
{
    let p = rows[k] * width + column;
    assert(0 <= rows[k] * width && (rows[k] + 1) * width <= height * width) by (nonlinear_arith)
        requires
            0 <= rows[k] < height,
            0 <= width,
    ;
    assert((rows[k] + 1) * width == rows[k] * width + width) by (nonlinear_arith);
    assert(height * width == width * height) by (nonlinear_arith);
    assert(chunks[k].covers(p));
    assert forall|i: int, j: int| 0 <= i < j < chunks.len() implies !((
    #[trigger] chunks[i]).covers(p) && (#[trigger] chunks[j]).covers(p)) by {
        let a = rows[i];
        let b = rows[j];
        if a < b {
            assert((a + 1) * width <= b * width) by (nonlinear_arith)
                requires
                    a + 1 <= b,
                    0 <= width,
            ;
            assert((a + 1) * width == a * width + width) by (nonlinear_arith);
        } else {
            assert((b + 1) * width <= a * width) by (nonlinear_arith)
                requires
                    b + 1 <= a,
                    0 <= width,
            ;
            assert((b + 1) * width == b * width + width) by (nonlinear_arith);
        }
    }
    lemma_disjoint_chunks_land(pixels, chunks, k, p);
}

} // verus!
