use pathtracer::chunk::ScreenChunk;
use pathtracer::color::ColorVec;
use pathtracer::frame::FrameBuffer;
use pathtracer::scalar::Scalar;

fn scalar(x: f32) -> Scalar {
    Scalar::from_bits(x.to_bits())
}

fn grey(level: f32) -> ColorVec {
    ColorVec { x: scalar(level), y: scalar(level), z: scalar(level) }
}

#[test]
fn a_new_frame_is_black() {
    let frame = FrameBuffer::new(4, 3);
    assert_eq!(frame.len(), 12);
    assert_eq!(frame.pixels(), &vec![0u32; 12]);
    assert_eq!(FrameBuffer::new(0, 7).len(), 0);
    assert_eq!(FrameBuffer::new(7, 0).len(), 0);
}

#[test]
fn a_chunk_lands_at_its_offset() {
    let mut frame = FrameBuffer::new(4, 3);
    let chunk = ScreenChunk { from: 4, data: vec![1, 2, 3, 4] };
    assert!(frame.fits(&chunk));
    frame.write(&chunk);
    assert_eq!(frame.pixels(), &vec![0, 0, 0, 0, 1, 2, 3, 4, 0, 0, 0, 0]);
}

#[test]
fn a_later_chunk_overwrites_an_earlier_one() {
    let mut frame = FrameBuffer::new(3, 2);
    frame.write(&ScreenChunk { from: 1, data: vec![7, 7, 7] });
    frame.write(&ScreenChunk { from: 2, data: vec![9, 9] });
    assert_eq!(frame.pixels(), &vec![0, 7, 9, 9, 0, 0]);
}

#[test]
fn chunks_may_arrive_in_any_order() {
    let rows: Vec<ScreenChunk> = (0..4usize)
        .map(|row| ScreenChunk { from: row * 3, data: vec![row as u32 * 10; 3] })
        .collect();
    let mut forward = FrameBuffer::new(3, 4);
    for chunk in rows.iter() {
        forward.write(chunk);
    }
    let mut backward = FrameBuffer::new(3, 4);
    for chunk in rows.iter().rev() {
        backward.write(chunk);
    }
    let mut shuffled = FrameBuffer::new(3, 4);
    for i in [2usize, 0, 3, 1] {
        shuffled.write(&rows[i]);
    }
    let expected = vec![0, 0, 0, 10, 10, 10, 20, 20, 20, 30, 30, 30];
    assert_eq!(forward.pixels(), &expected);
    assert_eq!(backward.pixels(), &expected);
    assert_eq!(shuffled.pixels(), &expected);
}

#[test]
fn a_missing_chunk_leaves_its_row_untouched() {
    let mut frame = FrameBuffer::new(2, 3);
    frame.write(&ScreenChunk { from: 0, data: vec![5, 5] });
    frame.write(&ScreenChunk { from: 4, data: vec![6, 6] });
    assert_eq!(frame.pixels(), &vec![5, 5, 0, 0, 6, 6]);
}

#[test]
fn fits_tells_what_write_may_take() {
    let frame = FrameBuffer::new(4, 2);
    assert!(frame.fits(&ScreenChunk { from: 0, data: vec![0; 8] }));
    assert!(frame.fits(&ScreenChunk { from: 8, data: vec![] }));
    assert!(frame.fits(&ScreenChunk { from: 7, data: vec![1] }));
    assert!(!frame.fits(&ScreenChunk { from: 7, data: vec![1, 2] }));
    assert!(!frame.fits(&ScreenChunk { from: 9, data: vec![] }));
    assert!(!frame.fits(&ScreenChunk { from: usize::MAX, data: vec![1, 2] }));
    assert!(!frame.fits(&ScreenChunk { from: 0, data: vec![0; 9] }));
}

#[test]
fn an_empty_chunk_changes_nothing() {
    let mut frame = FrameBuffer::new(2, 2);
    frame.write(&ScreenChunk { from: 1, data: vec![3, 4] });
    frame.write(&ScreenChunk { from: 4, data: vec![] });
    assert_eq!(frame.pixels(), &vec![0, 3, 4, 0]);
}

#[test]
fn a_row_chunk_holds_the_encoded_colours() {
    let colors = vec![grey(0.0), grey(1.0), grey(64.0), grey(255.0), grey(1000.0)];
    let chunk = ScreenChunk::row(800, &colors);
    assert_eq!(chunk.from, 800);
    assert_eq!(chunk.data, vec![0x000000, 0x0F0F0F, 0x7F7F7F, 0xFFFFFF, 0xFFFFFF]);
    let empty = ScreenChunk::row(3, &Vec::new());
    assert_eq!(empty, ScreenChunk { from: 3, data: vec![] });
}
