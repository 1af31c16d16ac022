use pathtracer::views::ColorsView;

#[test]
fn the_test_card_is_one_chunk_for_the_whole_frame() {
    let chunk = ColorsView.step(5, 3);
    assert_eq!(chunk.from, 0);
    assert_eq!(chunk.data.len(), 15);
}

#[test]
fn the_test_card_has_no_blue() {
    let chunk = ColorsView.step(17, 9);
    for pixel in &chunk.data {
        assert_eq!(pixel & 0xFF, 0);
        assert!(*pixel <= 0xFFFFFF);
    }
}

#[test]
fn red_grows_along_the_row_and_green_along_the_frame() {
    let width = 4u32;
    let height = 2u32;
    let chunk = ColorsView.step(width, height);
    // red = column * 255 / 4, green = index * 255 / 8
    let expected: Vec<u32> = vec![
        (0 << 16) | (0 << 8),
        (63 << 16) | (31 << 8),
        (127 << 16) | (63 << 8),
        (191 << 16) | (95 << 8),
        (0 << 16) | (127 << 8),
        (63 << 16) | (159 << 8),
        (127 << 16) | (191 << 8),
        (191 << 16) | (223 << 8),
    ];
    assert_eq!(chunk.data, expected);
}

#[test]
fn the_test_card_matches_the_float_gradient_on_a_power_of_two_frame() {
    let width = 64u32;
    let height = 32u32;
    let chunk = ColorsView.step(width, height);
    for index in 0..(width * height) {
        let y = index as f32 / width as f32;
        let x = index % width;
        let red = (x as f32 / width as f32 * 255.) as u32;
        let green = (y as f32 / height as f32 * 255.) as u32;
        let blue = 0;
        assert_eq!(chunk.data[index as usize], blue | (green << 8) | (red << 16));
    }
}

#[test]
fn an_empty_frame_gives_an_empty_chunk() {
    assert!(ColorsView.step(0, 10).data.is_empty());
    assert!(ColorsView.step(10, 0).data.is_empty());
    assert!(ColorsView.step(0, 0).data.is_empty());
}

#[test]
fn a_single_pixel_is_black() {
    assert_eq!(ColorsView.step(1, 1).data, vec![0]);
}
