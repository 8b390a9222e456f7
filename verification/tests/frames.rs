use world_gen::gif_export::{canvas_from_rgba, canvas_to_rgba, decode_png, labelled_frame, Canvas};

fn canvas(w: u32, h: u32, p: [u8; 4]) -> Canvas {
    Canvas { width: w, height: h, rows: vec![vec![p; w as usize]; h as usize] }
}

fn png_bytes(w: u32, h: u32, data: Vec<u8>) -> Vec<u8> {
    let img = image::RgbaImage::from_raw(w, h, data).unwrap();
    let mut out = std::io::Cursor::new(Vec::new());
    img.write_to(&mut out, image::ImageFormat::Png).unwrap();
    out.into_inner()
}

#[test]
fn rgba_bytes_round_trip_through_a_canvas() {
    let data: Vec<u8> = (0u8..24).collect();
    let c = canvas_from_rgba(3, 2, &data).unwrap();
    assert_eq!(c.rows[0][0], [0, 1, 2, 3]);
    assert_eq!(c.rows[0][2], [8, 9, 10, 11]);
    assert_eq!(c.rows[1][0], [12, 13, 14, 15]);
    assert_eq!(canvas_to_rgba(&c), data);
}

#[test]
fn wrong_byte_counts_give_no_canvas() {
    assert!(canvas_from_rgba(3, 2, &vec![0; 23]).is_none());
    assert!(canvas_from_rgba(3, 2, &vec![0; 25]).is_none());
    assert!(canvas_from_rgba(0, 5, &vec![]).is_some());
}

#[test]
fn png_files_decode_to_their_pixels() {
    let data = vec![10, 20, 30, 255, 40, 50, 60, 128];
    let c = decode_png("frame.png", &png_bytes(2, 1, data.clone())).unwrap();
    assert_eq!((c.width, c.height), (2, 1));
    assert_eq!(canvas_to_rgba(&c), data);
    let d = decode_png("dir/Frame.PNG", &png_bytes(2, 1, data.clone())).unwrap();
    assert_eq!(canvas_to_rgba(&d), data);
}

#[test]
fn the_file_name_decides_the_format() {
    let bytes = png_bytes(2, 1, vec![1, 2, 3, 255, 4, 5, 6, 255]);
    assert!(decode_png("frame", &bytes).is_none());
    assert!(decode_png("frame.unknown", &bytes).is_none());
    assert!(decode_png("frame.jpg", &bytes).is_none());
}

#[test]
fn garbage_does_not_decode() {
    assert!(decode_png("a.png", &vec![1, 2, 3, 4, 5]).is_none());
    assert!(decode_png("a.png", &vec![]).is_none());
}

#[test]
fn labelled_frames_are_indexed_and_carry_the_label() {
    let f = labelled_frame(canvas(20, 30, [0, 0, 0, 255]), "a").unwrap();
    assert_eq!((f.width, f.height), (20, 30));
    assert_eq!(f.indices.len(), 20 * 30);
    // Two colours: the black background and the white label, sorted black first.
    assert_eq!(f.palette, vec![0, 0, 0, 255, 255, 255]);
    assert_eq!(f.transparent, None);
    // The label's top-left pixel: 'A' starts with a blank column at row 0 of the glyph,
    // which sits 20 rows above the bottom, 10 pixels from the left.
    let at = |x: usize, y: usize| f.indices[y * 20 + x];
    assert_eq!(at(10, 10), 0);
    assert_eq!(at(11, 10), 1);
    assert_eq!(at(10, 13), 1);
    assert_eq!(at(0, 0), 0);
    // Too narrow for one character cell past the left margin: nothing is written.
    let g = labelled_frame(canvas(12, 30, [0, 0, 0, 255]), "a").unwrap();
    assert_eq!(g.palette, vec![0, 0, 0]);
}

#[test]
fn frames_wider_than_a_gif_allows_are_refused() {
    assert!(labelled_frame(canvas(70_000, 1, [0, 0, 0, 255]), "x").is_none());
    assert!(labelled_frame(canvas(1, 70_000, [0, 0, 0, 255]), "x").is_none());
    assert!(labelled_frame(canvas(1, 1, [0, 0, 0, 255]), "x").is_some());
}

#[test]
fn transparent_pixels_get_an_index() {
    let f = labelled_frame(canvas(2, 2, [9, 9, 9, 0]), "").unwrap();
    assert_eq!(f.indices, vec![0, 0, 0, 0]);
    assert_eq!(f.transparent, Some(0));
}
