use world_gen::drawer::{clean_polygon, coast_flags, fill_cells, plate_color, PLATE_PALETTE};
use world_gen::gif_export::{create_simple_font, draw_text_on_image, Canvas, DEFAULT_GLYPH};
use world_gen::pipeline::{fingerprint, FNV_OFFSET};

#[test]
fn fingerprint_of_nothing_is_the_offset_basis() {
    assert_eq!(fingerprint(&vec![], &vec![]), 0xcbf29ce484222325);
    assert_eq!(FNV_OFFSET, 0xcbf29ce484222325);
}

#[test]
fn fingerprint_of_known_elevations() {
    assert_eq!(fingerprint(&vec![0u64], &vec![false]), 0xa8c7f832281a39c5);
    let bits = vec![1.5f64.to_bits(), (-0.25f64).to_bits()];
    assert_eq!(fingerprint(&bits, &vec![false, false]), 0x580ae68f90e3633d);
}

#[test]
fn fingerprint_skips_ghosts() {
    let bits = vec![1.5f64.to_bits(), 99, (-0.25f64).to_bits(), 12345];
    assert_eq!(fingerprint(&bits, &vec![false, true, false, true]), 0x580ae68f90e3633d);
    let other = vec![1.5f64.to_bits(), 7, (-0.25f64).to_bits(), 8];
    assert_eq!(
        fingerprint(&bits, &vec![false, true, false, true]),
        fingerprint(&other, &vec![false, true, false, true])
    );
    assert_ne!(fingerprint(&bits, &vec![false; 4]), fingerprint(&other, &vec![false; 4]));
}

#[test]
fn font_has_letters_digits_and_marks() {
    let font = create_simple_font();
    assert_eq!(font.len(), 39);
    for c in "ABCDEFGHIJKLMNOPQRSTUVWXYZ0123456789._-".chars() {
        assert!(font.contains_key(&(c as u32)), "missing {}", c);
    }
    assert!(!font.contains_key(&('a' as u32)));
    let a = font[&('A' as u32)];
    assert_eq!(a[0], [0, 1, 1, 1, 0]);
    assert_eq!(a[3], [1, 1, 1, 1, 1]);
    assert_eq!(font[&('-' as u32)][3], [1, 1, 1, 1, 1]);
}

fn canvas(w: u32, h: u32) -> Canvas {
    Canvas { width: w, height: h, rows: vec![vec![[0, 0, 0, 255]; w as usize]; h as usize] }
}

fn lit(c: &Canvas) -> Vec<(usize, usize)> {
    let mut v = Vec::new();
    for (y, row) in c.rows.iter().enumerate() {
        for (x, p) in row.iter().enumerate() {
            if *p == [255, 255, 255, 255] {
                v.push((x, y));
            }
        }
    }
    v
}

#[test]
fn lower_case_is_drawn_as_upper_case() {
    let white = [255, 255, 255, 255];
    let mut a = canvas(12, 10);
    draw_text_on_image(&mut a, "a", 1, 1, white);
    let mut b = canvas(12, 10);
    draw_text_on_image(&mut b, "A", 1, 1, white);
    assert_eq!(lit(&a), lit(&b));
    let font = create_simple_font();
    let glyph = font[&('A' as u32)];
    for r in 0..7 {
        for c in 0..5 {
            let on = a.rows[1 + r][1 + c] == white;
            assert_eq!(on, glyph[r][c] == 1);
        }
    }
    assert_eq!(a.rows[0][0], [0, 0, 0, 255]);
}

#[test]
fn unknown_characters_are_framed() {
    let white = [255, 255, 255, 255];
    let mut c = canvas(8, 8);
    draw_text_on_image(&mut c, "#", 0, 0, white);
    for r in 0..7 {
        for k in 0..5 {
            assert_eq!(c.rows[r][k] == white, DEFAULT_GLYPH[r][k] == 1);
        }
    }
}

#[test]
fn drawing_stops_before_the_right_edge() {
    let white = [255, 255, 255, 255];
    let mut c = canvas(10, 8);
    draw_text_on_image(&mut c, "II", 0, 0, white);
    // The first cell fits (0 + 6 <= 10), the second does not (6 + 6 > 10).
    assert!(c.rows[0][0] == white);
    assert!(c.rows.iter().all(|row| row[6..].iter().all(|p| *p != white)));
}

#[test]
fn pixels_off_the_image_are_skipped() {
    let white = [255, 255, 255, 255];
    let mut c = canvas(12, 4);
    draw_text_on_image(&mut c, "I", 0, -3, white);
    // Rows 3..7 of 'I' land on image rows 0..4; row 6 of 'I' is full.
    assert_eq!(c.rows[3][..5], [white; 5]);
    assert_eq!(c.rows[0][2], white);
    assert_eq!(c.rows[0][0], [0, 0, 0, 255]);
}

#[test]
fn plate_colors_cycle_through_the_palette() {
    assert_eq!(plate_color(0), [230, 25, 75]);
    assert_eq!(plate_color(17), PLATE_PALETTE[1]);
    assert_eq!(plate_color(15), [170, 255, 195]);
}

#[test]
fn coastline_cells_touch_the_other_side() {
    let g = vec![vec![1], vec![0, 2], vec![1, 3], vec![2]];
    let water = vec![true, true, false, false];
    assert_eq!(coast_flags(&g, &vec![false; 4], &water), vec![false, true, true, false]);
    // A ghost neighbour does not make a coast, and a ghost is never one.
    assert_eq!(coast_flags(&g, &vec![false, false, true, false], &water), vec![false, false, false, false]);
}

#[test]
fn polygons_lose_repeated_and_closing_vertices() {
    let p = vec![(0, 0), (0, 0), (1, 0), (1, 1), (1, 1), (0, 0)];
    assert_eq!(clean_polygon(p), vec![(0, 0), (1, 0), (1, 1)]);
    assert_eq!(clean_polygon(vec![(3, 3), (3, 3)]), vec![(3, 3)]);
    assert_eq!(clean_polygon(vec![(1, 1), (2, 2), (1, 1)]), vec![(1, 1), (2, 2)]);
    assert_eq!(clean_polygon(vec![(1, 1), (1, 1), (2, 2)]), vec![(1, 1), (2, 2)]);
    assert_eq!(clean_polygon(vec![]), vec![]);
}

#[test]
fn timings_start_at_zero() {
    let t = world_gen::pipeline::Timings::default();
    assert_eq!(t.total, std::time::Duration::ZERO);
    assert_eq!(t.mesh + t.plates + t.tectonics + t.hydrology + t.render, std::time::Duration::ZERO);
}

#[test]
fn cells_are_filled_in_order() {
    let px = |b: &Vec<u8>, x: usize, y: usize| [b[(y * 6 + x) * 4], b[(y * 6 + x) * 4 + 1], b[(y * 6 + x) * 4 + 2], b[(y * 6 + x) * 4 + 3]];
    let black = vec![0u8; 6 * 6 * 4];
    let square = vec![(0, 0), (3, 0), (3, 3), (3, 3), (0, 3), (0, 0)];
    let out = fill_cells(6, 6, black.clone(), &vec![(square.clone(), [9, 8, 7, 255])]);
    assert_eq!(out.len(), black.len());
    assert_eq!(px(&out, 1, 1), [9, 8, 7, 255]);
    assert_eq!(px(&out, 5, 5), [0, 0, 0, 0]);
    // A later cell paints over an earlier one.
    let out2 = fill_cells(6, 6, black.clone(), &vec![(square.clone(), [9, 8, 7, 255]), (square, [1, 2, 3, 255])]);
    assert_eq!(px(&out2, 1, 1), [1, 2, 3, 255]);
    // A cell with fewer than three distinct vertices paints nothing.
    let out3 = fill_cells(6, 6, black.clone(), &vec![(vec![(1, 1), (1, 1), (2, 2)], [9, 9, 9, 255])]);
    assert_eq!(out3, black);
}

#[test]
fn cells_reaching_past_the_image_are_clipped() {
    // One row of ten pixels; the triangle crosses it between x = -3 and x = 3.
    let black = vec![0u8; 10 * 4];
    let tri = vec![(-5, -5), (5, -5), (0, 5)];
    let out = fill_cells(10, 1, black.clone(), &vec![(tri, [7, 7, 7, 255])]);
    assert_eq!(out.len(), black.len());
    for x in 0..10 {
        let expected = if x <= 3 { [7, 7, 7, 255] } else { [0, 0, 0, 0] };
        assert_eq!(out[x * 4..x * 4 + 4], expected, "pixel {}", x);
    }
}
