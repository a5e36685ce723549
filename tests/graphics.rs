use kernel_heap::font::lookup_font;
use kernel_heap::graphics::{calc_slope_point, draw_font_fg, draw_line, draw_str_fg, FrameGeometry, VramTextWriter};

fn screen(width: i64, height: i64, pixels_per_line: i64) -> FrameGeometry {
    FrameGeometry { width, height, pixels_per_line }
}

#[test]
fn slope_points_round_to_nearest() {
    let got: Vec<Option<i64>> = (0..=4).map(|i| calc_slope_point(4, 2, i)).collect();
    assert_eq!(got, vec![Some(0), Some(1), Some(1), Some(2), Some(2)]);
    assert_eq!(calc_slope_point(3, 5, 1), None);
    assert_eq!(calc_slope_point(0, 0, 5), Some(0));
    assert_eq!(calc_slope_point(4, 2, 5), None);
    assert_eq!(calc_slope_point(4, 2, -1), None);
    assert_eq!(calc_slope_point(4, -2, 1), Some(0));
    assert_eq!(calc_slope_point(4, -2, 4), Some(-1));
    assert_eq!(calc_slope_point(i64::MAX, i64::MAX, i64::MAX), Some(i64::MAX));
}

#[test]
fn shallow_line_steps_along_x() {
    let g = screen(100, 100, 100);
    assert_eq!(draw_line(&g, 0, 0, 4, 2), Ok(vec![(0, 0), (1, 1), (2, 1), (3, 2)]));
    assert_eq!(draw_line(&g, 4, 2, 0, 0), Ok(vec![(4, 2), (3, 1), (2, 1), (1, 0)]));
}

#[test]
fn steep_line_steps_along_y() {
    let g = screen(100, 100, 100);
    assert_eq!(draw_line(&g, 0, 0, 1, 3), Ok(vec![(0, 0), (0, 1), (1, 2)]));
    assert_eq!(draw_line(&g, 5, 9, 5, 6), Ok(vec![(5, 9), (5, 8), (5, 7)]));
}

#[test]
fn line_with_an_end_off_screen_is_refused() {
    let g = screen(100, 100, 100);
    assert_eq!(draw_line(&g, 0, 0, 100, 0), Err("Out of Range"));
    assert_eq!(draw_line(&g, -1, 0, 10, 0), Err("Out of Range"));
    assert_eq!(draw_line(&g, 3, 3, 3, 3), Ok(vec![]));
}

#[test]
fn visibility_uses_the_narrower_of_width_and_line() {
    let g = screen(200, 50, 150);
    assert!(g.is_in_x_range(149));
    assert!(!g.is_in_x_range(150));
    assert!(!g.is_in_x_range(-1));
    assert!(g.is_in_y_range(49));
    assert!(!g.is_in_y_range(50));
}

#[test]
fn pixel_offsets_count_whole_memory_lines() {
    let g = screen(100, 50, 128);
    assert_eq!(g.pixel_offset(3, 2), Some((2 * 128 + 3) * 4));
    assert_eq!(g.pixel_offset(0, 0), Some(0));
    assert_eq!(g.pixel_offset(100, 0), None);
    assert_eq!(g.pixel_offset(0, 50), None);
}

#[test]
fn rectangles_must_be_wholly_visible() {
    let g = screen(100, 50, 128);
    assert_eq!(g.check_rect(0, 0, 100, 50), Ok(()));
    assert_eq!(g.check_rect(0, 0, 101, 50), Err("Out of Range"));
    assert_eq!(g.check_rect(10, 10, 0, 5), Ok(()));
    assert_eq!(g.check_rect(10, 10, i64::MAX, 5), Err("Out of Range"));
}

fn blank_glyph() -> Vec<u8> {
    vec![b'.'; 128]
}

#[test]
fn glyph_lights_only_its_visible_ink() {
    let g = screen(100, 100, 100);
    let mut glyph = blank_glyph();
    glyph[0] = b'*';
    glyph[127] = b'*';
    assert_eq!(draw_font_fg(&g, 10, 20, &glyph), vec![(10, 20), (17, 35)]);
    assert_eq!(draw_font_fg(&g, -1, 0, &glyph), vec![(6, 15)]);
    assert_eq!(draw_font_fg(&g, 0, 0, &blank_glyph()), vec![]);
}

#[test]
fn string_cells_advance_eight_pixels() {
    assert_eq!(draw_str_fg(5, 7, "ab"), vec![(5, 7, 'a'), (13, 7, 'b')]);
    assert_eq!(draw_str_fg(0, 0, ""), vec![]);
}

#[test]
fn text_writer_wraps_at_newlines() {
    let mut w = VramTextWriter::new();
    assert_eq!(w.write_str("ab\nc"), vec![(0, 0, 'a'), (8, 0, 'b'), (0, 16, 'c')]);
    assert_eq!((w.cursor_x, w.cursor_y), (8, 16));
    assert_eq!(w.write_str("\n\n"), vec![]);
    assert_eq!((w.cursor_x, w.cursor_y), (0, 48));
}

fn font_text() -> String {
    let mut t = String::from("some preamble\n0x41\n");
    for y in 0..16 {
        let mut row = String::new();
        for x in 0..8 {
            row.push(if x == y % 8 { '*' } else { '.' });
        }
        t.push_str(&row);
        t.push('\n');
    }
    t.push_str("0x+4a\n**\n");
    t.push_str("0X43\n........\n");
    t.push_str("0x100\n........\n");
    t.push_str("0x44");
    t
}

#[test]
fn font_glyph_is_read_from_the_lines_after_its_header() {
    let t = font_text();
    let a = lookup_font(t.as_bytes(), 'A').unwrap();
    assert_eq!(a.len(), 128);
    for k in 0..128 {
        let (x, y) = (k % 8, k / 8);
        assert_eq!(a[k], if x == y % 8 { b'*' } else { b'.' });
    }
}

#[test]
fn font_short_rows_and_missing_rows_are_lit() {
    let t = font_text();
    let j = lookup_font(t.as_bytes(), 'J').unwrap();
    assert_eq!(&j[0..8], b"********");
    assert_eq!(&j[8..16], b"0X43****");
    assert_eq!(&j[16..24], b"........");
    let d = lookup_font(t.as_bytes(), 'D').unwrap();
    assert_eq!(d, vec![b'*'; 128]);
}

#[test]
fn font_without_the_glyph_gives_none() {
    let t = font_text();
    assert_eq!(lookup_font(t.as_bytes(), 'C'), None);
    assert_eq!(lookup_font(t.as_bytes(), 'B'), None);
    assert_eq!(lookup_font(t.as_bytes(), '\u{100}'), None);
    assert_eq!(lookup_font(b"", 'A'), None);
}
