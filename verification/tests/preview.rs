use cellfont::preview::{
    canvas_size, decimal_text, find_drawn, find_entry, line_lengths, longest, render_text,
    Canvas, FontEntry, Glyph, BACKGROUND, CELL_HEIGHT, CELL_WIDTH, FALLBACK, FOREGROUND, MARGIN,
};

fn glyph(width: u32, height: u32, x: i32, y: i32, rows: &[&str]) -> Glyph {
    let mut pixels: Vec<bool> = Vec::new();
    for row in rows {
        for c in row.chars() {
            pixels.push(c == '#');
        }
    }
    Glyph { width, height, x, y, pixels }
}

fn font() -> Vec<FontEntry> {
    vec![
        FontEntry {
            codepoint: 'A' as u32,
            glyph: glyph(5, 8, 0, 0, &[
                "..#..", ".#.#.", "#...#", "#...#", "#####", "#...#", "#...#", ".....",
            ]),
        },
        FontEntry { codepoint: '?' as u32, glyph: glyph(1, 1, 0, 7, &["#"]) },
        FontEntry { codepoint: 'i' as u32, glyph: glyph(1, 3, 2, 0, &["#", ".", "#"]) },
        FontEntry { codepoint: 'A' as u32, glyph: glyph(1, 1, 0, 0, &["#"]) },
    ]
}

fn codes(text: &str) -> Vec<u32> {
    text.chars().map(|c| c as u32).collect()
}

fn show(canvas: &Canvas) -> Vec<String> {
    let mut rows: Vec<String> = Vec::new();
    for y in 0..canvas.height {
        let mut row = String::new();
        for x in 0..canvas.width {
            row.push(if canvas.pixels[y * canvas.width + x] == canvas.foreground { '#' } else { '.' });
        }
        rows.push(row);
    }
    rows
}

#[test]
fn the_constants_of_a_preview() {
    assert_eq!(MARGIN, 4);
    assert_eq!(BACKGROUND, 0x333333);
    assert_eq!(FOREGROUND, 0xF1F11F);
    assert_eq!(CELL_WIDTH, 5);
    assert_eq!(CELL_HEIGHT, 8);
    assert_eq!(FALLBACK, '?' as u32);
}

#[test]
fn pixel_reads_the_bitmap_row_by_row() {
    let g = glyph(3, 2, 0, 0, &["#..", ".##"]);
    assert!(g.pixel(0, 0));
    assert!(!g.pixel(1, 0));
    assert!(!g.pixel(2, 0));
    assert!(!g.pixel(0, 1));
    assert!(g.pixel(1, 1));
    assert!(g.pixel(2, 1));
}

#[test]
fn pixel_outside_the_bitmap_is_not_set() {
    let g = glyph(2, 2, 0, 0, &["##", "##"]);
    assert!(!g.pixel(-1, 0));
    assert!(!g.pixel(0, -1));
    assert!(!g.pixel(2, 0));
    assert!(!g.pixel(0, 2));
    assert!(!g.pixel(i64::MAX, i64::MAX));
    assert!(!g.pixel(i64::MIN, i64::MIN));
}

#[test]
fn pixel_beyond_the_stored_pixels_is_not_set() {
    let g = Glyph { width: 2, height: 2, x: 0, y: 0, pixels: vec![true, true, true] };
    assert!(g.pixel(0, 1));
    assert!(!g.pixel(1, 1));
    let huge = Glyph { width: u32::MAX, height: u32::MAX, x: 0, y: 0, pixels: vec![true] };
    assert!(huge.pixel(0, 0));
    assert!(!huge.pixel(4294967294, 4294967294));
}

#[test]
fn covers_places_a_full_glyph_in_the_whole_cell() {
    let a = &font()[0].glyph;
    assert!(a.covers(2, 0));
    assert!(!a.covers(0, 0));
    assert!(a.covers(0, 4));
    assert!(a.covers(4, 4));
    assert!(!a.covers(2, 7));
}

#[test]
fn covers_moves_a_glyph_by_its_offsets() {
    let i = &font()[2].glyph;
    // height 3, y 0: bitmap row 0 is cell row 5; x 2: bitmap column 0 is cell column 2
    assert!(i.covers(2, 5));
    assert!(!i.covers(2, 6));
    assert!(i.covers(2, 7));
    assert!(!i.covers(1, 5));
    assert!(!i.covers(3, 5));
    assert!(!i.covers(2, 4));
    let q = &font()[1].glyph;
    // height 1, y 7: bitmap row 0 is cell row 0
    assert!(q.covers(0, 0));
    assert!(!q.covers(0, 1));
    assert!(!q.covers(1, 0));
}

#[test]
fn find_entry_gives_the_first_entry_of_a_codepoint() {
    let f = font();
    assert_eq!(find_entry(&f, 'A' as u32), Some(0));
    assert_eq!(find_entry(&f, '?' as u32), Some(1));
    assert_eq!(find_entry(&f, 'i' as u32), Some(2));
    assert_eq!(find_entry(&f, 'z' as u32), None);
    assert_eq!(find_entry(&Vec::new(), 'A' as u32), None);
}

#[test]
fn find_drawn_falls_back_to_the_question_mark() {
    let f = font();
    assert_eq!(find_drawn(&f, 'i' as u32), Some(2));
    assert_eq!(find_drawn(&f, 'z' as u32), Some(1));
    assert_eq!(find_drawn(&f, 0x1F600), Some(1));
    let without: Vec<FontEntry> = vec![f[0].clone()];
    assert_eq!(find_drawn(&without, 'A' as u32), Some(0));
    assert_eq!(find_drawn(&without, 'z' as u32), None);
}

#[test]
fn a_new_canvas_is_all_background() {
    let c = Canvas::new(3, 2, false);
    assert_eq!(c.width, 3);
    assert_eq!(c.height, 2);
    assert_eq!(c.scale, 2);
    assert_eq!(c.row, 4);
    assert_eq!(c.foreground, 0xF1F11F);
    assert_eq!(c.pixels, vec![0x333333; 6]);
    assert_eq!(Canvas::new(3, 2, true).scale, 4);
    assert_eq!(Canvas::new(0, 5, true).pixels, Vec::<u32>::new());
}

#[test]
fn set_foreground_changes_only_the_colour() {
    let mut c = Canvas::new(3, 2, false);
    c.set_foreground(0x123456);
    assert_eq!(c.foreground, 0x123456);
    assert_eq!(c.pixels, vec![0x333333; 6]);
    assert_eq!((c.width, c.height, c.scale, c.row), (3, 2, 2, 4));
}

#[test]
fn set_background_paints_every_pixel() {
    let mut c = Canvas::new(3, 2, false);
    c.pixels[1] = 7;
    c.set_background(0xABCDEF);
    assert_eq!(c.pixels, vec![0xABCDEF; 6]);
    assert_eq!((c.width, c.height, c.scale, c.row, c.foreground), (3, 2, 2, 4, 0xF1F11F));
}

#[test]
fn render_line_draws_each_character_in_its_cell() {
    let f = font();
    let mut c = Canvas::new(18, 16, false);
    c.render_line(&f, &codes("Ai"));
    assert_eq!(c.row, 12);
    assert_eq!(show(&c), vec![
        "..................",
        "..................",
        "..................",
        "..................",
        "......#...........",
        ".....#.#..........",
        "....#...#.........",
        "....#...#.........",
        "....#####.........",
        "....#...#..#......",
        "....#...#.........",
        "...........#......",
        "..................",
        "..................",
        "..................",
        "..................",
    ]);
}

#[test]
fn render_line_keeps_what_was_drawn_before() {
    let f = font();
    let mut c = Canvas::new(13, 24, false);
    c.render_line(&f, &codes("?"));
    c.set_foreground(0x00FF00);
    c.render_line(&f, &codes("z"));
    assert_eq!(c.row, 20);
    assert_eq!(c.pixels[4 * 13 + 4], 0xF1F11F);
    assert_eq!(c.pixels[12 * 13 + 4], 0x00FF00);
    let drawn = c.pixels.iter().filter(|p| **p != 0x333333).count();
    assert_eq!(drawn, 2);
}

#[test]
fn render_line_of_no_characters_only_moves_down() {
    let f = font();
    let mut c = Canvas::new(8, 16, false);
    c.render_line(&f, &Vec::new());
    assert_eq!(c.row, 12);
    assert_eq!(c.pixels, vec![0x333333; 8 * 16]);
}

#[test]
fn longest_is_the_greatest_length() {
    assert_eq!(longest(&vec![3, 9, 2]), 9);
    assert_eq!(longest(&vec![0]), 0);
    assert_eq!(longest(&Vec::new()), 0);
    assert_eq!(longest(&vec![usize::MAX, 1]), usize::MAX);
}

#[test]
fn canvas_size_leaves_a_margin_around_the_text() {
    assert_eq!(canvas_size(&vec![3, 9, 2]), Some((9 * 5 + 8, 3 * 8 + 8)));
    assert_eq!(canvas_size(&Vec::new()), Some((8, 8)));
    assert_eq!(canvas_size(&vec![0, 0]), Some((8, 24)));
}

#[test]
fn canvas_size_that_does_not_fit_is_refused() {
    assert_eq!(canvas_size(&vec![usize::MAX]), None);
    assert_eq!(canvas_size(&vec![usize::MAX / 5]), None);
    assert_eq!(canvas_size(&vec![(usize::MAX - 8) / 5]), Some(((usize::MAX - 8) / 5 * 5 + 8, 16)));
}

#[test]
fn line_lengths_counts_the_characters() {
    assert_eq!(line_lengths(&vec![codes("abc"), codes(""), codes("A?")]), vec![3, 0, 2]);
    assert_eq!(line_lengths(&Vec::new()), Vec::<usize>::new());
}

#[test]
fn render_text_makes_the_picture_of_all_lines() {
    let f = font();
    let c = render_text(&f, &vec![codes("A"), codes("iz")], false, 0x333333, 0xF1F11F).unwrap();
    assert_eq!((c.width, c.height, c.scale, c.row), (18, 24, 2, 20));
    assert_eq!(show(&c), vec![
        "..................",
        "..................",
        "..................",
        "..................",
        "......#...........",
        ".....#.#..........",
        "....#...#.........",
        "....#...#.........",
        "....#####.........",
        "....#...#.........",
        "....#...#.........",
        "..................",
        ".........#........",
        "..................",
        "..................",
        "..................",
        "..................",
        "......#...........",
        "..................",
        "......#...........",
        "..................",
        "..................",
        "..................",
        "..................",
    ]);
}

#[test]
fn render_text_uses_the_colours_given() {
    let f = font();
    let c = render_text(&f, &vec![codes("?")], true, 0x000000, 0xFFFFFF).unwrap();
    assert_eq!(c.scale, 4);
    assert_eq!(c.foreground, 0xFFFFFF);
    assert_eq!(c.pixels[4 * 13 + 4], 0xFFFFFF);
    assert_eq!(c.pixels.iter().filter(|p| **p == 0x000000).count(), 13 * 16 - 1);
}

#[test]
fn render_text_of_no_lines_needs_no_font() {
    let c = render_text(&Vec::new(), &Vec::new(), false, 0x333333, 0xF1F11F).unwrap();
    assert_eq!((c.width, c.height, c.row), (8, 8, 4));
    assert_eq!(c.pixels, vec![0x333333; 64]);
}

#[test]
fn render_text_without_a_question_mark_is_refused() {
    let f: Vec<FontEntry> = vec![font()[0].clone()];
    assert!(render_text(&f, &vec![codes("A")], false, 0x333333, 0xF1F11F).is_none());
    assert!(render_text(&f, &vec![codes("")], false, 0x333333, 0xF1F11F).is_none());
}

#[test]
fn ascii_lines_stop_at_the_last_drawn_pixel() {
    let f = font();
    let c = render_text(&f, &vec![codes("A")], false, 0x333333, 0xF1F11F).unwrap();
    let lines: Vec<String> =
        c.ascii_lines().into_iter().map(|l| String::from_utf8(l).unwrap()).collect();
    assert_eq!(lines, vec![
        "    ##",
        "  ##  ##",
        "##      ##",
        "##      ##",
        "##########",
        "##      ##",
        "##      ##",
        "  ",
        "  ",
        "  ",
        "  ",
        "  ",
    ]);
}

#[test]
fn ascii_lines_tell_pixels_by_the_default_background() {
    let mut c = Canvas::new(6, 5, false);
    c.set_background(0x000000);
    let lines: Vec<String> =
        c.ascii_lines().into_iter().map(|l| String::from_utf8(l).unwrap()).collect();
    assert_eq!(lines, vec!["####"]);
    let low = Canvas::new(6, 3, false);
    assert!(low.ascii_lines().is_empty());
}

#[test]
fn decimal_text_writes_digits_without_leading_zeros() {
    assert_eq!(decimal_text(0), b"0".to_vec());
    assert_eq!(decimal_text(7), b"7".to_vec());
    assert_eq!(decimal_text(10), b"10".to_vec());
    assert_eq!(decimal_text(255), b"255".to_vec());
    assert_eq!(decimal_text(1000), b"1000".to_vec());
    assert_eq!(decimal_text(usize::MAX), format!("{}", usize::MAX).into_bytes());
}

#[test]
fn ppm_bytes_scale_every_pixel() {
    let mut c = Canvas::new(2, 1, false);
    c.pixels[0] = 0x010203;
    c.pixels[1] = 0xF1F11F;
    let mut expected: Vec<u8> = vec![b'P', b'6', b'\n'];
    expected.extend_from_slice(b"4 2\n255\n");
    for _ in 0..2 {
        expected.extend_from_slice(&[1, 2, 3, 1, 2, 3, 0xF1, 0xF1, 0x1F, 0xF1, 0xF1, 0x1F]);
    }
    assert_eq!(c.ppm_bytes(), expected);
}

#[test]
fn ppm_bytes_of_a_doubled_canvas() {
    let mut c = Canvas::new(1, 2, true);
    c.pixels[1] = 0xFF000000 | 0x0A0B0C;
    let bytes = c.ppm_bytes();
    let mut header: Vec<u8> = vec![b'P', b'6', b'\n'];
    header.extend_from_slice(b"4 8\n255\n");
    assert_eq!(bytes[..header.len()].to_vec(), header);
    let body = &bytes[header.len()..];
    assert_eq!(body.len(), 4 * 8 * 3);
    for (i, px) in body.chunks(3).enumerate() {
        if i < 16 {
            assert_eq!(px.to_vec(), vec![0x33, 0x33, 0x33]);
        } else {
            assert_eq!(px.to_vec(), vec![0x0A, 0x0B, 0x0C]);
        }
    }
}

#[test]
fn ppm_bytes_of_an_empty_canvas_is_a_header() {
    let mut header: Vec<u8> = vec![b'P', b'6', b'\n'];
    header.extend_from_slice(b"0 0\n255\n");
    assert_eq!(Canvas::new(0, 0, false).ppm_bytes(), header);
}
