use cellfont::reader::ErrorKind;
use cellfont::stream::{normalize_lines, process, read_glyphs, ReadError};

fn lines(text: &str) -> Vec<Vec<u8>> {
    text.lines().map(|l| l.as_bytes().to_vec()).collect()
}

fn text(lines: &Vec<Vec<u8>>) -> String {
    lines.iter().map(|l| format!("{}\n", String::from_utf8(l.clone()).unwrap())).collect()
}

const LETTER_A: &str = "ENCODING 65\nBBX 5 8 0 0\nBITMAP\n10\n28\n44\n82\nFE\n82\n82\n00\nENDCHAR\n";

#[test]
fn the_letter_a_is_stored_at_its_codepoint() {
    let table = read_glyphs(&lines(LETTER_A), true).ok().unwrap();
    assert_eq!(table.get(65), [0x10, 0x28, 0x44, 0x82, 0xFE, 0x82, 0x82, 0x00]);
    for c in 0..256i64 {
        if c != 65 {
            assert_eq!(table.get(c), [0u8; 8]);
        }
    }
}

#[test]
fn the_letter_a_is_stored_alike_when_lenient() {
    let table = read_glyphs(&lines(LETTER_A), false).ok().unwrap();
    assert_eq!(table.get(65), [0x10, 0x28, 0x44, 0x82, 0xFE, 0x82, 0x82, 0x00]);
}

#[test]
fn a_codepoint_outside_the_table_leaves_it_unchanged() {
    let input = "ENCODING 999\nBBX 5 8 0 0\nBITMAP\n10\n28\n44\n82\nFE\n82\n82\n00\nENDCHAR\n";
    let table = read_glyphs(&lines(input), true).ok().unwrap();
    for c in 0..256i64 {
        assert_eq!(table.get(c), [0u8; 8]);
    }
}

#[test]
fn a_negative_codepoint_leaves_the_table_unchanged() {
    let input = "ENCODING -1\nBBX 5 8 0 0\nBITMAP\nFF\nENDCHAR\n";
    let table = read_glyphs(&lines(input), true).ok().unwrap();
    for c in 0..256i64 {
        assert_eq!(table.get(c), [0u8; 8]);
    }
}

#[test]
fn an_empty_stream_defines_nothing() {
    let outcome = process(&Vec::new(), true).ok().unwrap();
    assert!(outcome.output.is_empty());
    for c in 0..256i64 {
        assert_eq!(outcome.table.get(c), [0u8; 8]);
    }
}

#[test]
fn codepoints_that_no_glyph_names_stay_empty() {
    let input = "ENCODING 1\nBITMAP\nFF\nENDCHAR\nENCODING 3\nBITMAP\n0F\nENDCHAR\n";
    let table = read_glyphs(&lines(input), true).ok().unwrap();
    assert_eq!(table.get(1), [0xFF, 0, 0, 0, 0, 0, 0, 0]);
    assert_eq!(table.get(3), [0x0F, 0, 0, 0, 0, 0, 0, 0]);
    for c in 0..256i64 {
        if c != 1 && c != 3 {
            assert_eq!(table.get(c), [0u8; 8]);
        }
    }
}

#[test]
fn glyphs_are_aligned_by_their_boxes() {
    let input = "STARTCHAR bracketright\nENCODING 93\nBBX 2 7 1 0\nBITMAP\nC0\n40\n40\n40\n40\n40\nC0\nENDCHAR\n\
                 STARTCHAR underscore\nENCODING 95\nBBX 4 1 0 -1\nBITMAP\nF0\nENDCHAR\n\
                 STARTCHAR grave\nENCODING 96\nBBX 2 2 1 5\nBITMAP\n80\n40\nENDCHAR\n";
    let table = read_glyphs(&lines(input), true).ok().unwrap();
    assert_eq!(table.get(93), [0x60, 0x20, 0x20, 0x20, 0x20, 0x20, 0x60, 0x00]);
    assert_eq!(table.get(95), [0, 0, 0, 0, 0, 0, 0, 0xF0]);
    assert_eq!(table.get(96), [0x40, 0x20, 0, 0, 0, 0, 0, 0]);
}

#[test]
fn a_later_glyph_replaces_an_earlier_one() {
    let input = "ENCODING 65\nBITMAP\nFF\nENDCHAR\nENCODING 65\nBITMAP\n01\n02\nENDCHAR\n";
    let table = read_glyphs(&lines(input), true).ok().unwrap();
    assert_eq!(table.get(65), [1, 2, 0, 0, 0, 0, 0, 0]);
}

#[test]
fn a_glyph_without_a_name_is_not_stored() {
    let input = "ENCODING 65\nBITMAP\nFF\nENDCHAR\nBITMAP\n01\nENDCHAR\n";
    let table = read_glyphs(&lines(input), true).ok().unwrap();
    assert_eq!(table.get(65), [0xFF, 0, 0, 0, 0, 0, 0, 0]);
    assert_eq!(table.get(0), [0u8; 8]);
}

#[test]
fn the_first_bad_line_is_reported_with_its_index() {
    let input = "STARTFONT 2.1\nENCODING 65\nBBX 6 8 0 0\nBITMAP\nZZ\nENDCHAR\n";
    assert_eq!(
        read_glyphs(&lines(input), true).err(),
        Some(ReadError { line: 2, kind: ErrorKind::OversizedGlyph })
    );
    assert_eq!(
        normalize_lines(&lines(input), true).err(),
        Some(ReadError { line: 2, kind: ErrorKind::OversizedGlyph })
    );
    assert_eq!(
        process(&lines(input), false).err(),
        Some(ReadError { line: 2, kind: ErrorKind::OversizedGlyph })
    );
}

#[test]
fn each_kind_of_error_is_reported() {
    let cases: [(&str, usize, ErrorKind); 7] = [
        ("ENCODING sixty", 0, ErrorKind::MalformedNumber),
        ("ENCODING 65\nBBX 5 8 0", 1, ErrorKind::WrongArgumentCount),
        ("ENCODING 65 66", 0, ErrorKind::WrongArgumentCount),
        ("BBX 8 8 0 0", 0, ErrorKind::OversizedGlyph),
        ("BBX 5 1 0 -2", 0, ErrorKind::StartRowOutOfRange),
        ("BBX 5 8 0 0\nBITMAP\n1\n2\n3\n4\n5\n6\n7\n8\n9", 10, ErrorKind::RowCursorOutOfRange),
        ("BBX 5 8 -1 0\nBITMAP\n1", 2, ErrorKind::UnsupportedShift),
    ];
    for (input, line, kind) in cases {
        assert_eq!(read_glyphs(&lines(input), true).err(), Some(ReadError { line, kind }), "{}", input);
    }
}

#[test]
fn a_full_cell_is_an_error_only_when_strict() {
    let input = "ENCODING 65\nBBX 5 8 0 0\nBITMAP\n1\n2\n3\n4\n5\n6\n7\n8\n9\nENDCHAR\n";
    assert_eq!(
        read_glyphs(&lines(input), true).err(),
        Some(ReadError { line: 11, kind: ErrorKind::RowCursorOutOfRange })
    );
    let table = read_glyphs(&lines(input), false).ok().unwrap();
    assert_eq!(table.get(65), [1, 2, 3, 4, 5, 6, 7, 8]);
}

#[test]
fn the_canonical_text_of_the_letter_a_is_itself() {
    let out = normalize_lines(&lines(LETTER_A), true).ok().unwrap();
    assert_eq!(text(&out), LETTER_A);
}

#[test]
fn the_canonical_text_has_full_boxes_and_eight_rows() {
    let input = "STARTFONT 2.1\nFONTBOUNDINGBOX 5 8 0 -1\nSTARTCHAR underscore\nENCODING 95\n\
                 SWIDTH 500 0\nBBX 4 1 0 -1\nBITMAP\nF0\nENDCHAR\nENDFONT\n";
    let expected = "STARTFONT 2.1\nFONTBOUNDINGBOX 5 8 0 -1\nSTARTCHAR underscore\nENCODING 95\n\
                    SWIDTH 500 0\nBBX 5 8 0 0\nBITMAP\n00\n00\n00\n00\n00\n00\n00\nF0\nENDCHAR\nENDFONT\n";
    let out = normalize_lines(&lines(input), true).ok().unwrap();
    assert_eq!(text(&out), expected);
}

#[test]
fn the_canonical_text_shifts_rows_by_the_offset() {
    let input = "ENCODING 93\nBBX 2 7 1 0\nBITMAP\nc0\n40\n40\n40\n40\n40\nc0\nENDCHAR\n";
    let expected = "ENCODING 93\nBBX 5 8 0 0\nBITMAP\n60\n20\n20\n20\n20\n20\n60\n00\nENDCHAR\n";
    let out = normalize_lines(&lines(input), true).ok().unwrap();
    assert_eq!(text(&out), expected);
}

#[test]
fn the_canonical_text_keeps_glyphs_outside_the_table() {
    let input = "ENCODING 999\nBBX 1 1 0 -1\nBITMAP\n80\nENDCHAR\n";
    let expected = "ENCODING 999\nBBX 5 8 0 0\nBITMAP\n00\n00\n00\n00\n00\n00\n00\n80\nENDCHAR\n";
    let out = normalize_lines(&lines(input), true).ok().unwrap();
    assert_eq!(text(&out), expected);
}

#[test]
fn the_canonical_text_is_a_fixed_point() {
    let inputs: [&str; 6] = [
        LETTER_A,
        "STARTCHAR bracketright\nENCODING 93\nBBX 2 7 1 0\nBITMAP\nC0\n40\n40\n40\n40\n40\nC0\nENDCHAR\n\
         STARTCHAR grave\nENCODING 96\nBBX 2 2 1 5\nBITMAP\n80\n40\nENDCHAR\n",
        "ENDCHAR\nBITMAP\nENCODING 5\nFF\nENDCHAR\n",
        "BBX 5 8 0 0\nBITMAP\nFF\nENDCHAR\nBITMAP\nFF\nENDCHAR\n",
        "BITMAP\nBBX 1 1 0 -1\nAA\nENCODING 7\nBITMAP\n55\nENDCHAR\n\n",
        "",
    ];
    for input in inputs {
        for strict in [true, false] {
            let once = normalize_lines(&lines(input), strict).ok().unwrap();
            for again in [true, false] {
                let twice = normalize_lines(&once, again).ok().unwrap();
                assert_eq!(twice, once, "{:?}", input);
            }
        }
    }
}

#[test]
fn the_canonical_text_defines_the_same_glyphs() {
    let input = "ENCODING 93\nBBX 2 7 1 0\nBITMAP\nC0\n40\n40\n40\n40\n40\nC0\nENDCHAR\n\
                 ENCODING 95\nBBX 4 1 0 -1\nBITMAP\nF0\nENDCHAR\n\
                 ENCODING 96\nBBX 2 2 1 5\nBITMAP\n80\n40\nENDCHAR\n";
    let outcome = process(&lines(input), true).ok().unwrap();
    let again = read_glyphs(&outcome.output, true).ok().unwrap();
    for c in 0..256i64 {
        assert_eq!(again.get(c), outcome.table.get(c));
    }
    assert_eq!(again.get(93), [0x60, 0x20, 0x20, 0x20, 0x20, 0x20, 0x60, 0x00]);
}
