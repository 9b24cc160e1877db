use cellfont::line::{
    append_bytes, copy_range, directive, find_from, join_lines, same_bytes, split_lines,
    split_words, Directive,
};

#[test]
fn split_words_cuts_at_every_space() {
    assert_eq!(split_words(b"BBX 5 8 0 0"), vec![
        b"BBX".to_vec(),
        b"5".to_vec(),
        b"8".to_vec(),
        b"0".to_vec(),
        b"0".to_vec()
    ]);
}

#[test]
fn split_words_of_an_empty_line_is_one_empty_word() {
    assert_eq!(split_words(b""), vec![Vec::<u8>::new()]);
}

#[test]
fn split_words_keeps_empty_words() {
    assert_eq!(split_words(b"a  b"), vec![b"a".to_vec(), Vec::new(), b"b".to_vec()]);
    assert_eq!(split_words(b" a"), vec![Vec::new(), b"a".to_vec()]);
    assert_eq!(split_words(b"a "), vec![b"a".to_vec(), Vec::new()]);
    assert_eq!(split_words(b" "), vec![Vec::<u8>::new(), Vec::new()]);
}

#[test]
fn split_words_does_not_cut_at_tabs() {
    assert_eq!(split_words(b"a\tb"), vec![b"a\tb".to_vec()]);
}

#[test]
fn split_words_agrees_with_the_standard_split() {
    let samples: [&str; 7] = ["", " ", "a", "a b", "  a  b  ", "ENCODING 65", "STARTCHAR U+0041"];
    for s in samples {
        let expected: Vec<Vec<u8>> = s.split(' ').map(|w| w.as_bytes().to_vec()).collect();
        assert_eq!(split_words(s.as_bytes()), expected, "{:?}", s);
    }
}

#[test]
fn split_lines_cuts_at_newlines() {
    assert_eq!(split_lines(b"a\nb\n"), vec![b"a".to_vec(), b"b".to_vec()]);
    assert_eq!(split_lines(b"a\nb"), vec![b"a".to_vec(), b"b".to_vec()]);
}

#[test]
fn split_lines_of_an_empty_text_is_empty() {
    assert_eq!(split_lines(b""), Vec::<Vec<u8>>::new());
}

#[test]
fn split_lines_keeps_empty_lines() {
    assert_eq!(split_lines(b"\n"), vec![Vec::<u8>::new()]);
    assert_eq!(split_lines(b"a\n\nb\n"), vec![b"a".to_vec(), Vec::new(), b"b".to_vec()]);
}

#[test]
fn split_lines_drops_the_return_before_a_newline() {
    assert_eq!(split_lines(b"a\r\nb\r\n"), vec![b"a".to_vec(), b"b".to_vec()]);
    assert_eq!(split_lines(b"\r\n"), vec![Vec::<u8>::new()]);
}

#[test]
fn split_lines_keeps_other_returns() {
    assert_eq!(split_lines(b"a\rb\n"), vec![b"a\rb".to_vec()]);
    assert_eq!(split_lines(b"a\r\r\n"), vec![b"a\r".to_vec()]);
    assert_eq!(split_lines(b"a\r"), vec![b"a\r".to_vec()]);
}

#[test]
fn split_lines_agrees_with_the_standard_lines() {
    let samples: [&str; 9] =
        ["", "\n", "a", "a\n", "a\r\n", "a\r", "a\r\r\n", "\n\n", "one\ntwo\r\nthree"];
    for s in samples {
        let expected: Vec<Vec<u8>> = std::io::BufRead::lines(s.as_bytes())
            .map(|l| l.unwrap().into_bytes())
            .collect();
        assert_eq!(split_lines(s.as_bytes()), expected, "{:?}", s);
    }
}

#[test]
fn join_lines_ends_every_line_with_a_newline() {
    assert_eq!(join_lines(&vec![b"a".to_vec(), b"b".to_vec()]), b"a\nb\n".to_vec());
    assert_eq!(join_lines(&vec![Vec::new()]), b"\n".to_vec());
    assert_eq!(join_lines(&Vec::new()), Vec::<u8>::new());
}

#[test]
fn joined_lines_split_back() {
    let lines: Vec<Vec<u8>> = vec![b"ENCODING 65".to_vec(), Vec::new(), b"BBX 5 8 0 0".to_vec()];
    assert_eq!(split_lines(&join_lines(&lines)), lines);
}

#[test]
fn copy_range_copies_the_bytes_between() {
    assert_eq!(copy_range(b"abcdef", 1, 4), b"bcd".to_vec());
    assert_eq!(copy_range(b"abcdef", 0, 6), b"abcdef".to_vec());
    assert_eq!(copy_range(b"abcdef", 3, 3), Vec::<u8>::new());
}

#[test]
fn find_from_gives_the_next_place_or_the_end() {
    assert_eq!(find_from(b"a b c", 0, b' '), 1);
    assert_eq!(find_from(b"a b c", 1, b' '), 1);
    assert_eq!(find_from(b"a b c", 2, b' '), 3);
    assert_eq!(find_from(b"a b c", 4, b' '), 5);
    assert_eq!(find_from(b"a b c", 5, b' '), 5);
}

#[test]
fn append_bytes_adds_at_the_end() {
    let mut out: Vec<u8> = b"ab".to_vec();
    append_bytes(&mut out, b"cd");
    assert_eq!(out, b"abcd".to_vec());
    append_bytes(&mut out, b"");
    assert_eq!(out, b"abcd".to_vec());
}

#[test]
fn same_bytes_compares_length_and_content() {
    assert!(same_bytes(b"BBX", b"BBX"));
    assert!(same_bytes(b"", b""));
    assert!(!same_bytes(b"BBX", b"BBY"));
    assert!(!same_bytes(b"BBX", b"BB"));
    assert!(!same_bytes(b"BB", b"BBX"));
}

#[test]
fn directive_knows_the_four_words() {
    assert_eq!(directive(b"ENCODING"), Directive::Encoding);
    assert_eq!(directive(b"BBX"), Directive::BoundingBox);
    assert_eq!(directive(b"BITMAP"), Directive::BitmapStart);
    assert_eq!(directive(b"ENDCHAR"), Directive::BitmapEnd);
}

#[test]
fn directive_takes_any_other_word_as_other() {
    assert_eq!(directive(b""), Directive::Other);
    assert_eq!(directive(b"FE"), Directive::Other);
    assert_eq!(directive(b"encoding"), Directive::Other);
    assert_eq!(directive(b"FONTBOUNDINGBOX"), Directive::Other);
    assert_eq!(directive(b"STARTCHAR"), Directive::Other);
    assert_eq!(directive(b"BBXX"), Directive::Other);
    assert_eq!(directive(b"ENDCHAR\r"), Directive::Other);
}
