//! Whole texts: a glyph stream as the bytes of a file, and both encodings
//! of it as bytes.

use vstd::prelude::*;
use crate::idempotence::lemma_normalize_idempotent;
use crate::line::{
    join_lines, join_lines_spec, lemma_position_of, lemma_position_of_unique, position_of,
    split_lines, split_lines_spec, strip_return, CARRIAGE_RETURN, NEWLINE,
};
use crate::number::hex_row_spec;
use crate::psf::{font_bytes_spec, generate_font};
use crate::reader::{canonical_box_line, cell_lines, step_spec, ErrorKind, ReaderModel};
use crate::stream::{
    fails_at, glyphs_spec, normalize_lines, normalized_spec, run_spec, start_model, ReadError,
};

verus! {

/// The font file of the glyphs that a text defines.
pub open spec fn font_from_text_spec(strict: bool, text: Seq<u8>) -> Result<Seq<u8>, ErrorKind> {
    match glyphs_spec(strict, split_lines_spec(text)) {
        Ok(table) => Ok(font_bytes_spec(table)),
        Err(e) => Err(e),
    }
}

/// The canonical text of a text.
pub open spec fn normalize_text_spec(strict: bool, text: Seq<u8>) -> Result<Seq<u8>, ErrorKind> {
    match normalized_spec(strict, split_lines_spec(text)) {
        Ok(lines) => Ok(join_lines_spec(lines)),
        Err(e) => Err(e),
    }
}

/// Reads a glyph stream from the bytes of a text and writes the glyphs that
/// it defines as a font file of 2080 bytes.
pub fn font_from_text(text: &[u8], strict: bool) -> (r: Result<Vec<u8>, ReadError>)
    ensures
        match r {
            Ok(bytes) => font_from_text_spec(strict, text@) == Ok::<Seq<u8>, ErrorKind>(bytes@)
                && bytes@.len() == 2080,
            Err(e) => fails_at(strict, split_lines_spec(text@), e.line as int, e.kind)
                && font_from_text_spec(strict, text@) == Err::<Seq<u8>, ErrorKind>(e.kind),
        },
{
    let lines: Vec<Vec<u8>> = split_lines(text);
    generate_font(&lines, strict)
}

/// Reads a glyph stream from the bytes of a text and writes its canonical
/// text.
pub fn normalize_text(text: &[u8], strict: bool) -> (r: Result<Vec<u8>, ReadError>)
    ensures
        match r {
            Ok(bytes) => normalize_text_spec(strict, text@) == Ok::<Seq<u8>, ErrorKind>(bytes@),
            Err(e) => fails_at(strict, split_lines_spec(text@), e.line as int, e.kind)
                && normalize_text_spec(strict, text@) == Err::<Seq<u8>, ErrorKind>(e.kind),
        },
{
    let lines: Vec<Vec<u8>> = split_lines(text);
    match normalize_lines(&lines, strict) {
        Ok(output) => Ok(join_lines(&output)),
        Err(e) => Err(e),
    }
}

/// Whether a line has no newline in it.
pub open spec fn no_newline(line: Seq<u8>) -> bool {
    forall|i: int| 0 <= i < line.len() ==> line[i] != NEWLINE
}

/// Whether a line ends with a carriage return.
pub open spec fn ends_with_return(line: Seq<u8>) -> bool {
    line.len() > 0 && line.last() == CARRIAGE_RETURN
}

/// Whether each of the lines comes back as it is when the lines are joined
/// and the text is cut again: it holds no newline and does not end with a
/// carriage return.
pub open spec fn plain_lines(lines: Seq<Seq<u8>>) -> bool {
    forall|i: int|
        0 <= i < lines.len() ==> no_newline(#[trigger] lines[i]) && !ends_with_return(lines[i])
}

/// The lines of a text hold no newline.
pub proof fn lemma_split_lines_no_newline(text: Seq<u8>)
    ensures
        forall|i: int|
            0 <= i < split_lines_spec(text).len() ==> no_newline(
                #[trigger] split_lines_spec(text)[i],
            ),
    decreases text.len(),
{
    let k = position_of(text, NEWLINE);
    lemma_position_of(text, NEWLINE);
    if text.len() == 0 {
    } else if k < text.len() {
        let rest = text.skip(k + 1);
        lemma_split_lines_no_newline(rest);
        let first = strip_return(text.take(k));
        assert(no_newline(first));
        assert forall|i: int| 0 <= i < split_lines_spec(text).len() implies no_newline(
            #[trigger] split_lines_spec(text)[i],
        ) by {
            if i > 0 {
                assert(split_lines_spec(text)[i] == split_lines_spec(rest)[i - 1]);
            }
        }
    } else {
        assert(no_newline(text));
    }
}

/// The text of some lines begins with the first line and its newline.
pub proof fn lemma_join_front(lines: Seq<Seq<u8>>)
    requires
        lines.len() > 0,
    ensures
        join_lines_spec(lines) == lines[0] + seq![NEWLINE] + join_lines_spec(lines.skip(1)),
    decreases lines.len(),
{
    let init = lines.drop_last();
    if init.len() == 0 {
        assert(lines.skip(1) =~= Seq::<Seq<u8>>::empty());
        assert(join_lines_spec(init) =~= Seq::<u8>::empty());
        assert(join_lines_spec(lines) =~= lines[0] + seq![NEWLINE] + join_lines_spec(
            lines.skip(1),
        ));
    } else {
        lemma_join_front(init);
        assert(init.skip(1) =~= lines.skip(1).drop_last());
        assert(lines.skip(1).last() == lines.last());
        assert(join_lines_spec(lines) =~= lines[0] + seq![NEWLINE] + join_lines_spec(
            lines.skip(1),
        ));
    }
}

/// Lines that hold no newline and do not end with a carriage return come
/// back when their text is cut into lines.
pub proof fn lemma_split_join(lines: Seq<Seq<u8>>)
    requires
        plain_lines(lines),
    ensures
        split_lines_spec(join_lines_spec(lines)) == lines,
    decreases lines.len(),
{
    if lines.len() == 0 {
        assert(split_lines_spec(join_lines_spec(lines)) =~= lines);
    } else {
        let text = join_lines_spec(lines);
        let first = lines[0];
        let rest = lines.skip(1);
        lemma_join_front(lines);
        assert(plain_lines(rest)) by {
            assert forall|i: int| 0 <= i < rest.len() implies no_newline(#[trigger] rest[i])
                && !ends_with_return(rest[i]) by {
                assert(rest[i] == lines[i + 1]);
            }
        }
        lemma_split_join(rest);
        let k = first.len() as int;
        assert(no_newline(first));
        assert forall|j: int| 0 <= j < k implies text[j] != NEWLINE by {
            assert(text[j] == first[j]);
        }
        assert(text[k] == NEWLINE);
        lemma_position_of_unique(text, NEWLINE, k);
        assert(text.take(k) =~= first);
        assert(text.skip(k + 1) =~= join_lines_spec(rest));
        assert(strip_return(first) == first);
        assert(split_lines_spec(text) =~= lines);
    }
}

/// The lines that a plain line becomes in the canonical text are plain.
pub proof fn lemma_emitted_plain(s: ReaderModel, strict: bool, line: Seq<u8>)
    requires
        no_newline(line),
        !ends_with_return(line),
        step_spec(s, strict, line) is Ok,
    ensures
        plain_lines(step_spec(s, strict, line).unwrap().emitted),
{
    let emitted = step_spec(s, strict, line).unwrap().emitted;
    let canonical = canonical_box_line();
    assert(no_newline(canonical) && !ends_with_return(canonical));
    assert forall|i: int| 0 <= i < emitted.len() implies no_newline(#[trigger] emitted[i])
        && !ends_with_return(emitted[i]) by {
        let l = emitted[i];
        if l == line || l == canonical {
        } else {
            assert(s.reading);
            assert(l == cell_lines(s.cell)[i]);
            assert(l == hex_row_spec(s.cell[i]));
        }
    }
}

/// The canonical text of plain lines is made of plain lines.
pub proof fn lemma_output_plain(strict: bool, lines: Seq<Seq<u8>>)
    requires
        plain_lines(lines),
        run_spec(start_model(), strict, lines) is Ok,
    ensures
        plain_lines(run_spec(start_model(), strict, lines).unwrap().output),
    decreases lines.len(),
{
    if lines.len() > 0 {
        let init = lines.drop_last();
        assert(plain_lines(init)) by {
            assert forall|i: int| 0 <= i < init.len() implies no_newline(#[trigger] init[i])
                && !ends_with_return(init[i]) by {
                assert(init[i] == lines[i]);
            }
        }
        lemma_output_plain(strict, init);
        let mid = run_spec(start_model(), strict, init).unwrap();
        assert(lines.last() == lines[lines.len() - 1]);
        lemma_emitted_plain(mid.reader, strict, lines.last());
    }
}

/// The canonical text of a text is its own canonical text, provided that
/// no line of the text ends with a carriage return of its own, that is one
/// more than the one that goes with the newline. This holds whether the two
/// are read strictly or not.
pub proof fn lemma_normalize_text_idempotent(strict: bool, again: bool, text: Seq<u8>)
    requires
        normalize_text_spec(strict, text) is Ok,
        forall|i: int|
            0 <= i < split_lines_spec(text).len() ==> !ends_with_return(
                #[trigger] split_lines_spec(text)[i],
            ),
    ensures
        normalize_text_spec(again, normalize_text_spec(strict, text).unwrap())
            == normalize_text_spec(strict, text),
{
    let lines = split_lines_spec(text);
    lemma_split_lines_no_newline(text);
    lemma_output_plain(strict, lines);
    let output = normalized_spec(strict, lines).unwrap();
    lemma_split_join(output);
    lemma_normalize_idempotent(strict, again, lines);
}

} // verus!
