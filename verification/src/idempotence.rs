//! The canonical text is a fixed point: read again, it gives itself back,
//! and it defines the same glyphs as the stream that it was made from.

use vstd::prelude::*;
use crate::align::{lemma_shifted_row, start_row_spec, BoundingBox};
use crate::cell::zero_cell;
use crate::line::{
    bbx_word, bitmap_word, directive_spec, encoding_word, endchar_word, first_word_spec,
    lemma_position_of_unique, split_words_spec, Directive, SPACE,
};
use crate::number::{
    all_digits, digits_value, has_sign, hex_row_spec, lemma_hex_row_round_trip, parse_int_spec,
};
use crate::reader::{
    all_numbers, box_spec, canonical_box_line, cell_lines, initial_model, numbers_spec,
    step_spec, table_after, ErrorKind, ReaderModel, Step,
};
use crate::stream::{advance, glyphs_spec, normalized_spec, run_spec, start_model, RunModel};

verus! {

/// Reading `a` and then `b` is reading the two in one go.
pub proof fn lemma_run_concat(m: RunModel, strict: bool, a: Seq<Seq<u8>>, b: Seq<Seq<u8>>)
    ensures
        run_spec(m, strict, a + b) == (match run_spec(m, strict, a) {
            Ok(mid) => run_spec(mid, strict, b),
            Err(e) => Err(e),
        }),
    decreases b.len(),
{
    if b.len() == 0 {
        assert(a + b =~= a);
    } else {
        assert((a + b).drop_last() =~= a + b.drop_last());
        assert((a + b).last() == b.last());
        lemma_run_concat(m, strict, a, b.drop_last());
    }
}

/// Reading one line is one step.
pub proof fn lemma_run_one(m: RunModel, strict: bool, line: Seq<u8>)
    ensures
        run_spec(m, strict, seq![line]) == advance(m, strict, line),
{
    let one = seq![line];
    assert(one.drop_last() =~= Seq::<Seq<u8>>::empty());
    assert(one.last() == line);
    assert(run_spec(m, strict, one.drop_last()) == Ok::<RunModel, ErrorKind>(m));
}

/// A line whose first space is at `k` has the word before `k` as its first
/// word, and then the words of what follows the space.
pub proof fn lemma_split_at(line: Seq<u8>, k: int)
    requires
        0 <= k < line.len(),
        forall|j: int| 0 <= j < k ==> line[j] != SPACE,
        line[k] == SPACE,
    ensures
        first_word_spec(line) == line.take(k),
        split_words_spec(line) == seq![line.take(k)] + split_words_spec(line.skip(k + 1)),
{
    lemma_position_of_unique(line, SPACE, k);
}

/// A line without a space is its own first and only word.
pub proof fn lemma_split_whole(line: Seq<u8>)
    requires
        forall|j: int| 0 <= j < line.len() ==> line[j] != SPACE,
    ensures
        first_word_spec(line) == line,
        split_words_spec(line) == seq![line],
{
    lemma_position_of_unique(line, SPACE, line.len() as int);
    assert(line.take(line.len() as int) =~= line);
}

/// A single decimal digit reads as its value.
pub proof fn lemma_single_digit(d: u8)
    requires
        48 <= d <= 57,
    ensures
        parse_int_spec(seq![d]) == Some((d - 48) as i64),
{
    let s = seq![d];
    assert(!has_sign(s));
    assert(all_digits(s));
    assert(s.drop_last() =~= Seq::<u8>::empty());
    assert(digits_value(s.drop_last()) == 0);
    assert(digits_value(s) == d - 48);
}

/// The words of the canonical bounding-box line.
pub proof fn lemma_canonical_box_words()
    ensures
        first_word_spec(canonical_box_line()) == bbx_word(),
        split_words_spec(canonical_box_line()).skip(1) == seq![
            seq![53u8],
            seq![56u8],
            seq![48u8],
            seq![48u8],
        ],
{
    let l0 = canonical_box_line();
    lemma_split_at(l0, 3);
    assert(l0.take(3) =~= bbx_word());
    let l1 = l0.skip(4);
    assert(l1 =~= seq![53u8, 32u8, 56u8, 32u8, 48u8, 32u8, 48u8]);
    lemma_split_at(l1, 1);
    assert(l1.take(1) =~= seq![53u8]);
    let l2 = l1.skip(2);
    assert(l2 =~= seq![56u8, 32u8, 48u8, 32u8, 48u8]);
    lemma_split_at(l2, 1);
    assert(l2.take(1) =~= seq![56u8]);
    let l3 = l2.skip(2);
    assert(l3 =~= seq![48u8, 32u8, 48u8]);
    lemma_split_at(l3, 1);
    assert(l3.take(1) =~= seq![48u8]);
    let l4 = l3.skip(2);
    assert(l4 =~= seq![48u8]);
    lemma_split_whole(l4);
    assert(split_words_spec(l0).skip(1) =~= seq![
        seq![53u8],
        seq![56u8],
        seq![48u8],
        seq![48u8],
    ]);
}

/// The canonical bounding-box line declares the full cell: read in any
/// state, it puts the cursor at the top row with no horizontal offset, and
/// becomes itself in the canonical text.
pub proof fn lemma_canonical_box_step(s: ReaderModel, strict: bool)
    ensures
        step_spec(s, strict, canonical_box_line()) == Ok::<Step, ErrorKind>(
            Step {
                next: ReaderModel { x_offset: 0, cursor: 0, ..s },
                emitted: seq![canonical_box_line()],
                commit: None,
            },
        ),
{
    lemma_canonical_box_words();
    let args = split_words_spec(canonical_box_line()).skip(1);
    lemma_single_digit(53);
    lemma_single_digit(56);
    lemma_single_digit(48);
    assert(all_numbers(args));
    let n = numbers_spec(args);
    assert(n[0] == 5 && n[1] == 8 && n[2] == 0 && n[3] == 0);
    assert(start_row_spec(8, 0) == 0);
    assert(bbx_word() != encoding_word()) by {
        assert(bbx_word().len() != encoding_word().len());
    }
    assert(directive_spec(bbx_word()) == Directive::BoundingBox);
    assert(box_spec(args) == Ok::<BoundingBox, ErrorKind>(
        BoundingBox { width: 5, height: 8, x_offset: 0, y_offset: 0 },
    ));
}

/// A row of the canonical text, read while rows are read, the cell is not
/// full and the horizontal offset is zero, puts its byte at the cursor's
/// row and adds nothing to the canonical text.
pub proof fn lemma_canonical_row_step(s: ReaderModel, strict: bool, b: u8)
    requires
        s.reading,
        0 <= s.cursor < 8,
        s.x_offset == 0,
    ensures
        step_spec(s, strict, hex_row_spec(b)) == Ok::<Step, ErrorKind>(
            Step {
                next: ReaderModel { cursor: s.cursor + 1, cell: s.cell.update(s.cursor, b), ..s },
                emitted: seq![],
                commit: None,
            },
        ),
{
    let h = hex_row_spec(b);
    lemma_hex_row_round_trip(b);
    lemma_split_whole(h);
    lemma_shifted_row(b);
    assert(h.len() != encoding_word().len());
    assert(h.len() != bbx_word().len());
    assert(h.len() != bitmap_word().len());
    assert(h.len() != endchar_word().len());
    assert(directive_spec(h) == Directive::Other);
}

/// The first `j` rows of `cell`, above empty rows.
pub open spec fn partial_cell(cell: Seq<u8>, j: int) -> Seq<u8> {
    Seq::new(8, |i: int| if i < j { cell[i] } else { 0u8 })
}

/// Reading the first `j` rows that a cell has in the canonical text, from a
/// cleared cell with the cursor at the top and no horizontal offset, fills
/// the first `j` rows of the cell with them.
pub proof fn lemma_replay_rows(m: RunModel, strict: bool, cell: Seq<u8>, j: int)
    requires
        cell.len() == 8,
        0 <= j <= 8,
        m.reader.reading,
        m.reader.cursor == 0,
        m.reader.x_offset == 0,
        m.reader.cell == zero_cell(),
    ensures
        run_spec(m, strict, cell_lines(cell).take(j)) == Ok::<RunModel, ErrorKind>(
            RunModel {
                reader: ReaderModel { cursor: j, cell: partial_cell(cell, j), ..m.reader },
                table: m.table,
                output: m.output,
            },
        ),
    decreases j,
{
    let rows = cell_lines(cell).take(j);
    if j == 0 {
        assert(partial_cell(cell, 0) =~= zero_cell());
    } else {
        lemma_replay_rows(m, strict, cell, j - 1);
        assert(rows.drop_last() =~= cell_lines(cell).take(j - 1));
        assert(rows.last() == hex_row_spec(cell[j - 1]));
        let mid = RunModel {
            reader: ReaderModel { cursor: j - 1, cell: partial_cell(cell, j - 1), ..m.reader },
            table: m.table,
            output: m.output,
        };
        lemma_canonical_row_step(mid.reader, strict, cell[j - 1]);
        assert(partial_cell(cell, j - 1).update(j - 1, cell[j - 1]) =~= partial_cell(cell, j));
        assert(mid.output + Seq::<Seq<u8>>::empty() =~= mid.output);
    }
}

/// Whether a reader's state is one that a run from the start can reach:
/// the cell has 8 rows, and they are empty while no rows are read.
pub open spec fn settled(s: ReaderModel) -> bool {
    &&& s.cell.len() == 8
    &&& !s.reading ==> s.cell == zero_cell()
}

/// The state in which the reader of the canonical text is when the reader
/// of the stream is in state `s`: the same glyph is open and rows are read
/// or not as there, but the cell is still empty and the cursor at the top.
pub open spec fn replayed(s: ReaderModel) -> ReaderModel {
    ReaderModel {
        codepoint: s.codepoint,
        x_offset: 0,
        cursor: 0,
        reading: s.reading,
        cell: zero_cell(),
    }
}

/// What one line of a stream becomes in the canonical text does, to a
/// reader of the canonical text, what the line did to the reader of the
/// stream: it stores the same cell, and becomes itself.
pub proof fn lemma_replay_step(
    s: ReaderModel,
    strict: bool,
    again: bool,
    line: Seq<u8>,
    table: Seq<Seq<u8>>,
    output: Seq<Seq<u8>>,
)
    requires
        settled(s),
        step_spec(s, strict, line) is Ok,
    ensures
        settled(step_spec(s, strict, line).unwrap().next),
        run_spec(
            RunModel { reader: replayed(s), table, output },
            again,
            step_spec(s, strict, line).unwrap().emitted,
        ) == Ok::<RunModel, ErrorKind>(
            RunModel {
                reader: replayed(step_spec(s, strict, line).unwrap().next),
                table: table_after(table, step_spec(s, strict, line).unwrap().commit),
                output: output + step_spec(s, strict, line).unwrap().emitted,
            },
        ),
{
    let step = step_spec(s, strict, line).unwrap();
    let m = RunModel { reader: replayed(s), table, output };
    let word = first_word_spec(line);
    match directive_spec(word) {
        Directive::Encoding => {
            lemma_run_one(m, again, line);
        },
        Directive::BoundingBox => {
            lemma_run_one(m, again, canonical_box_line());
            lemma_canonical_box_step(replayed(s), again);
        },
        Directive::BitmapStart => {
            lemma_run_one(m, again, line);
        },
        Directive::BitmapEnd => {
            if s.reading {
                let rows = cell_lines(s.cell);
                assert(step.emitted == rows.push(line));
                assert(rows.push(line) =~= rows + seq![line]);
                lemma_run_concat(m, again, rows, seq![line]);
                assert(rows.take(8) =~= rows);
                lemma_replay_rows(m, again, s.cell, 8);
                assert(partial_cell(s.cell, 8) =~= s.cell);
                let mid = RunModel {
                    reader: ReaderModel { cursor: 8, cell: s.cell, ..replayed(s) },
                    table,
                    output,
                };
                lemma_run_one(mid, again, line);
            } else {
                lemma_run_one(m, again, line);
            }
        },
        Directive::Other => {
            if !s.reading {
                lemma_run_one(m, again, line);
            } else {
                assert(step.emitted =~= Seq::<Seq<u8>>::empty());
                assert(output + step.emitted =~= output);
            }
        },
    }
}

/// A run from the start over any stream, and a run over the canonical text
/// that the first has written so far, keep in step: the second has written
/// the same text, stored the same glyphs, and its reader is in the state
/// that corresponds to the first one's.
pub proof fn lemma_replay(strict: bool, again: bool, lines: Seq<Seq<u8>>)
    requires
        run_spec(start_model(), strict, lines) is Ok,
    ensures
        settled(run_spec(start_model(), strict, lines).unwrap().reader),
        run_spec(
            start_model(),
            again,
            run_spec(start_model(), strict, lines).unwrap().output,
        ) == Ok::<RunModel, ErrorKind>(
            RunModel {
                reader: replayed(run_spec(start_model(), strict, lines).unwrap().reader),
                table: run_spec(start_model(), strict, lines).unwrap().table,
                output: run_spec(start_model(), strict, lines).unwrap().output,
            },
        ),
    decreases lines.len(),
{
    if lines.len() == 0 {
        assert(replayed(initial_model()) == initial_model());
    } else {
        let init = lines.drop_last();
        lemma_replay(strict, again, init);
        let mid = run_spec(start_model(), strict, init).unwrap();
        let step = step_spec(mid.reader, strict, lines.last()).unwrap();
        lemma_run_concat(start_model(), again, mid.output, step.emitted);
        lemma_replay_step(mid.reader, strict, again, lines.last(), mid.table, mid.output);
    }
}

/// The canonical text of a stream is its own canonical text, and it defines
/// the glyphs that the stream defines. This holds whether the stream and
/// the canonical text are read strictly or not.
pub proof fn lemma_normalize_idempotent(strict: bool, again: bool, lines: Seq<Seq<u8>>)
    requires
        normalized_spec(strict, lines) is Ok,
    ensures
        normalized_spec(again, normalized_spec(strict, lines).unwrap()) == normalized_spec(
            strict,
            lines,
        ),
        glyphs_spec(again, normalized_spec(strict, lines).unwrap()) == glyphs_spec(strict, lines),
{
    lemma_replay(strict, again, lines);
}

} // verus!
