//! The glyph stream reader: the state kept while a stream is read line by
//! line, and what each line does to it.

use vstd::prelude::*;
use crate::align::{
    lemma_shifted_row, shift_row, shift_supported, shifted_row_spec, start_row, start_row_spec,
    BoundingBox, MAX_WIDTH,
};
use crate::cell::{blank_cell, table_set, zero_cell, Cell, GlyphTable};
use crate::line::{
    copy_range, directive, directive_spec, first_word_spec, lemma_split_words_first,
    split_words, split_words_spec, views, Directive,
};
use crate::number::{
    hex_row, hex_row_spec, parse_hex_byte, parse_hex_byte_spec, parse_int, parse_int_spec,
};

verus! {

/// Why a line of the stream cannot be read.
#[derive(Clone, Copy, Debug, PartialEq, Eq, Structural)]
pub enum ErrorKind {
    /// An argument of a declaration, or a bitmap row, is not a number.
    MalformedNumber,
    /// A declaration has too few or too many arguments.
    WrongArgumentCount,
    /// The bounding box is wider than a cell.
    OversizedGlyph,
    /// The bounding box puts the glyph's first row below the cell.
    StartRowOutOfRange,
    /// A bitmap row came when the cell was already full (strict reading
    /// only).
    RowCursorOutOfRange,
    /// A bitmap row came for a glyph whose horizontal offset is negative or
    /// not below 8.
    UnsupportedShift,
}

/// The reader's state as contracts speak of it.
pub struct ReaderModel {
    /// The codepoint of the glyph that is open, if one is.
    pub codepoint: Option<int>,
    /// The horizontal offset that the last bounding box declared.
    pub x_offset: int,
    /// The row that the next bitmap row goes to.
    pub cursor: int,
    /// Whether bitmap rows are being read.
    pub reading: bool,
    /// The rows read so far for the open glyph.
    pub cell: Seq<u8>,
}

/// What reading one line does.
pub struct Step {
    /// The reader's state after the line.
    pub next: ReaderModel,
    /// The lines that the line becomes in the canonical text.
    pub emitted: Seq<Seq<u8>>,
    /// The codepoint and cell that the line stores in the glyph table, if it
    /// stores any.
    pub commit: Option<(int, Seq<u8>)>,
}

/// The state before any line was read, and after a glyph was completed.
pub open spec fn initial_model() -> ReaderModel {
    ReaderModel { codepoint: None, x_offset: 0, cursor: 0, reading: false, cell: zero_cell() }
}

/// The bounding-box line of the canonical text: `BBX 5 8 0 0`.
pub open spec fn canonical_box_line() -> Seq<u8> {
    seq![66u8, 66u8, 88u8, 32u8, 53u8, 32u8, 56u8, 32u8, 48u8, 32u8, 48u8]
}

/// The 8 rows of a cell as lines of the canonical text.
pub open spec fn cell_lines(cell: Seq<u8>) -> Seq<Seq<u8>> {
    Seq::new(8, |i: int| hex_row_spec(cell[i]))
}

/// Whether every one of the words is an integer.
pub open spec fn all_numbers(words: Seq<Seq<u8>>) -> bool {
    forall|i: int| 0 <= i < words.len() ==> parse_int_spec(#[trigger] words[i]) is Some
}

/// The integers that the words denote.
pub open spec fn numbers_spec(words: Seq<Seq<u8>>) -> Seq<i64> {
    Seq::new(words.len(), |i: int| parse_int_spec(words[i]).unwrap())
}

/// What a codepoint declaration with the given arguments does: a new glyph
/// is opened and whatever was read for another is forgotten.
pub open spec fn encoding_step(line: Seq<u8>, args: Seq<Seq<u8>>) -> Result<Step, ErrorKind> {
    if !all_numbers(args) {
        Err(ErrorKind::MalformedNumber)
    } else if args.len() != 1 {
        Err(ErrorKind::WrongArgumentCount)
    } else {
        Ok(
            Step {
                next: ReaderModel {
                    codepoint: Some(numbers_spec(args)[0] as int),
                    ..initial_model()
                },
                emitted: seq![line],
                commit: None,
            },
        )
    }
}

/// The bounding box that the arguments of a declaration give.
pub open spec fn box_spec(args: Seq<Seq<u8>>) -> Result<BoundingBox, ErrorKind> {
    let n = numbers_spec(args);
    if !all_numbers(args) {
        Err(ErrorKind::MalformedNumber)
    } else if args.len() != 4 {
        Err(ErrorKind::WrongArgumentCount)
    } else if n[0] > 5 {
        Err(ErrorKind::OversizedGlyph)
    } else if start_row_spec(n[1] as int, n[3] as int) >= 8 {
        Err(ErrorKind::StartRowOutOfRange)
    } else {
        Ok(BoundingBox { width: n[0], height: n[1], x_offset: n[2], y_offset: n[3] })
    }
}

/// What a bounding-box declaration does: the row cursor goes to the
/// glyph's starting row, and the canonical text gets the canonical box.
pub open spec fn box_step(s: ReaderModel, args: Seq<Seq<u8>>) -> Result<Step, ErrorKind> {
    match box_spec(args) {
        Err(e) => Err(e),
        Ok(b) => Ok(
            Step {
                next: ReaderModel {
                    x_offset: b.x_offset as int,
                    cursor: start_row_spec(b.height as int, b.y_offset as int),
                    ..s
                },
                emitted: seq![canonical_box_line()],
                commit: None,
            },
        ),
    }
}

/// What a bitmap-start marker does: the cell is cleared and rows are read
/// from now on.
pub open spec fn bitmap_step(s: ReaderModel, line: Seq<u8>) -> Step {
    Step {
        next: ReaderModel { reading: true, cell: zero_cell(), ..s },
        emitted: seq![line],
        commit: None,
    }
}

/// What a bitmap-end marker does: the open glyph's cell is stored if its
/// codepoint has a slot, the canonical text gets the cell's 8 rows if rows
/// were being read, and the reader starts afresh.
pub open spec fn endchar_step(s: ReaderModel, line: Seq<u8>) -> Step {
    Step {
        next: initial_model(),
        emitted: if s.reading {
            cell_lines(s.cell).push(line)
        } else {
            seq![line]
        },
        commit: match s.codepoint {
            Some(c) => Some((c, s.cell)),
            None => None,
        },
    }
}

/// What any other line does. While rows are read it is a bitmap row: its
/// first word is a hexadecimal byte, which goes to the cursor's row shifted
/// right by the horizontal offset. A row that comes when the cell is full
/// is an error in strict reading and is dropped otherwise. While no rows
/// are read the line passes into the canonical text as it is.
pub open spec fn other_step(s: ReaderModel, strict: bool, line: Seq<u8>) -> Result<
    Step,
    ErrorKind,
> {
    if !s.reading {
        Ok(Step { next: s, emitted: seq![line], commit: None })
    } else if !(0 <= s.cursor < 8) {
        if strict {
            Err(ErrorKind::RowCursorOutOfRange)
        } else {
            Ok(Step { next: s, emitted: seq![], commit: None })
        }
    } else {
        match parse_hex_byte_spec(first_word_spec(line)) {
            None => Err(ErrorKind::MalformedNumber),
            Some(v) => if !shift_supported(s.x_offset) {
                Err(ErrorKind::UnsupportedShift)
            } else {
                Ok(
                    Step {
                        next: ReaderModel {
                            cursor: s.cursor + 1,
                            cell: s.cell.update(s.cursor, shifted_row_spec(v, s.x_offset as u8)),
                            ..s
                        },
                        emitted: seq![],
                        commit: None,
                    },
                )
            },
        }
    }
}

/// What reading `line` in state `s` does, or why the line cannot be read.
pub open spec fn step_spec(s: ReaderModel, strict: bool, line: Seq<u8>) -> Result<Step, ErrorKind> {
    let args = split_words_spec(line).skip(1);
    match directive_spec(first_word_spec(line)) {
        Directive::Encoding => encoding_step(line, args),
        Directive::BoundingBox => box_step(s, args),
        Directive::BitmapStart => Ok(bitmap_step(s, line)),
        Directive::BitmapEnd => Ok(endchar_step(s, line)),
        Directive::Other => other_step(s, strict, line),
    }
}

/// The glyph table after a step's commit.
pub open spec fn table_after(table: Seq<Seq<u8>>, commit: Option<(int, Seq<u8>)>) -> Seq<Seq<u8>> {
    match commit {
        Some((c, cell)) => table_set(table, c, cell),
        None => table,
    }
}

/// The state kept while a glyph stream is read: the glyph that is open and
/// the row that its next bitmap row goes to.
#[derive(Clone, Copy, Debug)]
pub struct Reader {
    /// Whether a bitmap row that finds the cell full is an error. When it is
    /// not, such a row is dropped.
    pub strict: bool,
    /// The codepoint of the glyph that is open, if one is.
    pub codepoint: Option<i64>,
    /// The horizontal offset that the last bounding box declared.
    pub x_offset: i64,
    /// The row that the next bitmap row goes to.
    pub cursor: usize,
    /// Whether bitmap rows are being read.
    pub reading: bool,
    /// The rows read so far for the open glyph.
    pub cell: Cell,
}

impl View for Reader {
    type V = ReaderModel;

    open spec fn view(&self) -> ReaderModel {
        ReaderModel {
            codepoint: match self.codepoint {
                Some(c) => Some(c as int),
                None => None,
            },
            x_offset: self.x_offset as int,
            cursor: self.cursor as int,
            reading: self.reading,
            cell: self.cell@,
        }
    }
}

/// Reads the arguments of a declaration, which are all its words but the
/// first, as integers. `None` when one of them is not an integer.
pub fn parse_numbers(words: &Vec<Vec<u8>>) -> (r: Option<Vec<i64>>)
    requires
        words@.len() >= 1,
    ensures
        match r {
            Some(v) => all_numbers(views(words@).skip(1)) && v@ == numbers_spec(
                views(words@).skip(1),
            ),
            None => !all_numbers(views(words@).skip(1)),
        },
{
    let ghost args = views(words@).skip(1);
    let mut numbers: Vec<i64> = Vec::new();
    let mut i: usize = 1;
    while i < words.len()
        invariant
            1 <= i <= words@.len(),
            args == views(words@).skip(1),
            numbers@.len() == i - 1,
            forall|j: int| 0 <= j < i - 1 ==> parse_int_spec(#[trigger] args[j]) == Some(numbers@[j]),
        decreases words@.len() - i,
    {
        assert(args[i - 1] == words@[i as int]@);
        match parse_int(words[i].as_slice()) {
            Some(v) => {
                numbers.push(v);
            },
            None => {
                return None;
            },
        }
        i = i + 1;
    }
    assert(numbers@ =~= numbers_spec(args));
    Some(numbers)
}

/// The bounding-box line of the canonical text.
pub fn canonical_box() -> (line: Vec<u8>)
    ensures
        line@ == canonical_box_line(),
{
    let text: [u8; 11] = [66u8, 66u8, 88u8, 32u8, 53u8, 32u8, 56u8, 32u8, 48u8, 32u8, 48u8];
    let line: Vec<u8> = copy_range(&text, 0, 11);
    assert(line@ =~= canonical_box_line());
    line
}

/// The bounding box that a declaration's words give, checked against what a
/// cell can take, and the row at which the glyph's first bitmap row is
/// stored.
pub fn read_box(words: &Vec<Vec<u8>>) -> (r: Result<(BoundingBox, usize), ErrorKind>)
    requires
        words@.len() >= 1,
    ensures
        match r {
            Ok(found) => box_spec(views(words@).skip(1)) == Ok::<BoundingBox, ErrorKind>(found.0)
                && found.1 == start_row_spec(found.0.height as int, found.0.y_offset as int),
            Err(e) => box_spec(views(words@).skip(1)) == Err::<BoundingBox, ErrorKind>(e),
        },
{
    let numbers: Vec<i64> = match parse_numbers(words) {
        Some(v) => v,
        None => {
            return Err(ErrorKind::MalformedNumber);
        },
    };
    if numbers.len() != 4 {
        return Err(ErrorKind::WrongArgumentCount);
    }
    if numbers[0] > MAX_WIDTH {
        return Err(ErrorKind::OversizedGlyph);
    }
    match start_row(numbers[1], numbers[3]) {
        Some(row) => Ok(
            (
                BoundingBox {
                    width: numbers[0],
                    height: numbers[1],
                    x_offset: numbers[2],
                    y_offset: numbers[3],
                },
                row,
            ),
        ),
        None => Err(ErrorKind::StartRowOutOfRange),
    }
}

/// The 8 rows of a cell as lines of the canonical text.
pub fn write_cell(cell: &Cell) -> (lines: Vec<Vec<u8>>)
    ensures
        views(lines@) == cell_lines(cell@),
{
    let mut lines: Vec<Vec<u8>> = Vec::new();
    let mut i: usize = 0;
    while i < 8
        invariant
            i <= 8,
            lines@.len() == i,
            forall|j: int| 0 <= j < i ==> (#[trigger] lines@[j])@ == hex_row_spec(cell@[j]),
        decreases 8 - i,
    {
        lines.push(hex_row(cell[i]));
        i = i + 1;
    }
    assert(views(lines@) =~= cell_lines(cell@));
    lines
}

impl Reader {
    /// A reader that has read nothing.
    pub fn new(strict: bool) -> (reader: Reader)
        ensures
            reader@ == initial_model(),
            reader.strict == strict,
    {
        Reader {
            strict,
            codepoint: None,
            x_offset: 0,
            cursor: 0,
            reading: false,
            cell: blank_cell(),
        }
    }

    /// Reads one line. Gives the lines that it becomes in the canonical
    /// text, and stores a completed glyph in `table`. When the line cannot
    /// be read, the reader and the table are left as they were.
    pub fn feed_line(&mut self, line: &[u8], table: &mut GlyphTable) -> (r: Result<
        Vec<Vec<u8>>,
        ErrorKind,
    >)
        ensures
            final(self).strict == old(self).strict,
            match step_spec(old(self)@, old(self).strict, line@) {
                Ok(step) => {
                    &&& r is Ok
                    &&& views(r->Ok_0@) == step.emitted
                    &&& final(self)@ == step.next
                    &&& final(table)@ == table_after(old(table)@, step.commit)
                },
                Err(e) => {
                    &&& r is Err
                    &&& r->Err_0 == e
                    &&& *final(self) == *old(self)
                    &&& final(table)@ == old(table)@
                },
            },
    {
        let words: Vec<Vec<u8>> = split_words(line);
        proof {
            lemma_split_words_first(line@);
            assert(words@[0]@ == views(words@)[0]);
        }
        let mut emitted: Vec<Vec<u8>> = Vec::new();
        match directive(words[0].as_slice()) {
            Directive::Encoding => {
                let numbers: Vec<i64> = match parse_numbers(&words) {
                    Some(v) => v,
                    None => {
                        return Err(ErrorKind::MalformedNumber);
                    },
                };
                if numbers.len() != 1 {
                    return Err(ErrorKind::WrongArgumentCount);
                }
                self.codepoint = Some(numbers[0]);
                self.x_offset = 0;
                self.cursor = 0;
                self.reading = false;
                self.cell = blank_cell();
                emitted.push(copy_range(line, 0, line.len()));
                proof {
                    assert(line@.subrange(0, line@.len() as int) =~= line@);
                    assert(views(emitted@) =~= seq![line@]);
                }
            },
            Directive::BoundingBox => {
                let (bounds, row) = match read_box(&words) {
                    Ok(found) => found,
                    Err(e) => {
                        return Err(e);
                    },
                };
                self.x_offset = bounds.x_offset;
                self.cursor = row;
                emitted.push(canonical_box());
                proof {
                    assert(views(emitted@) =~= seq![canonical_box_line()]);
                }
            },
            Directive::BitmapStart => {
                self.cell = blank_cell();
                self.reading = true;
                emitted.push(copy_range(line, 0, line.len()));
                proof {
                    assert(line@.subrange(0, line@.len() as int) =~= line@);
                    assert(views(emitted@) =~= seq![line@]);
                }
            },
            Directive::BitmapEnd => {
                if self.reading {
                    emitted = write_cell(&self.cell);
                }
                let ghost rows = views(emitted@);
                emitted.push(copy_range(line, 0, line.len()));
                proof {
                    assert(line@.subrange(0, line@.len() as int) =~= line@);
                    assert(views(emitted@) =~= rows.push(line@));
                    assert(seq![line@] =~= Seq::<Seq<u8>>::empty().push(line@));
                }
                match self.codepoint {
                    Some(c) => {
                        table.set(c, self.cell);
                    },
                    None => {},
                }
                self.codepoint = None;
                self.x_offset = 0;
                self.cursor = 0;
                self.reading = false;
                self.cell = blank_cell();
            },
            Directive::Other => {
                if !self.reading {
                    emitted.push(copy_range(line, 0, line.len()));
                    proof {
                        assert(line@.subrange(0, line@.len() as int) =~= line@);
                        assert(views(emitted@) =~= seq![line@]);
                    }
                } else if self.cursor >= 8 {
                    if self.strict {
                        return Err(ErrorKind::RowCursorOutOfRange);
                    }
                    proof {
                        assert(views(emitted@) =~= Seq::<Seq<u8>>::empty());
                    }
                } else {
                    let value: u8 = match parse_hex_byte(words[0].as_slice()) {
                        Some(v) => v,
                        None => {
                            return Err(ErrorKind::MalformedNumber);
                        },
                    };
                    let shifted: u8 = match shift_row(value, self.x_offset) {
                        Some(v) => v,
                        None => {
                            return Err(ErrorKind::UnsupportedShift);
                        },
                    };
                    self.cell[self.cursor] = shifted;
                    self.cursor = self.cursor + 1;
                    proof {
                        assert(views(emitted@) =~= Seq::<Seq<u8>>::empty());
                    }
                }
            },
        }
        Ok(emitted)
    }
}

/// A bitmap row that is read while rows are read and the cell is not full
/// goes to the cursor's row, shifted right by the horizontal offset: with
/// offset 0 it is stored as it is, with offset 1 it is stored halved. No
/// other row of the cell changes.
pub proof fn lemma_row_is_stored_shifted(s: ReaderModel, strict: bool, line: Seq<u8>, value: u8)
    requires
        directive_spec(first_word_spec(line)) == Directive::Other,
        s.reading,
        0 <= s.cursor < 8,
        s.cell.len() == 8,
        shift_supported(s.x_offset),
        parse_hex_byte_spec(first_word_spec(line)) == Some(value),
    ensures
        step_spec(s, strict, line) is Ok,
        step_spec(s, strict, line).unwrap().next.cell == s.cell.update(
            s.cursor,
            shifted_row_spec(value, s.x_offset as u8),
        ),
        step_spec(s, strict, line).unwrap().next.cursor == s.cursor + 1,
        s.x_offset == 0 ==> step_spec(s, strict, line).unwrap().next.cell[s.cursor] == value,
        s.x_offset == 1 ==> step_spec(s, strict, line).unwrap().next.cell[s.cursor] == value / 2,
{
    lemma_shifted_row(value);
}

} // verus!
