//! Reading a whole glyph stream: the lines go through the reader one by
//! one, in order, and leave a glyph table and a canonical text.

use vstd::prelude::*;
use crate::cell::{empty_table, in_table, table_shape, zero_cell, GlyphTable};
use crate::line::views;
use crate::reader::{initial_model, step_spec, table_after, ErrorKind, Reader, ReaderModel};

verus! {

/// What a run over a stream has reached, as contracts speak of it.
pub struct RunModel {
    /// The reader's state.
    pub reader: ReaderModel,
    /// The glyph table so far.
    pub table: Seq<Seq<u8>>,
    /// The lines of the canonical text so far.
    pub output: Seq<Seq<u8>>,
}

/// A run before its first line: no glyph defined, no text written.
pub open spec fn start_model() -> RunModel {
    RunModel { reader: initial_model(), table: empty_table(), output: seq![] }
}

/// The run after one more line, or why that line cannot be read.
pub open spec fn advance(m: RunModel, strict: bool, line: Seq<u8>) -> Result<RunModel, ErrorKind> {
    match step_spec(m.reader, strict, line) {
        Ok(step) => Ok(
            RunModel {
                reader: step.next,
                table: table_after(m.table, step.commit),
                output: m.output + step.emitted,
            },
        ),
        Err(e) => Err(e),
    }
}

/// The run after the given lines, read in order from `m`. The first line
/// that cannot be read ends it.
pub open spec fn run_spec(m: RunModel, strict: bool, lines: Seq<Seq<u8>>) -> Result<
    RunModel,
    ErrorKind,
>
    decreases lines.len(),
{
    if lines.len() == 0 {
        Ok(m)
    } else {
        match run_spec(m, strict, lines.drop_last()) {
            Ok(mid) => advance(mid, strict, lines.last()),
            Err(e) => Err(e),
        }
    }
}

/// Whether the line at `index` is the first that cannot be read, and `kind`
/// says why.
pub open spec fn fails_at(strict: bool, lines: Seq<Seq<u8>>, index: int, kind: ErrorKind) -> bool {
    &&& 0 <= index < lines.len()
    &&& match run_spec(start_model(), strict, lines.take(index)) {
        Ok(mid) => advance(mid, strict, lines[index]) == Err::<RunModel, ErrorKind>(kind),
        Err(_) => false,
    }
}

/// The glyph table that a stream defines.
pub open spec fn glyphs_spec(strict: bool, lines: Seq<Seq<u8>>) -> Result<Seq<Seq<u8>>, ErrorKind> {
    match run_spec(start_model(), strict, lines) {
        Ok(m) => Ok(m.table),
        Err(e) => Err(e),
    }
}

/// The canonical text of a stream.
pub open spec fn normalized_spec(strict: bool, lines: Seq<Seq<u8>>) -> Result<
    Seq<Seq<u8>>,
    ErrorKind,
> {
    match run_spec(start_model(), strict, lines) {
        Ok(m) => Ok(m.output),
        Err(e) => Err(e),
    }
}

/// A run that failed on a prefix of the lines fails in the same way on all
/// of them.
pub proof fn lemma_run_fails_on_prefix(m: RunModel, strict: bool, lines: Seq<Seq<u8>>, k: int)
    requires
        0 <= k <= lines.len(),
        run_spec(m, strict, lines.take(k)) is Err,
    ensures
        run_spec(m, strict, lines) == run_spec(m, strict, lines.take(k)),
    decreases lines.len(),
{
    if k == lines.len() {
        assert(lines.take(k) =~= lines);
    } else {
        assert(lines.drop_last().take(k) =~= lines.take(k));
        lemma_run_fails_on_prefix(m, strict, lines.drop_last(), k);
    }
}

/// Why a stream cannot be read, and where.
#[derive(Clone, Copy, Debug, PartialEq, Eq, Structural)]
pub struct ReadError {
    /// The index of the offending line, counted from 0.
    pub line: usize,
    /// What is wrong with it.
    pub kind: ErrorKind,
}

/// What a stream leaves when it was read to its end.
pub struct Outcome {
    /// The glyphs that the stream defines.
    pub table: GlyphTable,
    /// The lines of the canonical text.
    pub output: Vec<Vec<u8>>,
}

/// Reads a stream to its end. Stops at the first line that cannot be read
/// and says which it is.
pub fn process(lines: &Vec<Vec<u8>>, strict: bool) -> (r: Result<Outcome, ReadError>)
    ensures
        match r {
            Ok(o) => {
                &&& glyphs_spec(strict, views(lines@)) == Ok::<Seq<Seq<u8>>, ErrorKind>(o.table@)
                &&& normalized_spec(strict, views(lines@)) == Ok::<Seq<Seq<u8>>, ErrorKind>(
                    views(o.output@),
                )
            },
            Err(e) => fails_at(strict, views(lines@), e.line as int, e.kind) && run_spec(
                start_model(),
                strict,
                views(lines@),
            ) == Err::<RunModel, ErrorKind>(e.kind),
        },
{
    let mut reader: Reader = Reader::new(strict);
    let mut table: GlyphTable = GlyphTable::new();
    let mut output: Vec<Vec<u8>> = Vec::new();
    let mut i: usize = 0;
    proof {
        assert(views(lines@).take(0).len() == 0);
        assert(views(output@) =~= Seq::<Seq<u8>>::empty());
    }
    while i < lines.len()
        invariant
            i <= lines@.len(),
            reader.strict == strict,
            run_spec(start_model(), strict, views(lines@).take(i as int)) == Ok::<
                RunModel,
                ErrorKind,
            >(RunModel { reader: reader@, table: table@, output: views(output@) }),
        decreases lines@.len() - i,
    {
        let ghost before = RunModel { reader: reader@, table: table@, output: views(output@) };
        proof {
            let upto = views(lines@).take(i + 1);
            assert(upto.drop_last() =~= views(lines@).take(i as int));
            assert(upto.last() == lines@[i as int]@);
        }
        match reader.feed_line(lines[i].as_slice(), &mut table) {
            Ok(mut emitted) => {
                let ghost added = views(emitted@);
                output.append(&mut emitted);
                proof {
                    assert(views(output@) =~= before.output + added);
                }
            },
            Err(kind) => {
                proof {
                    lemma_run_fails_on_prefix(start_model(), strict, views(lines@), i + 1);
                }
                return Err(ReadError { line: i, kind });
            },
        }
        i = i + 1;
    }
    proof {
        assert(views(lines@).take(i as int) =~= views(lines@));
    }
    Ok(Outcome { table, output })
}

/// Reads a stream and gives the glyph table that it defines.
pub fn read_glyphs(lines: &Vec<Vec<u8>>, strict: bool) -> (r: Result<GlyphTable, ReadError>)
    ensures
        match r {
            Ok(table) => glyphs_spec(strict, views(lines@)) == Ok::<Seq<Seq<u8>>, ErrorKind>(
                table@,
            ),
            Err(e) => fails_at(strict, views(lines@), e.line as int, e.kind) && glyphs_spec(
                strict,
                views(lines@),
            ) == Err::<Seq<Seq<u8>>, ErrorKind>(e.kind),
        },
{
    match process(lines, strict) {
        Ok(outcome) => Ok(outcome.table),
        Err(e) => Err(e),
    }
}

/// Reads a stream and gives its canonical text: every bounding box
/// rewritten to the full cell, every bitmap to the 8 rows of its cell, and
/// every other line as it was.
pub fn normalize_lines(lines: &Vec<Vec<u8>>, strict: bool) -> (r: Result<Vec<Vec<u8>>, ReadError>)
    ensures
        match r {
            Ok(output) => normalized_spec(strict, views(lines@)) == Ok::<
                Seq<Seq<u8>>,
                ErrorKind,
            >(views(output@)),
            Err(e) => fails_at(strict, views(lines@), e.line as int, e.kind) && normalized_spec(
                strict,
                views(lines@),
            ) == Err::<Seq<Seq<u8>>, ErrorKind>(e.kind),
        },
{
    match process(lines, strict) {
        Ok(outcome) => Ok(outcome.output),
        Err(e) => Err(e),
    }
}

/// What the line at `index` stores in the glyph table, if the run gets to
/// it and it stores anything.
pub open spec fn commit_at(strict: bool, lines: Seq<Seq<u8>>, index: int) -> Option<
    (int, Seq<u8>),
> {
    match run_spec(start_model(), strict, lines.take(index)) {
        Ok(mid) => match step_spec(mid.reader, strict, lines[index]) {
            Ok(step) => step.commit,
            Err(_) => None,
        },
        Err(_) => None,
    }
}

/// Whether a commit stores a cell at `codepoint`.
pub open spec fn commits_to(commit: Option<(int, Seq<u8>)>, codepoint: int) -> bool {
    match commit {
        Some(c) => c.0 == codepoint,
        None => false,
    }
}

/// Whether some line of the stream stores a cell at `codepoint`.
pub open spec fn assigns(strict: bool, lines: Seq<Seq<u8>>, codepoint: int) -> bool {
    exists|i: int|
        0 <= i < lines.len() && commits_to(#[trigger] commit_at(strict, lines, i), codepoint)
}

/// A codepoint at which no line of the stream stores a cell keeps the empty
/// cell.
pub proof fn lemma_unassigned_stays_empty(strict: bool, lines: Seq<Seq<u8>>, codepoint: int)
    requires
        glyphs_spec(strict, lines) is Ok,
        in_table(codepoint),
        !assigns(strict, lines, codepoint),
    ensures
        glyphs_spec(strict, lines).unwrap()[codepoint] == zero_cell(),
    decreases lines.len(),
{
    if lines.len() > 0 {
        let init = lines.drop_last();
        let last_index = lines.len() - 1;
        assert(lines.take(last_index) =~= init);
        assert forall|i: int| 0 <= i < init.len() implies !commits_to(
            #[trigger] commit_at(strict, init, i),
            codepoint,
        ) by {
            assert(init.take(i) =~= lines.take(i));
            assert(commit_at(strict, init, i) == commit_at(strict, lines, i));
        }
        lemma_unassigned_stays_empty(strict, init, codepoint);
        lemma_run_keeps_shape(start_model(), strict, init);
        let stored = commit_at(strict, lines, last_index);
        assert(!commits_to(stored, codepoint));
    }
}

/// What a run leaves in the table has the shape of a glyph table.
pub proof fn lemma_run_keeps_shape(m: RunModel, strict: bool, lines: Seq<Seq<u8>>)
    requires
        table_shape(m.table),
        m.reader.cell.len() == 8,
        run_spec(m, strict, lines) is Ok,
    ensures
        table_shape(run_spec(m, strict, lines).unwrap().table),
        run_spec(m, strict, lines).unwrap().reader.cell.len() == 8,
    decreases lines.len(),
{
    if lines.len() > 0 {
        lemma_run_keeps_shape(m, strict, lines.drop_last());
    }
}

/// A codepoint holds the cell that the last line to store one there
/// stored: the cell of exactly one glyph.
pub proof fn lemma_assigned_holds_last_commit(
    strict: bool,
    lines: Seq<Seq<u8>>,
    codepoint: int,
    index: int,
)
    requires
        glyphs_spec(strict, lines) is Ok,
        in_table(codepoint),
        0 <= index < lines.len(),
        commits_to(commit_at(strict, lines, index), codepoint),
        forall|j: int|
            index < j < lines.len() ==> !commits_to(#[trigger] commit_at(strict, lines, j), codepoint),
    ensures
        glyphs_spec(strict, lines).unwrap()[codepoint] == commit_at(strict, lines, index).unwrap().1,
    decreases lines.len(),
{
    let init = lines.drop_last();
    let last_index = lines.len() - 1;
    assert(lines.take(last_index) =~= init);
    lemma_run_keeps_shape(start_model(), strict, init);
    if index < last_index {
        assert forall|j: int| 0 <= j < init.len() implies commit_at(strict, init, j) == commit_at(
            strict,
            lines,
            j,
        ) by {
            assert(init.take(j) =~= lines.take(j));
        }
        assert(!commits_to(commit_at(strict, lines, last_index), codepoint));
        lemma_assigned_holds_last_commit(strict, init, codepoint, index);
    }
}

} // verus!
