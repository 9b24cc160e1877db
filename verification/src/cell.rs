//! Cells and the glyph table: the fixed 8-row raster that every glyph is
//! brought into, and the 256 of them that make a font.

use vstd::prelude::*;

verus! {

/// Number of codepoints that a glyph table holds.
pub const TABLE_SIZE: usize = 256;

/// One glyph as stored: 8 rows, the topmost first, a byte of bits each.
pub type Cell = [u8; 8];

/// The cell of a glyph that was never defined: 8 empty rows.
pub open spec fn zero_cell() -> Seq<u8> {
    Seq::new(8, |i: int| 0u8)
}

/// Whether a codepoint has a slot in the table.
pub open spec fn in_table(codepoint: int) -> bool {
    0 <= codepoint < 256
}

/// The table in which no glyph is defined.
pub open spec fn empty_table() -> Seq<Seq<u8>> {
    Seq::new(256, |c: int| zero_cell())
}

/// The table after `cell` was stored at `codepoint`: that slot changed and
/// no other, or nothing changed when the codepoint has no slot.
pub open spec fn table_set(table: Seq<Seq<u8>>, codepoint: int, cell: Seq<u8>) -> Seq<Seq<u8>> {
    if in_table(codepoint) {
        table.update(codepoint, cell)
    } else {
        table
    }
}

/// What the table gives for a codepoint: the cell in its slot, or the empty
/// cell when it has no slot.
pub open spec fn table_get(table: Seq<Seq<u8>>, codepoint: int) -> Seq<u8> {
    if in_table(codepoint) {
        table[codepoint]
    } else {
        zero_cell()
    }
}

/// Whether `table` has the shape of a glyph table: 256 cells of 8 rows.
pub open spec fn table_shape(table: Seq<Seq<u8>>) -> bool {
    &&& table.len() == 256
    &&& forall|c: int| 0 <= c < 256 ==> (#[trigger] table[c]).len() == 8
}

/// A cell with 8 empty rows.
pub fn blank_cell() -> (cell: Cell)
    ensures
        cell@ == zero_cell(),
{
    let cell: Cell = [0u8; 8];
    assert(cell@ =~= zero_cell());
    cell
}

/// A mapping from each codepoint in `[0, 256)` to its cell.
pub struct GlyphTable {
    cells: [Cell; 256],
}

impl View for GlyphTable {
    type V = Seq<Seq<u8>>;

    closed spec fn view(&self) -> Seq<Seq<u8>> {
        Seq::new(256, |c: int| self.cells@[c]@)
    }
}

impl GlyphTable {
    /// The table in which every cell is empty.
    pub fn new() -> (table: GlyphTable)
        ensures
            table@ == empty_table(),
    {
        let table = GlyphTable { cells: [[0u8; 8]; 256] };
        assert(table@ =~= empty_table()) by {
            assert forall|c: int| 0 <= c < 256 implies table@[c] == zero_cell() by {
                assert(table.cells@[c]@ =~= zero_cell());
            }
        }
        table
    }

    /// The table always has 256 cells of 8 rows.
    pub proof fn lemma_shape(&self)
        ensures
            table_shape(self@),
    {
    }

    /// Stores `cell` at `codepoint`. A codepoint outside `[0, 256)` has no
    /// slot: the table is then left as it was.
    pub fn set(&mut self, codepoint: i64, cell: Cell)
        ensures
            final(self)@ == table_set(old(self)@, codepoint as int, cell@),
    {
        if 0 <= codepoint && codepoint < 256 {
            self.cells[codepoint as usize] = cell;
            assert(self@ =~= table_set(old(self)@, codepoint as int, cell@));
        }
    }

    /// The cell stored at `codepoint`, or the empty cell where the codepoint
    /// has no slot.
    pub fn get(&self, codepoint: i64) -> (cell: Cell)
        ensures
            cell@ == table_get(self@, codepoint as int),
    {
        if 0 <= codepoint && codepoint < 256 {
            self.cells[codepoint as usize]
        } else {
            blank_cell()
        }
    }

    /// The 256 cells in codepoint order.
    pub fn all(&self) -> (cells: Vec<Cell>)
        ensures
            cells@.len() == 256,
            forall|c: int| 0 <= c < 256 ==> (#[trigger] cells@[c])@ == self@[c],
    {
        let mut cells: Vec<Cell> = Vec::new();
        let mut c: usize = 0;
        while c < 256
            invariant
                c <= 256,
                cells@.len() == c,
                forall|k: int| 0 <= k < c ==> (#[trigger] cells@[k])@ == self@[k],
            decreases 256 - c,
        {
            cells.push(self.cells[c]);
            c = c + 1;
        }
        cells
    }
}

} // verus!
