//! The binary console font: a fixed header of 8 numbers, then the 256 cells
//! of the glyph table in codepoint order.

use vstd::prelude::*;
use crate::cell::{table_shape, Cell, GlyphTable};
use crate::line::{append_bytes, views};
use crate::reader::ErrorKind;
use crate::stream::{fails_at, glyphs_spec, read_glyphs, ReadError};

verus! {

/// The number that identifies the format.
pub const PSF_MAGIC: u32 = 0x864ab572;

/// The size of the header in bytes.
pub const HEADER_SIZE: u32 = 32;

/// The number of glyphs that the header declares. It is the size of the
/// table, whatever the number of glyphs that a stream defined.
pub const GLYPH_COUNT: u32 = 256;

/// The size of one glyph in bytes.
pub const BYTES_PER_GLYPH: u32 = 8;

/// The height of a glyph in pixels.
pub const GLYPH_HEIGHT: u32 = 8;

/// The width of a glyph in pixels.
pub const GLYPH_WIDTH: u32 = 5;

/// The size of a font file in bytes: the header and 256 cells of 8 bytes.
pub const FONT_SIZE: usize = 2080;

/// The header of a font file.
#[derive(Clone, Copy, Debug, PartialEq, Eq, Structural)]
pub struct FontHeader {
    /// The number that identifies the format.
    pub magic: u32,
    /// The format's version: zero.
    pub version: u32,
    /// The offset of the bitmaps in the file.
    pub header_size: u32,
    /// Zero when no table of codepoints follows the bitmaps.
    pub flags: u32,
    /// The number of glyphs.
    pub glyph_count: u32,
    /// The size of each glyph in bytes.
    pub bytes_per_glyph: u32,
    /// The height of a glyph in pixels.
    pub height: u32,
    /// The width of a glyph in pixels.
    pub width: u32,
}

/// The 4 bytes of a number, the least significant first.
pub open spec fn le_bytes_spec(v: u32) -> Seq<u8> {
    seq![
        (v as int % 256) as u8,
        (v as int / 256 % 256) as u8,
        (v as int / 65536 % 256) as u8,
        (v as int / 16777216) as u8,
    ]
}

/// The header that every font file of this library carries.
pub open spec fn standard_header() -> FontHeader {
    FontHeader {
        magic: 0x864ab572,
        version: 0,
        header_size: 32,
        flags: 0,
        glyph_count: 256,
        bytes_per_glyph: 8,
        height: 8,
        width: 5,
    }
}

/// A header as it stands in the file: its 8 numbers in order, 4 bytes each.
pub open spec fn header_bytes_spec(h: FontHeader) -> Seq<u8> {
    le_bytes_spec(h.magic) + le_bytes_spec(h.version) + le_bytes_spec(h.header_size)
        + le_bytes_spec(h.flags) + le_bytes_spec(h.glyph_count) + le_bytes_spec(
        h.bytes_per_glyph,
    ) + le_bytes_spec(h.height) + le_bytes_spec(h.width)
}

/// The cells of a table as they stand in the file: byte `i` is row `i % 8`
/// of the cell of codepoint `i / 8`.
pub open spec fn cells_bytes_spec(table: Seq<Seq<u8>>) -> Seq<u8> {
    Seq::new(2048, |i: int| table[i / 8][i % 8])
}

/// The font file of a table.
pub open spec fn font_bytes_spec(table: Seq<Seq<u8>>) -> Seq<u8> {
    header_bytes_spec(standard_header()) + cells_bytes_spec(table)
}

/// Appends the 4 bytes of `v` to `out`, the least significant first.
pub fn push_le_bytes(out: &mut Vec<u8>, v: u32)
    ensures
        final(out)@ == old(out)@ + le_bytes_spec(v),
{
    out.push((v % 256) as u8);
    out.push((v / 256 % 256) as u8);
    out.push((v / 65536 % 256) as u8);
    out.push((v / 16777216) as u8);
    assert(out@ =~= old(out)@ + le_bytes_spec(v));
}

impl FontHeader {
    /// The header that every font file of this library carries.
    pub fn standard() -> (h: FontHeader)
        ensures
            h == standard_header(),
    {
        FontHeader {
            magic: PSF_MAGIC,
            version: 0,
            header_size: HEADER_SIZE,
            flags: 0,
            glyph_count: GLYPH_COUNT,
            bytes_per_glyph: BYTES_PER_GLYPH,
            height: GLYPH_HEIGHT,
            width: GLYPH_WIDTH,
        }
    }

    /// The header as it stands in the file.
    pub fn to_bytes(&self) -> (bytes: Vec<u8>)
        ensures
            bytes@ == header_bytes_spec(*self),
            bytes@.len() == 32,
    {
        let mut bytes: Vec<u8> = Vec::new();
        push_le_bytes(&mut bytes, self.magic);
        push_le_bytes(&mut bytes, self.version);
        push_le_bytes(&mut bytes, self.header_size);
        push_le_bytes(&mut bytes, self.flags);
        push_le_bytes(&mut bytes, self.glyph_count);
        push_le_bytes(&mut bytes, self.bytes_per_glyph);
        push_le_bytes(&mut bytes, self.height);
        push_le_bytes(&mut bytes, self.width);
        assert(bytes@ =~= header_bytes_spec(*self));
        bytes
    }
}

/// Writes a table as a font file: the header, then each cell's 8 bytes in
/// codepoint order.
pub fn encode_table(table: &GlyphTable) -> (bytes: Vec<u8>)
    ensures
        bytes@ == font_bytes_spec(table@),
        bytes@.len() == 2080,
{
    let mut bytes: Vec<u8> = FontHeader::standard().to_bytes();
    let cells: Vec<Cell> = table.all();
    let ghost header = bytes@;
    let mut c: usize = 0;
    proof {
        table.lemma_shape();
        assert(bytes@.take(32) =~= header);
    }
    while c < 256
        invariant
            c <= 256,
            table_shape(table@),
            cells@.len() == 256,
            header.len() == 32,
            forall|k: int| 0 <= k < 256 ==> (#[trigger] cells@[k])@ == table@[k],
            bytes@.len() == 32 + 8 * c,
            bytes@.take(32) == header,
            forall|i: int| 0 <= i < 8 * c ==> #[trigger] bytes@[32 + i] == table@[i / 8][i % 8],
        decreases 256 - c,
    {
        let ghost before = bytes@;
        let cell: Cell = cells[c];
        append_bytes(&mut bytes, cell.as_slice());
        proof {
            assert(bytes@.take(32) =~= before.take(32));
            assert forall|i: int| 0 <= i < 8 * (c + 1) implies #[trigger] bytes@[32 + i]
                == table@[i / 8][i % 8] by {
                if i < 8 * c {
                    assert(bytes@[32 + i] == before[32 + i]);
                } else {
                    assert(i / 8 == c as int);
                    assert(bytes@[32 + i] == cell@[i - 8 * c]);
                    assert(cells@[c as int]@ == table@[c as int]);
                }
            }
        }
        c = c + 1;
    }
    assert(bytes@ =~= font_bytes_spec(table@)) by {
        assert(bytes@ =~= bytes@.take(32) + bytes@.skip(32));
        assert forall|i: int| 0 <= i < 2048 implies bytes@.skip(32)[i] == cells_bytes_spec(
            table@,
        )[i] by {
            assert(bytes@.skip(32)[i] == bytes@[32 + i]);
        }
        assert(bytes@.skip(32) =~= cells_bytes_spec(table@));
    }
    bytes
}

/// Reads a stream and writes the glyphs that it defines as a font file.
pub fn generate_font(lines: &Vec<Vec<u8>>, strict: bool) -> (r: Result<Vec<u8>, ReadError>)
    ensures
        match r {
            Ok(bytes) => match glyphs_spec(strict, views(lines@)) {
                Ok(table) => bytes@ == font_bytes_spec(table) && bytes@.len() == 2080,
                Err(_) => false,
            },
            Err(e) => fails_at(strict, views(lines@), e.line as int, e.kind) && glyphs_spec(
                strict,
                views(lines@),
            ) == Err::<Seq<Seq<u8>>, ErrorKind>(e.kind),
        },
{
    match read_glyphs(lines, strict) {
        Ok(table) => Ok(encode_table(&table)),
        Err(e) => Err(e),
    }
}

/// The header's bytes, written out.
pub open spec fn standard_header_bytes() -> Seq<u8> {
    seq![
        0x72u8, 0xb5u8, 0x4au8, 0x86u8,
        0u8, 0u8, 0u8, 0u8,
        32u8, 0u8, 0u8, 0u8,
        0u8, 0u8, 0u8, 0u8,
        0u8, 1u8, 0u8, 0u8,
        8u8, 0u8, 0u8, 0u8,
        8u8, 0u8, 0u8, 0u8,
        5u8, 0u8, 0u8, 0u8,
    ]
}

/// A font file is 2080 bytes long whatever the table holds. It begins with
/// the same 32 bytes, in which the glyph count reads 256, and the row `row`
/// of the cell of codepoint `c` stands at offset `32 + 8 * c + row`.
pub proof fn lemma_font_layout(table: Seq<Seq<u8>>)
    ensures
        font_bytes_spec(table).len() == 2080,
        font_bytes_spec(table).take(32) == standard_header_bytes(),
        font_bytes_spec(table).subrange(16, 20) == le_bytes_spec(256),
        forall|c: int, row: int|
            #![trigger table[c][row]]
            0 <= c < 256 && 0 <= row < 8 ==> font_bytes_spec(table)[32 + 8 * c + row]
                == table[c][row],
{
    let h = standard_header();
    let header = header_bytes_spec(h);
    assert(header =~= standard_header_bytes());
    let font = font_bytes_spec(table);
    assert(font.take(32) =~= header);
    assert(font.subrange(16, 20) =~= le_bytes_spec(256));
    assert forall|c: int, row: int|
        #![trigger table[c][row]]
        0 <= c < 256 && 0 <= row < 8 implies font[32 + 8 * c + row] == table[c][row] by {
        let i = 8 * c + row;
        assert(i / 8 == c && i % 8 == row);
        assert(font[32 + i] == cells_bytes_spec(table)[i]);
    }
}

} // verus!
