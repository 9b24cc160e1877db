//! Previewing glyphs: drawing lines of text in 5 by 8 cells onto a canvas of
//! pixels, and writing the canvas out as a picture or as text.

use vstd::prelude::*;

verus! {

/// The blank border around the text, in pixels.
pub const MARGIN: usize = 4;

/// The colour of a canvas before anything is drawn.
pub const BACKGROUND: u32 = 0x333333;

/// The colour in which glyphs are drawn unless another is chosen.
pub const FOREGROUND: u32 = 0xF1F11F;

/// The width of the cell that a character takes on the canvas.
pub const CELL_WIDTH: usize = 5;

/// The height of the cell that a character takes on the canvas.
pub const CELL_HEIGHT: usize = 8;

/// The codepoint of `?`, whose glyph stands in for a character that the
/// font lacks.
pub const FALLBACK: u32 = 63;

/// A glyph as a font file declares it: its bounding box, and its pixels row
/// by row from the top.
#[derive(Clone, Debug)]
pub struct Glyph {
    /// The width of the bitmap in pixels.
    pub width: u32,
    /// The height of the bitmap in pixels.
    pub height: u32,
    /// The offset of the bitmap's left edge from the cell's.
    pub x: i32,
    /// The offset of the bitmap's bottom edge from the baseline.
    pub y: i32,
    /// The pixels, row by row: the pixel at column `gx` of row `gy` is at
    /// index `gy * width + gx`.
    pub pixels: Vec<bool>,
}

/// Whether the glyph has a set pixel at column `gx` of row `gy` of its
/// bitmap. Outside the bitmap no pixel is set.
pub open spec fn pixel_spec(g: Glyph, gx: int, gy: int) -> bool {
    &&& 0 <= gx < g.width
    &&& 0 <= gy < g.height
    &&& gy * g.width + gx < g.pixels@.len()
    &&& g.pixels@[gy * g.width + gx]
}

/// Whether the glyph covers the pixel at column `x` of row `y` of its
/// 5 by 8 cell, rows counted from the top.
pub open spec fn covers_spec(g: Glyph, x: int, y: int) -> bool {
    pixel_spec(g, x - g.x, y + g.y - (8 - g.height))
}

impl Glyph {
    /// Whether the pixel at column `gx` of row `gy` of the bitmap is set.
    pub fn pixel(&self, gx: i64, gy: i64) -> (r: bool)
        ensures
            r == pixel_spec(*self, gx as int, gy as int),
    {
        if gx < 0 || gy < 0 || gx >= self.width as i64 || gy >= self.height as i64 {
            return false;
        }
        assert(gy * self.width + gx < 0x1_0000_0000 * 0x1_0000_0000) by (nonlinear_arith)
            requires
                0 <= gx < self.width,
                0 <= gy < self.height,
                self.width < 0x1_0000_0000,
                self.height < 0x1_0000_0000,
        ;
        assert(0 <= gy * self.width) by (nonlinear_arith)
            requires
                0 <= gy,
                0 <= self.width,
        ;
        let index: u128 = (gy as u128) * (self.width as u128) + (gx as u128);
        if index >= self.pixels.len() as u128 {
            return false;
        }
        self.pixels[index as usize]
    }

    /// Whether the glyph covers the pixel at column `x` of row `y` of its
    /// cell.
    pub fn covers(&self, x: usize, y: usize) -> (r: bool)
        requires
            x < 5,
            y < 8,
        ensures
            r == covers_spec(*self, x as int, y as int),
    {
        let gy: i64 = (y as i64) + (self.y as i64) - (8i64 - (self.height as i64));
        let gx: i64 = (x as i64) - (self.x as i64);
        self.pixel(gx, gy)
    }
}

/// A glyph of a font, with the codepoint of the character that it draws.
#[derive(Clone, Debug)]
pub struct FontEntry {
    /// The character's codepoint.
    pub codepoint: u32,
    /// The character's glyph.
    pub glyph: Glyph,
}

/// The index of the first entry for `codepoint`, or the number of entries
/// if there is none.
pub open spec fn entry_index_spec(entries: Seq<FontEntry>, codepoint: u32) -> int
    decreases entries.len(),
{
    if entries.len() == 0 || entries[0].codepoint == codepoint {
        0
    } else {
        1 + entry_index_spec(entries.skip(1), codepoint)
    }
}

/// Whether the font has a glyph for `codepoint`.
pub open spec fn has_glyph(entries: Seq<FontEntry>, codepoint: u32) -> bool {
    entry_index_spec(entries, codepoint) < entries.len()
}

/// The index of the entry that draws `codepoint`: its own, or that of `?`
/// where the font has none for it.
pub open spec fn drawn_index_spec(entries: Seq<FontEntry>, codepoint: u32) -> int {
    if has_glyph(entries, codepoint) {
        entry_index_spec(entries, codepoint)
    } else {
        entry_index_spec(entries, FALLBACK)
    }
}

/// `entry_index_spec` is the least index of an entry for `codepoint`.
pub proof fn lemma_entry_index(entries: Seq<FontEntry>, codepoint: u32)
    ensures
        0 <= entry_index_spec(entries, codepoint) <= entries.len(),
        forall|j: int|
            0 <= j < entry_index_spec(entries, codepoint) ==> entries[j].codepoint != codepoint,
        has_glyph(entries, codepoint) ==> entries[entry_index_spec(
            entries,
            codepoint,
        )].codepoint == codepoint,
    decreases entries.len(),
{
    if entries.len() == 0 || entries[0].codepoint == codepoint {
    } else {
        let rest = entries.skip(1);
        lemma_entry_index(rest, codepoint);
        assert forall|j: int| 0 <= j < entry_index_spec(entries, codepoint) implies entries[j].codepoint
            != codepoint by {
            if j > 0 {
                assert(rest[j - 1] == entries[j]);
            }
        }
    }
}

/// The index of the first entry for `codepoint`, if the font has one.
pub fn find_entry(entries: &Vec<FontEntry>, codepoint: u32) -> (r: Option<usize>)
    ensures
        match r {
            Some(i) => has_glyph(entries@, codepoint) && i == entry_index_spec(entries@, codepoint),
            None => !has_glyph(entries@, codepoint),
        },
{
    let mut i: usize = 0;
    while i < entries.len()
        invariant
            i <= entries@.len(),
            forall|j: int| 0 <= j < i ==> entries@[j].codepoint != codepoint,
        decreases entries@.len() - i,
    {
        if entries[i].codepoint == codepoint {
            proof {
                lemma_entry_index(entries@, codepoint);
                let p = entry_index_spec(entries@, codepoint);
                if p > i {
                    assert(entries@[i as int].codepoint != codepoint);
                }
                if p < i {
                    assert(entries@[p].codepoint == codepoint);
                }
            }
            return Some(i);
        }
        i = i + 1;
    }
    proof {
        lemma_entry_index(entries@, codepoint);
    }
    None
}

/// The index of the entry that draws `codepoint`: its own, or that of `?`
/// where the font has none for it. `None` when the font has neither.
pub fn find_drawn(entries: &Vec<FontEntry>, codepoint: u32) -> (r: Option<usize>)
    ensures
        match r {
            Some(i) => i == drawn_index_spec(entries@, codepoint) && i < entries@.len(),
            None => !has_glyph(entries@, codepoint) && !has_glyph(entries@, FALLBACK),
        },
{
    match find_entry(entries, codepoint) {
        Some(i) => Some(i),
        None => find_entry(entries, FALLBACK),
    }
}

/// A picture in the making: rows of pixels, and the place of the next line
/// of text.
#[derive(Clone, Debug)]
pub struct Canvas {
    /// The width of the picture in pixels.
    pub width: usize,
    /// The height of the picture in pixels.
    pub height: usize,
    /// The number of output pixels that a pixel becomes, each way, when the
    /// picture is written out.
    pub scale: usize,
    /// The row of pixels at which the next line of text starts.
    pub row: usize,
    /// The colour in which glyphs are drawn.
    pub foreground: u32,
    /// The pixels, row by row from the top.
    pub pixels: Vec<u32>,
}

/// The index of the pixel at column `px` of row `py`.
pub open spec fn pixel_index(width: int, px: int, py: int) -> int {
    py * width + px
}

/// The colour that the pixel at column `px` of row `py` has after a line of
/// text was drawn with its top at row `top`: the foreground where one of
/// the glyphs covers it, and else what it was.
pub open spec fn drawn_pixel(
    before: Seq<u32>,
    width: int,
    top: int,
    foreground: u32,
    glyphs: Seq<Glyph>,
    px: int,
    py: int,
) -> u32 {
    if top <= py < top + 8 && MARGIN <= px < MARGIN + 5 * glyphs.len() && covers_spec(
        glyphs[(px - MARGIN) / 5],
        (px - MARGIN) % 5,
        py - top,
    ) {
        foreground
    } else {
        before[pixel_index(width, px, py)]
    }
}

/// The glyphs that draw a text: for each codepoint its own, or that of `?`.
pub open spec fn text_glyphs(entries: Seq<FontEntry>, text: Seq<u32>) -> Seq<Glyph> {
    Seq::new(text.len(), |k: int| entries[drawn_index_spec(entries, text[k])].glyph)
}

/// Two pixels of a picture with the same index are the same pixel.
pub proof fn lemma_pixel_index_injective(width: int, px: int, py: int, qx: int, qy: int)
    requires
        0 <= px < width,
        0 <= qx < width,
        0 <= py,
        0 <= qy,
        pixel_index(width, px, py) == pixel_index(width, qx, qy),
    ensures
        px == qx,
        py == qy,
{
    assert(py == qy) by (nonlinear_arith)
        requires
            0 <= px < width,
            0 <= qx < width,
            py * width + px == qy * width + qx,
    ;
}

/// A pixel inside a picture has an index inside it.
pub proof fn lemma_pixel_index_bound(width: int, height: int, px: int, py: int)
    requires
        0 <= px < width,
        0 <= py < height,
    ensures
        0 <= py * width <= pixel_index(width, px, py) < width * height,
{
    assert(0 <= py * width && py * width + px < width * height) by (nonlinear_arith)
        requires
            0 <= px < width,
            0 <= py < height,
    ;
}

/// A number below `limit * scale`, divided by `scale`, is below `limit`.
pub proof fn lemma_scaled_down(v: int, scale: int, limit: int)
    requires
        0 <= v < limit * scale,
        scale > 0,
    ensures
        0 <= v / scale < limit,
{
    assert(0 <= v / scale < limit) by (nonlinear_arith)
        requires
            0 <= v < limit * scale,
            scale > 0,
    ;
}

/// The rightmost of the first `upto` pixels of row `y` that is not in the
/// background colour, or the margin if none is at or right of it.
pub open spec fn last_drawn_spec(pixels: Seq<u32>, width: int, y: int, upto: int) -> int
    decreases upto,
{
    if upto <= MARGIN {
        MARGIN as int
    } else if pixels[pixel_index(width, upto - 1, y)] != BACKGROUND {
        upto - 1
    } else {
        last_drawn_spec(pixels, width, y, upto - 1)
    }
}

/// Row `y` of a picture as a line of text.
pub open spec fn ascii_line_spec(pixels: Seq<u32>, width: int, y: int) -> Seq<u8> {
    Seq::new(
        (2 * (last_drawn_spec(pixels, width, y, width) - MARGIN + 1)) as nat,
        |j: int|
            if pixels[pixel_index(width, MARGIN + j / 2, y)] == BACKGROUND {
                32u8
            } else {
                35u8
            },
    )
}

/// A picture as lines of text: its rows below the top margin.
pub open spec fn ascii_lines_spec(canvas: Canvas) -> Seq<Seq<u8>> {
    Seq::new(
        (if canvas.height >= MARGIN {
            canvas.height - MARGIN
        } else {
            0
        }) as nat,
        |i: int| ascii_line_spec(canvas.pixels@, canvas.width as int, MARGIN + i),
    )
}

/// A number in decimal digits, without leading zeros.
pub open spec fn decimal_text_spec(n: nat) -> Seq<u8>
    decreases n,
{
    if n < 10 {
        seq![(48 + n) as u8]
    } else {
        decimal_text_spec(n / 10) + seq![(48 + n % 10) as u8]
    }
}

/// Writes a number in decimal digits, without leading zeros.
pub fn decimal_text(n: usize) -> (digits: Vec<u8>)
    ensures
        digits@ == decimal_text_spec(n as nat),
    decreases n,
{
    if n < 10 {
        let mut digits: Vec<u8> = Vec::new();
        digits.push(48u8 + (n as u8));
        assert(digits@ =~= decimal_text_spec(n as nat));
        digits
    } else {
        let mut digits: Vec<u8> = decimal_text(n / 10);
        digits.push(48u8 + ((n % 10) as u8));
        assert(digits@ =~= decimal_text_spec(n as nat));
        digits
    }
}

/// The red, green and blue bytes of a colour.
pub open spec fn channels_spec(colour: u32) -> Seq<u8> {
    seq![
        (colour as int / 65536 % 256) as u8,
        (colour as int / 256 % 256) as u8,
        (colour as int % 256) as u8,
    ]
}

/// The first `upto` output pixels of output row `y`.
pub open spec fn scaled_row_spec(pixels: Seq<u32>, width: int, scale: int, y: int, upto: int) -> Seq<
    u8,
>
    decreases upto,
{
    if upto <= 0 {
        seq![]
    } else {
        scaled_row_spec(pixels, width, scale, y, upto - 1) + channels_spec(
            pixels[pixel_index(width, (upto - 1) / scale, y / scale)],
        )
    }
}

/// The first `upto` output rows, each of `out_width` output pixels.
pub open spec fn scaled_rows_spec(
    pixels: Seq<u32>,
    width: int,
    scale: int,
    upto: int,
    out_width: int,
) -> Seq<u8>
    decreases upto,
{
    if upto <= 0 {
        seq![]
    } else {
        scaled_rows_spec(pixels, width, scale, upto - 1, out_width) + scaled_row_spec(
            pixels,
            width,
            scale,
            upto - 1,
            out_width,
        )
    }
}

/// The header of a pixmap file of the given size.
pub open spec fn ppm_header_spec(out_width: nat, out_height: nat) -> Seq<u8> {
    seq![80u8, 54u8, 10u8] + decimal_text_spec(out_width) + seq![32u8] + decimal_text_spec(
        out_height,
    ) + seq![10u8, 50u8, 53u8, 53u8, 10u8]
}

/// A picture as a pixmap file.
pub open spec fn ppm_spec(canvas: Canvas) -> Seq<u8> {
    ppm_header_spec((canvas.width * canvas.scale) as nat, (canvas.height * canvas.scale) as nat)
        + scaled_rows_spec(
        canvas.pixels@,
        canvas.width as int,
        canvas.scale as int,
        canvas.height * canvas.scale,
        canvas.width * canvas.scale,
    )
}

/// The colour of a pixel while a line of text is being drawn: that of the
/// finished line where the drawing has passed the pixel, which it has in
/// the rows above row `rows` of the line and in the first `columns` columns
/// of that row, and else what it was.
pub open spec fn partly_drawn_pixel(
    before: Seq<u32>,
    width: int,
    top: int,
    foreground: u32,
    glyphs: Seq<Glyph>,
    rows: int,
    columns: int,
    px: int,
    py: int,
) -> u32 {
    if py - top < rows || (py - top == rows && px - MARGIN < columns) {
        drawn_pixel(before, width, top, foreground, glyphs, px, py)
    } else {
        before[pixel_index(width, px, py)]
    }
}

impl Canvas {
    /// Whether the picture has as many pixels as its width and height say.
    pub open spec fn wf(&self) -> bool {
        self.pixels@.len() == self.width * self.height
    }

    /// A picture of the given size in the background colour, with the first
    /// line of text a margin below the top. Written out, a pixel becomes 4
    /// by 4 pixels if `double` is set and 2 by 2 if not.
    pub fn new(width: usize, height: usize, double: bool) -> (canvas: Canvas)
        requires
            width * height <= usize::MAX,
        ensures
            canvas.wf(),
            canvas.width == width,
            canvas.height == height,
            canvas.scale == (if double { 4usize } else { 2usize }),
            canvas.row == MARGIN,
            canvas.foreground == FOREGROUND,
            forall|i: int| 0 <= i < width * height ==> canvas.pixels@[i] == BACKGROUND,
    {
        Canvas {
            width,
            height,
            scale: if double { 4 } else { 2 },
            row: MARGIN,
            foreground: FOREGROUND,
            pixels: vec![BACKGROUND; width * height],
        }
    }

    /// Chooses the colour in which glyphs are drawn from now on.
    pub fn set_foreground(&mut self, foreground: u32)
        ensures
            *final(self) == (Canvas { foreground, ..*old(self) }),
    {
        self.foreground = foreground;
    }

    /// Paints the whole picture in one colour. What was drawn is lost.
    pub fn set_background(&mut self, background: u32)
        requires
            old(self).width * old(self).height <= usize::MAX,
        ensures
            final(self).wf(),
            final(self).width == old(self).width,
            final(self).height == old(self).height,
            final(self).scale == old(self).scale,
            final(self).row == old(self).row,
            final(self).foreground == old(self).foreground,
            forall|i: int|
                0 <= i < final(self).width * final(self).height ==> final(self).pixels@[i]
                    == background,
    {
        self.pixels = vec![background; self.width * self.height];
    }

    /// Draws a line of text below what was drawn before: each character in
    /// a cell of 5 by 8 pixels, from the left margin on, with the glyph that
    /// the font has for it or else with that of `?`. Pixels that no glyph
    /// covers keep their colour.
    pub fn render_line(&mut self, entries: &Vec<FontEntry>, text: &Vec<u32>)
        requires
            old(self).wf(),
            has_glyph(entries@, FALLBACK),
            old(self).row + 8 <= old(self).height,
            MARGIN + 5 * text@.len() <= old(self).width,
        ensures
            final(self).wf(),
            final(self).width == old(self).width,
            final(self).height == old(self).height,
            final(self).scale == old(self).scale,
            final(self).foreground == old(self).foreground,
            final(self).row == old(self).row + 8,
            forall|px: int, py: int|
                0 <= px < old(self).width && 0 <= py < old(self).height
                    ==> #[trigger] final(self).pixels@[pixel_index(old(self).width as int, px, py)]
                    == drawn_pixel(
                    old(self).pixels@,
                    old(self).width as int,
                    old(self).row as int,
                    old(self).foreground,
                    text_glyphs(entries@, text@),
                    px,
                    py,
                ),
    {
        let ghost before = self.pixels@;
        let ghost glyphs = text_glyphs(entries@, text@);
        let width: usize = self.width;
        let top: usize = self.row;
        let foreground: u32 = self.foreground;
        let n: usize = text.len();
        let mut y: usize = 0;
        while y < 8
            invariant
                y <= 8,
                self.wf(),
                self.width == width,
                self.height == old(self).height,
                self.scale == old(self).scale,
                self.foreground == foreground,
                self.row == top,
                width == old(self).width,
                top == old(self).row,
                foreground == old(self).foreground,
                before == old(self).pixels@,
                before.len() == width * self.height,
                n == text@.len(),
                glyphs == text_glyphs(entries@, text@),
                has_glyph(entries@, FALLBACK),
                top + 8 <= self.height,
                MARGIN + 5 * n <= width,
                forall|px: int, py: int|
                    0 <= px < width && 0 <= py < self.height ==> #[trigger] self.pixels@[pixel_index(
                        width as int,
                        px,
                        py,
                    )] == partly_drawn_pixel(
                        before,
                        width as int,
                        top as int,
                        foreground,
                        glyphs,
                        y as int,
                        0,
                        px,
                        py,
                    ),
            decreases 8 - y,
        {
            let mut k: usize = 0;
            while k < n
                invariant
                    y < 8,
                    k <= n,
                    self.wf(),
                    self.width == width,
                    self.height == old(self).height,
                    self.scale == old(self).scale,
                    self.foreground == foreground,
                    self.row == top,
                    before.len() == width * self.height,
                    n == text@.len(),
                    glyphs == text_glyphs(entries@, text@),
                    has_glyph(entries@, FALLBACK),
                    top + 8 <= self.height,
                    MARGIN + 5 * n <= width,
                    forall|px: int, py: int|
                        0 <= px < width && 0 <= py < self.height
                            ==> #[trigger] self.pixels@[pixel_index(width as int, px, py)]
                            == partly_drawn_pixel(
                            before,
                            width as int,
                            top as int,
                            foreground,
                            glyphs,
                            y as int,
                            5 * k,
                            px,
                            py,
                        ),
                decreases n - k,
            {
                let found: Option<usize> = find_drawn(entries, text[k]);
                let at: usize = match found {
                    Some(i) => i,
                    None => 0,
                };
                assert(found is Some);
                assert(glyphs[k as int] == entries@[at as int].glyph);
                let mut x: usize = 0;
                while x < 5
                    invariant
                        y < 8,
                        k < n,
                        x <= 5,
                        at < entries@.len(),
                        glyphs[k as int] == entries@[at as int].glyph,
                        self.wf(),
                        self.width == width,
                        self.height == old(self).height,
                        self.scale == old(self).scale,
                        self.foreground == foreground,
                        self.row == top,
                        before.len() == width * self.height,
                        n == text@.len(),
                        glyphs.len() == n,
                        top + 8 <= self.height,
                        MARGIN + 5 * n <= width,
                        forall|px: int, py: int|
                            0 <= px < width && 0 <= py < self.height
                                ==> #[trigger] self.pixels@[pixel_index(width as int, px, py)]
                                == partly_drawn_pixel(
                                before,
                                width as int,
                                top as int,
                                foreground,
                                glyphs,
                                y as int,
                                5 * k + x,
                                px,
                                py,
                            ),
                    decreases 5 - x,
                {
                    let cx: usize = MARGIN + 5 * k + x;
                    let cy: usize = top + y;
                    let ghost earlier = self.pixels@;
                    proof {
                        lemma_pixel_index_bound(width as int, self.height as int, cx as int, cy as int);
                        assert(self.pixels.len() == width * self.height);
                        assert(cy * width + cx < self.pixels.len());
                    }
                    if entries[at].glyph.covers(x, y) {
                        self.pixels.set(cy * width + cx, foreground);
                    }
                    proof {
                        assert forall|px: int, py: int|
                            0 <= px < width && 0 <= py < self.height implies #[trigger] self.pixels@[pixel_index(
                            width as int,
                            px,
                            py,
                        )] == partly_drawn_pixel(
                            before,
                            width as int,
                            top as int,
                            foreground,
                            glyphs,
                            y as int,
                            5 * k + x + 1,
                            px,
                            py,
                        ) by {
                            lemma_pixel_index_bound(width as int, self.height as int, px, py);
                            if px == cx && py == cy {
                                assert((px - MARGIN) / 5 == k as int);
                                assert((px - MARGIN) % 5 == x as int);
                                assert(earlier[pixel_index(width as int, px, py)]
                                    == before[pixel_index(width as int, px, py)]);
                            } else {
                                if pixel_index(width as int, px, py) == pixel_index(
                                    width as int,
                                    cx as int,
                                    cy as int,
                                ) {
                                    lemma_pixel_index_injective(
                                        width as int,
                                        px,
                                        py,
                                        cx as int,
                                        cy as int,
                                    );
                                }
                                assert(self.pixels@[pixel_index(width as int, px, py)]
                                    == earlier[pixel_index(width as int, px, py)]);
                            }
                        }
                    }
                    x = x + 1;
                }
                k = k + 1;
            }
            y = y + 1;
        }
        self.row = top + 8;
    }

    /// The picture as lines of text, one for each row of pixels below the
    /// top margin: from the left margin to the last pixel of the row that
    /// is not in the background colour, two spaces for a pixel in the
    /// background colour and `##` for any other. A row with no such pixel
    /// gives the two spaces of the pixel at the margin.
    pub fn ascii_lines(&self) -> (lines: Vec<Vec<u8>>)
        requires
            self.wf(),
            self.width > MARGIN,
        ensures
            lines@.len() == ascii_lines_spec(*self).len(),
            forall|i: int|
                0 <= i < lines@.len() ==> (#[trigger] lines@[i])@ == ascii_lines_spec(*self)[i],
    {
        let mut lines: Vec<Vec<u8>> = Vec::new();
        let mut y: usize = MARGIN;
        while y < self.height
            invariant
                self.wf(),
                self.width > MARGIN,
                MARGIN <= y,
                y <= self.height || self.height < MARGIN,
                lines@.len() == (if y <= self.height { y - MARGIN } else { 0 }),
                forall|i: int|
                    0 <= i < lines@.len() ==> (#[trigger] lines@[i])@ == ascii_line_spec(
                        self.pixels@,
                        self.width as int,
                        MARGIN + i,
                    ),
            decreases self.height - y,
        {
            let mut last: usize = MARGIN;
            let mut x: usize = MARGIN;
            proof {
                assert(self.pixels.len() == self.width * self.height);
            }
            while x < self.width
                invariant
                    self.wf(),
                    self.pixels.len() == self.width * self.height,
                    y < self.height,
                    MARGIN <= x <= self.width,
                    MARGIN <= last < self.width,
                    last == last_drawn_spec(self.pixels@, self.width as int, y as int, x as int),
                decreases self.width - x,
            {
                proof {
                    lemma_pixel_index_bound(self.width as int, self.height as int, x as int, y as int);
                }
                if self.pixels[y * self.width + x] != BACKGROUND {
                    last = x;
                }
                x = x + 1;
            }
            let mut line: Vec<u8> = Vec::new();
            let mut x: usize = MARGIN;
            while x <= last
                invariant
                    self.wf(),
                    self.pixels.len() == self.width * self.height,
                    y < self.height,
                    MARGIN <= x <= last + 1,
                    last < self.width,
                    line@.len() == 2 * (x - MARGIN),
                    forall|j: int|
                        0 <= j < line@.len() ==> #[trigger] line@[j] == (if self.pixels@[pixel_index(
                            self.width as int,
                            MARGIN + j / 2,
                            y as int,
                        )] == BACKGROUND {
                            32u8
                        } else {
                            35u8
                        }),
                decreases last + 1 - x,
            {
                proof {
                    lemma_pixel_index_bound(self.width as int, self.height as int, x as int, y as int);
                }
                let mark: u8 = if self.pixels[y * self.width + x] == BACKGROUND {
                    32
                } else {
                    35
                };
                line.push(mark);
                line.push(mark);
                x = x + 1;
            }
            proof {
                assert(line@ =~= ascii_line_spec(self.pixels@, self.width as int, y as int));
            }
            lines.push(line);
            y = y + 1;
        }
        lines
    }

    /// The picture as a binary pixmap file: the format's magic number, the width and
    /// the height in output pixels, the greatest colour value `255`, and
    /// then for each output pixel, row by row, its red, green and blue
    /// bytes. Each pixel of the picture becomes `scale` by `scale` output
    /// pixels.
    pub fn ppm_bytes(&self) -> (bytes: Vec<u8>)
        requires
            self.wf(),
            self.scale > 0,
            self.width * self.scale <= usize::MAX,
            self.height * self.scale <= usize::MAX,
        ensures
            bytes@ == ppm_spec(*self),
    {
        let out_width: usize = self.width * self.scale;
        let out_height: usize = self.height * self.scale;
        let mut bytes: Vec<u8> = Vec::new();
        bytes.push(80);
        bytes.push(54);
        bytes.push(10);
        let mut digits: Vec<u8> = decimal_text(out_width);
        bytes.append(&mut digits);
        bytes.push(32);
        let mut digits: Vec<u8> = decimal_text(out_height);
        bytes.append(&mut digits);
        bytes.push(10);
        bytes.push(50);
        bytes.push(53);
        bytes.push(53);
        bytes.push(10);
        let ghost header = bytes@;
        proof {
            assert(header =~= ppm_header_spec(out_width as nat, out_height as nat));
            assert(self.pixels.len() == self.width * self.height);
        }
        let mut y: usize = 0;
        while y < out_height
            invariant
                self.wf(),
                self.scale > 0,
                self.pixels.len() == self.width * self.height,
                out_width == self.width * self.scale,
                out_height == self.height * self.scale,
                y <= out_height,
                bytes@ == header + scaled_rows_spec(
                    self.pixels@,
                    self.width as int,
                    self.scale as int,
                    y as int,
                    out_width as int,
                ),
            decreases out_height - y,
        {
            let ghost above = bytes@;
            let mut x: usize = 0;
            while x < out_width
                invariant
                    self.wf(),
                    self.scale > 0,
                    self.pixels.len() == self.width * self.height,
                    out_width == self.width * self.scale,
                    out_height == self.height * self.scale,
                    y < out_height,
                    x <= out_width,
                    bytes@ == above + scaled_row_spec(
                        self.pixels@,
                        self.width as int,
                        self.scale as int,
                        y as int,
                        x as int,
                    ),
                decreases out_width - x,
            {
                proof {
                    lemma_scaled_down(x as int, self.scale as int, self.width as int);
                    lemma_scaled_down(y as int, self.scale as int, self.height as int);
                    lemma_pixel_index_bound(
                        self.width as int,
                        self.height as int,
                        x as int / self.scale as int,
                        y as int / self.scale as int,
                    );
                }
                let colour: u32 = self.pixels[(y / self.scale) * self.width + (x / self.scale)];
                let ghost left = bytes@;
                bytes.push((colour / 65536 % 256) as u8);
                bytes.push((colour / 256 % 256) as u8);
                bytes.push((colour % 256) as u8);
                x = x + 1;
                proof {
                    assert(bytes@ =~= left + channels_spec(colour));
                    assert(bytes@ =~= above + scaled_row_spec(
                        self.pixels@,
                        self.width as int,
                        self.scale as int,
                        y as int,
                        x as int,
                    ));
                }
            }
            y = y + 1;
            proof {
                assert(bytes@ =~= header + scaled_rows_spec(
                    self.pixels@,
                    self.width as int,
                    self.scale as int,
                    y as int,
                    out_width as int,
                ));
            }
        }
        bytes
    }
}

/// The greatest of the lengths, or zero if there is none.
pub open spec fn longest_spec(lengths: Seq<usize>) -> int
    decreases lengths.len(),
{
    if lengths.len() == 0 {
        0
    } else if lengths.last() > longest_spec(lengths.drop_last()) {
        lengths.last() as int
    } else {
        longest_spec(lengths.drop_last())
    }
}

/// The width of the picture that takes lines of the given lengths: 5 pixels
/// for each character of the longest, and a margin on both sides.
pub open spec fn canvas_width_spec(lengths: Seq<usize>) -> int {
    longest_spec(lengths) * 5 + MARGIN * 2
}

/// The height of the picture that takes the given number of lines: 8 pixels
/// for each, and a margin above and below.
pub open spec fn canvas_height_spec(count: int) -> int {
    count * 8 + MARGIN * 2
}

/// The greatest of the lengths, or zero if there is none.
pub fn longest(lengths: &Vec<usize>) -> (r: usize)
    ensures
        r == longest_spec(lengths@),
{
    let mut r: usize = 0;
    let mut i: usize = 0;
    while i < lengths.len()
        invariant
            i <= lengths@.len(),
            r == longest_spec(lengths@.take(i as int)),
        decreases lengths@.len() - i,
    {
        proof {
            let next = lengths@.take(i + 1);
            assert(next.drop_last() =~= lengths@.take(i as int));
            assert(next.last() == lengths@[i as int]);
        }
        if lengths[i] > r {
            r = lengths[i];
        }
        i = i + 1;
    }
    proof {
        assert(lengths@.take(i as int) =~= lengths@);
    }
    r
}

/// The width and height of the picture that takes lines of text of the
/// given lengths. `None` when one of the two does not fit in a `usize`.
pub fn canvas_size(lengths: &Vec<usize>) -> (r: Option<(usize, usize)>)
    ensures
        match r {
            Some(size) => size.0 == canvas_width_spec(lengths@) && size.1 == canvas_height_spec(
                lengths@.len() as int,
            ),
            None => canvas_width_spec(lengths@) > usize::MAX || canvas_height_spec(
                lengths@.len() as int,
            ) > usize::MAX,
        },
{
    let width: usize = match longest(lengths).checked_mul(CELL_WIDTH) {
        Some(w) => match w.checked_add(MARGIN * 2) {
            Some(w) => w,
            None => {
                return None;
            },
        },
        None => {
            return None;
        },
    };
    let height: usize = match lengths.len().checked_mul(CELL_HEIGHT) {
        Some(h) => match h.checked_add(MARGIN * 2) {
            Some(h) => h,
            None => {
                return None;
            },
        },
        None => {
            return None;
        },
    };
    Some((width, height))
}

/// The number of characters of each line.
pub open spec fn lengths_spec(lines: Seq<Vec<u32>>) -> Seq<usize> {
    Seq::new(lines.len(), |i: int| lines[i].len())
}

/// The colour of the pixel at column `px` of row `py` in the picture of a
/// text: the foreground where a glyph covers it, and else the background.
/// Line `i` of the text stands in the 8 rows from row `MARGIN + 8 * i` on,
/// and its character `k` in the 5 columns from column `MARGIN + 5 * k` on.
pub open spec fn text_pixel_spec(
    entries: Seq<FontEntry>,
    lines: Seq<Vec<u32>>,
    background: u32,
    foreground: u32,
    px: int,
    py: int,
) -> u32 {
    let line = (py - MARGIN) / 8;
    if MARGIN <= py < MARGIN + 8 * lines.len() && MARGIN <= px < MARGIN + 5 * lines[line]@.len()
        && covers_spec(
        text_glyphs(entries, lines[line]@)[(px - MARGIN) / 5],
        (px - MARGIN) % 5,
        (py - MARGIN) % 8,
    ) {
        foreground
    } else {
        background
    }
}

/// Whether a picture of a text can be made: the font has a glyph for `?`
/// unless the text has no line, and the picture's size fits the machine.
pub open spec fn can_render(entries: Seq<FontEntry>, lines: Seq<Vec<u32>>) -> bool {
    &&& lines.len() > 0 ==> has_glyph(entries, FALLBACK)
    &&& canvas_width_spec(lengths_spec(lines)) * canvas_height_spec(lines.len() as int)
        <= usize::MAX
    &&& canvas_width_spec(lengths_spec(lines)) <= usize::MAX
    &&& canvas_height_spec(lines.len() as int) <= usize::MAX
}

/// The number of characters of each line.
pub fn line_lengths(lines: &Vec<Vec<u32>>) -> (lengths: Vec<usize>)
    ensures
        lengths@ == lengths_spec(lines@),
{
    let mut lengths: Vec<usize> = Vec::new();
    let mut i: usize = 0;
    while i < lines.len()
        invariant
            i <= lines@.len(),
            lengths@.len() == i,
            forall|j: int| 0 <= j < i ==> lengths@[j] == (#[trigger] lines@[j]).len(),
        decreases lines@.len() - i,
    {
        lengths.push(lines[i].len());
        i = i + 1;
    }
    assert(lengths@ =~= lengths_spec(lines@));
    lengths
}

/// No line is longer than the longest.
pub proof fn lemma_longest_bounds(lengths: Seq<usize>, i: int)
    requires
        0 <= i < lengths.len(),
    ensures
        lengths[i] <= longest_spec(lengths),
    decreases lengths.len(),
{
    if i < lengths.len() - 1 {
        lemma_longest_bounds(lengths.drop_last(), i);
    }
}

/// Makes the picture of a text: a canvas just large enough for its lines
/// and a margin around them, painted in the background colour, with every
/// line drawn in the foreground colour. `None` when no such picture can be
/// made.
pub fn render_text(
    entries: &Vec<FontEntry>,
    lines: &Vec<Vec<u32>>,
    double: bool,
    background: u32,
    foreground: u32,
) -> (r: Option<Canvas>)
    ensures
        match r {
            Some(canvas) => {
                &&& can_render(entries@, lines@)
                &&& canvas.wf()
                &&& canvas.width == canvas_width_spec(lengths_spec(lines@))
                &&& canvas.height == canvas_height_spec(lines@.len() as int)
                &&& canvas.scale == (if double { 4usize } else { 2usize })
                &&& canvas.row == MARGIN + 8 * lines@.len()
                &&& canvas.foreground == foreground
                &&& forall|px: int, py: int|
                    0 <= px < canvas.width && 0 <= py < canvas.height
                        ==> #[trigger] canvas.pixels@[pixel_index(canvas.width as int, px, py)]
                        == text_pixel_spec(entries@, lines@, background, foreground, px, py)
            },
            None => !can_render(entries@, lines@),
        },
{
    if lines.len() > 0 && find_entry(entries, FALLBACK).is_none() {
        return None;
    }
    let lengths: Vec<usize> = line_lengths(lines);
    let (width, height) = match canvas_size(&lengths) {
        Some(size) => size,
        None => {
            return None;
        },
    };
    if width.checked_mul(height).is_none() {
        return None;
    }
    let mut canvas: Canvas = Canvas::new(width, height, double);
    canvas.set_background(background);
    canvas.set_foreground(foreground);
    let mut i: usize = 0;
    proof {
        assert forall|px: int, py: int| 0 <= px < width && 0 <= py < height implies #[trigger] canvas.pixels@[pixel_index(
            width as int,
            px,
            py,
        )] == background by {
            lemma_pixel_index_bound(width as int, height as int, px, py);
        }
    }
    while i < lines.len()
        invariant
            i <= lines@.len(),
            lines@.len() > 0 ==> has_glyph(entries@, FALLBACK),
            lengths@ == lengths_spec(lines@),
            canvas.wf(),
            canvas.width == width,
            canvas.height == height,
            width == canvas_width_spec(lengths@),
            height == canvas_height_spec(lines@.len() as int),
            canvas.scale == (if double { 4usize } else { 2usize }),
            canvas.foreground == foreground,
            canvas.row == MARGIN + 8 * i,
            forall|px: int, py: int|
                0 <= px < width && 0 <= py < height ==> #[trigger] canvas.pixels@[pixel_index(
                    width as int,
                    px,
                    py,
                )] == (if py < MARGIN + 8 * i {
                    text_pixel_spec(entries@, lines@, background, foreground, px, py)
                } else {
                    background
                }),
        decreases lines@.len() - i,
    {
        let ghost before = canvas.pixels@;
        proof {
            lemma_longest_bounds(lengths@, i as int);
            assert(lengths@[i as int] == lines@[i as int].len());
            assert(MARGIN + 5 * lines@[i as int]@.len() <= width);
        }
        canvas.render_line(entries, &lines[i]);
        proof {
            assert forall|px: int, py: int| 0 <= px < width && 0 <= py < height implies #[trigger] canvas.pixels@[pixel_index(
                width as int,
                px,
                py,
            )] == (if py < MARGIN + 8 * (i + 1) {
                text_pixel_spec(entries@, lines@, background, foreground, px, py)
            } else {
                background
            }) by {
                lemma_pixel_index_bound(width as int, height as int, px, py);
                if MARGIN + 8 * i <= py < MARGIN + 8 * (i + 1) {
                    assert((py - MARGIN) / 8 == i as int);
                    assert((py - MARGIN) % 8 == py - (MARGIN + 8 * i));
                }
            }
        }
        i = i + 1;
    }
    proof {
        assert forall|px: int, py: int| 0 <= px < width && 0 <= py < height implies #[trigger] canvas.pixels@[pixel_index(
            width as int,
            px,
            py,
        )] == text_pixel_spec(entries@, lines@, background, foreground, px, py) by {
            if py >= MARGIN + 8 * lines@.len() {
            }
        }
    }
    Some(canvas)
}

} // verus!
