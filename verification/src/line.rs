//! Lines and words: how a glyph stream is cut into lines, a line into
//! space-separated words, and which directive a line's first word names.

use vstd::prelude::*;

verus! {

/// The byte that separates the words of a line.
pub const SPACE: u8 = 32;

/// The byte that ends a line.
pub const NEWLINE: u8 = 10;

/// The byte that may precede a line's end and is then not part of the line.
pub const CARRIAGE_RETURN: u8 = 13;

/// The index of the first `b` in `s`, or the length of `s` if there is none.
pub open spec fn position_of(s: Seq<u8>, b: u8) -> int
    decreases s.len(),
{
    if s.len() == 0 || s[0] == b {
        0
    } else {
        1 + position_of(s.skip(1), b)
    }
}

/// `position_of` is the least index that holds `b`.
pub proof fn lemma_position_of(s: Seq<u8>, b: u8)
    ensures
        0 <= position_of(s, b) <= s.len(),
        forall|j: int| 0 <= j < position_of(s, b) ==> s[j] != b,
        position_of(s, b) < s.len() ==> s[position_of(s, b)] == b,
    decreases s.len(),
{
    if s.len() == 0 || s[0] == b {
    } else {
        let rest = s.skip(1);
        lemma_position_of(rest, b);
        assert forall|j: int| 0 <= j < position_of(s, b) implies s[j] != b by {
            if j > 0 {
                assert(rest[j - 1] == s[j]);
            }
        }
    }
}

/// An index with no `b` before it, and `b` or the end at it, is
/// `position_of`.
pub proof fn lemma_position_of_unique(s: Seq<u8>, b: u8, k: int)
    requires
        0 <= k <= s.len(),
        forall|j: int| 0 <= j < k ==> s[j] != b,
        k < s.len() ==> s[k] == b,
    ensures
        position_of(s, b) == k,
{
    lemma_position_of(s, b);
    let p = position_of(s, b);
    if p < k {
        assert(s[p] != b);
    } else if p > k {
        assert(s[k] != b);
    }
}

/// The first word of a line: what stands before its first space.
pub open spec fn first_word_spec(line: Seq<u8>) -> Seq<u8> {
    line.take(position_of(line, SPACE))
}

/// The words of a line. Every single space separates two words, so a line
/// has at least one word and a word may be empty.
pub open spec fn split_words_spec(line: Seq<u8>) -> Seq<Seq<u8>>
    decreases line.len(),
{
    let k = position_of(line, SPACE);
    if 0 <= k < line.len() {
        seq![line.take(k)] + split_words_spec(line.skip(k + 1))
    } else {
        seq![line]
    }
}

/// The words of a line begin with its first word.
pub proof fn lemma_split_words_first(line: Seq<u8>)
    ensures
        split_words_spec(line).len() >= 1,
        split_words_spec(line)[0] == first_word_spec(line),
{
    lemma_position_of(line, SPACE);
    let k = position_of(line, SPACE);
    if k < line.len() {
    } else {
        assert(line.take(k) =~= line);
    }
}

/// What a vector of byte strings holds: the view of each, in order.
pub open spec fn views(v: Seq<Vec<u8>>) -> Seq<Seq<u8>> {
    Seq::new(v.len(), |i: int| v[i]@)
}

/// A copy of the bytes of `s` from index `from` up to `to`.
pub fn copy_range(s: &[u8], from: usize, to: usize) -> (r: Vec<u8>)
    requires
        from <= to <= s@.len(),
    ensures
        r@ == s@.subrange(from as int, to as int),
{
    let mut r: Vec<u8> = Vec::new();
    let mut i: usize = from;
    while i < to
        invariant
            from <= i <= to <= s@.len(),
            r@ == s@.subrange(from as int, i as int),
        decreases to - i,
    {
        r.push(s[i]);
        i = i + 1;
        assert(r@ =~= s@.subrange(from as int, i as int));
    }
    r
}

/// The index of the first `b` at or after `from`, or the length of `s`.
pub fn find_from(s: &[u8], from: usize, b: u8) -> (k: usize)
    requires
        from <= s@.len(),
    ensures
        from <= k <= s@.len(),
        k - from == position_of(s@.skip(from as int), b),
{
    let mut k: usize = from;
    while k < s.len() && s[k] != b
        invariant
            from <= k <= s@.len(),
            forall|j: int| from <= j < k ==> s@[j] != b,
        decreases s@.len() - k,
    {
        k = k + 1;
    }
    proof {
        lemma_position_of_unique(s@.skip(from as int), b, k - from);
    }
    k
}

/// Cuts a line into its words.
pub fn split_words(line: &[u8]) -> (words: Vec<Vec<u8>>)
    ensures
        views(words@) == split_words_spec(line@),
        words.len() >= 1,
{
    let n: usize = line.len();
    let mut words: Vec<Vec<u8>> = Vec::new();
    let mut start: usize = 0;
    assert(line@.skip(0) =~= line@);
    assert(views(words@) + split_words_spec(line@) =~= split_words_spec(line@));
    loop
        invariant
            start <= n,
            n == line@.len(),
            views(words@) + split_words_spec(line@.skip(start as int)) == split_words_spec(
                line@,
            ),
        decreases n - start,
    {
        let end: usize = find_from(line, start, SPACE);
        let word: Vec<u8> = copy_range(line, start, end);
        let ghost before = views(words@);
        let ghost rest = line@.skip(start as int);
        words.push(word);
        proof {
            assert(rest.take(end - start) =~= line@.subrange(start as int, end as int));
            assert(views(words@) =~= before + seq![rest.take(end - start)]);
        }
        if end == n {
            proof {
                assert(rest.take(end - start) =~= rest);
                assert(split_words_spec(rest) =~= seq![rest]);
            }
            return words;
        }
        proof {
            assert(rest.skip(end - start + 1) =~= line@.skip(end + 1));
            assert(before + (seq![rest.take(end - start)] + split_words_spec(
                line@.skip(end + 1),
            )) =~= views(words@) + split_words_spec(line@.skip(end + 1)));
        }
        start = end + 1;
    }
}

/// A line without the carriage return that may end it.
pub open spec fn strip_return(line: Seq<u8>) -> Seq<u8> {
    if line.len() > 0 && line.last() == CARRIAGE_RETURN {
        line.drop_last()
    } else {
        line
    }
}

/// The lines of a text. A line ends at a newline, which is not part of it,
/// nor is a carriage return just before that newline. What follows the last
/// newline is a line too, unless it is empty.
pub open spec fn split_lines_spec(text: Seq<u8>) -> Seq<Seq<u8>>
    decreases text.len(),
{
    let k = position_of(text, NEWLINE);
    if text.len() == 0 {
        seq![]
    } else if 0 <= k < text.len() {
        seq![strip_return(text.take(k))] + split_lines_spec(text.skip(k + 1))
    } else {
        seq![text]
    }
}

/// The text made of the given lines, each followed by a newline.
pub open spec fn join_lines_spec(lines: Seq<Seq<u8>>) -> Seq<u8>
    decreases lines.len(),
{
    if lines.len() == 0 {
        seq![]
    } else {
        join_lines_spec(lines.drop_last()) + lines.last() + seq![NEWLINE]
    }
}

/// Cuts a text into its lines.
pub fn split_lines(text: &[u8]) -> (lines: Vec<Vec<u8>>)
    ensures
        views(lines@) == split_lines_spec(text@),
{
    let n: usize = text.len();
    let mut lines: Vec<Vec<u8>> = Vec::new();
    let mut start: usize = 0;
    assert(text@.skip(0) =~= text@);
    assert(views(lines@) + split_lines_spec(text@) =~= split_lines_spec(text@));
    while start < n
        invariant
            start <= n,
            n == text@.len(),
            views(lines@) + split_lines_spec(text@.skip(start as int)) == split_lines_spec(
                text@,
            ),
        decreases n - start,
    {
        let end: usize = find_from(text, start, NEWLINE);
        let ghost before = views(lines@);
        let ghost rest = text@.skip(start as int);
        proof {
            assert(rest.take(end - start) =~= text@.subrange(start as int, end as int));
        }
        if end == n {
            let line: Vec<u8> = copy_range(text, start, end);
            lines.push(line);
            proof {
                assert(rest.take(end - start) =~= rest);
                assert(split_lines_spec(rest) =~= seq![rest]);
                assert(views(lines@) =~= before + seq![rest]);
                assert(text@.skip(n as int).len() == 0);
                assert(views(lines@) + split_lines_spec(text@.skip(n as int)) =~= before
                    + split_lines_spec(rest));
            }
            start = n;
        } else {
            let stop: usize = if end > start && text[end - 1] == CARRIAGE_RETURN {
                end - 1
            } else {
                end
            };
            let line: Vec<u8> = copy_range(text, start, stop);
            lines.push(line);
            proof {
                let whole = rest.take(end - start);
                assert(strip_return(whole) =~= text@.subrange(start as int, stop as int));
                assert(views(lines@) =~= before + seq![strip_return(whole)]);
                assert(rest.skip(end - start + 1) =~= text@.skip(end + 1));
                assert(before + (seq![strip_return(whole)] + split_lines_spec(
                    text@.skip(end + 1),
                )) =~= views(lines@) + split_lines_spec(text@.skip(end + 1)));
            }
            start = end + 1;
        }
    }
    proof {
        assert(text@.skip(start as int).len() == 0);
        assert(views(lines@) + split_lines_spec(text@.skip(start as int)) =~= views(lines@));
    }
    lines
}

/// Appends the bytes of `extra` to `out`.
pub fn append_bytes(out: &mut Vec<u8>, extra: &[u8])
    ensures
        final(out)@ == old(out)@ + extra@,
{
    let mut i: usize = 0;
    while i < extra.len()
        invariant
            i <= extra@.len(),
            out@ == old(out)@ + extra@.take(i as int),
        decreases extra@.len() - i,
    {
        out.push(extra[i]);
        i = i + 1;
        assert(out@ =~= old(out)@ + extra@.take(i as int));
    }
    assert(extra@.take(i as int) =~= extra@);
}

/// Writes the lines out as one text, each followed by a newline.
pub fn join_lines(lines: &Vec<Vec<u8>>) -> (text: Vec<u8>)
    ensures
        text@ == join_lines_spec(views(lines@)),
{
    let mut text: Vec<u8> = Vec::new();
    let mut i: usize = 0;
    while i < lines.len()
        invariant
            i <= lines@.len(),
            text@ == join_lines_spec(views(lines@).take(i as int)),
        decreases lines@.len() - i,
    {
        append_bytes(&mut text, lines[i].as_slice());
        text.push(NEWLINE);
        i = i + 1;
        proof {
            let upto = views(lines@).take(i as int);
            assert(upto.drop_last() =~= views(lines@).take(i - 1));
            assert(upto.last() == lines@[i - 1]@);
        }
    }
    assert(views(lines@).take(i as int) =~= views(lines@));
    text
}

/// Whether two byte strings are the same.
pub fn same_bytes(a: &[u8], b: &[u8]) -> (r: bool)
    ensures
        r == (a@ == b@),
{
    if a.len() != b.len() {
        return false;
    }
    let mut i: usize = 0;
    while i < a.len()
        invariant
            a@.len() == b@.len(),
            i <= a@.len(),
            forall|j: int| 0 <= j < i ==> a@[j] == b@[j],
        decreases a@.len() - i,
    {
        if a[i] != b[i] {
            return false;
        }
        i = i + 1;
    }
    assert(a@ =~= b@);
    true
}

/// What a line asks for, told by its first word.
#[derive(Clone, Copy, Debug, PartialEq, Eq, Structural)]
pub enum Directive {
    /// `ENCODING`: declares the codepoint of the glyph that follows.
    Encoding,
    /// `BBX`: declares the glyph's bounding box.
    BoundingBox,
    /// `BITMAP`: the glyph's rows follow.
    BitmapStart,
    /// `ENDCHAR`: the glyph is complete.
    BitmapEnd,
    /// Any other word.
    Other,
}

/// The word `ENCODING`.
pub open spec fn encoding_word() -> Seq<u8> {
    seq![69u8, 78u8, 67u8, 79u8, 68u8, 73u8, 78u8, 71u8]
}

/// The word `BBX`.
pub open spec fn bbx_word() -> Seq<u8> {
    seq![66u8, 66u8, 88u8]
}

/// The word `BITMAP`.
pub open spec fn bitmap_word() -> Seq<u8> {
    seq![66u8, 73u8, 84u8, 77u8, 65u8, 80u8]
}

/// The word `ENDCHAR`.
pub open spec fn endchar_word() -> Seq<u8> {
    seq![69u8, 78u8, 68u8, 67u8, 72u8, 65u8, 82u8]
}

/// The directive that a first word names.
pub open spec fn directive_spec(word: Seq<u8>) -> Directive {
    if word == encoding_word() {
        Directive::Encoding
    } else if word == bbx_word() {
        Directive::BoundingBox
    } else if word == bitmap_word() {
        Directive::BitmapStart
    } else if word == endchar_word() {
        Directive::BitmapEnd
    } else {
        Directive::Other
    }
}

/// Tells which directive a first word names.
pub fn directive(word: &[u8]) -> (d: Directive)
    ensures
        d == directive_spec(word@),
{
    let encoding: [u8; 8] = [69u8, 78u8, 67u8, 79u8, 68u8, 73u8, 78u8, 71u8];
    let bbx: [u8; 3] = [66u8, 66u8, 88u8];
    let bitmap: [u8; 6] = [66u8, 73u8, 84u8, 77u8, 65u8, 80u8];
    let endchar: [u8; 7] = [69u8, 78u8, 68u8, 67u8, 72u8, 65u8, 82u8];
    assert(encoding@ =~= encoding_word());
    assert(bbx@ =~= bbx_word());
    assert(bitmap@ =~= bitmap_word());
    assert(endchar@ =~= endchar_word());
    if same_bytes(word, &encoding) {
        Directive::Encoding
    } else if same_bytes(word, &bbx) {
        Directive::BoundingBox
    } else if same_bytes(word, &bitmap) {
        Directive::BitmapStart
    } else if same_bytes(word, &endchar) {
        Directive::BitmapEnd
    } else {
        Directive::Other
    }
}

} // verus!
