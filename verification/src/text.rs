use vstd::prelude::*;

verus! {

// The document text is a sequence of UTF-8 bytes. A line break is a line feed
// byte; a code point starts at every byte that is not a UTF-8 continuation
// byte. Columns are measured in code points from the start of the line, the
// unit the wire protocol expects.

pub const LINE_FEED: u8 = 10;

/// Whether a byte begins a code point (it is not a UTF-8 continuation byte).
pub open spec fn spec_starts_char(b: u8) -> bool {
    b < 128 || b >= 192
}

pub fn starts_char(b: u8) -> (r: bool)
    ensures
        r == spec_starts_char(b),
{
    b < 128 || b >= 192
}

/// How many line feeds appear in `text` strictly before byte offset `off`.
pub open spec fn line_of(text: Seq<u8>, off: int) -> int
    decreases off,
{
    if off <= 0 {
        0
    } else {
        line_of(text, off - 1) + if off - 1 < text.len() && text[off - 1] == LINE_FEED {
            1int
        } else {
            0int
        }
    }
}

/// The byte offset at which the line holding offset `off` begins: the
/// position right after the last line feed strictly before `off`.
pub open spec fn line_start_of(text: Seq<u8>, off: int) -> int
    decreases off,
{
    if off <= 0 {
        0
    } else if off - 1 < text.len() && text[off - 1] == LINE_FEED {
        off
    } else {
        line_start_of(text, off - 1)
    }
}

/// How many code points begin in the byte range `[from, to)`.
pub open spec fn chars_in(text: Seq<u8>, from: int, to: int) -> int
    decreases to - from,
{
    if to <= from {
        0
    } else {
        chars_in(text, from, to - 1) + if 0 <= to - 1 < text.len() && spec_starts_char(
            text[to - 1],
        ) {
            1int
        } else {
            0int
        }
    }
}

/// The column of byte offset `off`: code points between the start of its
/// line and `off`.
pub open spec fn col_of(text: Seq<u8>, off: int) -> int {
    chars_in(text, line_start_of(text, off), off)
}

pub proof fn lemma_line_of_bounds(text: Seq<u8>, off: int)
    ensures
        0 <= line_of(text, off),
        line_of(text, off) <= if off <= 0 {
            0int
        } else {
            off
        },
    decreases off,
{
    if off > 0 {
        lemma_line_of_bounds(text, off - 1);
    }
}

pub proof fn lemma_line_of_mono(text: Seq<u8>, a: int, b: int)
    requires
        a <= b,
    ensures
        line_of(text, a) <= line_of(text, b),
    decreases b - a,
{
    if a < b {
        lemma_line_of_mono(text, a, b - 1);
        lemma_line_of_bounds(text, b);
    }
}

pub proof fn lemma_line_start_bounds(text: Seq<u8>, off: int)
    ensures
        0 <= line_start_of(text, off),
        line_start_of(text, off) <= if off <= 0 {
            0int
        } else {
            off
        },
    decreases off,
{
    if off > 0 && !(off - 1 < text.len() && text[off - 1] == LINE_FEED) {
        lemma_line_start_bounds(text, off - 1);
    }
}

pub proof fn lemma_chars_in_bounds(text: Seq<u8>, from: int, to: int)
    ensures
        0 <= chars_in(text, from, to),
        chars_in(text, from, to) <= if to <= from {
            0int
        } else {
            to - from
        },
    decreases to - from,
{
    if to > from {
        lemma_chars_in_bounds(text, from, to - 1);
    }
}

/// Counting code points over `[from, to)` splits at any midpoint.
pub proof fn lemma_chars_in_split(text: Seq<u8>, from: int, mid: int, to: int)
    requires
        from <= mid <= to,
    ensures
        chars_in(text, from, to) == chars_in(text, from, mid) + chars_in(text, mid, to),
    decreases to - mid,
{
    if mid < to {
        lemma_chars_in_split(text, from, mid, to - 1);
    }
}

/// Two offsets on the same line share their line start.
pub proof fn lemma_same_line_same_start(text: Seq<u8>, a: int, b: int)
    requires
        0 <= a <= b,
        line_of(text, a) == line_of(text, b),
    ensures
        line_start_of(text, a) == line_start_of(text, b),
    decreases b - a,
{
    if a < b {
        lemma_line_of_mono(text, a, b - 1);
        lemma_line_of_bounds(text, b);
        lemma_same_line_same_start(text, a, b - 1);
    }
}

/// On one line the column grows with the byte offset.
pub proof fn lemma_same_line_col_mono(text: Seq<u8>, a: int, b: int)
    requires
        0 <= a <= b,
        line_of(text, a) == line_of(text, b),
    ensures
        col_of(text, a) <= col_of(text, b),
{
    lemma_same_line_same_start(text, a, b);
    lemma_line_start_bounds(text, a);
    lemma_chars_in_split(text, line_start_of(text, b), a, b);
    lemma_chars_in_bounds(text, a, b);
}

/// The line and column of a byte offset against the current text.
pub fn line_col_at(text: &Vec<u8>, off: usize) -> (r: (usize, usize))
    requires
        off <= text@.len(),
    ensures
        r.0 == line_of(text@, off as int),
        r.1 == col_of(text@, off as int),
        r.0 <= off,
        r.1 <= off,
{
    let mut i: usize = 0;
    let mut line: usize = 0;
    let mut ls: usize = 0;
    while i < off
        invariant
            i <= off,
            off <= text@.len(),
            line == line_of(text@, i as int),
            ls == line_start_of(text@, i as int),
            line <= i,
            ls <= i,
        decreases off - i,
    {
        if text[i] == LINE_FEED {
            line = line + 1;
            ls = i + 1;
        }
        i = i + 1;
    }
    let mut col: usize = 0;
    let mut j: usize = ls;
    while j < off
        invariant
            ls <= j <= off,
            off <= text@.len(),
            ls == line_start_of(text@, off as int),
            col == chars_in(text@, ls as int, j as int),
            col <= j - ls,
        decreases off - j,
    {
        if starts_char(text[j]) {
            col = col + 1;
        }
        j = j + 1;
    }
    (line, col)
}

/// The line/column position of a byte offset, absent when the offset lies
/// past the end of the text.
pub fn offset_to_position(text: &Vec<u8>, offset: usize) -> (r: Option<(usize, usize)>)
    ensures
        offset <= text@.len() ==> (match r {
            Some(p) => p.0 == line_of(text@, offset as int) && p.1 == col_of(
                text@,
                offset as int,
            ),
            None => false,
        }),
        offset > text@.len() ==> r is None,
{
    if offset <= text.len() {
        let (line, col) = line_col_at(text, offset);
        Some((line, col))
    } else {
        None
    }
}

/// The byte offset at which line number `line` begins; the text length when
/// there are fewer lines.
pub open spec fn start_of_line(text: Seq<u8>, line: int) -> int
    decreases line,
{
    if line <= 0 {
        0
    } else {
        next_line_start(text, start_of_line(text, line - 1))
    }
}

/// The byte offset right after the first line feed at or past `i`.
pub open spec fn next_line_start(text: Seq<u8>, i: int) -> int
    decreases text.len() - i,
{
    if i < 0 {
        next_line_start(text, 0)
    } else if i >= text.len() {
        text.len() as int
    } else if text[i] == LINE_FEED {
        i + 1
    } else {
        next_line_start(text, i + 1)
    }
}

/// Advancing `n` code points from byte offset `i`, stopping at a line break
/// or at the end of the text.
pub open spec fn advance_chars(text: Seq<u8>, i: int, n: int) -> int
    decreases n, text.len() - i,
{
    if i < 0 {
        advance_chars(text, 0, n)
    } else if n <= 0 || i >= text.len() || text[i] == LINE_FEED {
        i
    } else if i + 1 < text.len() && !spec_starts_char(text[i + 1]) {
        advance_chars(text, i + 1, n)
    } else {
        advance_chars(text, i + 1, n - 1)
    }
}

/// The byte offset of the position `character` code points into line `line`,
/// clamped to that line's end.
pub open spec fn offset_of(text: Seq<u8>, line: int, character: int) -> int {
    advance_chars(text, start_of_line(text, line), character)
}

/// Converts a line/column position into the byte offset the queries work on.
pub fn position_to_offset(text: &Vec<u8>, line: usize, character: usize) -> (r: usize)
    ensures
        r == offset_of(text@, line as int, character as int),
        r <= text@.len(),
{
    proof {
        lemma_next_line_start_bounds(text@, 0);
    }
    let mut l: usize = 0;
    let mut i: usize = 0;
    while l < line
        invariant
            l <= line,
            i == start_of_line(text@, l as int),
            i <= text@.len(),
        decreases line - l,
    {
        i = next_line_start_at(text, i);
        l = l + 1;
    }
    let mut n: usize = character;
    while n > 0 && i < text.len() && text[i] != LINE_FEED
        invariant
            i <= text@.len(),
            advance_chars(text@, i as int, n as int) == offset_of(
                text@,
                line as int,
                character as int,
            ),
        decreases n, text@.len() - i,
    {
        if i + 1 < text.len() && !starts_char(text[i + 1]) {
            i = i + 1;
        } else {
            i = i + 1;
            n = n - 1;
        }
    }
    i
}

proof fn lemma_next_line_start_bounds(text: Seq<u8>, i: int)
    requires
        0 <= i <= text.len(),
    ensures
        i <= next_line_start(text, i) <= text.len(),
    decreases text.len() - i,
{
    if i < text.len() && text[i] != LINE_FEED {
        lemma_next_line_start_bounds(text, i + 1);
    }
}

/// The start of the next line after byte offset `i`.
fn next_line_start_at(text: &Vec<u8>, i: usize) -> (r: usize)
    requires
        i <= text@.len(),
    ensures
        r == next_line_start(text@, i as int),
        r <= text@.len(),
{
    let mut j: usize = i;
    while j < text.len() && text[j] != LINE_FEED
        invariant
            i <= j <= text@.len(),
            next_line_start(text@, j as int) == next_line_start(text@, i as int),
        decreases text@.len() - j,
    {
        j = j + 1;
    }
    proof {
        lemma_next_line_start_bounds(text@, i as int);
    }
    if j < text.len() {
        j + 1
    } else {
        j
    }
}

} // verus!
