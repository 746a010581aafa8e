//! A display-width-aware wrapping text buffer with byte-exact positions.
//!
//! Text is wrapped greedily by display columns: an explicit newline forces
//! a break and is consumed; otherwise characters pack left to right, a
//! break falls before a character that would overflow a non-empty line,
//! and a single character wider than the whole width is still placed so
//! the scan always advances.  Each produced line carries the byte range
//! of the original text it covers.

use vstd::prelude::*;

use crate::strutil::bytes_len;
use crate::strutil::char_bytes;
use crate::strutil::from_chars;
use crate::strutil::is_char_boundary_of;
use crate::strutil::lemma_bytes_len_bounds;
use crate::strutil::lemma_bytes_len_take_succ;
use crate::strutil::to_chars;
use crate::strutil::utf8_len;

verus! {

/// The display width of a character in terminal columns, with characters
/// of undefined width counted as one column.
pub uninterp spec fn display_width_of(c: char) -> usize;

/// Relies on `unicode_width::UnicodeWidthChar::width`: the displayed
/// column width of a character depends on the character alone; the
/// crate's tables yield widths between 0 and 3, and a control character
/// (for which it returns `None`) is counted as one column here.
#[verifier::external_body]
fn measure_width(c: char) -> (w: usize)
    ensures
        w == display_width_of(c),
        w <= 3,
{
    unicode_width::UnicodeWidthChar::width(c).unwrap_or(1)
}

/// Total display width of `s` in columns.
pub open spec fn width_sum(s: Seq<char>) -> int
    decreases s.len(),
{
    if s.len() == 0 {
        0
    } else {
        width_sum(s.drop_last()) + display_width_of(s.last())
    }
}

pub proof fn lemma_width_sum_push(s: Seq<char>, c: char)
    ensures
        width_sum(s.push(c)) == width_sum(s) + display_width_of(c),
{
    assert(s.push(c).drop_last() =~= s);
    assert(s.push(c).last() == c);
}

/// One wrapped line: its text, and the byte range `[start_index,
/// end_index]` it covers in the unwrapped text.
#[derive(Debug, PartialEq, Eq)]
pub struct WrapTextLine {
    pub content: String,
    pub start_index: usize,
    pub end_index: usize,
}

/// The mathematical shadow of a [`WrapTextLine`].
pub struct LineSpec {
    pub content: Seq<char>,
    pub start: int,
    pub end: int,
}

impl View for WrapTextLine {
    type V = LineSpec;

    open spec fn view(&self) -> LineSpec {
        LineSpec {
            content: self.content@,
            start: self.start_index as int,
            end: self.end_index as int,
        }
    }
}

impl DeepView for WrapTextLine {
    type V = LineSpec;

    open spec fn deep_view(&self) -> LineSpec {
        self.view()
    }
}

impl Clone for WrapTextLine {
    fn clone(&self) -> (r: Self)
        ensures
            r@ == self@,
    {
        WrapTextLine {
            content: self.content.clone(),
            start_index: self.start_index,
            end_index: self.end_index,
        }
    }
}

/// The lines the wrapping scan produces from the remaining text `s`, with
/// `pos` the byte offset reached so far, `line_start` the byte offset
/// where the current line began, `cur` the current line's characters, and
/// `any` whether a line was already emitted.
pub open spec fn wl(
    s: Seq<char>,
    pos: int,
    line_start: int,
    cur: Seq<char>,
    any: bool,
    width: int,
) -> Seq<LineSpec>
    decreases s.len(),
{
    if s.len() == 0 {
        if cur.len() > 0 || !any {
            seq![LineSpec { content: cur, start: line_start, end: pos }]
        } else {
            Seq::empty()
        }
    } else {
        let c = s[0];
        let clen = char_bytes(c);
        if c == '\n' {
            seq![LineSpec { content: cur, start: line_start, end: pos }] + wl(
                s.drop_first(),
                pos + clen,
                pos + clen,
                Seq::empty(),
                true,
                width,
            )
        } else {
            let cw = display_width_of(c) as int;
            if width_sum(cur) + cw > width && cur.len() > 0 {
                seq![LineSpec { content: cur, start: line_start, end: pos }] + wl(
                    s.drop_first(),
                    pos + clen,
                    pos,
                    seq![c],
                    true,
                    width,
                )
            } else {
                wl(s.drop_first(), pos + clen, line_start, cur.push(c), any, width)
            }
        }
    }
}

/// The wrapped lines of `text` at `width`; a zero width degenerates to one
/// unbroken line.
pub open spec fn wrap_spec(text: Seq<char>, width: int) -> Seq<LineSpec> {
    if width == 0 {
        seq![LineSpec { content: text, start: 0, end: bytes_len(text) }]
    } else {
        wl(text, 0, 0, Seq::empty(), false, width)
    }
}

/// Byte ranges of the lines are internally consistent and bounded: each
/// line covers exactly the bytes of its content, starting no earlier than
/// `lo` and ending no later than `hi`, and holds at most `nchars`
/// characters.
pub open spec fn lines_tidy(lines: Seq<LineSpec>, lo: int, hi: int, nchars: int) -> bool {
    forall|k: int|
        0 <= k < lines.len() ==> {
            &&& lo <= (#[trigger] lines[k]).start
            &&& lines[k].end == lines[k].start + bytes_len(lines[k].content)
            &&& lines[k].end <= hi
            &&& lines[k].content.len() <= nchars
        }
}

proof fn lemma_tidy_weaken(
    lines: Seq<LineSpec>,
    lo: int,
    hi: int,
    nchars: int,
    lo2: int,
    hi2: int,
    nchars2: int,
)
    requires
        lines_tidy(lines, lo, hi, nchars),
        lo2 <= lo,
        hi <= hi2,
        nchars <= nchars2,
    ensures
        lines_tidy(lines, lo2, hi2, nchars2),
{
}

pub proof fn lemma_wl_tidy(
    s: Seq<char>,
    pos: int,
    line_start: int,
    cur: Seq<char>,
    any: bool,
    width: int,
)
    requires
        0 <= line_start,
        pos == line_start + bytes_len(cur),
    ensures
        lines_tidy(
            wl(s, pos, line_start, cur, any, width),
            line_start,
            pos + bytes_len(s),
            cur.len() + s.len() as int,
        ),
    decreases s.len(),
{
    lemma_bytes_len_bounds(cur);
    lemma_bytes_len_bounds(s);
    if s.len() == 0 {
    } else {
        let c = s[0];
        let clen = char_bytes(c);
        assert(s.drop_first() =~= s.skip(1));
        crate::strutil::lemma_bytes_len_concat(seq![c], s.drop_first());
        assert(seq![c] + s.drop_first() =~= s);
        assert(bytes_len(seq![c]) == clen) by {
            assert(seq![c].drop_last() =~= Seq::<char>::empty());
            assert(seq![c].last() == c);
            assert(bytes_len(Seq::<char>::empty()) == 0);
        }
        if c == '\n' {
            lemma_wl_tidy(s.drop_first(), pos + clen, pos + clen, Seq::empty(), true, width);
            lemma_tidy_weaken(
                wl(s.drop_first(), pos + clen, pos + clen, Seq::empty(), true, width),
                pos + clen,
                pos + clen + bytes_len(s.drop_first()),
                s.drop_first().len() as int,
                line_start,
                pos + bytes_len(s),
                cur.len() + s.len() as int,
            );
        } else if width_sum(cur) + display_width_of(c) > width && cur.len() > 0 {
            assert(bytes_len(seq![c]) == clen) by {
                assert(seq![c].drop_last() =~= Seq::<char>::empty());
                assert(seq![c].last() == c);
                assert(bytes_len(Seq::<char>::empty()) == 0);
            }
            lemma_wl_tidy(s.drop_first(), pos + clen, pos, seq![c], true, width);
            lemma_tidy_weaken(
                wl(s.drop_first(), pos + clen, pos, seq![c], true, width),
                pos,
                pos + clen + bytes_len(s.drop_first()),
                1 + s.drop_first().len() as int,
                line_start,
                pos + bytes_len(s),
                cur.len() + s.len() as int,
            );
        } else {
            assert(bytes_len(cur.push(c)) == bytes_len(cur) + clen) by {
                assert(cur.push(c).drop_last() =~= cur);
            }
            lemma_wl_tidy(s.drop_first(), pos + clen, line_start, cur.push(c), any, width);
            lemma_tidy_weaken(
                wl(s.drop_first(), pos + clen, line_start, cur.push(c), any, width),
                line_start,
                pos + clen + bytes_len(s.drop_first()),
                cur.len() as int + 1 + s.drop_first().len() as int,
                line_start,
                pos + bytes_len(s),
                cur.len() + s.len() as int,
            );
        }
    }
}

/// The total byte length of `v`'s characters.
pub fn byte_length(v: &Vec<char>) -> (r: usize)
    requires
        v@.len() <= usize::MAX as int / 4,
    ensures
        r == bytes_len(v@),
{
    let n: usize = v.len();
    let mut b: usize = 0;
    let mut i: usize = 0;
    proof {
        assert(v@.take(0) =~= Seq::<char>::empty());
    }
    while i < n
        invariant
            i <= n,
            n == v@.len(),
            n <= usize::MAX as int / 4,
            b == bytes_len(v@.take(i as int)),
        decreases n - i,
    {
        proof {
            lemma_bytes_len_bounds(v@.take(i as int));
            lemma_bytes_len_take_succ(v@, i as int);
        }
        b = b + utf8_len(v[i]);
        i = i + 1;
    }
    proof {
        assert(v@.take(n as int) =~= v@);
    }
    b
}

/// Wraps the characters of `v` into lines that fit within `width` display
/// columns.
fn wrap_chars(v: &Vec<char>, width: usize) -> (r: Vec<WrapTextLine>)
    requires
        v@.len() <= usize::MAX as int / 4,
    ensures
        r.deep_view() == wrap_spec(v@, width as int),
        lines_tidy(r.deep_view(), 0, bytes_len(v@), v@.len() as int),
        lines_chunked(v@, r.deep_view(), 0),
{
    proof {
        lemma_bytes_len_bounds(v@);
    }
    if width == 0 {
        let content = from_chars(v);
        let blen = byte_length(v);
        let mut r: Vec<WrapTextLine> = Vec::new();
        r.push(WrapTextLine { content, start_index: 0, end_index: blen });
        proof {
            assert(r.deep_view() =~= wrap_spec(v@, width as int));
            assert(v@.subrange(0, v@.len() as int) =~= v@);
            assert(v@.take(0) =~= Seq::<char>::empty());
            assert(v@.take(v@.len() as int) =~= v@);
            assert(bytes_len(Seq::<char>::empty()) == 0);
            assert(r.deep_view().drop_first() =~= Seq::<LineSpec>::empty());
            assert(lines_chunked(v@, r.deep_view().drop_first(), v@.len() as int));
            assert(r.deep_view()[0] == LineSpec { content: v@, start: 0, end: bytes_len(v@) });
        }
        return r;
    }
    let n: usize = v.len();
    let mut lines: Vec<WrapTextLine> = Vec::new();
    let mut cur: Vec<char> = Vec::new();
    let mut curw: usize = 0;
    let mut pos: usize = 0;
    let mut line_start: usize = 0;
    let mut i: usize = 0;
    proof {
        assert(v@.skip(0) =~= v@);
        assert(v@.take(0) =~= Seq::<char>::empty());
        assert(lines.deep_view() =~= Seq::<LineSpec>::empty());
        assert(lines.deep_view() + wl(v@, 0, 0, cur@, false, width as int) =~= wl(
            v@,
            0,
            0,
            cur@,
            false,
            width as int,
        ));
    }
    while i < n
        invariant
            i <= n,
            n == v@.len(),
            n <= usize::MAX as int / 4,
            width >= 1,
            pos == bytes_len(v@.take(i as int)),
            line_start <= pos,
            pos == line_start + bytes_len(cur@),
            curw == width_sum(cur@),
            curw <= width || curw <= 3,
            wrap_spec(v@, width as int) == lines.deep_view() + wl(
                v@.skip(i as int),
                pos as int,
                line_start as int,
                cur@,
                lines.len() > 0,
                width as int,
            ),
        decreases n - i,
    {
        let ghost s = v@.skip(i as int);
        let ghost lines0 = lines.deep_view();
        let ghost cur0 = cur@;
        let ghost pos0 = pos as int;
        let ghost line_start0 = line_start as int;
        let ghost any0 = lines.len() > 0;
        proof {
            assert(s.len() > 0);
            assert(s[0] == v@[i as int]);
            assert(s.drop_first() =~= v@.skip(i as int + 1));
            lemma_bytes_len_bounds(v@.take(i as int));
            lemma_bytes_len_take_succ(v@, i as int);
            lemma_bytes_len_bounds(cur0);
        }
        let c = v[i];
        let clen = utf8_len(c);
        if c == '\n' {
            let content = from_chars(&cur);
            lines.push(WrapTextLine { content, start_index: line_start, end_index: pos });
            cur = Vec::new();
            curw = 0;
            pos = pos + clen;
            line_start = pos;
            proof {
                assert(char_bytes('\n') == 1);
                assert(lines.deep_view() =~= lines0.push(
                    LineSpec { content: cur0, start: line_start0, end: pos0 },
                ));
                assert(lines0 + (seq![LineSpec { content: cur0, start: line_start0, end: pos0 }]
                    + wl(s.drop_first(), pos0 + 1, pos0 + 1, Seq::empty(), true, width as int))
                    =~= lines.deep_view() + wl(
                    s.drop_first(),
                    pos0 + 1,
                    pos0 + 1,
                    Seq::empty(),
                    true,
                    width as int,
                ));
            }
        } else {
            let cw = measure_width(c);
            let over = if curw > width {
                true
            } else {
                cw > width - curw
            };
            proof {
                assert(over == (width_sum(cur0) + display_width_of(c) > width));
            }
            if over && cur.len() > 0 {
                let content = from_chars(&cur);
                lines.push(WrapTextLine { content, start_index: line_start, end_index: pos });
                cur = Vec::new();
                cur.push(c);
                curw = cw;
                line_start = pos;
                pos = pos + clen;
                proof {
                    assert(cur@ =~= seq![c]);
                    assert(width_sum(seq![c]) == display_width_of(c)) by {
                        assert(seq![c].drop_last() =~= Seq::<char>::empty());
                        assert(seq![c].last() == c);
                        assert(width_sum(Seq::<char>::empty()) == 0);
                    }
                    assert(bytes_len(seq![c]) == char_bytes(c)) by {
                        assert(seq![c].drop_last() =~= Seq::<char>::empty());
                        assert(seq![c].last() == c);
                        assert(bytes_len(Seq::<char>::empty()) == 0);
                    }
                    assert(lines.deep_view() =~= lines0.push(
                        LineSpec { content: cur0, start: line_start0, end: pos0 },
                    ));
                    assert(lines0 + (seq![
                        LineSpec { content: cur0, start: line_start0, end: pos0 },
                    ] + wl(s.drop_first(), pos0 + clen, pos0, seq![c], true, width as int))
                        =~= lines.deep_view() + wl(
                        s.drop_first(),
                        pos0 + clen,
                        pos0,
                        seq![c],
                        true,
                        width as int,
                    ));
                }
            } else {
                proof {
                    if !over {
                        assert(curw + cw <= width);
                    } else {
                        assert(cur0.len() == 0);
                        assert(width_sum(cur0) == 0);
                    }
                    lemma_width_sum_push(cur0, c);
                    assert(bytes_len(cur0.push(c)) == bytes_len(cur0) + char_bytes(c)) by {
                        assert(cur0.push(c).drop_last() =~= cur0);
                    }
                }
                cur.push(c);
                curw = curw + cw;
                pos = pos + clen;
            }
        }
        i = i + 1;
    }
    proof {
        assert(v@.skip(n as int) =~= Seq::<char>::empty());
        assert(v@.take(n as int) =~= v@);
    }
    if cur.len() > 0 || lines.len() == 0 {
        let ghost lines0 = lines.deep_view();
        let ghost cur0 = cur@;
        let content = from_chars(&cur);
        lines.push(WrapTextLine { content, start_index: line_start, end_index: pos });
        proof {
            assert(lines.deep_view() =~= lines0.push(
                LineSpec { content: cur0, start: line_start as int, end: pos as int },
            ));
            assert(lines0 + seq![
                LineSpec { content: cur0, start: line_start as int, end: pos as int },
            ] =~= lines.deep_view());
        }
    } else {
        proof {
            assert(lines.deep_view() + Seq::<LineSpec>::empty() =~= lines.deep_view());
        }
    }
    proof {
        lemma_wl_tidy(v@, 0, 0, Seq::empty(), false, width as int);
        assert(bytes_len(Seq::<char>::empty()) == 0);
        assert(v@.skip(0) =~= v@);
        assert(v@.take(0) =~= Seq::<char>::empty());
        assert(v@.subrange(0, 0) =~= Seq::<char>::empty());
        lemma_wl_chunked(v@, 0, 0, false, width as int);
    }
    lines
}

/// Wraps `text` into lines that fit within `width` display columns.
pub fn wrap_text(text: &str, width: usize) -> (r: Vec<WrapTextLine>)
    requires
        text@.len() <= usize::MAX as int / 4,
    ensures
        r.deep_view() == wrap_spec(text@, width as int),
{
    let v = to_chars(text);
    wrap_chars(&v, width)
}

/// How many whole characters of `s` fit in the first `off` bytes.
pub open spec fn floor_pos(s: Seq<char>, off: int) -> int
    decreases s.len(),
{
    if s.len() == 0 || off < char_bytes(s[0]) {
        0
    } else {
        1 + floor_pos(s.drop_first(), off - char_bytes(s[0]))
    }
}

/// The display column of the byte offset `off` within a line's content:
/// the summed width of the whole characters before it.
pub open spec fn line_col(content: Seq<char>, off: int) -> int {
    width_sum(content.take(floor_pos(content, off)))
}

/// The `[column, row]` of a byte offset in the line table: the first line
/// whose byte range contains the offset; column 0 and one row past the
/// last line when none does.
pub open spec fn position_spec(lines: Seq<LineSpec>, index: int) -> (int, int)
    decreases lines.len(),
{
    if lines.len() == 0 {
        (0, 0)
    } else if lines[0].start <= index <= lines[0].end {
        (line_col(lines[0].content, index - lines[0].start), 0)
    } else {
        let p = position_spec(lines.drop_first(), index);
        (p.0, p.1 + 1)
    }
}

/// The byte offset within a line of the first character whose column
/// reaches `target`: characters are consumed while the accumulated width
/// stays below the target.
pub open spec fn idx_in(s: Seq<char>, target: int) -> int
    decreases s.len(),
{
    if target <= 0 || s.len() == 0 {
        0
    } else {
        char_bytes(s[0]) + idx_in(s.drop_first(), target - display_width_of(s[0]))
    }
}

/// The byte offset of a `[column, row]` position: within line `row` when
/// it exists, the total byte length `total` otherwise.
pub open spec fn index_at_spec(lines: Seq<LineSpec>, total: int, col: int, row: int) -> int {
    if row >= lines.len() {
        total
    } else {
        lines[row].start + idx_in(lines[row].content, col)
    }
}

/// The lines carve `text` into consecutive character chunks, starting at
/// character position `cs`, with byte offsets that match; between two
/// chunks at most one newline is consumed.
pub open spec fn lines_chunked(text: Seq<char>, lines: Seq<LineSpec>, cs: int) -> bool
    decreases lines.len(),
{
    lines.len() == 0 || {
        let l = lines[0];
        let ce = cs + l.content.len();
        &&& 0 <= cs
        &&& ce <= text.len()
        &&& l.content == text.subrange(cs, ce)
        &&& l.start == bytes_len(text.take(cs))
        &&& l.end == bytes_len(text.take(ce))
        &&& (lines_chunked(text, lines.drop_first(), ce) || (ce < text.len() && text[ce] == '\n'
            && lines_chunked(text, lines.drop_first(), ce + 1)))
    }
}

pub proof fn lemma_wl_chunked(text: Seq<char>, i: int, cs: int, any: bool, width: int)
    requires
        0 <= cs <= i <= text.len(),
    ensures
        lines_chunked(
            text,
            wl(
                text.skip(i),
                bytes_len(text.take(i)),
                bytes_len(text.take(cs)),
                text.subrange(cs, i),
                any,
                width,
            ),
            cs,
        ),
    decreases text.len() - i,
{
    let s = text.skip(i);
    let pos = bytes_len(text.take(i));
    let line_start = bytes_len(text.take(cs));
    let cur = text.subrange(cs, i);
    let l = LineSpec { content: cur, start: line_start, end: pos };
    if s.len() == 0 {
        assert(i == text.len());
        if cur.len() > 0 || !any {
            let lines = seq![l];
            assert(lines[0] == l);
            assert(lines.drop_first() =~= Seq::<LineSpec>::empty());
            assert(lines_chunked(text, lines.drop_first(), cs + cur.len()));
        }
    } else {
        let c = s[0];
        assert(c == text[i]);
        let clen = char_bytes(c);
        assert(s.drop_first() =~= text.skip(i + 1));
        lemma_bytes_len_take_succ(text, i);
        if c == '\n' {
            assert(text.subrange(i + 1, i + 1) =~= Seq::<char>::empty());
            lemma_wl_chunked(text, i + 1, i + 1, true, width);
            let rest = wl(
                text.skip(i + 1),
                bytes_len(text.take(i + 1)),
                bytes_len(text.take(i + 1)),
                Seq::empty(),
                true,
                width,
            );
            let lines = seq![l] + rest;
            assert(wl(s, pos, line_start, cur, any, width) == lines);
            assert(lines[0] == l);
            assert(lines.drop_first() =~= rest);
            assert(cs + cur.len() == i);
            assert(text[i] == '\n');
            assert(lines_chunked(text, rest, i + 1));
        } else if width_sum(cur) + display_width_of(c) > width && cur.len() > 0 {
            assert(text.subrange(i, i + 1) =~= seq![c]);
            lemma_wl_chunked(text, i + 1, i, true, width);
            let rest = wl(
                text.skip(i + 1),
                bytes_len(text.take(i + 1)),
                bytes_len(text.take(i)),
                text.subrange(i, i + 1),
                true,
                width,
            );
            let lines = seq![l] + rest;
            assert(wl(s, pos, line_start, cur, any, width) == lines);
            assert(lines[0] == l);
            assert(lines.drop_first() =~= rest);
            assert(cs + cur.len() == i);
            assert(lines_chunked(text, rest, i));
        } else {
            assert(text.subrange(cs, i + 1) =~= cur.push(c));
            lemma_wl_chunked(text, i + 1, cs, any, width);
            assert(wl(s, pos, line_start, cur, any, width) == wl(
                text.skip(i + 1),
                bytes_len(text.take(i + 1)),
                line_start,
                text.subrange(cs, i + 1),
                any,
                width,
            ));
        }
    }
}

/// What the in-line walk returns is always the byte length of a whole
/// character prefix of the line.
pub proof fn lemma_idx_in_prefix(s: Seq<char>, t: int)
    ensures
        exists|m: int| 0 <= m <= s.len() && idx_in(s, t) == #[trigger] bytes_len(s.take(m)),
    decreases s.len(),
{
    if t <= 0 || s.len() == 0 {
        assert(s.take(0) =~= Seq::<char>::empty());
        assert(bytes_len(s.take(0)) == 0);
    } else {
        lemma_idx_in_prefix(s.drop_first(), t - display_width_of(s[0]));
        let m = choose|m: int|
            0 <= m <= s.drop_first().len() && idx_in(s.drop_first(), t - display_width_of(s[0]))
                == #[trigger] bytes_len(s.drop_first().take(m));
        assert(s.take(m + 1) =~= seq![s[0]] + s.drop_first().take(m));
        crate::strutil::lemma_bytes_len_concat(seq![s[0]], s.drop_first().take(m));
        assert(bytes_len(seq![s[0]]) == char_bytes(s[0])) by {
            assert(seq![s[0]].drop_last() =~= Seq::<char>::empty());
            assert(seq![s[0]].last() == s[0]);
            assert(bytes_len(Seq::<char>::empty()) == 0);
        }
        assert(bytes_len(s.take(m + 1)) == idx_in(s, t));
    }
}

/// The in-line walk never runs past the end of the line's bytes.
pub proof fn lemma_idx_in_le(s: Seq<char>, t: int)
    ensures
        0 <= idx_in(s, t) <= bytes_len(s),
    decreases s.len(),
{
    lemma_bytes_len_bounds(s);
    if t <= 0 || s.len() == 0 {
    } else {
        lemma_idx_in_le(s.drop_first(), t - display_width_of(s[0]));
        assert(bytes_len(seq![s[0]]) == char_bytes(s[0])) by {
            assert(seq![s[0]].drop_last() =~= Seq::<char>::empty());
            assert(seq![s[0]].last() == s[0]);
            assert(bytes_len(Seq::<char>::empty()) == 0);
        }
        crate::strutil::lemma_bytes_len_concat(seq![s[0]], s.drop_first());
        assert(seq![s[0]] + s.drop_first() =~= s);
    }
}

/// The byte offset that `index_at_spec` yields within an existing row is
/// a character boundary of the whole text.
pub proof fn lemma_index_at_boundary(
    text: Seq<char>,
    lines: Seq<LineSpec>,
    cs: int,
    col: int,
    row: int,
)
    requires
        lines_chunked(text, lines, cs),
        0 <= row < lines.len(),
    ensures
        is_char_boundary_of(text, index_at_spec(lines, bytes_len(text), col, row)),
    decreases row,
{
    let l = lines[0];
    let ce = cs + l.content.len();
    if row == 0 {
        lemma_idx_in_prefix(l.content, col);
        let m = choose|m: int|
            0 <= m <= l.content.len() && idx_in(l.content, col) == #[trigger] bytes_len(
                l.content.take(m),
            );
        assert(l.content.take(m) =~= text.subrange(cs, cs + m));
        assert(text.take(cs + m) =~= text.take(cs) + text.subrange(cs, cs + m));
        crate::strutil::lemma_bytes_len_concat(text.take(cs), text.subrange(cs, cs + m));
        assert(bytes_len(text.take(cs + m)) == l.start + idx_in(l.content, col));
        assert(is_char_boundary_of(text, index_at_spec(lines, bytes_len(text), col, row)));
    } else {
        assert(lines.drop_first()[row - 1] == lines[row]);
        if lines_chunked(text, lines.drop_first(), ce) {
            lemma_index_at_boundary(text, lines.drop_first(), ce, col, row - 1);
        } else {
            lemma_index_at_boundary(text, lines.drop_first(), ce + 1, col, row - 1);
        }
    }
}

/// A text buffer kept wrapped: the characters, the target width, the
/// derived line table, and the cached total byte length.
pub struct WrapText {
    lines: Vec<WrapTextLine>,
    content: Vec<char>,
    width: usize,
    byte_len: usize,
}

impl WrapText {
    /// The buffered text.
    pub closed spec fn text_view(&self) -> Seq<char> {
        self.content@
    }

    /// The target wrap width.
    pub closed spec fn width_view(&self) -> usize {
        self.width
    }

    /// The line table.
    pub closed spec fn lines_view(&self) -> Seq<LineSpec> {
        self.lines.deep_view()
    }

    /// The cached byte length.
    pub closed spec fn byte_view(&self) -> int {
        self.byte_len as int
    }

    /// The buffer is consistent: the text is short enough for byte and
    /// column arithmetic, the cached byte length is right, and the line
    /// table is the wrap of the text (or empty right after `clear`).
    pub open spec fn wf(&self) -> bool {
        &&& self.text_view().len() <= usize::MAX as int / 4
        &&& self.byte_view() == bytes_len(self.text_view())
        &&& (self.lines_view() == wrap_spec(self.text_view(), self.width_view() as int) || (
        self.text_view().len() == 0 && self.lines_view().len() == 0))
        &&& lines_tidy(
            self.lines_view(),
            0,
            bytes_len(self.text_view()),
            self.text_view().len() as int,
        )
        &&& lines_chunked(self.text_view(), self.lines_view(), 0)
    }

    /// Wraps `text` at `width`.
    pub fn new(text: &str, width: usize) -> (r: WrapText)
        requires
            text@.len() <= usize::MAX as int / 4,
        ensures
            r.wf(),
            r.text_view() == text@,
            r.width_view() == width,
            r.lines_view() == wrap_spec(text@, width as int),
    {
        let content = to_chars(text);
        let lines = wrap_chars(&content, width);
        let byte_len = byte_length(&content);
        WrapText { lines, content, width, byte_len }
    }

    /// The characters of the buffered text.
    pub fn chars(&self) -> (r: &Vec<char>)
        ensures
            r@ == self.text_view(),
    {
        &self.content
    }

    /// The wrapped lines.
    pub fn lines(&self) -> (r: &Vec<WrapTextLine>)
        ensures
            r.deep_view() == self.lines_view(),
    {
        &self.lines
    }

    /// How many lines the text wraps into.
    pub fn height(&self) -> (r: usize)
        ensures
            r == self.lines_view().len(),
    {
        self.lines.len()
    }

    /// The buffered text as a string.
    pub fn text(&self) -> (r: String)
        ensures
            r@ == self.text_view(),
    {
        from_chars(&self.content)
    }

    /// The byte length of the buffered text.
    pub fn len(&self) -> (r: usize)
        requires
            self.wf(),
        ensures
            r == bytes_len(self.text_view()),
    {
        self.byte_len
    }

    /// Rewraps after a change to the text or the width.
    fn update(&mut self)
        requires
            old(self).text_view().len() <= usize::MAX as int / 4,
        ensures
            final(self).wf(),
            final(self).text_view() == old(self).text_view(),
            final(self).width_view() == old(self).width_view(),
            final(self).lines_view() == wrap_spec(
                old(self).text_view(),
                old(self).width_view() as int,
            ),
    {
        self.lines = wrap_chars(&self.content, self.width);
        self.byte_len = byte_length(&self.content);
    }

    /// Empties the buffer; the line table empties with it.
    pub fn clear(&mut self)
        ensures
            final(self).wf(),
            final(self).text_view() == Seq::<char>::empty(),
            final(self).width_view() == old(self).width_view(),
            final(self).lines_view() == Seq::<LineSpec>::empty(),
    {
        self.content = Vec::new();
        self.lines = Vec::new();
        self.byte_len = 0;
        proof {
            assert(self.lines.deep_view() =~= Seq::<LineSpec>::empty());
            assert(bytes_len(Seq::<char>::empty()) == 0);
        }
    }

    /// Replaces the buffered text and rewraps.
    pub fn set_text(&mut self, text: &str)
        requires
            text@.len() <= usize::MAX as int / 4,
        ensures
            final(self).wf(),
            final(self).text_view() == text@,
            final(self).width_view() == old(self).width_view(),
            final(self).lines_view() == wrap_spec(text@, old(self).width_view() as int),
    {
        self.content = to_chars(text);
        self.update();
    }

    /// Changes the wrap width and rewraps.
    pub fn set_width(&mut self, width: usize)
        requires
            old(self).wf(),
        ensures
            final(self).wf(),
            final(self).text_view() == old(self).text_view(),
            final(self).width_view() == width,
            final(self).lines_view() == wrap_spec(old(self).text_view(), width as int),
    {
        self.width = width;
        self.update();
    }

    /// Inserts `ch` at the character boundary with byte offset `index`
    /// and rewraps.
    pub fn insert(&mut self, index: usize, ch: char)
        requires
            old(self).wf(),
            is_char_boundary_of(old(self).text_view(), index as int),
            old(self).text_view().len() < usize::MAX as int / 4,
        ensures
            final(self).wf(),
            final(self).text_view() == old(self).text_view().insert(
                crate::strutil::char_pos_of(old(self).text_view(), index as int),
                ch,
            ),
            final(self).width_view() == old(self).width_view(),
            final(self).lines_view() == wrap_spec(
                final(self).text_view(),
                old(self).width_view() as int,
            ),
    {
        let k = self.char_pos(index);
        self.content.insert(k, ch);
        self.update();
    }

    /// Removes the character starting at byte offset `index` and rewraps.
    pub fn remove(&mut self, index: usize)
        requires
            old(self).wf(),
            is_char_boundary_of(old(self).text_view(), index as int),
            index < bytes_len(old(self).text_view()),
        ensures
            final(self).wf(),
            final(self).text_view() == old(self).text_view().remove(
                crate::strutil::char_pos_of(old(self).text_view(), index as int),
            ),
            final(self).width_view() == old(self).width_view(),
            final(self).lines_view() == wrap_spec(
                final(self).text_view(),
                old(self).width_view() as int,
            ),
    {
        let k = self.char_pos(index);
        proof {
            let v = self.content@;
            let kk = crate::strutil::char_pos_of(v, index as int);
            if kk == v.len() {
                assert(v.take(kk as int) =~= v);
            } else {
                crate::strutil::lemma_bytes_len_strict_mono(v, kk, v.len() as int);
                assert(v.take(v.len() as int) =~= v);
            }
        }
        self.content.remove(k);
        self.update();
    }

    /// The character position of the boundary at byte offset `index`.
    pub(crate) fn char_pos(&self, index: usize) -> (r: usize)
        requires
            self.wf(),
            is_char_boundary_of(self.text_view(), index as int),
        ensures
            r == crate::strutil::char_pos_of(self.text_view(), index as int),
            r <= self.text_view().len(),
            bytes_len(self.text_view().take(r as int)) == index,
    {
        let ghost v = self.content@;
        let ghost k = crate::strutil::char_pos_of(v, index as int);
        proof {
            let w = choose|w: int|
                0 <= w <= v.len() && #[trigger] bytes_len(v.take(w)) == index as int;
            crate::strutil::lemma_char_pos_unique(v, index as int, w);
        }
        let n: usize = self.content.len();
        let mut j: usize = 0;
        let mut b: usize = 0;
        proof {
            assert(v.take(0) =~= Seq::<char>::empty());
        }
        while b < index
            invariant
                j <= n,
                n == v.len(),
                n <= usize::MAX as int / 4,
                0 <= k <= v.len(),
                bytes_len(v.take(k as int)) == index,
                b == bytes_len(v.take(j as int)),
                j <= k,
                self.wf(),
                v == self.text_view(),
            decreases index - b,
        {
            proof {
                if j >= k {
                    if j > k {
                        crate::strutil::lemma_bytes_len_strict_mono(v, k, j as int);
                    }
                    assert(false);
                }
                lemma_bytes_len_take_succ(v, j as int);
                if j + 1 > k {
                    assert(false);
                } else if j + 1 < k {
                    crate::strutil::lemma_bytes_len_strict_mono(v, j as int + 1, k);
                } else {
                }
                lemma_bytes_len_bounds(v.take(j as int));
            }
            b = b + utf8_len(self.content[j]);
            j = j + 1;
        }
        proof {
            if j < k {
                crate::strutil::lemma_bytes_len_strict_mono(v, j as int, k);
                assert(false);
            }
        }
        j
    }

    /// The `[column, row]` of the byte offset `index`, per
    /// [`position_spec`].
    pub fn position(&self, index: usize) -> (r: [usize; 2])
        requires
            self.wf(),
        ensures
            r@[0] == position_spec(self.lines_view(), index as int).0,
            r@[1] == position_spec(self.lines_view(), index as int).1,
    {
        let ghost lv = self.lines_view();
        let nl: usize = self.lines.len();
        let mut row: usize = 0;
        proof {
            assert(lv.skip(0) =~= lv);
        }
        while row < nl
            invariant
                row <= nl,
                nl == lv.len(),
                lv == self.lines_view(),
                self.wf(),
                position_spec(lv, index as int) == {
                    let p = position_spec(lv.skip(row as int), index as int);
                    (p.0, p.1 + row)
                },
            decreases nl - row,
        {
            proof {
                assert(lv.skip(row as int)[0] == lv[row as int]);
                assert(lv.skip(row as int).drop_first() =~= lv.skip(row as int + 1));
                crate::strutil::lemma_vec_chars_deep_view();
            }
            let line = &self.lines[row];
            if line.start_index <= index && index <= line.end_index {
                let col = line_column(&line.content, index - line.start_index);
                return [col, row];
            }
            row = row + 1;
        }
        proof {
            assert(lv.skip(nl as int) =~= Seq::<LineSpec>::empty());
        }
        [0, nl]
    }

    /// The byte offset of the position `[column, row]`, per
    /// [`index_at_spec`]: the whole text's byte length when `row` is past
    /// the last line.
    pub fn index_at_position(&self, position: [usize; 2]) -> (r: usize)
        requires
            self.wf(),
        ensures
            r == index_at_spec(
                self.lines_view(),
                bytes_len(self.text_view()),
                position@[0] as int,
                position@[1] as int,
            ),
    {
        let row = position[1];
        let target = position[0];
        if row >= self.lines.len() {
            return self.byte_len;
        }
        let line = &self.lines[row];
        let lc = to_chars(line.content.as_str());
        let ghost l = self.lines_view()[row as int];
        proof {
            assert(l.content.len() <= self.text_view().len());
            assert(l.end <= bytes_len(self.text_view()));
            lemma_bytes_len_bounds(self.text_view());
        }
        let n: usize = lc.len();
        let mut j: usize = 0;
        let mut off: usize = 0;
        let mut col: usize = 0;
        proof {
            assert(lc@.skip(0) =~= lc@);
            assert(lc@.take(0) =~= Seq::<char>::empty());
        }
        while j < n && col < target
            invariant
                j <= n,
                n == lc@.len(),
                lc@ == l.content,
                off == bytes_len(lc@.take(j as int)),
                col <= 3 * j,
                l.end == l.start + bytes_len(l.content),
                l.end <= bytes_len(self.text_view()),
                n <= usize::MAX as int / 4,
                bytes_len(self.text_view()) <= usize::MAX,
                idx_in(l.content, target as int) == off + idx_in(
                    lc@.skip(j as int),
                    target - col,
                ),
            decreases n - j,
        {
            proof {
                assert(lc@.skip(j as int)[0] == lc@[j as int]);
                assert(lc@.skip(j as int).drop_first() =~= lc@.skip(j as int + 1));
                lemma_bytes_len_take_succ(lc@, j as int);
                lemma_bytes_len_bounds(lc@.take(j as int + 1));
            }
            let c = lc[j];
            let w = measure_width(c);
            off = off + utf8_len(c);
            col = col + w;
            j = j + 1;
        }
        proof {
            if j == n {
                assert(lc@.skip(n as int) =~= Seq::<char>::empty());
            }
            assert(idx_in(l.content, target as int) == off);
            lemma_bytes_len_bounds(lc@.take(j as int));
            crate::strutil::lemma_bytes_len_concat(lc@.take(j as int), lc@.skip(j as int));
            assert(lc@.take(j as int) + lc@.skip(j as int) =~= lc@);
            lemma_bytes_len_bounds(lc@.skip(j as int));
            assert(off <= bytes_len(l.content));
        }
        line.start_index + off
    }
}

/// The display column of byte offset `off` within a line's characters,
/// per [`line_col`].
fn line_column(content: &String, off: usize) -> (r: usize)
    requires
        content@.len() <= usize::MAX as int / 4,
    ensures
        r == line_col(content@, off as int),
{
    let lc = to_chars(content.as_str());
    let n: usize = lc.len();
    let mut j: usize = 0;
    let mut b: usize = 0;
    let mut col: usize = 0;
    proof {
        assert(lc@.skip(0) =~= lc@);
        assert(lc@.take(0) =~= Seq::<char>::empty());
        assert(floor_pos(lc@, off as int) == 0 + floor_pos(lc@.skip(0), off as int - 0));
    }
    loop
        invariant
            j <= n,
            n == lc@.len(),
            lc@ == content@,
            n <= usize::MAX as int / 4,
            b == bytes_len(lc@.take(j as int)),
            b <= off,
            col == width_sum(lc@.take(j as int)),
            col <= 3 * j,
            floor_pos(lc@, off as int) == j + floor_pos(lc@.skip(j as int), off as int - b),
        ensures
            j <= n,
            n == lc@.len(),
            b <= off,
            col == width_sum(lc@.take(j as int)),
            floor_pos(lc@, off as int) == j + floor_pos(lc@.skip(j as int), off as int - b),
            j == n || char_bytes(lc@[j as int]) > off - b,
        decreases n - j,
    {
        if j >= n {
            break;
        }
        let c = lc[j];
        let cl = utf8_len(c);
        if cl > off - b {
            break;
        }
        proof {
            assert(lc@.skip(j as int)[0] == lc@[j as int]);
            assert(lc@.skip(j as int).drop_first() =~= lc@.skip(j as int + 1));
            lemma_bytes_len_take_succ(lc@, j as int);
            lemma_width_sum_push(lc@.take(j as int), lc@[j as int]);
            assert(lc@.take(j as int).push(lc@[j as int]) =~= lc@.take(j as int + 1));
        }
        let w = measure_width(c);
        b = b + cl;
        col = col + w;
        j = j + 1;
    }
    proof {
        if j < n {
            assert(lc@.skip(j as int)[0] == lc@[j as int]);
            assert(floor_pos(lc@.skip(j as int), off as int - b) == 0);
        } else {
            assert(lc@.skip(n as int) =~= Seq::<char>::empty());
            assert(floor_pos(lc@.skip(j as int), off as int - b) == 0);
        }
        assert(floor_pos(lc@, off as int) == j);
        assert(lc@.take(j as int) =~= content@.take(j as int));
    }
    col
}


/// Every character occupies at least one display column.
pub open spec fn positive_widths(s: Seq<char>) -> bool {
    forall|j: int| 0 <= j < s.len() ==> display_width_of(#[trigger] s[j]) >= 1
}

proof fn lemma_width_sum_nonneg(s: Seq<char>)
    ensures
        width_sum(s) >= 0,
    decreases s.len(),
{
    if s.len() > 0 {
        lemma_width_sum_nonneg(s.drop_last());
    }
}

proof fn lemma_width_sum_concat(a: Seq<char>, b: Seq<char>)
    ensures
        width_sum(a + b) == width_sum(a) + width_sum(b),
    decreases b.len(),
{
    if b.len() == 0 {
        assert(a + b =~= a);
    } else {
        lemma_width_sum_concat(a, b.drop_last());
        assert((a + b).drop_last() =~= a + b.drop_last());
        assert((a + b).last() == b.last());
    }
}

/// Walking a line to the column of a whole-character prefix lands exactly
/// on that prefix's byte offset, provided every width is positive.
proof fn lemma_idx_in_exact(s: Seq<char>, m: int)
    requires
        0 <= m <= s.len(),
        positive_widths(s),
    ensures
        idx_in(s, width_sum(s.take(m))) == bytes_len(s.take(m)),
    decreases m,
{
    if m == 0 {
        assert(s.take(0) =~= Seq::<char>::empty());
        assert(width_sum(Seq::<char>::empty()) == 0);
        assert(bytes_len(Seq::<char>::empty()) == 0);
    } else {
        let s1 = s.drop_first();
        assert(s.take(m) =~= seq![s[0]] + s1.take(m - 1));
        lemma_width_sum_concat(seq![s[0]], s1.take(m - 1));
        crate::strutil::lemma_bytes_len_concat(seq![s[0]], s1.take(m - 1));
        assert(width_sum(seq![s[0]]) == display_width_of(s[0])) by {
            assert(seq![s[0]].drop_last() =~= Seq::<char>::empty());
            assert(seq![s[0]].last() == s[0]);
            assert(width_sum(Seq::<char>::empty()) == 0);
        }
        assert(bytes_len(seq![s[0]]) == char_bytes(s[0])) by {
            assert(seq![s[0]].drop_last() =~= Seq::<char>::empty());
            assert(seq![s[0]].last() == s[0]);
            assert(bytes_len(Seq::<char>::empty()) == 0);
        }
        assert(positive_widths(s1)) by {
            assert forall|j: int| 0 <= j < s1.len() implies display_width_of(
                #[trigger] s1[j],
            ) >= 1 by {
                assert(s1[j] == s[j + 1]);
            }
        }
        lemma_width_sum_nonneg(s1.take(m - 1));
        let target = width_sum(s.take(m));
        assert(target == display_width_of(s[0]) + width_sum(s1.take(m - 1)));
        assert(target > 0);
        assert(idx_in(s, target) == char_bytes(s[0]) + idx_in(s1, target - display_width_of(s[0])));
        lemma_idx_in_exact(s1, m - 1);
    }
}

/// The column of an exact whole-character boundary is the width of that
/// prefix: the floor walk recovers the character position.
proof fn lemma_floor_pos_exact(s: Seq<char>, m: int)
    requires
        0 <= m <= s.len(),
    ensures
        floor_pos(s, bytes_len(s.take(m))) == m,
    decreases m,
{
    if m == 0 {
        assert(s.take(0) =~= Seq::<char>::empty());
        assert(bytes_len(Seq::<char>::empty()) == 0);
        if s.len() > 0 {
            assert(char_bytes(s[0]) >= 1);
        }
    } else {
        let s1 = s.drop_first();
        assert(s.take(m) =~= seq![s[0]] + s1.take(m - 1));
        crate::strutil::lemma_bytes_len_concat(seq![s[0]], s1.take(m - 1));
        assert(bytes_len(seq![s[0]]) == char_bytes(s[0])) by {
            assert(seq![s[0]].drop_last() =~= Seq::<char>::empty());
            assert(seq![s[0]].last() == s[0]);
            assert(bytes_len(Seq::<char>::empty()) == 0);
        }
        lemma_bytes_len_bounds(s1.take(m - 1));
        lemma_floor_pos_exact(s1, m - 1);
    }
}

/// A byte offset inside no line locates one row past the last line, at
/// column zero.
proof fn lemma_position_uncovered(lines: Seq<LineSpec>, i: int)
    requires
        forall|row: int| 0 <= row < lines.len() ==> !((#[trigger] lines[row]).start <= i
            <= lines[row].end),
    ensures
        position_spec(lines, i) == (0int, lines.len() as int),
    decreases lines.len(),
{
    if lines.len() > 0 {
        assert(!(lines[0].start <= i <= lines[0].end));
        assert forall|row: int| 0 <= row < lines.drop_first().len() implies !((
        #[trigger] lines.drop_first()[row]).start <= i <= lines.drop_first()[row].end) by {
            assert(lines.drop_first()[row] == lines[row + 1]);
        }
        lemma_position_uncovered(lines.drop_first(), i);
    }
}

/// A byte offset covered by some line round-trips through position and
/// index lookup.
proof fn lemma_chunked_round_trip(text: Seq<char>, lines: Seq<LineSpec>, cs: int, i: int)
    requires
        lines_chunked(text, lines, cs),
        positive_widths(text),
        is_char_boundary_of(text, i),
        exists|row: int|
            0 <= row < lines.len() && (#[trigger] lines[row]).start <= i <= lines[row].end,
    ensures
        index_at_spec(
            lines,
            bytes_len(text),
            position_spec(lines, i).0,
            position_spec(lines, i).1,
        ) == i,
    decreases lines.len(),
{
    let l = lines[0];
    let ce = cs + l.content.len();
    if l.start <= i <= l.end {
        let k = choose|k: int| 0 <= k <= text.len() && #[trigger] bytes_len(text.take(k)) == i;
        assert(bytes_len(text.take(k)) == i);
        if k < cs {
            crate::strutil::lemma_bytes_len_strict_mono(text, k, cs);
            assert(false);
        }
        if k > ce {
            crate::strutil::lemma_bytes_len_strict_mono(text, ce, k);
            assert(false);
        }
        let m = k - cs;
        assert(text.take(k) =~= text.take(cs) + l.content.take(m)) by {
            assert(l.content.take(m) =~= text.subrange(cs, k));
        }
        crate::strutil::lemma_bytes_len_concat(text.take(cs), l.content.take(m));
        let off = i - l.start;
        assert(off == bytes_len(l.content.take(m)));
        assert(positive_widths(l.content)) by {
            assert forall|j: int| 0 <= j < l.content.len() implies display_width_of(
                #[trigger] l.content[j],
            ) >= 1 by {
                assert(l.content[j] == text[cs + j]);
            }
        }
        lemma_floor_pos_exact(l.content, m);
        lemma_idx_in_exact(l.content, m);
        assert(position_spec(lines, i).0 == line_col(l.content, off));
        assert(position_spec(lines, i).1 == 0);
        assert(line_col(l.content, off) == width_sum(l.content.take(m)));
        assert(index_at_spec(lines, bytes_len(text), position_spec(lines, i).0, 0)
            == l.start + idx_in(l.content, width_sum(l.content.take(m))));
    } else {
        let row = choose|row: int|
            0 <= row < lines.len() && (#[trigger] lines[row]).start <= i <= lines[row].end;
        assert(row >= 1);
        assert(lines.drop_first()[row - 1] == lines[row]);
        assert(exists|r2: int|
            0 <= r2 < lines.drop_first().len() && (#[trigger] lines.drop_first()[r2]).start <= i
                <= lines.drop_first()[r2].end);
        let p1 = position_spec(lines.drop_first(), i);
        assert(position_spec(lines, i) == (p1.0, p1.1 + 1));
        if lines_chunked(text, lines.drop_first(), ce) {
            lemma_chunked_round_trip(text, lines.drop_first(), ce, i);
        } else {
            lemma_chunked_round_trip(text, lines.drop_first(), ce + 1, i);
        }
        assert(0 <= p1.1 < lines.drop_first().len()) by {
            if p1.1 >= lines.drop_first().len() {
                lemma_position_covered_row(lines.drop_first(), i);
                assert(false);
            }
            lemma_position_row_nonneg(lines.drop_first(), i);
        }
        assert(lines[p1.1 + 1] == lines.drop_first()[p1.1]);
    }
}

/// A covered byte offset locates a row inside the table.
proof fn lemma_position_covered_row(lines: Seq<LineSpec>, i: int)
    requires
        exists|row: int|
            0 <= row < lines.len() && (#[trigger] lines[row]).start <= i <= lines[row].end,
    ensures
        0 <= position_spec(lines, i).1 < lines.len(),
    decreases lines.len(),
{
    if lines[0].start <= i <= lines[0].end {
    } else {
        let row = choose|row: int|
            0 <= row < lines.len() && (#[trigger] lines[row]).start <= i <= lines[row].end;
        assert(lines.drop_first()[row - 1] == lines[row]);
        assert(exists|r2: int|
            0 <= r2 < lines.drop_first().len() && (#[trigger] lines.drop_first()[r2]).start <= i
                <= lines.drop_first()[r2].end);
        lemma_position_covered_row(lines.drop_first(), i);
    }
}

proof fn lemma_position_row_nonneg(lines: Seq<LineSpec>, i: int)
    ensures
        position_spec(lines, i).1 >= 0,
    decreases lines.len(),
{
    if lines.len() > 0 && !(lines[0].start <= i <= lines[0].end) {
        lemma_position_row_nonneg(lines.drop_first(), i);
    }
}

/// Every boundary of the text is covered by some wrapped line, except
/// possibly the very end of the text.
proof fn lemma_wl_covers(text: Seq<char>, i_char: int, cs: int, any: bool, width: int, k: int)
    requires
        0 <= cs <= i_char <= text.len(),
        cs <= k <= text.len(),
    ensures
        ({
            let lines = wl(
                text.skip(i_char),
                bytes_len(text.take(i_char)),
                bytes_len(text.take(cs)),
                text.subrange(cs, i_char),
                any,
                width,
            );
            (exists|row: int|
                0 <= row < lines.len() && (#[trigger] lines[row]).start <= bytes_len(text.take(k))
                    <= lines[row].end) || k == text.len()
        }),
    decreases text.len() - i_char,
{
    let s = text.skip(i_char);
    let pos = bytes_len(text.take(i_char));
    let line_start = bytes_len(text.take(cs));
    let cur = text.subrange(cs, i_char);
    let i = bytes_len(text.take(k));
    let lines = wl(s, pos, line_start, cur, any, width);
    if s.len() == 0 {
        assert(i_char == text.len());
        if cur.len() > 0 || !any {
            assert(lines[0].start == line_start && lines[0].end == pos);
            lemma_bytes_nonstrict_mono(text, cs, k);
            lemma_bytes_nonstrict_mono(text, k, i_char);
        } else {
            assert(cs == i_char);
            assert(k == text.len());
        }
    } else {
        let c = s[0];
        assert(c == text[i_char]);
        let clen = char_bytes(c);
        assert(s.drop_first() =~= text.skip(i_char + 1));
        lemma_bytes_len_take_succ(text, i_char);
        if k <= i_char {
            if c == '\n' || (width_sum(cur) + display_width_of(c) > width && cur.len() > 0) {
                assert(lines[0].start == line_start && lines[0].end == pos);
                lemma_bytes_nonstrict_mono(text, cs, k);
                lemma_bytes_nonstrict_mono(text, k, i_char);
            } else {
                assert(text.subrange(cs, i_char + 1) =~= cur.push(c));
                lemma_wl_covers(text, i_char + 1, cs, any, width, k);
                assert(lines == wl(
                    text.skip(i_char + 1),
                    bytes_len(text.take(i_char + 1)),
                    line_start,
                    text.subrange(cs, i_char + 1),
                    any,
                    width,
                ));
            }
        } else {
            if c == '\n' {
                assert(text.subrange(i_char + 1, i_char + 1) =~= Seq::<char>::empty());
                lemma_wl_covers(text, i_char + 1, i_char + 1, true, width, k);
                let rest = wl(
                    text.skip(i_char + 1),
                    bytes_len(text.take(i_char + 1)),
                    bytes_len(text.take(i_char + 1)),
                    Seq::empty(),
                    true,
                    width,
                );
                assert(lines =~= seq![
                    LineSpec { content: cur, start: line_start, end: pos },
                ] + rest);
                if exists|row: int|
                    0 <= row < rest.len() && (#[trigger] rest[row]).start <= i <= rest[row].end {
                    let row = choose|row: int|
                        0 <= row < rest.len() && (#[trigger] rest[row]).start <= i
                            <= rest[row].end;
                    assert(lines[row + 1] == rest[row]);
                }
            } else if width_sum(cur) + display_width_of(c) > width && cur.len() > 0 {
                assert(text.subrange(i_char, i_char + 1) =~= seq![c]);
                lemma_wl_covers(text, i_char + 1, i_char, true, width, k);
                let rest = wl(
                    text.skip(i_char + 1),
                    bytes_len(text.take(i_char + 1)),
                    bytes_len(text.take(i_char)),
                    text.subrange(i_char, i_char + 1),
                    true,
                    width,
                );
                assert(lines =~= seq![
                    LineSpec { content: cur, start: line_start, end: pos },
                ] + rest);
                if exists|row: int|
                    0 <= row < rest.len() && (#[trigger] rest[row]).start <= i <= rest[row].end {
                    let row = choose|row: int|
                        0 <= row < rest.len() && (#[trigger] rest[row]).start <= i
                            <= rest[row].end;
                    assert(lines[row + 1] == rest[row]);
                }
            } else {
                assert(text.subrange(cs, i_char + 1) =~= cur.push(c));
                lemma_wl_covers(text, i_char + 1, cs, any, width, k);
            }
        }
    }
}

proof fn lemma_bytes_nonstrict_mono(s: Seq<char>, j: int, k: int)
    requires
        0 <= j <= k <= s.len(),
    ensures
        bytes_len(s.take(j)) <= bytes_len(s.take(k)),
{
    if j < k {
        crate::strutil::lemma_bytes_len_strict_mono(s, j, k);
    }
}

/// The cursor mapping round trip: locating any character boundary of the
/// text as a column and row, and mapping that position back to a byte
/// offset, returns exactly the boundary one started from -- for every
/// wrap width, provided every character of the text occupies at least
/// one display column.  (A zero-width combining character shares its
/// column with a neighbor; there the lookup rounds down and the two
/// offsets can differ.)
pub proof fn lemma_position_index_round_trip(text: Seq<char>, width: int, i: int)
    requires
        positive_widths(text),
        is_char_boundary_of(text, i),
        0 <= i <= bytes_len(text),
    ensures
        ({
            let lines = wrap_spec(text, width);
            let p = position_spec(lines, i);
            index_at_spec(lines, bytes_len(text), p.0, p.1) == i
        }),
{
    let lines = wrap_spec(text, width);
    let k = choose|k: int| 0 <= k <= text.len() && #[trigger] bytes_len(text.take(k)) == i;
    if width == 0 {
        assert(lines[0].start == 0 && lines[0].end == bytes_len(text));
        assert(lines[0].content == text);
        assert(text.subrange(0, text.len() as int) =~= text);
        assert(text.take(0) =~= Seq::<char>::empty());
        assert(bytes_len(Seq::<char>::empty()) == 0);
        assert(text.take(text.len() as int) =~= text);
        assert(lines_chunked(text, lines, 0)) by {
            assert(lines[0] == LineSpec { content: text, start: 0, end: bytes_len(text) });
            assert(lines.drop_first() =~= Seq::<LineSpec>::empty());
            assert(lines_chunked(text, Seq::<LineSpec>::empty(), text.len() as int));
        }
        assert(lines[0].start <= i <= lines[0].end);
        lemma_chunked_round_trip(text, lines, 0, i);
    } else {
        assert(text.skip(0) =~= text);
        assert(text.take(0) =~= Seq::<char>::empty());
        assert(text.subrange(0, 0) =~= Seq::<char>::empty());
        assert(bytes_len(Seq::<char>::empty()) == 0);
        lemma_wl_chunked(text, 0, 0, false, width);
        lemma_wl_covers(text, 0, 0, false, width, k);
        if exists|row: int|
            0 <= row < lines.len() && (#[trigger] lines[row]).start <= i <= lines[row].end {
            lemma_chunked_round_trip(text, lines, 0, i);
        } else {
            assert(k == text.len());
            assert(text.take(k) =~= text);
            assert(i == bytes_len(text));
            lemma_position_uncovered(lines, i);
        }
    }
}

} // verus!
