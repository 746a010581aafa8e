//! The scratch editor used while one component's value is being typed:
//! a wrapped text buffer, a cursor held on a UTF-8 character boundary,
//! and an editing flag.

use vstd::prelude::*;

use crate::strutil::bytes_len;
use crate::strutil::char_bytes;
use crate::strutil::is_char_boundary_of;
use crate::strutil::char_pos_of;
use crate::strutil::lemma_bytes_len_strict_mono;
use crate::strutil::lemma_bytes_len_take_succ;
use crate::strutil::lemma_char_pos_unique;
use crate::strutil::utf8_len;
use crate::wrap_text::LineSpec;
use crate::wrap_text::WrapText;
use crate::wrap_text::WrapTextLine;
use crate::wrap_text::index_at_spec;
use crate::wrap_text::lemma_idx_in_le;
use crate::wrap_text::lemma_index_at_boundary;
use crate::wrap_text::position_spec;

verus! {

/// One in-place editing session over a scratch buffer.
pub struct Editor {
    content: WrapText,
    cursor_index: usize,
    is_editing: bool,
}

impl Editor {
    /// The buffered text.
    pub closed spec fn text_view(&self) -> Seq<char> {
        self.content.text_view()
    }

    /// The cursor's byte offset.
    pub closed spec fn cursor_view(&self) -> int {
        self.cursor_index as int
    }

    /// Whether an input session is active.
    pub closed spec fn editing_view(&self) -> bool {
        self.is_editing
    }

    /// The wrapped lines of the buffer.
    pub closed spec fn lines_view(&self) -> Seq<LineSpec> {
        self.content.lines_view()
    }

    /// The wrap width.
    pub closed spec fn width_view(&self) -> usize {
        self.content.width_view()
    }

    /// The buffer is consistent and the cursor sits on a character
    /// boundary inside it.
    pub open spec fn wf(&self) -> bool {
        &&& self.content_wf()
        &&& is_char_boundary_of(self.text_view(), self.cursor_view())
        &&& self.cursor_view() <= bytes_len(self.text_view())
    }

    /// The underlying buffer is consistent.
    pub closed spec fn content_wf(&self) -> bool {
        self.content.wf()
    }

    /// An empty editor wrapping at 80 columns, not editing.
    pub fn new() -> (r: Editor)
        ensures
            r.wf(),
            r.text_view() == Seq::<char>::empty(),
            r.cursor_view() == 0,
            !r.editing_view(),
            r.width_view() == 80,
    {
        proof {
            reveal_strlit("");
        }
        let content = WrapText::new("", 80);
        let r = Editor { content, cursor_index: 0, is_editing: false };
        proof {
            assert(r.text_view().take(0) =~= Seq::<char>::empty());
            assert(bytes_len(Seq::<char>::empty()) == 0);
        }
        r
    }

    /// Whether an input session is active.
    pub fn is_editing(&self) -> (r: bool)
        ensures
            r == self.editing_view(),
    {
        self.is_editing
    }

    /// Starts editing `value`: the buffer takes it over and the cursor
    /// moves to its end.
    pub fn start_input(&mut self, value: &str)
        requires
            value@.len() <= usize::MAX as int / 4,
        ensures
            final(self).wf(),
            final(self).editing_view(),
            final(self).text_view() == value@,
            final(self).cursor_view() == bytes_len(value@),
            final(self).width_view() == old(self).width_view(),
    {
        self.content.set_text(value);
        self.cursor_index = self.content.len();
        self.is_editing = true;
        proof {
            assert(self.text_view().take(self.text_view().len() as int) =~= self.text_view());
        }
    }

    /// Ends the session, returning the edited text; the buffer empties.
    pub fn end_input(&mut self) -> (r: String)
        ensures
            final(self).wf(),
            r@ == old(self).text_view(),
            !final(self).editing_view(),
            final(self).text_view() == Seq::<char>::empty(),
            final(self).cursor_view() == 0,
    {
        self.is_editing = false;
        let value = self.content.text();
        self.clear();
        value
    }

    /// Abandons the session; the buffer empties with no value returned.
    pub fn cancel_input(&mut self)
        ensures
            final(self).wf(),
            !final(self).editing_view(),
            final(self).text_view() == Seq::<char>::empty(),
            final(self).cursor_view() == 0,
    {
        self.is_editing = false;
        self.clear();
    }

    /// Changes the wrap width.
    pub fn set_content_width(&mut self, width: usize)
        requires
            old(self).wf(),
        ensures
            final(self).wf(),
            final(self).text_view() == old(self).text_view(),
            final(self).cursor_view() == old(self).cursor_view(),
            final(self).editing_view() == old(self).editing_view(),
            final(self).width_view() == width,
    {
        self.content.set_width(width);
    }

    /// How many lines the buffer wraps into, saturated to `u16`.
    pub fn content_height(&self) -> (r: u16)
        ensures
            r as int == if self.lines_view().len() > u16::MAX as int {
                u16::MAX as int
            } else {
                self.lines_view().len() as int
            },
    {
        let h = self.content.height();
        if h > 65535 {
            65535u16
        } else {
            h as u16
        }
    }

    /// A copy of the wrapped lines.
    pub fn lines(&self) -> (r: Vec<WrapTextLine>)
        ensures
            r.deep_view() == self.lines_view(),
    {
        let src = self.content.lines();
        let n: usize = src.len();
        let mut r: Vec<WrapTextLine> = Vec::new();
        let mut i: usize = 0;
        proof {
            assert(r.deep_view() =~= self.lines_view().take(0));
        }
        while i < n
            invariant
                i <= n,
                n == src@.len(),
                src.deep_view() == self.lines_view(),
                r.deep_view() == self.lines_view().take(i as int),
            decreases n - i,
        {
            let ghost pre = r.deep_view();
            r.push(src[i].clone());
            i = i + 1;
            proof {
                assert(r.deep_view() =~= pre.push(src@[i - 1]@));
                assert(src@[i - 1]@ == src.deep_view()[i - 1]);
                assert(r.deep_view() =~= self.lines_view().take(i as int));
            }
        }
        proof {
            assert(self.lines_view().take(n as int) =~= self.lines_view());
        }
        r
    }

    /// The cursor's `[column, row]` in the wrapped lines.
    pub fn cursor_position(&self) -> (r: [usize; 2])
        requires
            self.wf(),
        ensures
            r@[0] == position_spec(self.lines_view(), self.cursor_view()).0,
            r@[1] == position_spec(self.lines_view(), self.cursor_view()).1,
    {
        self.content.position(self.cursor_index)
    }

    /// Moves the cursor one wrapped row up, keeping the target column;
    /// on the first row it stays in that row.
    pub fn move_cursor_up(&mut self)
        requires
            old(self).wf(),
        ensures
            final(self).wf(),
            final(self).text_view() == old(self).text_view(),
            final(self).editing_view() == old(self).editing_view(),
            final(self).cursor_view() == {
                let p = position_spec(old(self).lines_view(), old(self).cursor_view());
                index_at_spec(
                    old(self).lines_view(),
                    bytes_len(old(self).text_view()),
                    p.0,
                    if p.1 > 0 {
                        p.1 - 1
                    } else {
                        0
                    },
                )
            },
    {
        let p = self.content.position(self.cursor_index);
        let row = if p[1] > 0 {
            p[1] - 1
        } else {
            0
        };
        let next = self.content.index_at_position([p[0], row]);
        self.cursor_index = next;
        proof {
            self.lemma_index_at_ok(p@[0] as int, row as int);
        }
    }

    /// Moves the cursor one wrapped row down, keeping the target column;
    /// below the last row it lands at the end of the text.
    pub fn move_cursor_down(&mut self)
        requires
            old(self).wf(),
        ensures
            final(self).wf(),
            final(self).text_view() == old(self).text_view(),
            final(self).editing_view() == old(self).editing_view(),
            final(self).cursor_view() == {
                let p = position_spec(old(self).lines_view(), old(self).cursor_view());
                index_at_spec(
                    old(self).lines_view(),
                    bytes_len(old(self).text_view()),
                    p.0,
                    p.1 + 1,
                )
            },
    {
        let p = self.content.position(self.cursor_index);
        let height = self.content.height();
        let row = if p[1] >= height {
            height
        } else {
            p[1] + 1
        };
        proof {
            if p@[1] as int >= self.lines_view().len() {
                assert(index_at_spec(
                    self.lines_view(),
                    bytes_len(self.text_view()),
                    p@[0] as int,
                    p@[1] as int + 1,
                ) == index_at_spec(
                    self.lines_view(),
                    bytes_len(self.text_view()),
                    p@[0] as int,
                    self.lines_view().len() as int,
                ));
            }
        }
        let next = self.content.index_at_position([p[0], row]);
        self.cursor_index = next;
        proof {
            self.lemma_index_at_ok(p@[0] as int, row as int);
        }
    }

    /// The byte offset a `[column, row]` lookup yields is a boundary of
    /// the text and no greater than its byte length.
    proof fn lemma_index_at_ok(&self, col: int, row: int)
        requires
            self.content_wf(),
            row >= 0,
        ensures
            is_char_boundary_of(
                self.text_view(),
                index_at_spec(self.lines_view(), bytes_len(self.text_view()), col, row),
            ),
            index_at_spec(self.lines_view(), bytes_len(self.text_view()), col, row) <= bytes_len(
                self.text_view(),
            ),
    {
        let text = self.text_view();
        let lines = self.lines_view();
        let total = bytes_len(text);
        if row >= lines.len() {
            assert(text.take(text.len() as int) =~= text);
            assert(is_char_boundary_of(text, total));
        } else {
            lemma_index_at_boundary(text, lines, 0, col, row);
            lemma_idx_in_le(lines[row].content, col);
        }
    }

    /// Moves the cursor one character left; at the start it stays.
    pub fn move_cursor_left(&mut self)
        requires
            old(self).wf(),
        ensures
            final(self).wf(),
            final(self).text_view() == old(self).text_view(),
            final(self).editing_view() == old(self).editing_view(),
            old(self).cursor_view() == 0 ==> final(self).cursor_view() == 0,
            old(self).cursor_view() > 0 ==> final(self).cursor_view() == bytes_len(
                old(self).text_view().take(
                    char_pos_of(old(self).text_view(), old(self).cursor_view()) - 1,
                ),
            ),
    {
        if self.cursor_index > 0 {
            let ghost text = self.text_view();
            let k = self.content.char_pos(self.cursor_index);
            proof {
                assert(text.take(0) =~= Seq::<char>::empty());
                assert(bytes_len(Seq::<char>::empty()) == 0);
                assert(k > 0);
                lemma_bytes_len_take_succ(text, k - 1);
                lemma_char_pos_unique(text, bytes_len(text.take(k - 1)), k - 1);
                crate::strutil::lemma_bytes_len_bounds(text.take(k - 1));
            }
            let step = utf8_len(self.content.chars()[k - 1]);
            self.cursor_index = self.cursor_index - step;
        }
    }

    /// Moves the cursor one character right; at the end it stays.
    pub fn move_cursor_right(&mut self)
        requires
            old(self).wf(),
        ensures
            final(self).wf(),
            final(self).text_view() == old(self).text_view(),
            final(self).editing_view() == old(self).editing_view(),
            old(self).cursor_view() == bytes_len(old(self).text_view()) ==> final(self).cursor_view() == old(self).cursor_view(),
            old(self).cursor_view() < bytes_len(old(self).text_view()) ==> final(self).cursor_view() == bytes_len(
                old(self).text_view().take(
                    char_pos_of(old(self).text_view(), old(self).cursor_view()) + 1,
                ),
            ),
    {
        let len = self.content.len();
        if self.cursor_index < len {
            let ghost text = self.text_view();
            let k = self.content.char_pos(self.cursor_index);
            proof {
                assert(text.take(text.len() as int) =~= text);
                if k == text.len() {
                    assert(false);
                }
                lemma_bytes_len_take_succ(text, k as int);
                lemma_char_pos_unique(text, bytes_len(text.take(k + 1)), k + 1);
                crate::strutil::lemma_bytes_len_bounds(text.take(k + 1));
                if k + 1 < text.len() {
                    lemma_bytes_len_strict_mono(text, k + 1, text.len() as int);
                }
            }
            let step = utf8_len(self.content.chars()[k]);
            self.cursor_index = self.cursor_index + step;
        }
    }

    /// Deletes the character under the cursor; the cursor stays put.
    pub fn delete_forward(&mut self)
        requires
            old(self).wf(),
        ensures
            final(self).wf(),
            final(self).editing_view() == old(self).editing_view(),
            final(self).cursor_view() == old(self).cursor_view(),
            old(self).cursor_view() == bytes_len(old(self).text_view()) ==> final(self).text_view() == old(self).text_view(),
            old(self).cursor_view() < bytes_len(old(self).text_view()) ==> final(self).text_view()
                == old(self).text_view().remove(
                char_pos_of(old(self).text_view(), old(self).cursor_view()),
            ),
    {
        let pos = self.cursor_index;
        let len = self.content.len();
        if pos < len {
            let ghost text = self.text_view();
            let ghost k = char_pos_of(text, pos as int);
            proof {
                let w = choose|w: int|
                    0 <= w <= text.len() && #[trigger] bytes_len(text.take(w)) == pos as int;
                lemma_char_pos_unique(text, pos as int, w);
                assert(text.take(text.len() as int) =~= text);
                if k == text.len() {
                    assert(false);
                }
            }
            self.content.remove(pos);
            proof {
                let nt = text.remove(k);
                assert(nt.take(k) =~= text.take(k));
                lemma_char_pos_unique(nt, pos as int, k);
                assert(nt.take(nt.len() as int) =~= nt);
                crate::strutil::lemma_bytes_len_bounds(nt.take(k));
                if k < nt.len() {
                    lemma_bytes_len_strict_mono(nt, k, nt.len() as int);
                }
            }
        }
    }

    /// Deletes the character before the cursor; the cursor moves to the
    /// deleted character's position.
    pub fn delete_backward(&mut self)
        requires
            old(self).wf(),
        ensures
            final(self).wf(),
            final(self).editing_view() == old(self).editing_view(),
            old(self).cursor_view() == 0 ==> final(self).text_view() == old(self).text_view()
                && final(self).cursor_view() == 0,
            old(self).cursor_view() > 0 ==> {
                let k = char_pos_of(old(self).text_view(), old(self).cursor_view());
                &&& final(self).text_view() == old(self).text_view().remove(k - 1)
                &&& final(self).cursor_view() == bytes_len(old(self).text_view().take(k - 1))
            },
    {
        if self.cursor_index > 0 {
            let ghost text = self.text_view();
            let k = self.content.char_pos(self.cursor_index);
            proof {
                assert(text.take(0) =~= Seq::<char>::empty());
                assert(bytes_len(Seq::<char>::empty()) == 0);
                assert(k > 0);
                lemma_bytes_len_take_succ(text, k - 1);
                lemma_char_pos_unique(text, bytes_len(text.take(k - 1)), k - 1);
                lemma_bytes_len_strict_mono(text, k - 1, k as int);
                crate::strutil::lemma_bytes_len_bounds(text.take(k - 1));
                assert(text.take(text.len() as int) =~= text);
                if k - 1 + 1 < text.len() {
                    lemma_bytes_len_strict_mono(text, k as int, text.len() as int);
                }
            }
            let step = utf8_len(self.content.chars()[k - 1]);
            let prev = self.cursor_index - step;
            self.content.remove(prev);
            self.cursor_index = prev;
            proof {
                let nt = text.remove(k - 1);
                assert(nt.take(k - 1) =~= text.take(k - 1));
                lemma_char_pos_unique(nt, prev as int, k - 1);
                assert(nt.take(nt.len() as int) =~= nt);
                crate::strutil::lemma_bytes_len_bounds(nt.take(k - 1));
                if k - 1 < nt.len() {
                    lemma_bytes_len_strict_mono(nt, k - 1, nt.len() as int);
                }
            }
        }
    }

    /// Inserts a character at the cursor; the cursor moves past it.
    pub fn input_char(&mut self, c: char)
        requires
            old(self).wf(),
            old(self).text_view().len() < usize::MAX as int / 4,
        ensures
            final(self).wf(),
            final(self).editing_view() == old(self).editing_view(),
            final(self).text_view() == old(self).text_view().insert(
                char_pos_of(old(self).text_view(), old(self).cursor_view()),
                c,
            ),
            final(self).cursor_view() == old(self).cursor_view() + char_bytes(c),
    {
        let ghost text = self.text_view();
        let ghost k = char_pos_of(text, self.cursor_index as int);
        let pos = self.cursor_index;
        self.content.insert(pos, c);
        let step = utf8_len(c);
        proof {
            let new_text = text.insert(k, c);
            assert(new_text.take(k + 1) =~= text.take(k).push(c));
            assert(bytes_len(text.take(k).push(c)) == bytes_len(text.take(k)) + char_bytes(c))
                by {
                assert(text.take(k).push(c).drop_last() =~= text.take(k));
            }
            lemma_char_pos_unique(new_text, pos + char_bytes(c), k + 1);
            crate::strutil::lemma_bytes_len_bounds(new_text.take(k + 1));
            if k + 1 < new_text.len() {
                lemma_bytes_len_strict_mono(new_text, k + 1, new_text.len() as int);
            }
            assert(new_text.take(new_text.len() as int) =~= new_text);
        }
        self.cursor_index = pos + step;
    }

    /// Empties the buffer and rests the cursor at the start.
    fn clear(&mut self)
        ensures
            final(self).content_wf(),
            final(self).text_view() == Seq::<char>::empty(),
            final(self).cursor_view() == 0,
            final(self).wf(),
            final(self).editing_view() == old(self).editing_view(),
    {
        self.content.clear();
        self.cursor_index = 0;
        proof {
            assert(self.text_view().take(0) =~= Seq::<char>::empty());
            assert(bytes_len(Seq::<char>::empty()) == 0);
        }
    }
}

} // verus!
