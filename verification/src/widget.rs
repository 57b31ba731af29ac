//! Input field widget: an owned ASCII text buffer together with a wrapping
//! mode, offering the wrapped layout of the buffer for a target rectangle and
//! the grid cell a given cursor offset maps to.

use vstd::prelude::*;
use vstd::string::StrSliceExecFns;
use vstd::utf8::is_ascii_chars;

use crate::cursor::Rect;
use crate::cursor::fallback_cell;
use crate::cursor::cursor_walk;
use crate::cursor::spec_cursor_at;
use crate::lines::lemma_split_lines_bounds;
use crate::lines::spec_split_lines;
use crate::lines::split_lines;
use crate::lines::str_views;
use crate::wrap::lemma_views_of_push;
use crate::wrap::lemma_wrap_height;
use crate::wrap::lemma_wrap_width;
use crate::wrap::spec_wrap;
use crate::wrap::views_of;
use crate::wrap::wrap_words;

verus! {

/// The word-wrapped layout keeps the cursor inside the rectangle: for every
/// text and every offset, the cell is within `area`.
pub proof fn lemma_word_wrap_cursor_in_rect(text: Seq<char>, area: Rect, index: int)
    requires
        0 <= index,
        area.width >= 1,
        area.height >= 1,
    ensures
        ({
            let p = spec_cursor_at(
                text,
                spec_wrap(text, area.width as int, area.height as int),
                area,
                index,
            );
            &&& area.x <= p.0 < area.x + area.width
            &&& area.y <= p.1 < area.y + area.height
        }),
{
    let layout = spec_wrap(text, area.width as int, area.height as int);
    lemma_wrap_height(text, area.width as int, area.height as int);
    lemma_wrap_width(text, area.width as int, area.height as int);
    if text.len() > 0 {
        let clamped = if index >= text.len() {
            text.len() - 1
        } else {
            index
        };
        if clamped >= 0 {
            crate::cursor::lemma_cursor_walk_in_rect(layout, area, 0, clamped);
        }
    }
}

/// Cursor monotonicity over the word-wrapped layout: within the span the
/// layout can place, increasing the offset by one either keeps the row and
/// moves one column right, or moves to the first column of the next physical
/// line.
pub proof fn lemma_word_wrap_cursor_step(text: Seq<char>, area: Rect, idx: int)
    requires
        0 <= idx,
        idx + 1 < crate::cursor::total_len(
            spec_wrap(text, area.width as int, area.height as int),
            0,
        ),
    ensures
        ({
            let layout = spec_wrap(text, area.width as int, area.height as int);
            let p = crate::cursor::cursor_walk(layout, 0, idx, area);
            let q = crate::cursor::cursor_walk(layout, 0, idx + 1, area);
            (q.1 == p.1 && q.0 == p.0 + 1) || (q.1 == p.1 + 1 && q.0 == area.x as int)
        }),
{
    lemma_wrap_width(text, area.width as int, area.height as int);
    crate::cursor::lemma_cursor_step(
        spec_wrap(text, area.width as int, area.height as int),
        area,
        idx,
    );
}

/// The kinds of text wrapping.
/// `NoWrap`: no wrapping at all, logical lines flow off the grid.
/// `Character`: characters wrap to the next line as necessary (left
/// unimplemented, as a documented gap: callers must not select it).
/// `Word`: words that do not fit on the current line go to the next.
#[derive(Clone, Copy, Debug)]
pub enum Wrap {
    NoWrap,
    Character,
    Word,
}

/// Input field widget: a text buffer and its wrapping mode.
#[derive(Debug)]
pub struct InputField {
    input: String,
    wrapping: Wrap,
}

impl InputField {
    /// The buffer contents.
    pub closed spec fn spec_input(&self) -> Seq<char> {
        self.input@
    }

    /// The wrapping mode.
    pub closed spec fn spec_wrapping(&self) -> Wrap {
        self.wrapping
    }

    /// The buffer holds ASCII characters only; the engine is defined over
    /// ASCII text.
    pub open spec fn ascii_input(&self) -> bool {
        is_ascii_chars(self.spec_input())
    }

    /// The layout of the buffer for the given rectangle, by wrapping mode.
    pub open spec fn spec_layout(&self, area: Rect) -> Seq<Seq<char>> {
        match self.spec_wrapping() {
            Wrap::NoWrap => spec_split_lines(self.spec_input()),
            Wrap::Character => Seq::empty(),
            Wrap::Word => spec_wrap(self.spec_input(), area.width as int, area.height as int),
        }
    }

    pub fn new(input: String, wrapping: Wrap) -> (r: Self)
        ensures
            r.spec_input() == input@,
            r.spec_wrapping() == wrapping,
    {
        Self { input, wrapping }
    }

    pub fn set_input(&mut self, input: String)
        ensures
            final(self).spec_input() == input@,
            final(self).spec_wrapping() == old(self).spec_wrapping(),
    {
        self.input = input;
    }

    pub fn set_wrapping(&mut self, wrapping: Wrap)
        ensures
            final(self).spec_input() == old(self).spec_input(),
            final(self).spec_wrapping() == wrapping,
    {
        self.wrapping = wrapping;
    }

    /// The physical lines of the buffer laid out in `area`, by wrapping mode:
    /// the plain logical lines for `Wrap::NoWrap`, the word-wrapped layout for
    /// `Wrap::Word`.  `Wrap::Character` is unsupported and excluded.
    pub fn lines(&self, area: Rect) -> (res: Vec<String>)
        requires
            self.ascii_input(),
            !(self.spec_wrapping() matches Wrap::Character),
        ensures
            views_of(res@) == self.spec_layout(area),
    {
        match self.wrapping {
            Wrap::NoWrap => {
                let pieces = split_lines(self.input.as_str());
                let mut res: Vec<String> = Vec::new();
                let mut k: usize = 0;
                while k < pieces.len()
                    invariant
                        k <= pieces@.len(),
                        views_of(res@) =~= str_views(pieces@).subrange(0, k as int),
                    decreases pieces@.len() - k,
                {
                    let piece = pieces[k].to_owned();
                    proof {
                        lemma_views_of_push(res@, piece);
                        assert(str_views(pieces@).subrange(0, k as int).push(piece@)
                            =~= str_views(pieces@).subrange(0, k + 1));
                    }
                    res.push(piece);
                    k += 1;
                }
                proof {
                    assert(str_views(pieces@).subrange(0, pieces@.len() as int) =~= str_views(
                        pieces@,
                    ));
                    assert(views_of(res@) =~= self.spec_layout(area));
                }
                res
            },
            Wrap::Character => {
                // excluded by the precondition
                proof {
                    assert(false);
                }
                Vec::new()
            },
            Wrap::Word => wrap_words(self.input.as_str(), (area.width, area.height)),
        }
    }

    /// The absolute screen cell at which the cursor sits when the buffer is
    /// laid out in `area` and the cursor is at character offset `index`: the
    /// origin of `area` for an empty buffer; otherwise `index` is clamped to
    /// the last character and located in the layout, with the bottom-right
    /// cell of `area` as the fallback when the layout cannot place it.
    pub fn get_cursor_at(&self, area: Rect, index: usize) -> (pos: (u16, u16))
        requires
            self.ascii_input(),
            !(self.spec_wrapping() matches Wrap::Character),
            area.x + area.width <= u16::MAX,
            area.y + area.height <= u16::MAX,
            (self.spec_wrapping() matches Wrap::NoWrap) ==> area.x + self.spec_input().len()
                <= u16::MAX && area.y + self.spec_input().len() <= u16::MAX,
        ensures
            pos.0 as int == spec_cursor_at(
                self.spec_input(),
                self.spec_layout(area),
                area,
                index as int,
            ).0,
            pos.1 as int == spec_cursor_at(
                self.spec_input(),
                self.spec_layout(area),
                area,
                index as int,
            ).1,
    {
        let len = self.input.as_str().unicode_len();
        if len == 0 {
            return (area.x, area.y);
        }
        let mut idx = if index >= len {
            len - 1
        } else {
            index
        };
        let ghost layout = self.spec_layout(area);
        let ghost idx0: int = idx as int;
        proof {
            match self.spec_wrapping() {
                Wrap::NoWrap => {
                    lemma_split_lines_bounds(self.spec_input());
                },
                Wrap::Character => {
                },
                Wrap::Word => {
                    lemma_wrap_height(self.spec_input(), area.width as int, area.height as int);
                    lemma_wrap_width(self.spec_input(), area.width as int, area.height as int);
                },
            }
        }
        let rows = self.lines(area);
        let mut y: usize = 0;
        while y < rows.len()
            invariant
                y <= rows@.len(),
                cursor_walk(layout, 0, idx0, area) == cursor_walk(layout, y as int, idx as int, area),
            decreases rows@.len() - y,
        {
            let row_len = rows[y].as_str().unicode_len();
            proof {
                assert(layout[y as int] == rows@[y as int]@);
            }
            if idx >= row_len {
                idx -= row_len;
                y += 1;
            } else {
                proof {
                    match self.spec_wrapping() {
                        Wrap::NoWrap => {
                            assert(row_len <= self.spec_input().len());
                            assert(y < layout.len() <= self.spec_input().len());
                        },
                        Wrap::Character => {
                        },
                        Wrap::Word => {
                            assert(row_len <= area.width);
                            assert(y < layout.len() <= area.height);
                        },
                    }
                }
                return (area.x + (idx as u16), area.y + (y as u16));
            }
        }
        proof {
            assert(cursor_walk(layout, y as int, idx as int, area) == fallback_cell(area));
        }
        let fx = if area.width >= 1 {
            area.x + (area.width - 1)
        } else {
            area.x
        };
        let fy = if area.height >= 1 {
            area.y + (area.height - 1)
        } else {
            area.y
        };
        (fx, fy)
    }
}

} // verus!
