//! Cursor mapping: converting an absolute character offset in the text
//! buffer to the grid cell that the wrapped layout places that character at.

use vstd::prelude::*;

verus! {

/// A rectangle of the terminal grid, in absolute screen coordinates.
#[derive(Clone, Copy, Debug, PartialEq, Eq, Structural)]
pub struct Rect {
    pub x: u16,
    pub y: u16,
    pub width: u16,
    pub height: u16,
}

/// The bottom-right-most addressable cell of `area`, the fallback for an
/// offset that lies beyond everything the layout can represent.  Degenerate
/// geometry clamps to the origin instead of leaving the rectangle.
pub open spec fn fallback_cell(area: Rect) -> (int, int) {
    (
        area.x + (if area.width >= 1 {
            area.width - 1
        } else {
            0
        }),
        area.y + (if area.height >= 1 {
            area.height - 1
        } else {
            0
        }),
    )
}

/// Walks the layout from row `j` on: if `idx` falls within the current
/// physical line, the cursor sits there; otherwise the walk continues with
/// the offset reduced by that line's length.
pub open spec fn cursor_walk(layout: Seq<Seq<char>>, j: int, idx: int, area: Rect) -> (int, int)
    decreases layout.len() - j,
{
    if j < 0 || j >= layout.len() {
        fallback_cell(area)
    } else if idx >= layout[j].len() {
        cursor_walk(layout, j + 1, idx - layout[j].len(), area)
    } else {
        (area.x + idx, area.y + j)
    }
}

/// The cursor cell for offset `index` into `text` under the given `layout`:
/// the origin for empty text, otherwise the walk over the layout with the
/// offset clamped to the index of the last character.
pub open spec fn spec_cursor_at(
    text: Seq<char>,
    layout: Seq<Seq<char>>,
    area: Rect,
    index: int,
) -> (int, int) {
    if text.len() == 0 {
        (area.x as int, area.y as int)
    } else {
        let clamped = if index >= text.len() {
            text.len() - 1
        } else {
            index
        };
        cursor_walk(layout, 0, clamped, area)
    }
}

/// Cursor clamping: every offset at or beyond the end of the buffer maps to
/// the position of the last character; for empty text the cursor sits at the
/// origin of the rectangle.
pub proof fn lemma_cursor_clamping(text: Seq<char>, layout: Seq<Seq<char>>, area: Rect, index: int)
    requires
        index >= text.len(),
    ensures
        text.len() == 0 ==> spec_cursor_at(text, layout, area, index) == (
            area.x as int,
            area.y as int,
        ),
        text.len() >= 1 ==> spec_cursor_at(text, layout, area, index) == spec_cursor_at(
            text,
            layout,
            area,
            text.len() - 1,
        ),
{
}

/// The total number of characters that a layout can place.
pub open spec fn total_len(layout: Seq<Seq<char>>, j: int) -> int
    decreases layout.len() - j,
{
    if j < 0 || j >= layout.len() {
        0
    } else {
        layout[j].len() + total_len(layout, j + 1)
    }
}

/// For a layout of at most `area.height` lines of at most `area.width`
/// characters, the walk never leaves the rectangle.
pub proof fn lemma_cursor_walk_in_rect(layout: Seq<Seq<char>>, area: Rect, j: int, idx: int)
    requires
        0 <= j,
        0 <= idx,
        area.width >= 1,
        area.height >= 1,
        forall|k: int| 0 <= k < layout.len() ==> (#[trigger] layout[k]).len() <= area.width,
        layout.len() <= area.height,
    ensures
        ({
            let p = cursor_walk(layout, j, idx, area);
            &&& area.x <= p.0 < area.x + area.width
            &&& area.y <= p.1 < area.y + area.height
        }),
    decreases layout.len() - j,
{
    if j < layout.len() && idx >= layout[j].len() {
        lemma_cursor_walk_in_rect(layout, area, j + 1, idx - layout[j].len());
    }
}

proof fn lemma_cursor_step_from(layout: Seq<Seq<char>>, area: Rect, j: int, idx: int)
    requires
        forall|k: int| 0 <= k < layout.len() ==> (#[trigger] layout[k]).len() >= 1,
        0 <= j <= layout.len(),
        0 <= idx,
        idx + 1 < total_len(layout, j),
    ensures
        ({
            let p = cursor_walk(layout, j, idx, area);
            let q = cursor_walk(layout, j, idx + 1, area);
            (q.1 == p.1 && q.0 == p.0 + 1) || (q.1 == p.1 + 1 && q.0 == area.x as int)
        }),
    decreases layout.len() - j,
{
    assert(j < layout.len());
    if idx >= layout[j].len() {
        lemma_cursor_step_from(layout, area, j + 1, idx - layout[j].len());
    } else if idx + 1 >= layout[j].len() {
        // idx is the last character of row j; idx + 1 opens row j + 1
        assert(total_len(layout, j) == layout[j].len() + total_len(layout, j + 1));
        assert(total_len(layout, j + 1) >= 1);
        assert(j + 1 < layout.len());
        assert(cursor_walk(layout, j + 1, 0, area) == (
            area.x as int,
            area.y + j + 1,
        ));
    }
}

/// Cursor monotonicity: within the span the layout can place, increasing the
/// offset by one either keeps the row and moves one column right, or moves to
/// the first column of the next physical line.
pub proof fn lemma_cursor_step(layout: Seq<Seq<char>>, area: Rect, idx: int)
    requires
        forall|k: int| 0 <= k < layout.len() ==> (#[trigger] layout[k]).len() >= 1,
        0 <= idx,
        idx + 1 < total_len(layout, 0),
    ensures
        ({
            let p = cursor_walk(layout, 0, idx, area);
            let q = cursor_walk(layout, 0, idx + 1, area);
            (q.1 == p.1 && q.0 == p.0 + 1) || (q.1 == p.1 + 1 && q.0 == area.x as int)
        }),
{
    lemma_cursor_step_from(layout, area, 0, idx);
}

} // verus!
