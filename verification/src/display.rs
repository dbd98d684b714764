//! The arithmetic of the screen: which screen row takes whose cells when the
//! view scrolls, which rows an edit makes stale, where the cursor lies on
//! screen, where the two byte views stand, and the scrollbar's handle.
use vstd::prelude::*;

verus! {

/// The screen row whose cells row `y` takes over when a view of `height`
/// rows scrolls by `diff` rows (`upward`: toward the start of the content);
/// the rows turn round like a ring.
pub open spec fn row_source(height: int, diff: int, upward: bool, y: int) -> int {
    if upward {
        if y >= diff { y - diff } else { y + height - diff }
    } else {
        if y + diff < height { y + diff } else { y + diff - height }
    }
}

/// Whether row `y` took over a row from the other end of the screen, so
/// that what it shows is stale.
pub open spec fn row_wrapped(height: int, diff: int, upward: bool, y: int) -> bool {
    if upward { y < row_source(height, diff, upward, y) } else { row_source(height, diff, upward, y) < y }
}

/// For each row of a screen of `height` rows scrolled by `diff` rows, the
/// row whose cells it takes over and whether that row came round from the
/// other end.
pub fn row_sources(height: usize, diff: usize, upward: bool) -> (r: Vec<(usize, bool)>)
    requires
        diff < height,
    ensures
        r@.len() == height,
        forall|y: int|
            0 <= y < height ==> #[trigger] r@[y] == (
                row_source(height as int, diff as int, upward, y) as usize,
                row_wrapped(height as int, diff as int, upward, y),
            ),
{
    let mut sources: Vec<(usize, bool)> = Vec::new();
    let mut y: usize = 0;
    while y < height
        invariant
            diff < height,
            y <= height,
            sources@.len() == y,
            forall|j: int|
                0 <= j < y ==> #[trigger] sources@[j] == (
                    row_source(height as int, diff as int, upward, j) as usize,
                    row_wrapped(height as int, diff as int, upward, j),
                ),
        decreases height - y,
    {
        let from_y: usize = if upward {
            if diff > y {
                height - (diff - y)
            } else {
                y - diff
            }
        } else {
            if y < height - diff {
                y + diff
            } else {
                y - (height - diff)
            }
        };
        let wrapped = if upward { y < from_y } else { from_y < y };
        sources.push((from_y, wrapped));
        y += 1;
    }
    sources
}

/// The row that takes over row `x` when the view scrolls: the inverse of
/// `row_source`.
pub open spec fn row_target(height: int, diff: int, upward: bool, x: int) -> int {
    if upward {
        if x + diff < height { x + diff } else { x + diff - height }
    } else {
        if x >= diff { x - diff } else { x + height - diff }
    }
}

/// Scrolling turns the rows round without losing any: every row takes over
/// exactly one row, no two rows take over the same one, every row is taken
/// over by some row (`row_target`), and the rows that came round from the
/// other end are the `diff` rows at the edge the view moved toward.
pub proof fn scrolled_rows_are_a_rotation(height: int, diff: int, upward: bool)
    requires
        0 <= diff < height,
    ensures
        forall|y: int| 0 <= y < height ==> 0 <= #[trigger] row_source(height, diff, upward, y) < height,
        forall|y1: int, y2: int|
            0 <= y1 < height && 0 <= y2 < height && y1 != y2 ==> #[trigger] row_source(height, diff, upward, y1)
                != #[trigger] row_source(height, diff, upward, y2),
        forall|x: int|
            0 <= x < height ==> 0 <= #[trigger] row_target(height, diff, upward, x) < height && row_source(
                height,
                diff,
                upward,
                row_target(height, diff, upward, x),
            ) == x,
        forall|y: int|
            0 <= y < height ==> (#[trigger] row_wrapped(height, diff, upward, y) <==> (if upward {
                y < diff
            } else {
                y >= height - diff
            })),
{
}

/// The screen rows, absolute (counted from the start of the content), that
/// an edit at `offset` makes stale on a view `width` bytes wide whose
/// bottom row is `bottom`: an edit that moved the bytes after it
/// (`rippled`) stales every row from its own down to the bottom, any other
/// only its own.
pub open spec fn stale_rows(offset: int, rippled: bool, width: int, bottom: int) -> (int, int) {
    let start = offset / width;
    if rippled && bottom >= start { (start, bottom) } else { (start, start) }
}

/// The first and last row (inclusive) that the edit at `offset` makes
/// stale.
pub fn rows_to_redraw(offset: usize, rippled: bool, width: usize, bottom: usize) -> (r: (usize, usize))
    requires
        width > 0,
    ensures
        (r.0 as int, r.1 as int) == stale_rows(offset as int, rippled, width as int, bottom as int),
        r.0 <= r.1,
{
    let start = offset / width;
    if rippled && bottom >= start {
        (start, bottom)
    } else {
        (start, start)
    }
}

/// The bytes under the cursor that are on screen: `[start, end)`, empty
/// when `end <= start`.
pub open spec fn cursor_on_screen(
    viewport_offset: int,
    width: int,
    height: int,
    cursor_offset: int,
    cursor_length: int,
) -> (int, int) {
    let screen_end = viewport_offset + height * width;
    let start = if cursor_offset < viewport_offset { viewport_offset } else { cursor_offset };
    let end = if cursor_offset + cursor_length > screen_end { screen_end } else { cursor_offset + cursor_length };
    (start, end)
}

/// The part of the cursor's bytes that the screen shows.
pub fn cursor_span_on_screen(
    viewport_offset: usize,
    width: usize,
    height: usize,
    cursor_offset: usize,
    cursor_length: usize,
) -> (r: (usize, usize))
    requires
        viewport_offset + height * width <= usize::MAX,
        cursor_offset + cursor_length <= usize::MAX,
    ensures
        (r.0 as int, r.1 as int) == cursor_on_screen(
            viewport_offset as int,
            width as int,
            height as int,
            cursor_offset as int,
            cursor_length as int,
        ),
{
    proof {
        assert(0 <= height * width) by (nonlinear_arith);
    }
    let screen_end = viewport_offset + height * width;
    let start = if cursor_offset < viewport_offset { viewport_offset } else { cursor_offset };
    let end = if cursor_offset + cursor_length > screen_end { screen_end } else { cursor_offset + cursor_length };
    (start, end)
}

/// The cell (column, row on screen) that shows the byte at `offset`, on a
/// view `width` bytes wide that starts at `viewport_offset`.
pub fn screen_cell(offset: usize, viewport_offset: usize, width: usize) -> (r: (usize, usize))
    requires
        width > 0,
        viewport_offset <= offset,
    ensures
        r.0 == (offset - viewport_offset) % (width as int),
        r.1 == (offset - viewport_offset) / (width as int),
{
    let relative = offset - viewport_offset;
    (relative % width, relative / width)
}

/// Where the numeric view and the text view stand on a screen
/// `full_width` columns wide, centred together: (width of the numeric
/// view, its column, column of the text view).
pub open spec fn views_layout(full_width: int, viewport_width: int, display_ratio: int) -> (int, int, int) {
    let bits_width = viewport_width * display_ratio;
    let remaining = full_width - bits_width - viewport_width;
    (bits_width, remaining / 2, remaining / 2 + bits_width)
}

/// Lays the two views out side by side, centred.
pub fn arrange_views(full_width: usize, viewport_width: usize, display_ratio: usize) -> (r: (usize, usize, usize))
    requires
        viewport_width * display_ratio + viewport_width <= full_width,
    ensures
        (r.0 as int, r.1 as int, r.2 as int) == views_layout(
            full_width as int,
            viewport_width as int,
            display_ratio as int,
        ),
{
    proof {
        assert(0 <= viewport_width * display_ratio) by (nonlinear_arith);
    }
    let bits_width = viewport_width * display_ratio;
    let remaining = full_width - bits_width - viewport_width;
    (bits_width, remaining / 2, remaining / 2 + bits_width)
}

/// How wide one byte's cell is in the numeric view: its digits, leaving
/// the last of the `display_ratio` columns as a gap (a view of one column
/// per byte has no gap).
pub fn digit_cell_width(display_ratio: usize) -> (r: usize)
    requires
        display_ratio >= 1,
    ensures
        r == (if display_ratio == 1 { 1 } else { display_ratio - 1 }),
        r >= 1,
{
    if display_ratio != 1 {
        let width = display_ratio - 1;
        if width >= 1 { width } else { 1 }
    } else {
        display_ratio
    }
}

/// The scrollbar's handle for content whose last offset is `last` on a
/// view of `width` by `height` bytes starting at `viewport_offset`, with a
/// bar `bar_height` rows tall: `None` when the content fits on screen (no
/// scrollbar), else the handle's (height, row).
pub open spec fn handle_of(viewport_offset: int, width: int, height: int, last: int, bar_height: int) -> Option<(int, int)> {
    let screen = width * height;
    if last <= screen {
        None
    } else {
        let rows = last / width;
        let fitted = height * bar_height / rows;
        let handle_height = if fitted >= 1 { fitted } else { 1 };
        Some((handle_height, viewport_offset * (bar_height - handle_height) / (last - screen)))
    }
}

/// Sizes and places the scrollbar's handle.
pub fn scrollbar_handle(viewport_offset: usize, width: usize, height: usize, last: usize, bar_height: usize) -> (r: Option<(usize, usize)>)
    requires
        width > 0,
        bar_height > 0,
        last > width * height ==> last / width > 0,
        width * height <= usize::MAX,
        height * bar_height <= usize::MAX,
        viewport_offset * bar_height <= usize::MAX,
    ensures
        match handle_of(viewport_offset as int, width as int, height as int, last as int, bar_height as int) {
            None => r is None,
            Some(h) => r matches Some(x) && x.0 == h.0 && x.1 == h.1 && 1 <= x.0 <= bar_height,
        },
{
    let screen = width * height;
    if last <= screen {
        None
    } else {
        let rows = last / width;
        proof {
            assert(rows >= height) by (nonlinear_arith)
                requires
                    last > width * height,
                    rows == last / width,
                    width > 0,
            ;
            assert((height * bar_height) as int / (rows as int) <= bar_height) by (nonlinear_arith)
                requires
                    rows >= height,
                    rows > 0,
                    bar_height > 0,
            ;
        }
        let fitted = height * bar_height / rows;
        let handle_height = if fitted >= 1 { fitted } else { 1 };
        proof {
            assert(viewport_offset * (bar_height - handle_height) <= viewport_offset * bar_height) by (nonlinear_arith)
                requires
                    handle_height <= bar_height,
            ;
        }
        Some((handle_height, viewport_offset * (bar_height - handle_height) / (last - screen)))
    }
}

} // verus!
