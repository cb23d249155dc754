//! The task list's view state and the rules that turn input into changes of
//! it: column headers that choose the ordering, the mouse wheel and the
//! scrollbar, which rows are on screen, and the figures shown in the footer.

use vstd::prelude::*;

use crate::processes::SortBy;

verus! {

/// Width of the window, in pixels.
pub const SCREEN_WIDTH: u32 = 480;

/// Height of the window, in pixels.
pub const SCREEN_HEIGHT: u32 = 540;

/// How many rows of the table are on screen at once.
pub const VISIBLE_ROWS: usize = 15;

/// A cursor coordinate in pixels: `whole` is its integer part (rounded
/// down) and `fractional` tells whether it lies strictly between `whole` and
/// `whole + 1`. This is exactly what comparing a coordinate with whole-pixel
/// bounds needs.
#[derive(Clone, Copy, Debug, PartialEq, Eq, Structural)]
pub struct CursorCoord {
    pub whole: i64,
    pub fractional: bool,
}

/// The coordinate is at least `a`.
pub open spec fn at_least(c: CursorCoord, a: int) -> bool {
    c.whole >= a
}

/// The coordinate is less than `b`.
pub open spec fn below(c: CursorCoord, b: int) -> bool {
    c.whole < b
}

/// The coordinate is at most `b`.
pub open spec fn at_most(c: CursorCoord, b: int) -> bool {
    c.whole < b || (c.whole == b && !c.fractional)
}

/// The coordinate lies in `[a, b)`.
pub open spec fn within(c: CursorCoord, a: int, b: int) -> bool {
    at_least(c, a) && below(c, b)
}

/// The row of column titles spans rows 40 to 50, both included.
pub open spec fn in_header_band(y: CursorCoord) -> bool {
    at_least(y, 40) && at_most(y, 50)
}

/// The column whose title spans horizontal position `x`, if any.
pub open spec fn column_at(x: CursorCoord) -> Option<SortBy> {
    if within(x, 0, 60) {
        Some(SortBy::Name)
    } else if within(x, 200, 250) {
        Some(SortBy::PID)
    } else if within(x, 250, 300) {
        Some(SortBy::PPID)
    } else if within(x, 310, 360) {
        Some(SortBy::CPU)
    } else if within(x, 390, 450) {
        Some(SortBy::RAM)
    } else {
        None
    }
}

/// Whether the cursor row `y` is on the row of column titles.
pub fn header_band_contains(y: CursorCoord) -> (inside: bool)
    ensures
        inside == in_header_band(y),
{
    y.whole >= 40 && (y.whole < 50 || (y.whole == 50 && !y.fractional))
}

/// The column whose title is under horizontal cursor position `x`, if any.
pub fn header_column(x: CursorCoord) -> (column: Option<SortBy>)
    ensures
        column == column_at(x),
{
    let v = x.whole;
    if v >= 0 && v < 60 {
        Some(SortBy::Name)
    } else if v >= 200 && v < 250 {
        Some(SortBy::PID)
    } else if v >= 250 && v < 300 {
        Some(SortBy::PPID)
    } else if v >= 310 && v < 360 {
        Some(SortBy::CPU)
    } else if v >= 390 && v < 450 {
        Some(SortBy::RAM)
    } else {
        None
    }
}

/// Which way the mouse wheel turned.
#[derive(Clone, Copy, Debug, PartialEq, Eq, Structural)]
pub enum ScrollDirection {
    /// Towards the top of the list.
    Up,
    /// Towards the bottom of the list.
    Down,
    /// Neither (no line movement).
    Still,
}

/// How the table is ordered and scrolled, and whether the scrollbar's thumb
/// is being dragged.
#[derive(Clone, Copy, Debug, PartialEq, Eq, Structural)]
pub struct ViewState {
    pub sort_by: SortBy,
    pub sort_ascending: bool,
    pub scroll_offset: usize,
    pub is_dragging: bool,
}

/// The view after clicking the title of column `column`: the same column
/// flips its direction; another column becomes the ordering, descending.
pub open spec fn after_select(s: ViewState, column: SortBy) -> ViewState {
    if s.sort_by == column {
        ViewState { sort_ascending: !s.sort_ascending, ..s }
    } else {
        ViewState { sort_by: column, sort_ascending: false, ..s }
    }
}

/// The view after a wheel turn: up moves one row towards the top unless
/// already there, down one row towards the bottom.
pub open spec fn after_scroll(s: ViewState, direction: ScrollDirection) -> ViewState {
    match direction {
        ScrollDirection::Up => if s.scroll_offset > 0 {
            ViewState { scroll_offset: (s.scroll_offset - 1) as usize, ..s }
        } else {
            s
        },
        ScrollDirection::Down => ViewState { scroll_offset: (s.scroll_offset + 1) as usize, ..s },
        ScrollDirection::Still => s,
    }
}

/// The view after the left button goes down (`pressed`) or up with the
/// cursor at (`x`, `y`). A press on the title row may choose the ordering;
/// a release ends any drag of the scrollbar.
pub open spec fn after_left_button(s: ViewState, pressed: bool, x: CursorCoord, y: CursorCoord) -> ViewState {
    if pressed {
        if in_header_band(y) {
            match column_at(x) {
                Some(column) => after_select(s, column),
                None => s,
            }
        } else {
            s
        }
    } else {
        ViewState { is_dragging: false, ..s }
    }
}

impl ViewState {
    /// The initial view: by memory, largest first, scrolled to the top.
    pub fn new() -> (s: Self)
        ensures
            s == (ViewState {
                sort_by: SortBy::RAM,
                sort_ascending: false,
                scroll_offset: 0,
                is_dragging: false,
            }),
    {
        ViewState { sort_by: SortBy::RAM, sort_ascending: false, scroll_offset: 0, is_dragging: false }
    }

    /// Clicks the title of column `column`.
    pub fn select_sort(&mut self, column: SortBy)
        ensures
            *final(self) == after_select(*old(self), column),
    {
        if self.sort_by == column {
            self.sort_ascending = !self.sort_ascending;
        } else {
            self.sort_by = column;
            self.sort_ascending = false;
        }
    }

    /// Handles the left mouse button going down (`pressed`) or up with the
    /// cursor at (`x`, `y`). Returns whether the press fell outside the
    /// title row, in which case it may grab the scrollbar's thumb.
    pub fn left_button(&mut self, pressed: bool, x: CursorCoord, y: CursorCoord) -> (off_header: bool)
        ensures
            *final(self) == after_left_button(*old(self), pressed, x, y),
            off_header == (pressed && !in_header_band(y)),
            !pressed ==> {
                &&& !final(self).is_dragging
                &&& final(self).scroll_offset == old(self).scroll_offset
                &&& final(self).sort_by == old(self).sort_by
                &&& final(self).sort_ascending == old(self).sort_ascending
            },
            pressed ==> {
                &&& final(self).is_dragging == old(self).is_dragging
                &&& final(self).scroll_offset == old(self).scroll_offset
            },
    {
        if pressed {
            if header_band_contains(y) {
                if let Some(column) = header_column(x) {
                    self.select_sort(column);
                }
                false
            } else {
                true
            }
        } else {
            self.is_dragging = false;
            false
        }
    }

    /// Handles a turn of the mouse wheel.
    pub fn scroll(&mut self, direction: ScrollDirection)
        requires
            !(direction == ScrollDirection::Down && old(self).scroll_offset == usize::MAX),
        ensures
            *final(self) == after_scroll(*old(self), direction),
    {
        match direction {
            ScrollDirection::Up => {
                if self.scroll_offset > 0 {
                    self.scroll_offset = self.scroll_offset - 1;
                }
            },
            ScrollDirection::Down => {
                self.scroll_offset = self.scroll_offset + 1;
            },
            ScrollDirection::Still => {},
        }
    }
}

/// How far the list can be scrolled: the rows beyond the first screenful.
pub fn get_total_scrollable_items(row_count: usize) -> (scrollable: usize)
    ensures
        scrollable == (if row_count > VISIBLE_ROWS {
            row_count - VISIBLE_ROWS
        } else {
            0int
        }),
{
    row_count.saturating_sub(VISIBLE_ROWS)
}

/// The rows on screen, `start..end`, when `row_count` rows are scrolled by
/// `scroll_offset`: up to `VISIBLE_ROWS` rows from the offset on.
pub fn visible_rows(row_count: usize, scroll_offset: usize) -> (range: (usize, usize))
    ensures
        range.0 == (if scroll_offset < row_count {
            scroll_offset
        } else {
            row_count
        }),
        range.1 == (if scroll_offset + VISIBLE_ROWS < row_count {
            scroll_offset + VISIBLE_ROWS
        } else {
            row_count as int
        }),
{
    let start = if scroll_offset < row_count {
        scroll_offset
    } else {
        row_count
    };
    let end = if scroll_offset < row_count && row_count - scroll_offset > VISIBLE_ROWS {
        scroll_offset + VISIBLE_ROWS
    } else {
        row_count
    };
    (start, end)
}

/// The baseline row of the `i`-th row on screen.
pub fn row_baseline(i: usize) -> (y: usize)
    requires
        i < VISIBLE_ROWS,
    ensures
        y == 80 + 25 * i,
{
    (80 + (i as u32 * 25)) as usize
}

/// What to do when the window reports a new inner size.
#[derive(Clone, Copy, Debug, PartialEq, Eq, Structural)]
pub enum ResizeAction {
    /// Ask for the fixed window size back.
    RestoreSize,
    /// Resize the drawing surface and buffer to the reported size.
    ResizeSurface,
    /// Nothing to do.
    Ignore,
}

/// The window keeps its fixed size: any other size is undone; the fixed
/// size itself (when not empty) resizes the drawing surface.
pub fn resize_action(width: u32, height: u32) -> (action: ResizeAction)
    ensures
        action == (if width != SCREEN_WIDTH || height != SCREEN_HEIGHT {
            ResizeAction::RestoreSize
        } else if width > 0 && height > 0 {
            ResizeAction::ResizeSurface
        } else {
            ResizeAction::Ignore
        }),
{
    if width != SCREEN_WIDTH || height != SCREEN_HEIGHT {
        ResizeAction::RestoreSize
    } else if width > 0 && height > 0 {
        ResizeAction::ResizeSurface
    } else {
        ResizeAction::Ignore
    }
}

/// Whole mebibytes in `bytes`, rounded down.
pub fn bytes_to_mib(bytes: u64) -> (mib: u64)
    ensures
        mib == bytes / 1024 / 1024,
{
    bytes / 1024 / 1024
}

/// The statistics are refreshed once at least a second has passed.
pub fn refresh_due(elapsed_secs: u64) -> (due: bool)
    ensures
        due == (elapsed_secs >= 1),
{
    elapsed_secs >= 1
}

/// Total bytes received (first) and transmitted (second) over the
/// interfaces' counters.
pub open spec fn traffic_sum(counters: Seq<(u64, u64)>) -> (int, int)
    decreases counters.len(),
{
    if counters.len() == 0 {
        (0, 0)
    } else {
        let rest = traffic_sum(counters.drop_last());
        (rest.0 + counters.last().0, rest.1 + counters.last().1)
    }
}

/// Sums the received and transmitted byte counters of all interfaces.
pub fn traffic_totals(counters: &Vec<(u64, u64)>) -> (totals: (u64, u64))
    requires
        traffic_sum(counters@).0 <= u64::MAX,
        traffic_sum(counters@).1 <= u64::MAX,
    ensures
        totals.0 == traffic_sum(counters@).0,
        totals.1 == traffic_sum(counters@).1,
{
    let mut rx: u64 = 0;
    let mut tx: u64 = 0;
    let mut i: usize = 0;
    assert(counters@.take(0) =~= Seq::<(u64, u64)>::empty());
    while i < counters.len()
        invariant
            i <= counters@.len(),
            rx == traffic_sum(counters@.take(i as int)).0,
            tx == traffic_sum(counters@.take(i as int)).1,
            traffic_sum(counters@).0 <= u64::MAX,
            traffic_sum(counters@).1 <= u64::MAX,
        decreases counters@.len() - i,
    {
        let ghost t = counters@.take(i as int);
        assert(counters@.take(i + 1).drop_last() =~= t);
        proof {
            lemma_traffic_prefix(counters@, i + 1);
        }
        rx = rx + counters[i].0;
        tx = tx + counters[i].1;
        i = i + 1;
    }
    assert(counters@.take(counters@.len() as int) =~= counters@);
    (rx, tx)
}

/// Sums over a prefix are no larger than sums over the whole.
pub proof fn lemma_traffic_prefix(counters: Seq<(u64, u64)>, n: int)
    requires
        0 <= n <= counters.len(),
    ensures
        traffic_sum(counters.take(n)).0 <= traffic_sum(counters).0,
        traffic_sum(counters.take(n)).1 <= traffic_sum(counters).1,
        traffic_sum(counters.take(n)).0 >= 0,
        traffic_sum(counters.take(n)).1 >= 0,
    decreases counters.len(),
{
    if n == counters.len() {
        assert(counters.take(n) =~= counters);
        lemma_traffic_nonnegative(counters);
    } else {
        assert(counters.drop_last().take(n) =~= counters.take(n));
        lemma_traffic_prefix(counters.drop_last(), n);
        lemma_traffic_nonnegative(counters.drop_last());
    }
}

pub proof fn lemma_traffic_nonnegative(counters: Seq<(u64, u64)>)
    ensures
        traffic_sum(counters).0 >= 0,
        traffic_sum(counters).1 >= 0,
    decreases counters.len(),
{
    if counters.len() > 0 {
        lemma_traffic_nonnegative(counters.drop_last());
    }
}

/// Bytes counted since the previous reading; a counter that went backwards
/// counts as nothing.
pub fn traffic_since(total: u64, previous: u64) -> (delta: u64)
    ensures
        delta == (if total > previous {
            total - previous
        } else {
            0int
        }),
{
    total.saturating_sub(previous)
}

} // verus!
