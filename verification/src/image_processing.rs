//! Finding the tank in a captured frame: the score of a pixel, the sum of the
//! scores in a window, and the search for the window with the highest sum.

use vstd::prelude::*;

use crate::bitmap::{rect_rows, Bitmap, ARGB};
use crate::{Coordinate, Size};

verus! {

/// The tank's width as a fraction of the frame's width: 0.01736.
pub const TANK_WIDTH_NUMERATOR: u64 = 1_736;

pub const TANK_WIDTH_DENOMINATOR: u64 = 100_000;

/// The tank's height as a fraction of the frame's height: 0.019535.
pub const TANK_HEIGHT_NUMERATOR: u64 = 19_535;

pub const TANK_HEIGHT_DENOMINATOR: u64 = 1_000_000;

/// The menu bar's height as a fraction of the frame's height: 23/135.
pub const MENU_BAR_NUMERATOR: u64 = 23;

pub const MENU_BAR_DENOMINATOR: u64 = 135;

/// The step, in pixels, of the first pass of the search.
pub const OVERLAP_PIXELS: usize = 50;

/// `length * numerator / denominator`, the fraction cut off.
pub open spec fn fraction_of(length: int, numerator: int, denominator: int) -> int {
    length * numerator / denominator
}

/// The tank's size (width first, then height) in a frame of `dimensions`.
pub open spec fn tank_size(dimensions: Size<usize>) -> Size<usize> {
    Size(
        fraction_of(
            dimensions.0 as int,
            TANK_WIDTH_NUMERATOR as int,
            TANK_WIDTH_DENOMINATOR as int,
        ) as usize,
        fraction_of(
            dimensions.1 as int,
            TANK_HEIGHT_NUMERATOR as int,
            TANK_HEIGHT_DENOMINATOR as int,
        ) as usize,
    )
}

/// The height of the menu bar in a frame that is `height` pixels high.
pub open spec fn menu_height(height: usize) -> usize {
    fraction_of(height as int, MENU_BAR_NUMERATOR as int, MENU_BAR_DENOMINATOR as int) as usize
}

/// A proper fraction of a length is a length that is no longer.
pub proof fn lemma_fraction_of_bounds(length: int, numerator: int, denominator: int)
    requires
        0 <= length,
        0 <= numerator <= denominator,
        0 < denominator,
    ensures
        0 <= fraction_of(length, numerator, denominator) <= length,
{
    assert(0 <= length * numerator <= length * denominator) by (nonlinear_arith)
        requires
            0 <= length,
            0 <= numerator <= denominator,
    ;
    assert(length * numerator / denominator <= length) by (nonlinear_arith)
        requires
            length * numerator <= length * denominator,
            0 < denominator,
    ;
    assert(0 <= length * numerator / denominator) by (nonlinear_arith)
        requires
            0 <= length * numerator,
            0 < denominator,
    ;
}

/// Computes `length * numerator / denominator` without overflow.
fn scale(length: usize, numerator: u64, denominator: u64) -> (scaled: usize)
    requires
        numerator <= denominator,
        0 < denominator,
    ensures
        scaled == fraction_of(length as int, numerator as int, denominator as int),
        scaled <= length,
{
    proof {
        lemma_fraction_of_bounds(length as int, numerator as int, denominator as int);
        assert(length * numerator <= usize::MAX * u64::MAX) by (nonlinear_arith)
            requires
                0 <= length <= usize::MAX,
                0 <= numerator <= u64::MAX,
        ;
    }
    let product: u128 = length as u128 * numerator as u128;
    (product / denominator as u128) as usize
}

/// Returns the tank's size (width first, then height) in a frame of `dimensions`.
pub fn tank_size_for_dimensions(dimensions: Size<usize>) -> (size: Size<usize>)
    ensures
        size == tank_size(dimensions),
        size.0 <= dimensions.0,
        size.1 <= dimensions.1,
{
    let width = scale(dimensions.0, TANK_WIDTH_NUMERATOR, TANK_WIDTH_DENOMINATOR);
    let height = scale(dimensions.1, TANK_HEIGHT_NUMERATOR, TANK_HEIGHT_DENOMINATOR);
    Size(width, height)
}

/// How much a pixel looks like the tank: its green less its red and its blue,
/// and nothing where that falls below zero.
pub open spec fn score_of(pixel: ARGB) -> int {
    if pixel.g - pixel.r - pixel.b > 0 {
        pixel.g - pixel.r - pixel.b
    } else {
        0
    }
}

/// Returns the score of one pixel.
pub fn pixel_score(pixel: ARGB) -> (score: u32)
    ensures
        score == score_of(pixel),
        score <= 255,
{
    pixel.g.saturating_sub(pixel.r).saturating_sub(pixel.b) as u32
}

/// The score of every pixel of `colors`, cell by cell.
pub open spec fn score_field(colors: Seq<ARGB>) -> Seq<u32> {
    Seq::new(colors.len(), |i: int| score_of(colors[i]) as u32)
}

/// Rewrites `score_bitmap` with the score of each pixel of `bitmap`.
pub fn fill_scores(bitmap: &Bitmap<ARGB>, score_bitmap: &mut Bitmap<u32>)
    requires
        old(score_bitmap)@.len() == bitmap@.len(),
    ensures
        final(score_bitmap)@ == score_field(bitmap@),
        final(score_bitmap).width == old(score_bitmap).width,
{
    let score_at = |i: usize| -> (score: u32)
        requires
            i < bitmap@.len(),
        ensures
            score == score_of(bitmap@[i as int]),
        {
            let pixel: ARGB = bitmap.inner[i];
            pixel_score(pixel)
        };
    score_bitmap.fill_with(score_at);
    assert forall|k: int| 0 <= k < bitmap@.len() implies score_bitmap@[k] == score_of(
        bitmap@[k],
    ) by {
        bitmap.lemma_len_bound();
        assert(call_ensures(score_at, (k as usize,), score_bitmap@[k]));
    }
    assert(score_bitmap@ =~= score_field(bitmap@));
}

/// The sum of `f` over the whole numbers from `from` up to, and not including, `to`.
pub open spec fn interval_sum(f: spec_fn(int) -> int, from: int, to: int) -> int
    decreases to - from,
{
    if to <= from {
        0
    } else {
        interval_sum(f, from, to - 1) + f(to - 1)
    }
}

/// The sum of the first `n` cells.
pub open spec fn prefix_sum(cells: Seq<u32>, n: int) -> int {
    interval_sum(|k: int| cells[k] as int, 0, n)
}

/// The sum of all the cells.
pub open spec fn cells_sum(cells: Seq<u32>) -> int {
    prefix_sum(cells, cells.len() as int)
}

/// The cell in column `x` of row `y` of a grid that is `width` wide.
pub open spec fn cell(cells: Seq<u32>, width: int, x: int, y: int) -> int {
    cells[y * width + x] as int
}

/// The sum of the cells of row `y` in the columns from `left` on, `columns` of
/// them, in a grid that is `width` wide.
pub open spec fn row_sum(cells: Seq<u32>, width: int, y: int, left: int, columns: int) -> int {
    interval_sum(|x: int| cell(cells, width, x, y), left, left + columns)
}

/// The sum of the cells in the window of `columns` by `rows` cells whose top
/// left cell is in column `left` of row `top`.
pub open spec fn window_sum(
    cells: Seq<u32>,
    width: int,
    left: int,
    top: int,
    columns: int,
    rows: int,
) -> int {
    interval_sum(|y: int| row_sum(cells, width, y, left, columns), top, top + rows)
}

/// A cell of a row counts for the cell of the grid that it is.
proof fn lemma_row_slice_sum(cells: Seq<u32>, width: int, y: int, left: int, columns: int, n: int)
    requires
        0 <= y * width + left,
        y * width + left + columns <= cells.len(),
        0 <= n <= columns,
    ensures
        prefix_sum(cells.subrange(y * width + left, y * width + left + columns), n) == row_sum(
            cells,
            width,
            y,
            left,
            n,
        ),
        0 <= row_sum(cells, width, y, left, n) <= n * u32::MAX,
    decreases n,
{
    if n > 0 {
        lemma_row_slice_sum(cells, width, y, left, columns, n - 1);
        let row = cells.subrange(y * width + left, y * width + left + columns);
        assert(row[n - 1] == cells[y * width + (left + n - 1)]);
    }
}

/// Returns the sum of the cells of one row.
fn sum_row(row: &[u32]) -> (total: u128)
    ensures
        total == cells_sum(row@),
{
    let mut total: u128 = 0;
    let mut i: usize = 0;
    while i < row.len()
        invariant
            i <= row@.len(),
            total == prefix_sum(row@, i as int),
            total <= i * u32::MAX,
        decreases row@.len() - i,
    {
        total = total + row[i] as u128;
        i += 1;
    }
    total
}

/// Returns the sum of the cells in the window of `window_size` (width first,
/// then height) whose top left cell is `start`.
fn sum_window(bitmap: &Bitmap<u32>, start: Coordinate<usize>, window_size: Size<usize>) -> (total:
    u128)
    requires
        bitmap.wf(),
        start.0 + window_size.0 <= bitmap.width,
        start.1 + window_size.1 <= bitmap.spec_height(),
    ensures
        total == window_sum(
            bitmap@,
            bitmap.width as int,
            start.0 as int,
            start.1 as int,
            window_size.0 as int,
            window_size.1 as int,
        ),
{
    let size = Size(window_size.1, window_size.0);
    let mut rows = bitmap.subrect(start, size);
    let ghost all = rect_rows(bitmap@, bitmap.width as int, start, size);
    let ghost cells = bitmap@;
    let ghost width = bitmap.width as int;
    let ghost left = start.0 as int;
    let ghost top = start.1 as int;
    let ghost columns = window_size.0 as int;
    let ghost mut done: int = 0;
    let mut total: u128 = 0;
    proof {
        bitmap.lemma_rect_fits(start, size);
        bitmap.lemma_len_bound();
    }
    loop
        invariant
            0 <= done <= all.len(),
            all.len() == window_size.1,
            rows.remaining() == all.skip(done),
            all == rect_rows(cells, width, start, size),
            size == Size(window_size.1, window_size.0),
            width > 0,
            left == start.0,
            top == start.1,
            columns == window_size.0,
            left + columns <= width,
            (top + window_size.1) * width <= cells.len(),
            cells.len() <= usize::MAX,
            total == window_sum(cells, width, left, top, columns, done),
            total <= done * columns * u32::MAX,
        ensures
            done == window_size.1,
            total == window_sum(cells, width, left, top, columns, done),
        decreases all.len() - done,
    {
        let next = rows.next();
        match next {
            None => {
                break ;
            },
            Some(row) => {
                proof {
                    let y = top + done;
                    assert(row@ == all[done]);
                    assert(0 <= y * width && y * width + width <= cells.len()) by (nonlinear_arith)
                        requires
                            0 <= y < top + window_size.1,
                            (top + window_size.1) * width <= cells.len(),
                            width > 0,
                    ;
                    lemma_row_slice_sum(cells, width, y, left, columns, columns);
                    assert((done + 1) * width <= cells.len()) by (nonlinear_arith)
                        requires
                            0 <= done + 1 <= top + window_size.1,
                            (top + window_size.1) * width <= cells.len(),
                            width > 0,
                    ;
                    assert((done + 1) * columns * u32::MAX <= usize::MAX * u32::MAX
                        && (done + 1) * columns * u32::MAX == done * columns * u32::MAX + columns
                        * u32::MAX) by (nonlinear_arith)
                        requires
                            0 <= done,
                            0 <= columns <= width,
                            (done + 1) * width <= cells.len(),
                            cells.len() <= usize::MAX,
                    ;
                }
                let row_total = sum_row(row);
                total = total + row_total;
                proof {
                    done = done + 1;
                }
            },
        }
    }
    total
}

/// How many places a window of length `window` takes between `from` and `to`
/// when it moves `stride` cells at a time: the place at `from`, and every
/// place a whole number of steps further at which the window still ends at
/// `to` or before it. None where the window is longer than the stretch.
pub open spec fn steps(from: int, to: int, window: int, stride: int) -> int {
    if to - from >= window && stride > 0 {
        (to - from - window) / stride + 1
    } else {
        0
    }
}

/// A search for the window with the highest sum: the grid, the region
/// searched, the window's size and the step between two places.
pub struct Search {
    pub cells: Seq<u32>,
    pub width: int,
    pub left: int,
    pub top: int,
    pub right: int,
    pub bottom: int,
    pub window_width: int,
    pub window_height: int,
    pub stride: int,
}

impl Search {
    /// The search over the region from `from` to `to` of a grid.
    pub open spec fn over(
        cells: Seq<u32>,
        width: usize,
        from: Coordinate<usize>,
        to: Coordinate<usize>,
        window_size: Size<usize>,
        stride: usize,
    ) -> Search {
        Search {
            cells,
            width: width as int,
            left: from.0 as int,
            top: from.1 as int,
            right: to.0 as int,
            bottom: to.1 as int,
            window_width: window_size.0 as int,
            window_height: window_size.1 as int,
            stride: stride as int,
        }
    }

    /// The number of places along the horizontal axis.
    pub open spec fn columns(self) -> int {
        steps(self.left, self.right, self.window_width, self.stride)
    }

    /// The number of places along the vertical axis.
    pub open spec fn rows(self) -> int {
        steps(self.top, self.bottom, self.window_height, self.stride)
    }

    /// The column of the window's left edge at the horizontal place `i`.
    pub open spec fn x(self, i: int) -> int {
        self.left + i * self.stride
    }

    /// The row of the window's top edge at the vertical place `j`.
    pub open spec fn y(self, j: int) -> int {
        self.top + j * self.stride
    }

    /// Whether the search visits the place `(i, j)`.
    pub open spec fn visits(self, i: int, j: int) -> bool {
        0 <= i < self.columns() && 0 <= j < self.rows()
    }

    /// The sum of the window at the place `(i, j)`.
    pub open spec fn sum_at(self, i: int, j: int) -> int {
        window_sum(
            self.cells,
            self.width,
            self.x(i),
            self.y(j),
            self.window_width,
            self.window_height,
        )
    }

    /// Whether the place `(i2, j2)` is visited before `(i, j)`: the search goes
    /// down one column of places before it moves to the next.
    pub open spec fn before(i2: int, j2: int, i: int, j: int) -> bool {
        i2 < i || (i2 == i && j2 < j)
    }

    /// Whether `(i, j)` is the first place visited whose window has the highest
    /// sum of all.
    pub open spec fn is_first_max(self, i: int, j: int) -> bool {
        &&& self.visits(i, j)
        &&& forall|i2: int, j2: int|
            self.visits(i2, j2) ==> #[trigger] self.sum_at(i2, j2) <= self.sum_at(i, j)
        &&& forall|i2: int, j2: int|
            self.visits(i2, j2) && Self::before(i2, j2, i, j) ==> #[trigger] self.sum_at(i2, j2)
                < self.sum_at(i, j)
    }

    /// The top left cell of the first window with the highest sum, or `None`
    /// when the search visits no place.
    pub open spec fn best(self) -> Option<Coordinate<usize>> {
        if self.columns() <= 0 || self.rows() <= 0 {
            None
        } else {
            let (i, j) = choose|i: int, j: int| self.is_first_max(i, j);
            Some(Coordinate(self.x(i) as usize, self.y(j) as usize))
        }
    }

    /// There is one first place with the highest sum at most.
    pub proof fn lemma_first_max_unique(self, i: int, j: int, i2: int, j2: int)
        requires
            self.is_first_max(i, j),
            self.is_first_max(i2, j2),
        ensures
            i == i2,
            j == j2,
    {
        if Self::before(i2, j2, i, j) {
            assert(self.sum_at(i2, j2) < self.sum_at(i, j));
            assert(self.sum_at(i, j) <= self.sum_at(i2, j2));
        } else if Self::before(i, j, i2, j2) {
            assert(self.sum_at(i, j) < self.sum_at(i2, j2));
            assert(self.sum_at(i2, j2) <= self.sum_at(i, j));
        }
    }

    /// Where a place is the first with the highest sum, it is the one the
    /// search settles on.
    pub proof fn lemma_best_is(self, i: int, j: int)
        requires
            self.is_first_max(i, j),
        ensures
            self.best() == Some(Coordinate(self.x(i) as usize, self.y(j) as usize)),
    {
        let (ci, cj) = choose|i: int, j: int| self.is_first_max(i, j);
        self.lemma_first_max_unique(i, j, ci, cj);
    }

    /// Every window that the search visits lies inside the region searched.
    pub proof fn lemma_place_bounds(self, i: int, j: int)
        requires
            self.visits(i, j),
            0 <= self.left,
            0 <= self.top,
        ensures
            self.left <= self.x(i) <= self.right - self.window_width,
            self.top <= self.y(j) <= self.bottom - self.window_height,
    {
        lemma_step_bounds(self.left, self.right, self.window_width, self.stride, i);
        lemma_step_bounds(self.top, self.bottom, self.window_height, self.stride, j);
    }
}

/// A window at one of its places ends where the region does, or before.
pub proof fn lemma_step_bounds(from: int, to: int, window: int, stride: int, i: int)
    requires
        0 <= i < steps(from, to, window, stride),
    ensures
        0 <= i <= i * stride <= to - from - window,
{
    let span = to - from - window;
    let last = span / stride;
    assert(last * stride <= span) by (nonlinear_arith)
        requires
            last == span / stride,
            stride > 0,
            span >= 0,
    ;
    assert(i <= i * stride <= last * stride) by (nonlinear_arith)
        requires
            0 <= i <= last,
            stride > 0,
    ;
}

/// Returns the number of places of a window along one axis.
fn axis_steps(from: usize, to: usize, window: usize, stride: usize) -> (count: u128)
    requires
        stride > 0,
    ensures
        count == steps(from as int, to as int, window as int, stride as int),
{
    if to < from || to - from < window {
        0
    } else {
        ((to - from - window) / stride) as u128 + 1
    }
}

/// Slides a window of `window_size` (width first, then height) over the region
/// from `from` to `to`, `overlap` cells at a time along both axes, and returns
/// the top left cell of the window whose cells sum highest. Of several such
/// windows the first one visited wins, the places taken column by column. The
/// result is `None` when, and only when, the window does not fit in the region.
pub fn rolling_sum_bitmap(
    bitmap: &Bitmap<u32>,
    from: Coordinate<usize>,
    to: Coordinate<usize>,
    window_size: Size<usize>,
    overlap: usize,
) -> (best: Option<Coordinate<usize>>)
    requires
        bitmap.wf(),
        overlap > 0,
        to.0 <= bitmap.width,
        to.1 <= bitmap.spec_height(),
    ensures
        best == Search::over(bitmap@, bitmap.width, from, to, window_size, overlap).best(),
        best.is_some() <==> to.0 - from.0 >= window_size.0 && to.1 - from.1 >= window_size.1,
        best matches Some(c) ==> {
            let search = Search::over(bitmap@, bitmap.width, from, to, window_size, overlap);
            &&& exists|i: int, j: int|
                search.is_first_max(i, j) && c.0 == search.x(i) && c.1 == search.y(j)
            &&& from.0 <= c.0 && c.0 + window_size.0 <= to.0
            &&& from.1 <= c.1 && c.1 + window_size.1 <= to.1
        },
{
    let ghost search = Search::over(bitmap@, bitmap.width, from, to, window_size, overlap);
    let columns = axis_steps(from.0, to.0, window_size.0, overlap);
    let rows = axis_steps(from.1, to.1, window_size.1, overlap);
    let mut highest: Option<(u128, Coordinate<usize>)> = None;
    let ghost mut bi: int = 0;
    let ghost mut bj: int = 0;
    proof {
        lemma_steps_positive(from.0 as int, to.0 as int, window_size.0 as int, overlap as int);
        lemma_steps_positive(from.1 as int, to.1 as int, window_size.1 as int, overlap as int);
    }
    let mut col_count: u128 = 0;
    while col_count < columns
        invariant
            bitmap.wf(),
            overlap > 0,
            to.0 <= bitmap.width,
            to.1 <= bitmap.spec_height(),
            search == Search::over(bitmap@, bitmap.width, from, to, window_size, overlap),
            columns == search.columns(),
            rows == search.rows(),
            col_count <= columns,
            highest.is_none() <==> col_count == 0 || rows == 0,
            highest matches Some((score, c)) ==> {
                &&& search.visits(bi, bj)
                &&& score == search.sum_at(bi, bj)
                &&& c.0 == search.x(bi)
                &&& c.1 == search.y(bj)
                &&& forall|i2: int, j2: int|
                    0 <= i2 < col_count && 0 <= j2 < rows ==> #[trigger] search.sum_at(i2, j2)
                        <= score
                &&& forall|i2: int, j2: int|
                    search.visits(i2, j2) && Search::before(i2, j2, bi, bj)
                        ==> #[trigger] search.sum_at(i2, j2) < score
            },
        decreases columns - col_count,
    {
        proof {
            lemma_step_bounds(
                from.0 as int,
                to.0 as int,
                window_size.0 as int,
                overlap as int,
                col_count as int,
            );
        }
        let pixel_col = col_count as usize * overlap + from.0;
        let mut row_count: u128 = 0;
        while row_count < rows
            invariant
                bitmap.wf(),
                overlap > 0,
                to.0 <= bitmap.width,
                to.1 <= bitmap.spec_height(),
                search == Search::over(bitmap@, bitmap.width, from, to, window_size, overlap),
                columns == search.columns(),
                rows == search.rows(),
                col_count < columns,
                row_count <= rows,
                pixel_col == search.x(col_count as int),
                pixel_col + window_size.0 <= to.0,
                highest.is_none() <==> (col_count == 0 || rows == 0) && row_count == 0,
                highest matches Some((score, c)) ==> {
                    &&& search.visits(bi, bj)
                    &&& score == search.sum_at(bi, bj)
                    &&& c.0 == search.x(bi)
                    &&& c.1 == search.y(bj)
                    &&& forall|i2: int, j2: int|
                        0 <= i2 < col_count && 0 <= j2 < rows ==> #[trigger] search.sum_at(i2, j2)
                            <= score
                    &&& forall|j2: int|
                        0 <= j2 < row_count ==> #[trigger] search.sum_at(col_count as int, j2)
                            <= score
                    &&& forall|i2: int, j2: int|
                        search.visits(i2, j2) && Search::before(i2, j2, bi, bj)
                            ==> #[trigger] search.sum_at(i2, j2) < score
                },
            decreases rows - row_count,
        {
            proof {
                lemma_step_bounds(
                    from.1 as int,
                    to.1 as int,
                    window_size.1 as int,
                    overlap as int,
                    row_count as int,
                );
            }
            let pixel_row = row_count as usize * overlap + from.1;
            let score = sum_window(bitmap, Coordinate(pixel_col, pixel_row), window_size);
            assert(score == search.sum_at(col_count as int, row_count as int));
            let higher = match highest {
                None => true,
                Some((top_score, _)) => score > top_score,
            };
            if higher {
                highest = Some((score, Coordinate(pixel_col, pixel_row)));
                proof {
                    bi = col_count as int;
                    bj = row_count as int;
                }
            }
            row_count += 1;
        }
        col_count += 1;
    }
    match highest {
        None => None,
        Some((_, c)) => {
            proof {
                assert(search.is_first_max(bi, bj));
                search.lemma_best_is(bi, bj);
                search.lemma_place_bounds(bi, bj);
            }
            Some(c)
        },
    }
}

/// A window has a place along an axis when, and only when, it fits.
pub proof fn lemma_steps_positive(from: int, to: int, window: int, stride: int)
    requires
        stride > 0,
    ensures
        steps(from, to, window, stride) >= 0,
        steps(from, to, window, stride) > 0 <==> to - from >= window,
{
    let span = to - from - window;
    if span >= 0 {
        assert(span / stride >= 0) by (nonlinear_arith)
            requires
                span >= 0,
                stride > 0,
        ;
    }
}

/// `value - delta`, and zero where that falls below zero.
pub open spec fn floor_sub(value: usize, delta: usize) -> usize {
    if value >= delta {
        (value - delta) as usize
    } else {
        0
    }
}

/// `value + delta`, and `limit` where that goes beyond `limit`.
pub open spec fn capped_add(value: usize, delta: int, limit: usize) -> usize {
    if value + delta >= limit {
        limit
    } else {
        (value + delta) as usize
    }
}

/// Where the second pass starts: one tank's size up and left of the window
/// that the first pass found, and no further than the frame's edge.
pub open spec fn refined_from(coarse: Coordinate<usize>, tank: Size<usize>) -> Coordinate<usize> {
    Coordinate(floor_sub(coarse.0, tank.0), floor_sub(coarse.1, tank.1))
}

/// Where the second pass ends: three tanks' sizes from where it starts, and no
/// further than the frame's edge.
pub open spec fn refined_to(
    from: Coordinate<usize>,
    tank: Size<usize>,
    dimensions: Size<usize>,
) -> Coordinate<usize> {
    Coordinate(
        capped_add(from.0, 3 * tank.0, dimensions.0),
        capped_add(from.1, 3 * tank.1, dimensions.1),
    )
}

/// The middle of the window whose top left cell is `corner`.
pub open spec fn window_center(corner: Coordinate<usize>, tank: Size<usize>) -> Coordinate<u32> {
    Coordinate((corner.0 + tank.0 / 2) as u32, (corner.1 + tank.1 / 2) as u32)
}

/// Where the tank is in a frame of `colors` that is `width` pixels wide: the
/// middle of the window that the second pass finds around the window that the
/// first pass finds below the menu bar; `None` where either pass finds none.
pub open spec fn tank_position(colors: Seq<ARGB>, width: usize) -> Option<Coordinate<u32>> {
    let dimensions = Size(width, (colors.len() / (width as nat)) as usize);
    let tank = tank_size(dimensions);
    let scores = score_field(colors);
    let below_menu = Coordinate(0usize, menu_height(dimensions.1));
    let corner = Coordinate(dimensions.0, dimensions.1);
    match Search::over(scores, width, below_menu, corner, tank, OVERLAP_PIXELS).best() {
        None => None,
        Some(coarse) => {
            let from = refined_from(coarse, tank);
            let to = refined_to(from, tank, dimensions);
            match Search::over(scores, width, from, to, tank, 1).best() {
                None => None,
                Some(fine) => Some(window_center(fine, tank)),
            }
        },
    }
}

/// Returns `value + delta`, or `limit` where the sum goes beyond it.
fn add_capped(value: usize, delta: usize, limit: usize) -> (sum: usize)
    requires
        value <= limit,
    ensures
        sum == capped_add(value, delta as int, limit),
        value <= sum <= limit,
{
    if delta >= limit - value {
        limit
    } else {
        value + delta
    }
}

/// Finds the tank in the frame `bitmap` and returns the middle of it.
/// `score_bitmap`, a grid of the frame's shape, is rewritten with the score of
/// every pixel.
///
/// A first pass looks over the frame below the menu bar in steps of
/// `OVERLAP_PIXELS`; a second pass looks around the window found, cell by cell.
/// Either pass gives `None` where the tank's window does not fit in its
/// region. A tank is no larger than the part of a frame below the menu bar,
/// so both passes find a window in every frame: in one that shows no tank,
/// the first window of each pass.
pub fn find_tank(bitmap: &Bitmap<ARGB>, score_bitmap: &mut Bitmap<u32>) -> (position: Option<
    Coordinate<u32>,
>)
    requires
        bitmap.wf(),
        old(score_bitmap).width == bitmap.width,
        old(score_bitmap)@.len() == bitmap@.len(),
    ensures
        position == tank_position(bitmap@, bitmap.width),
        position.is_some(),
        final(score_bitmap)@ == score_field(bitmap@),
        final(score_bitmap).width == bitmap.width,
{
    let dimensions = Size(bitmap.width, bitmap.height());
    let tank_size = tank_size_for_dimensions(dimensions);
    let menu_size_pixels = scale(dimensions.1, MENU_BAR_NUMERATOR, MENU_BAR_DENOMINATOR);

    fill_scores(bitmap, score_bitmap);

    let most_likely_rect = match rolling_sum_bitmap(
        score_bitmap,
        Coordinate(0, menu_size_pixels),
        Coordinate(dimensions.0, dimensions.1),
        tank_size,
        OVERLAP_PIXELS,
    ) {
        None => {
            return None;
        },
        Some(found) => found,
    };
    let expanded_from = Coordinate(
        most_likely_rect.0.saturating_sub(tank_size.0),
        most_likely_rect.1.saturating_sub(tank_size.1),
    );
    proof {
        lemma_three_tanks(dimensions);
    }
    let expanded_to = Coordinate(
        add_capped(expanded_from.0, 3 * tank_size.0, dimensions.0),
        add_capped(expanded_from.1, 3 * tank_size.1, dimensions.1),
    );

    let closer_rect = match rolling_sum_bitmap(
        score_bitmap,
        expanded_from,
        expanded_to,
        tank_size,
        1,
    ) {
        None => {
            return None;
        },
        Some(found) => found,
    };
    Some(
        Coordinate(
            #[verifier::truncate]
            ((closer_rect.0 + tank_size.0 / 2) as u32),
            #[verifier::truncate]
            ((closer_rect.1 + tank_size.1 / 2) as u32),
        ),
    )
}

/// Three tanks side by side fit in the frame, and three on top of each other.
pub proof fn lemma_three_tanks(dimensions: Size<usize>)
    ensures
        3 * tank_size(dimensions).0 <= dimensions.0,
        3 * tank_size(dimensions).1 <= dimensions.1,
{
    let w = dimensions.0 as int;
    let h = dimensions.1 as int;
    lemma_fraction_of_bounds(w, TANK_WIDTH_NUMERATOR as int, TANK_WIDTH_DENOMINATOR as int);
    lemma_fraction_of_bounds(h, TANK_HEIGHT_NUMERATOR as int, TANK_HEIGHT_DENOMINATOR as int);
    assert(3 * (w * 1_736 / 100_000) <= w) by (nonlinear_arith)
        requires
            0 <= w,
    ;
    assert(3 * (h * 19_535 / 1_000_000) <= h) by (nonlinear_arith)
        requires
            0 <= h,
    ;
}

/// A sum over an interval is the sum over its two parts.
pub proof fn lemma_interval_sum_split(f: spec_fn(int) -> int, from: int, mid: int, to: int)
    requires
        from <= mid <= to,
    ensures
        interval_sum(f, from, to) == interval_sum(f, from, mid) + interval_sum(f, mid, to),
    decreases to - mid,
{
    if mid < to {
        lemma_interval_sum_split(f, from, mid, to - 1);
    }
}

/// Where `f` is nowhere above `g`, its sum is not above the sum of `g`.
pub proof fn lemma_interval_sum_order(
    f: spec_fn(int) -> int,
    g: spec_fn(int) -> int,
    from: int,
    to: int,
)
    requires
        forall|k: int| from <= k < to ==> #[trigger] f(k) <= g(k),
    ensures
        interval_sum(f, from, to) <= interval_sum(g, from, to),
    decreases to - from,
{
    if from < to {
        lemma_interval_sum_order(f, g, from, to - 1);
        assert(f(to - 1) <= g(to - 1));
    }
}

/// Where `f` is nowhere above `g` and below it in one place, its sum is
/// below the sum of `g`.
pub proof fn lemma_interval_sum_below(
    f: spec_fn(int) -> int,
    g: spec_fn(int) -> int,
    from: int,
    to: int,
    at: int,
)
    requires
        forall|k: int| from <= k < to ==> #[trigger] f(k) <= g(k),
        from <= at < to,
        f(at) < g(at),
    ensures
        interval_sum(f, from, to) < interval_sum(g, from, to),
{
    lemma_interval_sum_split(f, from, at, to);
    lemma_interval_sum_split(g, from, at, to);
    lemma_interval_sum_split(f, at, at + 1, to);
    lemma_interval_sum_split(g, at, at + 1, to);
    lemma_interval_sum_order(f, g, from, at);
    lemma_interval_sum_order(f, g, at + 1, to);
    assert(interval_sum(f, at, at + 1) == f(at)) by {
        assert(interval_sum(f, at, at) == 0);
    }
    assert(interval_sum(g, at, at + 1) == g(at)) by {
        assert(interval_sum(g, at, at) == 0);
    }
}

/// The sum of zeros is zero.
pub proof fn lemma_interval_sum_zero(f: spec_fn(int) -> int, from: int, to: int)
    requires
        forall|k: int| from <= k < to ==> #[trigger] f(k) == 0,
    ensures
        interval_sum(f, from, to) == 0,
    decreases to - from,
{
    if from < to {
        lemma_interval_sum_zero(f, from, to - 1);
        assert(f(to - 1) == 0);
    }
}

/// The sum of positive numbers, one of them at least, is positive.
pub proof fn lemma_interval_sum_positive(f: spec_fn(int) -> int, from: int, to: int)
    requires
        from < to,
        forall|k: int| from <= k < to ==> #[trigger] f(k) > 0,
    ensures
        interval_sum(f, from, to) > 0,
    decreases to - from,
{
    assert(f(to - 1) > 0);
    if from < to - 1 {
        lemma_interval_sum_positive(f, from, to - 1);
    } else {
        assert(interval_sum(f, from, to - 1) == 0);
    }
}

/// Where `f` is positive on the stretch of `length` from `lit` on and zero
/// around it, no stretch of that length sums as high as that one.
pub proof fn lemma_interval_sum_shifted(
    f: spec_fn(int) -> int,
    low: int,
    high: int,
    lit: int,
    length: int,
    from: int,
)
    requires
        length > 0,
        low <= lit,
        lit + length <= high,
        low <= from,
        from + length <= high,
        forall|k: int| lit <= k < lit + length ==> #[trigger] f(k) > 0,
        forall|k: int| low <= k < high && !(lit <= k < lit + length) ==> #[trigger] f(k) == 0,
    ensures
        interval_sum(f, lit, lit + length) > 0,
        interval_sum(f, from, from + length) <= interval_sum(f, lit, lit + length),
        from != lit ==> interval_sum(f, from, from + length) < interval_sum(f, lit, lit + length),
{
    lemma_interval_sum_positive(f, lit, lit + length);
    if from + length <= lit || lit + length <= from {
        lemma_interval_sum_zero(f, from, from + length);
    } else if from < lit {
        lemma_interval_sum_split(f, from, lit, from + length);
        lemma_interval_sum_zero(f, from, lit);
        lemma_interval_sum_split(f, lit, from + length, lit + length);
        lemma_interval_sum_positive(f, from + length, lit + length);
    } else if lit < from {
        lemma_interval_sum_split(f, from, lit + length, from + length);
        lemma_interval_sum_zero(f, lit + length, from + length);
        lemma_interval_sum_split(f, lit, from, lit + length);
        lemma_interval_sum_positive(f, lit, from);
    }
}

/// Whether the cells of a grid of `width` by `height` are positive in the
/// rectangle of `columns` by `rows` at column `left` of row `top`, and zero
/// everywhere else.
pub open spec fn lit_only(
    cells: Seq<u32>,
    width: int,
    height: int,
    left: int,
    top: int,
    columns: int,
    rows: int,
) -> bool {
    forall|x: int, y: int|
        0 <= x < width && 0 <= y < height ==> (#[trigger] cell(cells, width, x, y) > 0 <==> left
            <= x < left + columns && top <= y < top + rows)
}

/// In a grid that is lit in one rectangle only, a stretch of a row as long as
/// the rectangle is wide sums highest where it lies on the rectangle.
pub proof fn lemma_row_of_lit_grid(
    cells: Seq<u32>,
    width: int,
    height: int,
    left: int,
    top: int,
    columns: int,
    rows: int,
    x: int,
    y: int,
)
    requires
        lit_only(cells, width, height, left, top, columns, rows),
        columns > 0,
        0 <= left,
        left + columns <= width,
        0 <= x,
        x + columns <= width,
        0 <= y < height,
    ensures
        0 <= row_sum(cells, width, y, x, columns) <= row_sum(cells, width, y, left, columns),
        top <= y < top + rows ==> row_sum(cells, width, y, left, columns) > 0,
        top <= y < top + rows && x != left ==> row_sum(cells, width, y, x, columns) < row_sum(
            cells,
            width,
            y,
            left,
            columns,
        ),
        !(top <= y < top + rows) ==> row_sum(cells, width, y, left, columns) == 0,
{
    let f = |k: int| cell(cells, width, k, y);
    if top <= y < top + rows {
        assert forall|k: int| left <= k < left + columns implies #[trigger] f(k) > 0 by {
            assert(cell(cells, width, k, y) > 0);
        }
        assert forall|k: int| 0 <= k < width && !(left <= k < left + columns) implies #[trigger] f(
            k,
        ) == 0 by {
            assert(!(cell(cells, width, k, y) > 0));
        }
        lemma_interval_sum_shifted(f, 0, width, left, columns, x);
    } else {
        assert forall|k: int| 0 <= k < width implies #[trigger] f(k) == 0 by {
            assert(!(cell(cells, width, k, y) > 0));
        }
        lemma_interval_sum_zero(f, x, x + columns);
        lemma_interval_sum_zero(f, left, left + columns);
    }
    let zero = |k: int| 0int;
    lemma_interval_sum_zero(zero, x, x + columns);
    assert forall|k: int| x <= k < x + columns implies #[trigger] zero(k) <= f(k) by {
        assert(cell(cells, width, k, y) >= 0);
    }
    lemma_interval_sum_order(zero, f, x, x + columns);
}

/// In a grid that is lit in one rectangle only, a window of the rectangle's
/// size sums highest where it lies on the rectangle, and lower anywhere else.
pub proof fn lemma_window_of_lit_grid(
    cells: Seq<u32>,
    width: int,
    height: int,
    left: int,
    top: int,
    columns: int,
    rows: int,
    x: int,
    y: int,
)
    requires
        lit_only(cells, width, height, left, top, columns, rows),
        columns > 0,
        rows > 0,
        0 <= left,
        left + columns <= width,
        0 <= top,
        top + rows <= height,
        0 <= x,
        x + columns <= width,
        0 <= y,
        y + rows <= height,
    ensures
        window_sum(cells, width, x, y, columns, rows) <= window_sum(
            cells,
            width,
            left,
            top,
            columns,
            rows,
        ),
        x != left || y != top ==> window_sum(cells, width, x, y, columns, rows) < window_sum(
            cells,
            width,
            left,
            top,
            columns,
            rows,
        ),
{
    let here = |k: int| row_sum(cells, width, k, x, columns);
    let lit = |k: int| row_sum(cells, width, k, left, columns);
    assert forall|k: int| 0 <= k < height implies #[trigger] here(k) <= lit(k) by {
        lemma_row_of_lit_grid(cells, width, height, left, top, columns, rows, x, k);
    }
    assert forall|k: int| top <= k < top + rows implies #[trigger] lit(k) > 0 by {
        lemma_row_of_lit_grid(cells, width, height, left, top, columns, rows, x, k);
    }
    assert forall|k: int| 0 <= k < height && !(top <= k < top + rows) implies #[trigger] lit(k)
        == 0 by {
        lemma_row_of_lit_grid(cells, width, height, left, top, columns, rows, x, k);
    }
    lemma_interval_sum_order(here, lit, y, y + rows);
    lemma_interval_sum_shifted(lit, 0, height, top, rows, y);
    if y == top && x != left {
        lemma_row_of_lit_grid(cells, width, height, left, top, columns, rows, x, top);
        lemma_interval_sum_below(here, lit, y, y + rows, top);
    }
}

impl Search {
    /// In a grid that is lit only in one rectangle of the window's size, the
    /// search settles on that rectangle, where it visits it.
    pub proof fn lemma_finds_lit_window(self, height: int, i: int, j: int)
        requires
            self.stride > 0,
            self.window_width > 0,
            self.window_height > 0,
            0 <= self.left,
            0 <= self.top,
            self.right <= self.width,
            self.bottom <= height,
            self.visits(i, j),
            lit_only(
                self.cells,
                self.width,
                height,
                self.x(i),
                self.y(j),
                self.window_width,
                self.window_height,
            ),
        ensures
            self.is_first_max(i, j),
            self.best() == Some(Coordinate(self.x(i) as usize, self.y(j) as usize)),
    {
        self.lemma_place_bounds(i, j);
        assert forall|i2: int, j2: int| self.visits(i2, j2) implies #[trigger] self.sum_at(i2, j2)
            <= self.sum_at(i, j) && (Self::before(i2, j2, i, j) ==> self.sum_at(i2, j2)
            < self.sum_at(i, j)) by {
            self.lemma_place_bounds(i2, j2);
            lemma_window_of_lit_grid(
                self.cells,
                self.width,
                height,
                self.x(i),
                self.y(j),
                self.window_width,
                self.window_height,
                self.x(i2),
                self.y(j2),
            );
            if Self::before(i2, j2, i, j) {
                assert(i2 * self.stride != i * self.stride || j2 * self.stride != j * self.stride)
                    by (nonlinear_arith)
                    requires
                        i2 != i || j2 != j,
                        self.stride > 0,
                ;
            }
        }
        self.lemma_best_is(i, j);
    }

    /// A search that moves one cell at a time visits every place of its
    /// region. So in a grid that is lit only in one rectangle of the window's
    /// size, it settles on that rectangle wherever it lies in the region.
    pub proof fn lemma_finds_lit_rectangle(self, height: int, x: int, y: int)
        requires
            self.stride == 1,
            self.window_width > 0,
            self.window_height > 0,
            0 <= self.left,
            0 <= self.top,
            self.right <= self.width,
            self.bottom <= height,
            self.left <= x,
            x + self.window_width <= self.right,
            self.top <= y,
            y + self.window_height <= self.bottom,
            lit_only(self.cells, self.width, height, x, y, self.window_width, self.window_height),
        ensures
            self.best() == Some(Coordinate(x as usize, y as usize)),
    {
        self.lemma_finds_lit_window(height, x - self.left, y - self.top);
    }
}

} // verus!
