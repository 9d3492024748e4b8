//! What the overlay window works out before it calls the system: the dashes
//! of a dotted curve, where a line lies on the window's surface, the size of
//! the view inside the window's frame, whether a title names the game, and
//! the errors that a call can end in.

use vstd::prelude::*;
use vstd::std_specs::convert::FromSpecImpl;

use crate::tank::Tank;
use crate::{Coordinate, Size};

verus! {

/// The call into the system that failed.
#[derive(Clone, Copy, Debug, PartialEq, Eq, Structural)]
pub enum WindowsErrorType {
    Other,
    DeleteMemoryDc,
    CreateMemoryDc,
    GetDc,
    ReleaseDc,
    CreateObject,
    DeleteObject,
    GetModuleHandle,
    RegisterWindowClass,
    CreateWindow,
    SelectObject,
    CreateBitmap,
    UpdateLayeredWindow,
}

/// A failed call into the system: the code that the system gave for it, and
/// the call that failed.
#[derive(Clone, Copy, Debug, PartialEq, Eq, Structural)]
pub struct WindowsError {
    pub code: u32,
    pub error_type: WindowsErrorType,
}

impl From<u32> for WindowsError {
    /// The error of a call that is not told apart from others, by its code.
    fn from(value: u32) -> (error: Self) {
        Self { code: value, error_type: WindowsErrorType::Other }
    }
}

impl FromSpecImpl<u32> for WindowsError {
    open spec fn obeys_from_spec() -> bool {
        true
    }

    open spec fn from_spec(value: u32) -> Self {
        WindowsError { code: value, error_type: WindowsErrorType::Other }
    }
}

/// The length of one dash of a dotted curve, and of one gap.
pub const DOT_LENGTH: i32 = 4;

/// Whether a point of a curve has left the view: beyond the right edge, or at
/// or beyond the left edge or the bottom.
pub open spec fn left_view(point: Coordinate<i32>, dimensions: Size<u32>) -> bool {
    point.0 > dimensions.0 || point.0 <= 0 || point.1 <= 0
}

/// The square of the distance between two points.
pub open spec fn distance_squared(from: Coordinate<i32>, to: Coordinate<i32>) -> int {
    (to.0 - from.0) * (to.0 - from.0) + (to.1 - from.1) * (to.1 - from.1)
}

/// Whether the stretch between two points is as long as a dash.
pub open spec fn dot_complete(from: Coordinate<i32>, to: Coordinate<i32>, dot_length: int) -> bool {
    dot_length <= 0 || distance_squared(from, to) >= dot_length * dot_length
}

/// A walk along a curve that cuts it into dashes and gaps: whether the
/// stretch under way is a dash, where it started, and the dashes so far.
pub struct Dashes {
    pub solid: bool,
    pub start: Coordinate<i32>,
    pub segments: Seq<(Coordinate<i32>, Coordinate<i32>)>,
}

/// The walk over `points`, which starts with a dash at the first point. Each
/// later point that is a dash's length away from the start of the stretch under
/// way ends that stretch and starts the next; a dash that ends is kept, a gap
/// that ends leaves nothing.
pub open spec fn dashes(points: Seq<Coordinate<i32>>, dot_length: int) -> Dashes
    decreases points.len(),
{
    if points.len() <= 1 {
        Dashes { solid: true, start: points[0], segments: Seq::empty() }
    } else {
        let before = dashes(points.drop_last(), dot_length);
        let current = points.last();
        if dot_complete(before.start, current, dot_length) {
            Dashes {
                solid: !before.solid,
                start: current,
                segments: if before.solid {
                    before.segments.push((before.start, current))
                } else {
                    before.segments
                },
            }
        } else {
            before
        }
    }
}

impl Dashes {
    /// Whether dashes and gaps take turns: every dash is as long as a dash, a
    /// gap as long as a dash lies between each dash and the next, and the
    /// stretch under way is a gap that starts where the last dash ended, or a
    /// dash that starts a gap's length after it.
    pub open spec fn alternates(self, dot_length: int) -> bool {
        &&& forall|k: int|
            0 <= k < self.segments.len() ==> dot_complete(
                (#[trigger] self.segments[k]).0,
                self.segments[k].1,
                dot_length,
            )
        &&& forall|k: int|
            0 <= k < self.segments.len() - 1 ==> dot_complete(
                (#[trigger] self.segments[k]).1,
                self.segments[k + 1].0,
                dot_length,
            )
        &&& self.segments.len() == 0 ==> self.solid
        &&& self.segments.len() > 0 && self.solid ==> dot_complete(
            self.segments.last().1,
            self.start,
            dot_length,
        )
        &&& self.segments.len() > 0 && !self.solid ==> self.start == self.segments.last().1
    }
}

/// Along any points, dashes and gaps take turns.
pub proof fn lemma_dashes_alternate(points: Seq<Coordinate<i32>>, dot_length: int)
    ensures
        dashes(points, dot_length).alternates(dot_length),
    decreases points.len(),
{
    if points.len() > 1 {
        lemma_dashes_alternate(points.drop_last(), dot_length);
        let before = dashes(points.drop_last(), dot_length);
        let after = dashes(points, dot_length);
        let current = points.last();
        if dot_complete(before.start, current, dot_length) && before.solid {
            assert(after.segments == before.segments.push((before.start, current)));
            assert forall|k: int| 0 <= k < after.segments.len() - 1 implies dot_complete(
                (#[trigger] after.segments[k]).1,
                after.segments[k + 1].0,
                dot_length,
            ) by {
                if k < before.segments.len() - 1 {
                    assert(after.segments[k] == before.segments[k]);
                    assert(after.segments[k + 1] == before.segments[k + 1]);
                }
            }
            assert forall|k: int| 0 <= k < after.segments.len() implies dot_complete(
                (#[trigger] after.segments[k]).0,
                after.segments[k].1,
                dot_length,
            ) by {
                if k < before.segments.len() {
                    assert(after.segments[k] == before.segments[k]);
                }
            }
        }
    }
}

/// The step at which the stretch under way started: the last of `cuts`, or
/// step 0 where nothing was cut yet.
pub open spec fn last_cut(cuts: Seq<int>) -> int {
    if cuts.len() == 0 {
        0
    } else {
        cuts.last()
    }
}

/// The step at which stretch `k` started: the cut before cut `k`, or step 0
/// for the first stretch.
pub open spec fn stretch_start(cuts: Seq<int>, k: int) -> int {
    if k == 0 {
        0
    } else {
        cuts[k - 1]
    }
}

/// The steps at which the walk over `points` ends a stretch and starts the
/// next, in their order.
pub open spec fn cuts(points: Seq<Coordinate<i32>>, dot_length: int) -> Seq<int>
    decreases points.len(),
{
    if points.len() <= 1 {
        Seq::empty()
    } else {
        let before = cuts(points.drop_last(), dot_length);
        if dot_complete(points[last_cut(before)], points.last(), dot_length) {
            before.push(points.len() - 1)
        } else {
            before
        }
    }
}

/// Whether `cuts` holds a cut `k`, the end of stretch `k`.
pub open spec fn is_stretch(cuts: Seq<int>, k: int) -> bool {
    0 <= k < cuts.len()
}

/// Whether step `m` lies inside stretch `k`: after its start and before its end.
pub open spec fn in_stretch(cuts: Seq<int>, k: int, m: int) -> bool {
    0 <= k < cuts.len() && stretch_start(cuts, k) < m < cuts[k]
}

/// Whether `cuts` are the steps at which a walk over `points` is cut by the
/// rule: each stretch ends at the first point after its start that is a
/// dash's length away from it; no point inside a stretch is, and none after
/// the last cut is a dash's length away from the last cut.
pub open spec fn cut_by_rule(
    points: Seq<Coordinate<i32>>,
    cuts: Seq<int>,
    dot_length: int,
) -> bool {
    &&& forall|k: int| #[trigger]
        is_stretch(cuts, k) ==> 0 <= stretch_start(cuts, k) < cuts[k] < points.len()
            && dot_complete(points[stretch_start(cuts, k)], points[cuts[k]], dot_length)
    &&& forall|k: int, m: int| #[trigger]
        in_stretch(cuts, k, m) ==> !dot_complete(
            points[stretch_start(cuts, k)],
            points[m],
            dot_length,
        )
    &&& forall|m: int|
        last_cut(cuts) < m < points.len() ==> !dot_complete(
            points[last_cut(cuts)],
            #[trigger] points[m],
            dot_length,
        )
}

/// Whether the walk `walk` over `points` draws between the cuts `cuts`: the
/// first dash from the first point to the first cut, and every further dash
/// from every second cut to the cut after it; the stretch under way starts at
/// the last cut and is a dash when the number of cuts is even.
pub open spec fn drawn_between(
    walk: Dashes,
    points: Seq<Coordinate<i32>>,
    cuts: Seq<int>,
) -> bool {
    &&& walk.start == points[last_cut(cuts)]
    &&& walk.solid == (cuts.len() % 2 == 0)
    &&& walk.segments.len() == (cuts.len() + 1) / 2
    &&& forall|i: int|
        0 <= i < walk.segments.len() ==> #[trigger] walk.segments[i] == (
            points[stretch_start(cuts, 2 * i)],
            points[cuts[2 * i]],
        )
}

/// Cuts that follow the rule stay so when the next point ends a stretch and
/// its step is added to them.
proof fn lemma_cut_added(points: Seq<Coordinate<i32>>, before: Seq<int>, dot_length: int)
    requires
        points.len() >= 2,
        cut_by_rule(points.drop_last(), before, dot_length),
        dot_complete(points[last_cut(before)], points.last(), dot_length),
    ensures
        cut_by_rule(points, before.push(points.len() - 1), dot_length),
{
    let earlier = points.drop_last();
    let last = points.len() - 1;
    let after = before.push(last);
    let new = before.len() as int;
    let start = last_cut(before);
    if new > 0 {
        assert(is_stretch(before, new - 1));
    }
    assert forall|k: int| #[trigger] is_stretch(after, k) implies 0 <= stretch_start(after, k)
        < after[k] < points.len() && dot_complete(
        points[stretch_start(after, k)],
        points[after[k]],
        dot_length,
    ) by {
        if k < new {
            assert(is_stretch(before, k));
            assert(earlier[stretch_start(before, k)] == points[stretch_start(before, k)]);
            assert(earlier[before[k]] == points[before[k]]);
        }
    }
    assert forall|k: int, m: int| #[trigger] in_stretch(after, k, m) implies !dot_complete(
        points[stretch_start(after, k)],
        points[m],
        dot_length,
    ) by {
        if k < new {
            assert(is_stretch(before, k));
            assert(in_stretch(before, k, m));
            assert(earlier[stretch_start(before, k)] == points[stretch_start(before, k)]);
            assert(earlier[m] == points[m]);
        } else {
            assert(earlier[start] == points[start]);
            assert(earlier[m] == points[m]);
            assert(!dot_complete(earlier[start], earlier[m], dot_length));
        }
    }
}

/// Cuts that follow the rule stay so when the next point ends no stretch.
proof fn lemma_cut_kept(points: Seq<Coordinate<i32>>, before: Seq<int>, dot_length: int)
    requires
        points.len() >= 2,
        cut_by_rule(points.drop_last(), before, dot_length),
        !dot_complete(points[last_cut(before)], points.last(), dot_length),
    ensures
        cut_by_rule(points, before, dot_length),
{
    let earlier = points.drop_last();
    let last = points.len() - 1;
    let new = before.len() as int;
    let start = last_cut(before);
    if new > 0 {
        assert(is_stretch(before, new - 1));
    }
    assert forall|k: int| #[trigger] is_stretch(before, k) implies 0 <= stretch_start(before, k)
        < before[k] < points.len() && dot_complete(
        points[stretch_start(before, k)],
        points[before[k]],
        dot_length,
    ) by {
        assert(earlier[stretch_start(before, k)] == points[stretch_start(before, k)]);
        assert(earlier[before[k]] == points[before[k]]);
    }
    assert forall|k: int, m: int| #[trigger] in_stretch(before, k, m) implies !dot_complete(
        points[stretch_start(before, k)],
        points[m],
        dot_length,
    ) by {
        assert(is_stretch(before, k));
        assert(earlier[stretch_start(before, k)] == points[stretch_start(before, k)]);
        assert(earlier[m] == points[m]);
    }
    assert forall|m: int| start < m < points.len() implies !dot_complete(
        points[start],
        #[trigger] points[m],
        dot_length,
    ) by {
        if m < last {
            assert(earlier[start] == points[start]);
            assert(earlier[m] == points[m]);
            assert(!dot_complete(earlier[start], earlier[m], dot_length));
        }
    }
}

/// A walk cuts its points by the rule: no stretch, dash or gap, ends before
/// it is a dash's length long, and each ends as soon as it is.
pub proof fn lemma_dashes_cut_by_rule(points: Seq<Coordinate<i32>>, dot_length: int)
    requires
        points.len() >= 1,
    ensures
        cut_by_rule(points, cuts(points, dot_length), dot_length),
    decreases points.len(),
{
    if points.len() > 1 {
        lemma_dashes_cut_by_rule(points.drop_last(), dot_length);
        let before = cuts(points.drop_last(), dot_length);
        if dot_complete(points[last_cut(before)], points.last(), dot_length) {
            lemma_cut_added(points, before, dot_length);
        } else {
            lemma_cut_kept(points, before, dot_length);
        }
    }
}

/// A walk draws between its cuts: the first dash starts at the first point
/// and ends at the first cut, and every further dash runs from every second
/// cut to the cut after it.
pub proof fn lemma_dashes_drawn_between_cuts(points: Seq<Coordinate<i32>>, dot_length: int)
    requires
        points.len() >= 1,
    ensures
        drawn_between(dashes(points, dot_length), points, cuts(points, dot_length)),
    decreases points.len(),
{
    if points.len() > 1 {
        let earlier = points.drop_last();
        lemma_dashes_drawn_between_cuts(earlier, dot_length);
        lemma_dashes_cut_by_rule(earlier, dot_length);
        let before = cuts(earlier, dot_length);
        let after = cuts(points, dot_length);
        let walked = dashes(earlier, dot_length);
        let walk = dashes(points, dot_length);
        let last = points.len() - 1;
        let start = last_cut(before);
        if before.len() > 0 {
            assert(is_stretch(before, before.len() - 1));
        }
        assert(walked.start == points[start]);
        assert forall|i: int| 0 <= i < walked.segments.len() implies #[trigger] walked.segments[i]
            == (points[stretch_start(before, 2 * i)], points[before[2 * i]]) by {
            assert(is_stretch(before, 2 * i));
        }
        if dot_complete(points[start], points.last(), dot_length) {
            assert(after == before.push(last));
            assert forall|i: int| 0 <= i < walk.segments.len() implies #[trigger] walk.segments[i]
                == (points[stretch_start(after, 2 * i)], points[after[2 * i]]) by {
                if i < walked.segments.len() {
                    assert(walk.segments[i] == walked.segments[i]);
                }
            }
        }
    }
}

/// The first `count` points of a level path that starts in column `x` of row
/// `y` and moves one pixel to the right at each step.
pub open spec fn level_points(x: int, y: i32, count: nat) -> Seq<Coordinate<i32>> {
    Seq::new(count, |t: int| Coordinate((x + t) as i32, y))
}

/// Along a level path that moves one pixel at each step, a stretch ends every
/// `dot_length` pixels, and every other stretch is a dash: dash `k` runs from
/// `2 * k` to `2 * k + 1` dashes' lengths after the start. So a path of some
/// length holds as many dashes as the pairs of a dash and a gap that fit in
/// it, or one more.
pub proof fn lemma_level_path_dashes(x: int, y: i32, count: nat, dot_length: int)
    requires
        count >= 1,
        dot_length > 0,
        i32::MIN <= x,
        x + count - 1 <= i32::MAX,
    ensures
        ({
            let length = count - 1;
            let walk = dashes(level_points(x, y, count), dot_length);
            &&& walk.segments.len() == (length / dot_length + 1) / 2
            &&& length / (2 * dot_length) <= walk.segments.len() <= length / (2 * dot_length) + 1
            &&& walk.solid == (length / dot_length % 2 == 0)
            &&& walk.start == Coordinate((x + length / dot_length * dot_length) as i32, y)
            &&& forall|k: int|
                0 <= k < walk.segments.len() ==> #[trigger] walk.segments[k] == (
                    Coordinate((x + 2 * k * dot_length) as i32, y),
                    Coordinate((x + (2 * k + 1) * dot_length) as i32, y),
                )
        }),
    decreases count,
{
    let length = count - 1;
    let points = level_points(x, y, count);
    let walk = dashes(points, dot_length);
    vstd::arithmetic::div_mod::lemma_div_denominator(length, dot_length, 2);
    assert(dot_length * 2 == 2 * dot_length);
    if count == 1 {
        assert(length / dot_length == 0);
        assert(0int / dot_length * dot_length == 0) by (nonlinear_arith)
            requires
                0int / dot_length == 0,
        ;
    } else {
        lemma_level_path_dashes(x, y, (count - 1) as nat, dot_length);
        assert(points.drop_last() =~= level_points(x, y, (count - 1) as nat));
        let before = dashes(points.drop_last(), dot_length);
        let stretches = (length - 1) / dot_length;
        let rest = (length - 1) % dot_length;
        vstd::arithmetic::div_mod::lemma_fundamental_div_mod(length - 1, dot_length);
        assert(0 <= stretches) by (nonlinear_arith)
            requires
                stretches == (length - 1) / dot_length,
                length - 1 >= 0,
                dot_length > 0,
        ;
        assert(length - 1 == dot_length * stretches + rest);
        assert(dot_length * stretches == stretches * dot_length) by (nonlinear_arith);
        let step = length - stretches * dot_length;
        assert(step == rest + 1);
        let current = points.last();
        assert(current == Coordinate((x + length) as i32, y));
        assert(0 <= stretches * dot_length <= length - 1);
        assert(before.start == Coordinate((x + stretches * dot_length) as i32, y));
        assert(distance_squared(before.start, current) == step * step) by (nonlinear_arith)
            requires
                before.start.0 == x + stretches * dot_length,
                before.start.1 == y,
                current.0 == x + length,
                current.1 == y,
                step == length - stretches * dot_length,
                distance_squared(before.start, current) == (current.0 - before.start.0) * (current.0
                    - before.start.0) + (current.1 - before.start.1) * (current.1
                    - before.start.1),
        ;
        assert(step * step >= dot_length * dot_length <==> step >= dot_length)
            by (nonlinear_arith)
            requires
                step >= 1,
                dot_length >= 1,
        ;
        if step >= dot_length {
            assert(length == (stretches + 1) * dot_length + 0) by (nonlinear_arith)
                requires
                    step == dot_length,
                    step == length - stretches * dot_length,
            ;
            vstd::arithmetic::div_mod::lemma_fundamental_div_mod_converse(
                length,
                dot_length,
                stretches + 1,
                0,
            );
            assert(length / dot_length * dot_length == length);
            if before.solid {
                assert(walk.segments == before.segments.push((before.start, current)));
                let last = before.segments.len() as int;
                assert(stretches == 2 * last);
                assert(x + 2 * last * dot_length == x + stretches * dot_length) by (nonlinear_arith)
                    requires
                        stretches == 2 * last,
                ;
                assert(x + (2 * last + 1) * dot_length == x + length) by (nonlinear_arith)
                    requires
                        stretches == 2 * last,
                        length == (stretches + 1) * dot_length,
                ;
                assert forall|k: int|
                    0 <= k < walk.segments.len() implies #[trigger] walk.segments[k] == (
                    Coordinate((x + 2 * k * dot_length) as i32, y),
                    Coordinate((x + (2 * k + 1) * dot_length) as i32, y),
                ) by {
                    if k < last {
                        assert(walk.segments[k] == before.segments[k]);
                    }
                }
            }
        } else {
            vstd::arithmetic::div_mod::lemma_fundamental_div_mod_converse(
                length,
                dot_length,
                stretches,
                step,
            );
        }
    }
}

/// Whether `points` are values of `curve` at the steps 0, 1, 2 and so on.
pub open spec fn follows<F: FnMut(i32) -> Coordinate<i32>>(
    curve: F,
    points: Seq<Coordinate<i32>>,
) -> bool {
    forall|t: int| 0 <= t < points.len() ==> call_ensures(curve, (t as i32,), #[trigger] points[t])
}

/// Whether every point after the first lies in the view.
pub open spec fn stays_in_view(points: Seq<Coordinate<i32>>, dimensions: Size<u32>) -> bool {
    forall|t: int| 1 <= t < points.len() ==> !left_view(#[trigger] points[t], dimensions)
}

/// Whether a walk over `points` goes no further: the curve has left the view at
/// the next step, or there is no next step to count.
pub open spec fn walk_ends<F: FnMut(i32) -> Coordinate<i32>>(
    curve: F,
    points: Seq<Coordinate<i32>>,
    dimensions: Size<u32>,
) -> bool {
    points.len() > i32::MAX || exists|next: Coordinate<i32>|
        call_ensures(curve, (points.len() as i32,), next) && left_view(next, dimensions)
}

/// Whether `points` are the whole walk along `curve` in a view of `dimensions`.
pub open spec fn is_walk<F: FnMut(i32) -> Coordinate<i32>>(
    curve: F,
    points: Seq<Coordinate<i32>>,
    dimensions: Size<u32>,
) -> bool {
    &&& 1 <= points.len() <= i32::MAX + 1
    &&& follows(curve, points)
    &&& stays_in_view(points, dimensions)
    &&& walk_ends(curve, points, dimensions)
}

/// Returns whether `point` has left a view of `dimensions`.
fn has_left_view(point: Coordinate<i32>, dimensions: Size<u32>) -> (left: bool)
    ensures
        left == left_view(point, dimensions),
{
    point.0 as i64 > dimensions.0 as i64 || point.0 <= 0 || point.1 <= 0
}

/// Returns whether the stretch between two points is as long as a dash.
fn is_dot_complete(from: Coordinate<i32>, to: Coordinate<i32>, dot_length: i32) -> (complete: bool)
    ensures
        complete == dot_complete(from, to, dot_length as int),
{
    if dot_length <= 0 {
        return true;
    }
    let dx: i128 = to.0 as i128 - from.0 as i128;
    let dy: i128 = to.1 as i128 - from.1 as i128;
    let dot: i128 = dot_length as i128;
    assert(0 <= dx * dx <= 0x1_0000_0000 * 0x1_0000_0000) by (nonlinear_arith)
        requires
            -0x1_0000_0000 <= dx <= 0x1_0000_0000,
    ;
    assert(0 <= dy * dy <= 0x1_0000_0000 * 0x1_0000_0000) by (nonlinear_arith)
        requires
            -0x1_0000_0000 <= dy <= 0x1_0000_0000,
    ;
    assert(0 <= dot * dot <= 0x1_0000_0000 * 0x1_0000_0000) by (nonlinear_arith)
        requires
            0 <= dot <= 0x1_0000_0000,
    ;
    dx * dx + dy * dy >= dot * dot
}

/// Walks along `curve` from step 0 and returns the dashes of the dotted line
/// along it, each as its two ends. The first dash starts at the curve's first
/// point. The walk ends at the first step after 0 at which the curve has left
/// a view of `dimensions`; a stretch under way then is dropped.
pub fn dotted_parametric_curve<F: FnMut(i32) -> Coordinate<i32>>(
    dimensions: Size<u32>,
    dot_length: i32,
    mut curve: F,
) -> (segments: Vec<(Coordinate<i32>, Coordinate<i32>)>)
    requires
        forall|t: i32| t >= 0 ==> call_requires(curve, (t,)),
    ensures
        exists|points: Seq<Coordinate<i32>>|
            is_walk(curve, points, dimensions) && segments@ == #[trigger] dashes(
                points,
                dot_length as int,
            ).segments,
        forall|k: int|
            0 <= k < segments@.len() ==> dot_complete(
                (#[trigger] segments@[k]).0,
                segments@[k].1,
                dot_length as int,
            ),
        forall|k: int|
            0 <= k < segments@.len() - 1 ==> dot_complete(
                (#[trigger] segments@[k]).1,
                segments@[k + 1].0,
                dot_length as int,
            ),
        segments@.len() > 0 ==> call_ensures(curve, (0i32,), segments@[0].0),
{
    let ghost path = curve;
    let mut segments: Vec<(Coordinate<i32>, Coordinate<i32>)> = Vec::new();
    let mut solid_part = true;
    let mut t: i32 = 0;
    let mut temp_start = curve(t);
    let ghost mut points: Seq<Coordinate<i32>> = seq![temp_start];
    loop
        invariant_except_break
            points.len() == t + 1,
        invariant
            0 <= t <= i32::MAX,
            curve == path,
            forall|t: i32| t >= 0 ==> call_requires(curve, (t,)),
            1 <= points.len() <= i32::MAX + 1,
            follows(path, points),
            stays_in_view(points, dimensions),
            solid_part == dashes(points, dot_length as int).solid,
            temp_start == dashes(points, dot_length as int).start,
            segments@ == dashes(points, dot_length as int).segments,
        ensures
            walk_ends(path, points, dimensions),
        decreases i32::MAX - t,
    {
        if t == i32::MAX {
            break ;
        }
        t += 1;
        let current = curve(t);
        if has_left_view(current, dimensions) {
            break ;
        }
        let ghost before = points;
        proof {
            points = points.push(current);
            assert(points.drop_last() == before);
        }
        if is_dot_complete(temp_start, current, dot_length) {
            if solid_part {
                segments.push((temp_start, current));
            }
            solid_part = !solid_part;
            temp_start = current;
        }
    }
    proof {
        assert(is_walk(path, points, dimensions));
        lemma_dashes_alternate(points, dot_length as int);
        lemma_dashes_drawn_between_cuts(points, dot_length as int);
        assert(call_ensures(path, (0i32,), points[0]));
    }
    segments
}

/// The first step from `from` on at which `path` has left the view, and the
/// step after the last one that can be counted where it never does.
pub open spec fn walk_length(
    path: spec_fn(int) -> Coordinate<i32>,
    dimensions: Size<u32>,
    from: int,
) -> int
    decreases i32::MAX + 1 - from,
{
    if from > i32::MAX {
        from
    } else if left_view(path(from), dimensions) {
        from
    } else {
        walk_length(path, dimensions, from + 1)
    }
}

/// The points of the walk along `path`: the point at step 0, and every point
/// after it up to the first that has left the view.
pub open spec fn walk_points(path: spec_fn(int) -> Coordinate<i32>, dimensions: Size<u32>) -> Seq<
    Coordinate<i32>,
> {
    Seq::new(walk_length(path, dimensions, 1) as nat, |t: int| path(t))
}

/// The dashes of the dotted line along `path` in a view of `dimensions`.
pub open spec fn dotted_path(
    path: spec_fn(int) -> Coordinate<i32>,
    dimensions: Size<u32>,
    dot_length: int,
) -> Seq<(Coordinate<i32>, Coordinate<i32>)> {
    dashes(walk_points(path, dimensions), dot_length).segments
}

/// The level path that starts in column `x` of row `y` and moves one pixel
/// to the right at each step.
pub open spec fn level_path(x: int, y: i32) -> spec_fn(int) -> Coordinate<i32> {
    |t: int| Coordinate((x + t) as i32, y)
}

/// A level path that moves one pixel at each step leaves the view one step
/// after it reaches the right edge.
proof fn lemma_level_walk_length(x: int, y: i32, dimensions: Size<u32>, from: int)
    requires
        0 <= x <= dimensions.0 < i32::MAX,
        y > 0,
        1 <= from <= dimensions.0 - x + 1,
    ensures
        walk_length(level_path(x, y), dimensions, from) == dimensions.0 - x + 1,
    decreases dimensions.0 - x + 1 - from,
{
    let point = level_path(x, y)(from);
    assert(point == Coordinate((x + from) as i32, y));
    if from <= dimensions.0 - x {
        assert(!left_view(point, dimensions));
        lemma_level_walk_length(x, y, dimensions, from + 1);
    } else {
        assert(left_view(point, dimensions));
    }
}

/// The dotted line along a level path that moves one pixel at each step, from
/// column `x` to the right edge of the view: a dash from every second
/// multiple of `dot_length` after `x` to the next multiple. It holds as many
/// dashes as the pairs of a dash and a gap that fit in the path, or one more.
pub proof fn lemma_level_walk(x: int, y: i32, dimensions: Size<u32>, dot_length: int)
    requires
        0 <= x <= dimensions.0 < i32::MAX,
        y > 0,
        dot_length > 0,
    ensures
        ({
            let length = dimensions.0 - x;
            let drawn = dotted_path(level_path(x, y), dimensions, dot_length);
            &&& walk_points(level_path(x, y), dimensions) == level_points(
                x,
                y,
                (length + 1) as nat,
            )
            &&& drawn.len() == (length / dot_length + 1) / 2
            &&& length / (2 * dot_length) <= drawn.len() <= length / (2 * dot_length) + 1
            &&& forall|k: int|
                0 <= k < drawn.len() ==> #[trigger] drawn[k] == (
                    Coordinate((x + 2 * k * dot_length) as i32, y),
                    Coordinate((x + (2 * k + 1) * dot_length) as i32, y),
                )
        }),
{
    let length = dimensions.0 - x;
    lemma_level_walk_length(x, y, dimensions, 1);
    assert(walk_points(level_path(x, y), dimensions) =~= level_points(x, y, (length + 1) as nat));
    lemma_level_path_dashes(x, y, (length + 1) as nat, dot_length);
}

/// Whether `curve` gives at every step the point that `path` names.
pub open spec fn computes<F: FnMut(i32) -> Coordinate<i32>>(
    curve: F,
    path: spec_fn(int) -> Coordinate<i32>,
) -> bool {
    forall|t: i32, point: Coordinate<i32>|
        call_ensures(curve, (t,), point) ==> point == path(t as int)
}

/// A walk that has stayed in the view up to step `from` ends where the path
/// first leaves the view.
proof fn lemma_walk_length<F: FnMut(i32) -> Coordinate<i32>>(
    curve: F,
    path: spec_fn(int) -> Coordinate<i32>,
    points: Seq<Coordinate<i32>>,
    dimensions: Size<u32>,
    from: int,
)
    requires
        computes(curve, path),
        is_walk(curve, points, dimensions),
        1 <= from <= points.len(),
    ensures
        walk_length(path, dimensions, from) == points.len(),
    decreases points.len() - from,
{
    if from < points.len() {
        assert(call_ensures(curve, (from as i32,), points[from]));
        assert(!left_view(points[from], dimensions));
        lemma_walk_length(curve, path, points, dimensions, from + 1);
    } else if from <= i32::MAX {
        let next = choose|next: Coordinate<i32>|
            call_ensures(curve, (points.len() as i32,), next) && left_view(next, dimensions);
        assert(next == path(from));
    }
}

/// The walk along a curve that computes `path` is the walk along `path`.
pub proof fn lemma_walk_of_path<F: FnMut(i32) -> Coordinate<i32>>(
    curve: F,
    path: spec_fn(int) -> Coordinate<i32>,
    points: Seq<Coordinate<i32>>,
    dimensions: Size<u32>,
)
    requires
        computes(curve, path),
        is_walk(curve, points, dimensions),
    ensures
        points == walk_points(path, dimensions),
{
    lemma_walk_length(curve, path, points, dimensions, 1);
    assert forall|t: int| 0 <= t < points.len() implies points[t] == path(t) by {
        assert(call_ensures(curve, (t as i32,), points[t]));
    }
    assert(points =~= walk_points(path, dimensions));
}

/// Returns the dashes of the dotted line along the shot of `tank` in a view of
/// `dimensions`, each dash and each gap `DOT_LENGTH` long.
pub fn tank_curve_segments(tank: &Tank, dimensions: Size<u32>) -> (segments: Vec<
    (Coordinate<i32>, Coordinate<i32>),
>)
    ensures
        segments@ == dotted_path(
            |t: int| tank.curve_point(t, dimensions),
            dimensions,
            DOT_LENGTH as int,
        ),
{
    let curve = |t: i32| -> (point: Coordinate<i32>)
        ensures
            point == tank.curve_point(t as int, dimensions),
        { tank.curve_function(t, dimensions) };
    let ghost shot = curve;
    let ghost path = |t: int| tank.curve_point(t, dimensions);
    let segments = dotted_parametric_curve(dimensions, DOT_LENGTH, curve);
    proof {
        let points = choose|points: Seq<Coordinate<i32>>|
            is_walk(shot, points, dimensions) && segments@ == #[trigger] dashes(
                points,
                DOT_LENGTH as int,
            ).segments;
        assert(computes(shot, path));
        lemma_walk_of_path(shot, path, points, dimensions);
    }
    segments
}

/// The width of the border that the system draws on each side of a window.
pub const WINDOW_BORDER: i32 = 8;

/// The distance between two edges of a rectangle.
pub open spec fn span(one: i32, other: i32) -> int {
    if one >= other {
        one - other
    } else {
        other - one
    }
}

/// Returns the distance between two edges of a rectangle.
fn edge_distance(one: i32, other: i32) -> (distance: u32)
    ensures
        distance == span(one, other),
{
    if one >= other {
        (one as i64 - other as i64) as u32
    } else {
        (other as i64 - one as i64) as u32
    }
}

/// Returns the size of a window (width first, then height) from the edges of
/// its frame on the screen: the frame without the border on each side.
pub fn window_dimensions(left: i32, top: i32, right: i32, bottom: i32) -> (dimensions: Size<u32>)
    requires
        span(right, left) >= 2 * WINDOW_BORDER,
        span(top, bottom) >= 2 * WINDOW_BORDER,
    ensures
        dimensions.0 == span(right, left) - 2 * WINDOW_BORDER,
        dimensions.1 == span(top, bottom) - 2 * WINDOW_BORDER,
{
    let width = edge_distance(right, left);
    let height = edge_distance(top, bottom);
    Size(width - 16, height - 16)
}

/// Where a point of a view of `dimensions`, counted from the bottom left, lies
/// on the window's surface, which counts from the top left and has the border
/// around the view.
pub open spec fn surface_point(point: Coordinate<i32>, dimensions: Size<u32>) -> (int, int) {
    (point.0 + WINDOW_BORDER, dimensions.1 - (point.1 - WINDOW_BORDER))
}

/// Returns the two ends of a line on the window's surface, for a line given by
/// its ends in a view of `dimensions`.
pub fn line_on_surface(
    dimensions: Size<u32>,
    from: Coordinate<i32>,
    to: Coordinate<i32>,
) -> (ends: (Coordinate<i32>, Coordinate<i32>))
    requires
        dimensions.1 <= i32::MAX,
        from.0 <= i32::MAX - WINDOW_BORDER,
        to.0 <= i32::MAX - WINDOW_BORDER,
        i32::MIN + WINDOW_BORDER <= from.1,
        i32::MIN + WINDOW_BORDER <= to.1,
        i32::MIN <= surface_point(from, dimensions).1 <= i32::MAX,
        i32::MIN <= surface_point(to, dimensions).1 <= i32::MAX,
    ensures
        (ends.0.0 as int, ends.0.1 as int) == surface_point(from, dimensions),
        (ends.1.0 as int, ends.1.1 as int) == surface_point(to, dimensions),
{
    let from = (from.0 + 8, from.1 - 8);
    let to = (to.0 + 8, to.1 - 8);
    let height = dimensions.1 as i32;
    (Coordinate(from.0, height - from.1), Coordinate(to.0, height - to.1))
}

/// The number of bytes of a picture of `dimensions` with four bytes to a pixel.
pub open spec fn picture_bytes(dimensions: Size<u32>) -> int {
    dimensions.0 * dimensions.1 * 4
}

/// Returns the number of bytes of a picture of `dimensions` with four bytes to
/// a pixel.
pub fn bitmap_size_image(dimensions: Size<u32>) -> (bytes: u32)
    requires
        picture_bytes(dimensions) <= u32::MAX,
    ensures
        bytes == picture_bytes(dimensions),
{
    assert(dimensions.0 * dimensions.1 <= dimensions.0 * dimensions.1 * 4) by (nonlinear_arith)
        requires
            0 <= dimensions.0,
            0 <= dimensions.1,
    ;
    dimensions.0 * dimensions.1 * 4
}

/// The name by which the game's window is known, in 16-bit units: "ShellShock".
pub const SHELLSHOCK: [u16; 10] = [83, 104, 101, 108, 108, 83, 104, 111, 99, 107];

/// Whether `word` stands in `text` from the place `at` on.
pub open spec fn stands_at(text: Seq<u16>, word: Seq<u16>, at: int) -> bool {
    0 <= at && at + word.len() <= text.len() && text.subrange(at, at + word.len()) == word
}

/// Whether `word` stands somewhere in `text`.
pub open spec fn holds_word(text: Seq<u16>, word: Seq<u16>) -> bool {
    exists|at: int| stands_at(text, word, at)
}

/// Returns whether the ten units of `window` spell the game's name.
fn is_name(window: &[u16]) -> (same: bool)
    requires
        window@.len() == 10,
    ensures
        same == (window@ == SHELLSHOCK@),
{
    let mut i: usize = 0;
    while i < 10
        invariant
            i <= 10,
            window@.len() == 10,
            forall|k: int| 0 <= k < i ==> window@[k] == SHELLSHOCK@[k],
        decreases 10 - i,
    {
        if window[i] != SHELLSHOCK[i] {
            return false;
        }
        i += 1;
    }
    assert(window@ =~= SHELLSHOCK@);
    true
}

/// Returns whether a window's title holds the game's name.
pub fn is_shellshock_title(title: &[u16]) -> (found: bool)
    ensures
        found == holds_word(title@, SHELLSHOCK@),
{
    if title.len() < 10 {
        assert(!holds_word(title@, SHELLSHOCK@));
        return false;
    }
    let last = title.len() - 10;
    let mut at: usize = 0;
    while at <= last
        invariant
            last == title@.len() - 10,
            last <= usize::MAX - 10,
            at <= last + 1,
            forall|k: int| 0 <= k < at ==> !stands_at(title@, SHELLSHOCK@, k),
        decreases last + 1 - at,
    {
        let window = &title[at..at + 10];
        if is_name(window) {
            assert(stands_at(title@, SHELLSHOCK@, at as int));
            return true;
        }
        at += 1;
    }
    assert(!holds_word(title@, SHELLSHOCK@));
    false
}

} // verus!
