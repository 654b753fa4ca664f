//! A curve defined by an ordered list of breakpoints.

use vstd::prelude::*;
use crate::canonical::{x_ok, y_ok, ONE, EPSILON, X_LIMIT, interp, lerp};
pub use crate::curve::Tup;
use crate::curve::{valid_points, Curve, y_at, xs_of, ys_of};
use crate::simplification::{select, dp_keep, drop_rounds, simplify_points, simplify_fixed_points};

verus! {

/// Inserts `p` into a sequence ordered by domain value, after every point
/// whose domain value is not greater (a stable insertion).
pub open spec fn insert_by_x(s: Seq<Tup>, p: Tup) -> Seq<Tup>
    decreases s.len(),
{
    if s.len() == 0 {
        seq![p]
    } else if p.x < s[0].x {
        seq![p] + s
    } else {
        seq![s[0]] + insert_by_x(s.drop_first(), p)
    }
}

/// Stable sort by domain value.
pub open spec fn sort_by_x(s: Seq<Tup>) -> Seq<Tup>
    decreases s.len(),
{
    if s.len() == 0 {
        Seq::empty()
    } else {
        insert_by_x(sort_by_x(s.drop_last()), s.last())
    }
}

/// Sets the first range value to 0 and the last to 1 where they are within
/// `EPSILON` of those bounds.
pub open spec fn snap(s: Seq<Tup>) -> Seq<Tup> {
    let n = s.len();
    let s1 = if n > 0 && -EPSILON < s[0].y < EPSILON {
        s.update(0, Tup { x: s[0].x, y: 0 })
    } else {
        s
    };
    if n > 0 && -EPSILON < s1[n - 1].y - ONE < EPSILON {
        s1.update(n - 1, Tup { x: s1[n - 1].x, y: ONE })
    } else {
        s1
    }
}

/// The breakpoints that a list of points, in any order, stands for.
pub open spec fn prepared(s: Seq<Tup>) -> Seq<Tup> {
    snap(sort_by_x(s))
}

/// Index of the segment `[s[i].y, s[i+1].y)` that holds `y`.
pub open spec fn y_segment(s: Seq<Tup>, y: int) -> int {
    choose|i: int| 0 <= i < s.len() - 1 && #[trigger] s[i].y <= y < s[i + 1].y
}

/// Domain value for `y` on a breakpoint curve: the first point at 0, the last
/// at 1, else interpolation on the last segment that starts at or below `y`.
pub open spec fn x_at(s: Seq<Tup>, y: int) -> int {
    if y == 0 {
        s[0].x as int
    } else if y == ONE {
        s[s.len() - 1].x as int
    } else {
        let i = y_segment(s, y);
        interp(y, s[i].y as int, s[i].x as int, s[i + 1].y as int, s[i + 1].x as int)
    }
}

proof fn lemma_y_segment_unique(s: Seq<Tup>, y: int, i: int)
    requires
        valid_points(s),
        0 <= i < s.len() - 1,
        s[i].y <= y < s[i + 1].y,
    ensures
        y_segment(s, y) == i,
{
    let j = y_segment(s, y);
    assert(0 <= j < s.len() - 1 && s[j].y <= y < s[j + 1].y);
    if j < i {
        assert(s[j + 1].y <= s[i].y);
    }
    if i < j {
        assert(s[i + 1].y <= s[j].y);
    }
}

proof fn lemma_insert_valid(s: Seq<Tup>, i: int, p: Tup)
    requires
        valid_points(s),
        0 <= i < s.len() - 1,
        s[i].x < p.x < s[i + 1].x,
        s[i].y <= p.y <= s[i + 1].y,
    ensures
        valid_points(s.insert(i + 1, p)),
{
    let t = s.insert(i + 1, p);
    assert forall|a: int, b: int| #![trigger t[a], t[b]] 0 <= a < b < t.len() implies t[a].x < t[b].x
        && t[a].y <= t[b].y by {
        if a <= i && b > i + 1 {
            assert(s[a].x <= s[i].x && s[i + 1].x <= s[b - 1].x);
            assert(s[a].y <= s[i].y && s[i + 1].y <= s[b - 1].y);
        } else if a <= i && b == i + 1 {
            assert(s[a].x <= s[i].x && s[a].y <= s[i].y);
        } else if a == i + 1 && b > i + 1 {
            assert(s[i + 1].x <= s[b - 1].x && s[i + 1].y <= s[b - 1].y);
        }
    }
    assert(x_ok(s[i].x as int) && x_ok(s[i + 1].x as int));
    assert(y_ok(s[i].y as int) && y_ok(s[i + 1].y as int));
    assert forall|k: int| #![trigger t[k]] 0 <= k < t.len() implies x_ok(t[k].x as int) && y_ok(t[k].y as int) by {
        if k > i + 1 {
            assert(t[k] == s[k - 1]);
        }
    }
}

proof fn lemma_insert_by_x(s: Seq<Tup>, p: Tup, j: int)
    requires
        0 <= j <= s.len(),
        forall|k: int| 0 <= k < j ==> #[trigger] s[k].x <= p.x,
        j < s.len() ==> p.x < s[j].x,
    ensures
        insert_by_x(s, p) == s.insert(j, p),
    decreases s.len(),
{
    if s.len() == 0 {
        assert(insert_by_x(s, p) =~= s.insert(j, p));
    } else if p.x < s[0].x {
        if j > 0 {
            assert(s[0].x <= p.x);
        }
        assert(insert_by_x(s, p) =~= s.insert(j, p));
    } else {
        if j == 0 {
            assert(false);
        }
        let t = s.drop_first();
        assert forall|k: int| 0 <= k < j - 1 implies #[trigger] t[k].x <= p.x by {
            assert(t[k] == s[k + 1]);
        }
        lemma_insert_by_x(t, p, j - 1);
        assert(insert_by_x(s, p) =~= s.insert(j, p));
    }
}



/// A curve defined by breakpoints; linear between them.
#[derive(Clone, Debug)]
pub struct IrregularDynamicCurve {
    points: Vec<Tup>,
}

impl IrregularDynamicCurve {
    fn binary_search_by_x(&self, x: i64, start: usize, end: usize) -> (r: (usize, i64))
        requires
            self.wf(),
            start < end < self.points@.len(),
            self.points@[start as int].x <= x < self.points@[end as int].x,
        ensures
            start <= r.0 < end,
            self.points@[r.0 as int].x <= x < self.points@[r.0 + 1].x,
            r.1 == y_at(self.points@, x as int),
        decreases end - start,
    {
        if start + 1 == end {
            let l = self.points[start];
            let r = self.points[end];
            proof {
                assert(x_ok(l.x as int) && x_ok(r.x as int) && x_ok(l.y as int) && x_ok(r.y as int));
                assert(l.y <= r.y);
                crate::curve::lemma_y_at_segment(self.points@, x as int, start as int);
            }
            (start, lerp(x, l.x, l.y, r.x, r.y))
        } else {
            let mid = start + (end - start) / 2;
            if x < self.points[mid].x {
                self.binary_search_by_x(x, start, mid)
            } else {
                self.binary_search_by_x(x, mid, end)
            }
        }
    }

    fn binary_search_by_y(&self, y: i64, start: usize, end: usize) -> (r: (usize, i64))
        requires
            self.wf(),
            start < end < self.points@.len(),
            self.points@[start as int].y <= y < self.points@[end as int].y,
        ensures
            start <= r.0 < end,
            self.points@[r.0 as int].y <= y < self.points@[r.0 + 1].y,
            r.1 == interp(
                y as int,
                self.points@[r.0 as int].y as int,
                self.points@[r.0 as int].x as int,
                self.points@[r.0 + 1].y as int,
                self.points@[r.0 + 1].x as int,
            ),
            self.points@[r.0 as int].x <= r.1 <= self.points@[r.0 + 1].x,
        decreases end - start,
    {
        if start + 1 == end {
            let l = self.points[start];
            let r = self.points[end];
            proof {
                assert(x_ok(l.x as int) && x_ok(r.x as int) && x_ok(l.y as int) && x_ok(r.y as int));
                assert(l.x < r.x);
            }
            (start, lerp(y, l.y, l.x, r.y, r.x))
        } else {
            let mid = start + (end - start) / 2;
            if y < self.points[mid].y {
                self.binary_search_by_y(y, start, mid)
            } else {
                self.binary_search_by_y(y, mid, end)
            }
        }
    }

    /// Index of the breakpoint that starts the segment holding `x`; 0 at or
    /// below the first point, the last index at or above the last point.
    pub fn index_at_x(&self, x: i64) -> (r: usize)
        requires
            self.wf(),
        ensures
            r == (if x <= self.breakpoints()[0].x {
                0
            } else if x >= self.breakpoints()[self.breakpoints().len() - 1].x {
                self.breakpoints().len() - 1
            } else {
                crate::curve::segment(self.breakpoints(), x as int)
            }),
    {
        if x <= self.min_x() {
            return 0;
        }
        if x >= self.max_x() {
            return self.points.len() - 1;
        }
        let (i, _y) = self.binary_search_by_x(x, 0, self.points.len() - 1);
        proof {
            crate::curve::lemma_segment_unique(self.points@, x as int, i as int);
        }
        i
    }

    /// Index of the breakpoint that starts the segment holding range value
    /// `y`; 0 at or below 0, the last index at or above 1.
    pub fn index_at_y(&self, y: i64) -> (r: usize)
        requires
            self.wf(),
        ensures
            r == (if y <= 0 {
                0
            } else if y >= ONE {
                self.breakpoints().len() - 1
            } else {
                y_segment(self.breakpoints(), y as int)
            }),
    {
        if y <= 0 {
            return 0;
        }
        if y >= ONE {
            return self.points.len() - 1;
        }
        let (i, _x) = self.binary_search_by_y(y, 0, self.points.len() - 1);
        proof {
            lemma_y_segment_unique(self.points@, y as int, i as int);
        }
        i
    }

    /// Checks that a breakpoint sequence defines a curve.
    pub fn check(points: &Vec<Tup>) -> (r: bool)
        ensures
            r == valid_points(points@),
    {
        let n = points.len();
        if n < 2 {
            return false;
        }
        if points[0].y != 0 || points[n - 1].y != ONE {
            return false;
        }
        let mut i: usize = 0;
        while i < n
            invariant
                n == points@.len(),
                n >= 2,
                i <= n,
                points@[0].y == 0,
                points@[n - 1].y == ONE,
                forall|k: int| #![trigger points@[k]] 0 <= k < i ==> x_ok(points@[k].x as int) && y_ok(points@[k].y as int),
                forall|a: int, b: int|
                    #![trigger points@[a], points@[b]]
                    0 <= a < b < i ==> points@[a].x < points@[b].x && points@[a].y <= points@[b].y,
            decreases n - i,
        {
            let p = points[i];
            if p.x < -X_LIMIT || p.x > X_LIMIT || p.y < 0 || p.y > ONE {
                assert(points@[i as int] == p);
                return false;
            }
            if i > 0 {
                let l = points[i - 1];
                if !(l.x < p.x) || !(l.y <= p.y) {
                    assert(!valid_points(points@)) by {
                        assert(points@[i - 1] == l);
                    }
                    return false;
                }
                assert forall|a: int, b: int|
                    #![trigger points@[a], points@[b]]
                    0 <= a < b < i + 1 implies points@[a].x < points@[b].x
                        && points@[a].y <= points@[b].y by {
                    if b == i && a < i - 1 {
                        assert(points@[a].x < points@[i - 1].x);
                    }
                }
            }
            i += 1;
        }
        true
    }

    /// Builds a curve from points in any order: sorts them by domain value,
    /// snaps the first and last range value, and keeps the result.
    pub fn new(points: Vec<Tup>) -> (r: Self)
        requires
            valid_points(prepared(points@)),
        ensures
            r.wf(),
            r.breakpoints() == prepared(points@),
    {
        let sorted = Self::sort_points(&points);
        let value = Self::snapped(sorted);
        IrregularDynamicCurve { points: value }
    }

    /// Wraps breakpoints that already form a valid curve.
    pub(crate) fn from_valid(points: Vec<Tup>) -> (r: Self)
        requires
            valid_points(points@),
        ensures
            r.wf(),
            r.breakpoints() == points@,
    {
        IrregularDynamicCurve { points }
    }

    /// Builds a curve as `new` does, or returns `None` where the points do
    /// not define one.
    pub fn try_new(points: Vec<Tup>) -> (r: Option<Self>)
        ensures
            r.is_some() == valid_points(prepared(points@)),
            r.is_some() ==> r.unwrap().wf() && r.unwrap().breakpoints() == prepared(points@),
    {
        let sorted = Self::sort_points(&points);
        let value = Self::snapped(sorted);
        if Self::check(&value) {
            Some(IrregularDynamicCurve { points: value })
        } else {
            None
        }
    }

    fn sort_points(points: &Vec<Tup>) -> (r: Vec<Tup>)
        ensures
            r@ == sort_by_x(points@),
    {
        let mut out: Vec<Tup> = Vec::new();
        let n = points.len();
        let mut i: usize = 0;
        while i < n
            invariant
                n == points@.len(),
                i <= n,
                out@ == sort_by_x(points@.subrange(0, i as int)),
            decreases n - i,
        {
            let p = points[i];
            let mut j: usize = 0;
            while j < out.len() && out[j].x <= p.x
                invariant
                    j <= out@.len(),
                    forall|k: int| 0 <= k < j ==> #[trigger] out@[k].x <= p.x,
                decreases out@.len() - j,
            {
                j += 1;
            }
            proof {
                lemma_insert_by_x(out@, p, j as int);
                let t = points@.subrange(0, i + 1);
                assert(t.drop_last() =~= points@.subrange(0, i as int));
                assert(t.last() == p);
            }
            out.insert(j, p);
            i += 1;
        }
        assert(points@.subrange(0, n as int) =~= points@);
        out
    }

    fn snapped(points: Vec<Tup>) -> (r: Vec<Tup>)
        ensures
            r@ == snap(points@),
    {
        let mut points = points;
        let n = points.len();
        if n > 0 && -EPSILON < points[0].y && points[0].y < EPSILON {
            let x0 = points[0].x;
            points.set(0, Tup { x: x0, y: 0 });
        }
        if n > 0 && ONE - EPSILON < points[n - 1].y && points[n - 1].y < ONE + EPSILON {
            let xl = points[n - 1].x;
            points.set(n - 1, Tup { x: xl, y: ONE });
        }
        points
    }

    /// Inserts a breakpoint strictly inside the domain, between the two
    /// points that enclose `x`.
    pub fn add_point(&mut self, x: i64, y: i64)
        requires
            old(self).wf(),
            old(self).breakpoints()[0].x < x < old(self).breakpoints()[old(self).breakpoints().len() - 1].x,
            forall|k: int| 0 <= k < old(self).breakpoints().len() ==> #[trigger] old(self).breakpoints()[k].x != x,
            forall|k: int|
                0 <= k < old(self).breakpoints().len() - 1 && #[trigger] old(self).breakpoints()[k].x < x
                    < old(self).breakpoints()[k + 1].x ==> old(self).breakpoints()[k].y <= y
                    <= old(self).breakpoints()[k + 1].y,
        ensures
            final(self).wf(),
            final(self).breakpoints() == old(self).breakpoints().insert(
                crate::curve::segment(old(self).breakpoints(), x as int) + 1,
                Tup { x, y },
            ),
    {
        let ghost s = self.points@;
        let n = self.points.len();
        let mut i: usize = 0;
        while self.points[i + 1].x < x
            invariant
                self.points@ == s,
                s == old(self).breakpoints(),
                valid_points(s),
                n == s.len(),
                i + 1 < n,
                s[i as int].x < x < s[n - 1].x,
            decreases n - i,
        {
            i += 1;
        }
        assert(s[i + 1].x != x);
        assert(s[i as int].y <= y <= s[i + 1].y);
        self.points.insert(i + 1, Tup { x, y });
        proof {
            lemma_insert_valid(s, i as int, Tup { x, y });
            crate::curve::lemma_segment_unique(s, x as int, i as int);
        }
    }

    /// Douglas–Peucker reduction: drops the interior points of a range when
    /// none lies farther than `tol` from the range's chord, else splits the
    /// range at its farthest point. With `tol == 0` only points exactly on a
    /// chord go.
    pub fn simplify(&mut self, tol: i64)
        requires
            old(self).wf(),
        ensures
            final(self).wf(),
            final(self).breakpoints() == select(old(self).breakpoints(), dp_keep(old(self).breakpoints(), tol as int)),
            final(self).breakpoints().len() <= old(self).breakpoints().len(),
            final(self).breakpoints()[0] == old(self).breakpoints()[0],
            final(self).breakpoints()[final(self).breakpoints().len() - 1]
                == old(self).breakpoints()[old(self).breakpoints().len() - 1],
    {
        let r = simplify_points(&self.points, tol);
        self.points = r;
    }

    /// Removes, one at a time, the middle point of the first consecutive
    /// triple whose middle point lies nearest to its neighbours' chord, until
    /// at most `max_points` points remain.
    pub fn simplify_fixed(&mut self, max_points: usize)
        requires
            old(self).wf(),
            max_points >= 2 || old(self).breakpoints().len() <= max_points,
        ensures
            final(self).wf(),
            final(self).breakpoints() == (if old(self).breakpoints().len() > max_points {
                drop_rounds(old(self).breakpoints(), (old(self).breakpoints().len() - max_points) as nat)
            } else {
                old(self).breakpoints()
            }),
            final(self).breakpoints().len() == (if old(self).breakpoints().len() > max_points {
                max_points as int
            } else {
                old(self).breakpoints().len() as int
            }),
            final(self).breakpoints()[0] == old(self).breakpoints()[0],
            final(self).breakpoints()[final(self).breakpoints().len() - 1]
                == old(self).breakpoints()[old(self).breakpoints().len() - 1],
    {
        simplify_fixed_points(&mut self.points, max_points);
    }

    /// A copy of the curve.
    pub fn duplicate(&self) -> (r: Self)
        requires
            self.wf(),
        ensures
            r.wf(),
            r.breakpoints() == self.breakpoints(),
    {
        let mut points: Vec<Tup> = Vec::new();
        let mut i: usize = 0;
        while i < self.points.len()
            invariant
                i <= self.points@.len(),
                points@ == self.points@.take(i as int),
            decreases self.points@.len() - i,
        {
            points.push(self.points[i]);
            proof {
                assert(points@ =~= self.points@.take(i + 1));
            }
            i += 1;
        }
        assert(points@ =~= self.points@);
        IrregularDynamicCurve { points }
    }

    /// Number of breakpoints.
    pub fn len(&self) -> (r: usize)
        ensures
            r == self.breakpoints().len(),
    {
        self.points.len()
    }
}

impl Curve for IrregularDynamicCurve {
    closed spec fn wf(&self) -> bool {
        valid_points(self.points@)
    }

    closed spec fn breakpoints(&self) -> Seq<Tup> {
        self.points@
    }

    open spec fn spec_x_at_y(&self, y: int) -> int {
        x_at(self.breakpoints(), y)
    }

    proof fn lemma_wf(&self) {
    }

    fn min_x(&self) -> (r: i64) {
        self.points[0].x
    }

    fn max_x(&self) -> (r: i64) {
        self.points[self.points.len() - 1].x
    }

    fn y_at_x(&self, x: i64) -> (r: i64) {
        if x <= self.min_x() {
            return 0;
        }
        if x >= self.max_x() {
            return ONE;
        }
        let (_i, y) = self.binary_search_by_x(x, 0, self.points.len() - 1);
        y
    }

    fn x_at_y(&self, y: i64) -> (r: i64) {
        if y == 0 {
            return self.min_x();
        }
        if y == ONE {
            return self.max_x();
        }
        let (i, x) = self.binary_search_by_y(y, 0, self.points.len() - 1);
        proof {
            lemma_y_segment_unique(self.points@, y as int, i as int);
            assert(self.points@[0].x <= self.points@[i as int].x);
            assert(self.points@[i + 1].x <= self.points@[self.points@.len() - 1].x);
        }
        x
    }

    fn get_values_as_vectors(&self) -> (r: (Vec<i64>, Vec<i64>)) {
        let mut xs: Vec<i64> = Vec::new();
        let mut ys: Vec<i64> = Vec::new();
        let mut i: usize = 0;
        while i < self.points.len()
            invariant
                i <= self.points@.len(),
                xs@ =~= xs_of(self.points@).subrange(0, i as int),
                ys@ =~= ys_of(self.points@).subrange(0, i as int),
            decreases self.points@.len() - i,
        {
            xs.push(self.points[i].x);
            ys.push(self.points[i].y);
            i += 1;
        }
        assert(xs@ =~= xs_of(self.points@));
        assert(ys@ =~= ys_of(self.points@));
        (xs, ys)
    }

    fn get_x_values(&self) -> (r: Vec<i64>) {
        let mut xs: Vec<i64> = Vec::new();
        let mut i: usize = 0;
        while i < self.points.len()
            invariant
                i <= self.points@.len(),
                xs@ =~= xs_of(self.points@).subrange(0, i as int),
            decreases self.points@.len() - i,
        {
            xs.push(self.points[i].x);
            i += 1;
        }
        assert(xs@ =~= xs_of(self.points@));
        xs
    }
}


/// Simplification keeps the curve's value at the domain value of every point
/// that remains, and never adds points.
pub proof fn lemma_simplify_keeps_values(before: Seq<Tup>, after: Seq<Tup>, tol: int)
    requires
        valid_points(before),
        valid_points(after),
        after == select(before, dp_keep(before, tol)),
    ensures
        after.len() <= before.len(),
        forall|k: int| 0 <= k < after.len() ==> #[trigger] y_at(after, after[k].x as int) == y_at(before, after[k].x as int),
{
    crate::simplification::lemma_select_sub(before, dp_keep(before, tol));
    assert forall|k: int| 0 <= k < after.len() implies #[trigger] y_at(after, after[k].x as int) == y_at(before, after[k].x as int) by {
        assert(crate::simplification::drawn_at(after, before, k));
        let j = choose|j: int| 0 <= j < before.len() && after[k] == #[trigger] before[j];
        crate::curve::lemma_y_at_breakpoint(after, k);
        crate::curve::lemma_y_at_breakpoint(before, j);
    }
}


/// Looking up the domain value of the curve's value at `x` gives `x` back,
/// up to the rounding of the two lookups (at most the segment's width over
/// its rise, plus one unit), wherever `x` lies inside the domain on a rising
/// segment that does not start at 0 after a flat run. On flat stretches the
/// inverse answers with the end of the run instead.
pub proof fn lemma_inverse_round_trip(s: Seq<Tup>, x: int)
    requires
        valid_points(s),
        s[0].x < x < s[s.len() - 1].x,
        s[crate::curve::segment(s, x)].y < s[crate::curve::segment(s, x) + 1].y,
        crate::curve::segment(s, x) == 0 || s[crate::curve::segment(s, x)].y > 0,
    ensures
        ({
            let i = crate::curve::segment(s, x);
            let e = (s[i + 1].x - s[i].x) / (s[i + 1].y - s[i].y) + 1;
            x - e <= x_at(s, y_at(s, x)) <= x
        }),
{
    crate::curve::lemma_segment_exists(s, x);
    let i = crate::curve::segment(s, x);
    let lx = s[i].x as int;
    let ly = s[i].y as int;
    let rx = s[i + 1].x as int;
    let ry = s[i + 1].y as int;
    crate::curve::lemma_y_at_segment(s, x, i);
    let t = x - lx;
    let d = rx - lx;
    let h = ry - ly;
    crate::canonical::lemma_floor_round_trip(t, d, h);
    let q = h * t / d;
    crate::canonical::lemma_interp_value(x, lx, ly, rx, ry);
    let y = y_at(s, x);
    assert(y == ly + q);
    let e = d / h + 1;
    let p = q * d / h;
    assert(t - e <= p <= t);
    if y == 0 {
        assert(i == 0);
        assert(q == 0);
        assert(p == 0) by {
            assert(q * d == 0) by (nonlinear_arith)
                requires q == 0;
        }
        assert(x_at(s, y) == lx);
    } else {
        assert(y_ok(ry));
        assert(y != ONE);
        lemma_y_segment_unique(s, y, i);
        crate::canonical::lemma_interp_value(y, ly, lx, ry, rx);
        assert(x_at(s, y) == lx + d * q / h);
        assert(d * q == q * d) by (nonlinear_arith);
        assert(x_at(s, y) == lx + p);
    }
}

} // verus!
