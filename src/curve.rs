//! Breakpoints, the validity of a breakpoint sequence, the piecewise linear
//! function that it defines, and the query contract shared by all curves.

use vstd::prelude::*;
use crate::canonical::{interp, lemma_interp_bounds, lemma_scaled_fraction_monotone, x_ok, y_ok, ONE};

verus! {

/// One stored point of a curve: a domain value and a range value.
#[derive(Clone, Copy, Debug, PartialEq, Eq)]
pub struct Tup {
    pub x: i64,
    pub y: i64,
}

/// A breakpoint sequence that defines a curve: at least two points, domain
/// strictly increasing, range non-decreasing from exactly 0 to exactly 1.
pub open spec fn valid_points(s: Seq<Tup>) -> bool {
    &&& s.len() >= 2
    &&& s[0].y == 0
    &&& s[s.len() - 1].y == ONE
    &&& forall|i: int| #![trigger s[i]] 0 <= i < s.len() ==> x_ok(s[i].x as int) && y_ok(s[i].y as int)
    &&& forall|i: int, j: int|
        #![trigger s[i], s[j]]
        0 <= i < j < s.len() ==> s[i].x < s[j].x && s[i].y <= s[j].y
}

/// The domain values of a breakpoint sequence.
pub open spec fn xs_of(s: Seq<Tup>) -> Seq<i64> {
    Seq::new(s.len(), |i: int| s[i].x)
}

/// The range values of a breakpoint sequence.
pub open spec fn ys_of(s: Seq<Tup>) -> Seq<i64> {
    Seq::new(s.len(), |i: int| s[i].y)
}

/// Index of the segment `[s[i].x, s[i+1].x)` that holds `x`.
pub open spec fn segment(s: Seq<Tup>, x: int) -> int {
    choose|i: int| 0 <= i < s.len() - 1 && #[trigger] s[i].x <= x < s[i + 1].x
}

/// The curve's value at `x`: 0 at and below the first point, 1 at and above
/// the last one, linear interpolation (rounded down) in between.
pub open spec fn y_at(s: Seq<Tup>, x: int) -> int {
    if x <= s[0].x {
        0
    } else if x >= s[s.len() - 1].x {
        ONE as int
    } else {
        let i = segment(s, x);
        interp(x, s[i].x as int, s[i].y as int, s[i + 1].x as int, s[i + 1].y as int)
    }
}

/// Any segment that holds `x` is the one `segment` names.
pub proof fn lemma_segment_unique(s: Seq<Tup>, x: int, i: int)
    requires
        valid_points(s),
        0 <= i < s.len() - 1,
        s[i].x <= x < s[i + 1].x,
    ensures
        segment(s, x) == i,
{
    let j = segment(s, x);
    assert(0 <= j < s.len() - 1 && s[j].x <= x < s[j + 1].x);
    if j < i {
        assert(s[j + 1].x <= s[i].x);
    }
    if i < j {
        assert(s[i + 1].x <= s[j].x);
    }
}

/// Inside the domain, some segment holds `x`.
pub proof fn lemma_segment_exists(s: Seq<Tup>, x: int)
    requires
        valid_points(s),
        s[0].x <= x < s[s.len() - 1].x,
    ensures
        0 <= segment(s, x) < s.len() - 1,
        s[segment(s, x)].x <= x < s[segment(s, x) + 1].x,
{
    let i = segment_from(s, x, 0);
    assert(s[i].x <= x < s[i + 1].x);
}

proof fn segment_from(s: Seq<Tup>, x: int, k: int) -> (i: int)
    requires
        valid_points(s),
        0 <= k < s.len() - 1,
        s[k].x <= x < s[s.len() - 1].x,
    ensures
        k <= i < s.len() - 1,
        s[i].x <= x < s[i + 1].x,
    decreases s.len() - k,
{
    if x < s[k + 1].x {
        k
    } else {
        segment_from(s, x, k + 1)
    }
}

/// The value at a point inside the domain, through the segment that holds it.
pub proof fn lemma_y_at_segment(s: Seq<Tup>, x: int, i: int)
    requires
        valid_points(s),
        0 <= i < s.len() - 1,
        s[i].x <= x < s[i + 1].x,
    ensures
        y_at(s, x) == interp(x, s[i].x as int, s[i].y as int, s[i + 1].x as int, s[i + 1].y as int),
        s[i].y <= y_at(s, x) <= s[i + 1].y,
{
    lemma_segment_unique(s, x, i);
    assert(s[i].y <= s[i + 1].y);
    if x <= s[0].x {
        assert(i == 0);
        assert(s[0].y == 0);
    }
    lemma_interp_bounds(x, s[i].x as int, s[i].y as int, s[i + 1].x as int, s[i + 1].y as int);
    if x >= s[s.len() - 1].x {
        assert(false);
    }
}

/// The curve passes through each of its breakpoints.
pub proof fn lemma_y_at_breakpoint(s: Seq<Tup>, k: int)
    requires
        valid_points(s),
        0 <= k < s.len(),
    ensures
        y_at(s, s[k].x as int) == s[k].y,
{
    if k < s.len() - 1 && k > 0 {
        assert(s[0].x < s[k].x);
        lemma_y_at_segment(s, s[k].x as int, k);
        lemma_interp_bounds(s[k].x as int, s[k].x as int, s[k].y as int, s[k + 1].x as int, s[k + 1].y as int);
    } else if k == s.len() - 1 {
        assert(s[0].x < s[k].x);
    }
}

/// The curve's values lie in [0, 1].
pub proof fn lemma_y_at_range(s: Seq<Tup>, x: int)
    requires
        valid_points(s),
    ensures
        y_ok(y_at(s, x)),
{
    if s[0].x < x < s[s.len() - 1].x {
        lemma_segment_exists(s, x);
        let i = segment(s, x);
        lemma_y_at_segment(s, x, i);
        assert(y_ok(s[i].y as int) && y_ok(s[i + 1].y as int));
    }
}

/// The curve never decreases.
pub proof fn lemma_y_at_monotone(s: Seq<Tup>, x1: int, x2: int)
    requires
        valid_points(s),
        x1 <= x2,
    ensures
        y_at(s, x1) <= y_at(s, x2),
{
    lemma_y_at_range(s, x1);
    lemma_y_at_range(s, x2);
    let n = s.len() - 1;
    if s[0].x < x1 && x2 < s[n].x {
        lemma_segment_exists(s, x1);
        lemma_segment_exists(s, x2);
        let i1 = segment(s, x1);
        let i2 = segment(s, x2);
        lemma_y_at_segment(s, x1, i1);
        lemma_y_at_segment(s, x2, i2);
        if i1 == i2 {
            reveal(interp);
            lemma_scaled_fraction_monotone(
                s[i1 + 1].y - s[i1].y,
                x1 - s[i1].x,
                x2 - s[i1].x,
                s[i1 + 1].x - s[i1].x,
            );
        } else if i2 < i1 {
            assert(s[i2 + 1].x <= s[i1].x);
        } else {
            assert(s[i1 + 1].y <= s[i2].y);
        }
    }
}

/// A curve is 0 at its first breakpoint, 1 at its last, and never
/// decreases in between or beyond.
pub proof fn lemma_curve_shape<C: Curve>(c: &C, x1: int, x2: int)
    requires
        c.wf(),
        x1 <= x2,
    ensures
        y_at(c.breakpoints(), c.breakpoints()[0].x as int) == 0,
        y_at(c.breakpoints(), c.breakpoints()[c.breakpoints().len() - 1].x as int) == ONE,
        y_at(c.breakpoints(), x1) <= y_at(c.breakpoints(), x2),
{
    c.lemma_wf();
    let s = c.breakpoints();
    lemma_y_at_breakpoint(s, 0);
    lemma_y_at_breakpoint(s, s.len() - 1);
    lemma_y_at_monotone(s, x1, x2);
}

/// The query contract of a curve: what every representation offers, stated
/// over the breakpoints that it defines.
pub trait Curve {
    /// The representation's own consistency.
    spec fn wf(&self) -> bool;

    /// The breakpoints of the piecewise linear function that the curve is.
    spec fn breakpoints(&self) -> Seq<Tup>;

    /// The representation's answer to an inverse query.
    spec fn spec_x_at_y(&self, y: int) -> int;

    proof fn lemma_wf(&self)
        requires
            self.wf(),
        ensures
            valid_points(self.breakpoints()),
    ;

    fn min_x(&self) -> (r: i64)
        requires
            self.wf(),
        ensures
            r == self.breakpoints()[0].x,
    ;

    fn max_x(&self) -> (r: i64)
        requires
            self.wf(),
        ensures
            r == self.breakpoints()[self.breakpoints().len() - 1].x,
    ;

    fn y_at_x(&self, x: i64) -> (r: i64)
        requires
            self.wf(),
        ensures
            r == y_at(self.breakpoints(), x as int),
    ;

    fn x_at_y(&self, y: i64) -> (r: i64)
        requires
            self.wf(),
            y_ok(y as int),
        ensures
            r == self.spec_x_at_y(y as int),
            self.breakpoints()[0].x <= r <= self.breakpoints()[self.breakpoints().len() - 1].x,
    ;

    fn get_values_as_vectors(&self) -> (r: (Vec<i64>, Vec<i64>))
        requires
            self.wf(),
        ensures
            r.0@ == xs_of(self.breakpoints()),
            r.1@ == ys_of(self.breakpoints()),
    ;

    fn get_x_values(&self) -> (r: Vec<i64>)
        requires
            self.wf(),
        ensures
            r@ == xs_of(self.breakpoints()),
    ;
}

} // verus!
