//! A curve sampled at evenly spaced domain values.

use vstd::prelude::*;
use crate::canonical::{interp, lerp, x_ok, y_ok, ONE, X_LIMIT};
use crate::curve::{valid_points, xs_of, ys_of, Curve, Tup};

verus! {

/// The samples and spacing that make a fixed-step curve: a positive step, at
/// least two samples, non-decreasing from exactly 0 to exactly 1, and every
/// sample position within the domain limits.
pub open spec fn regular_ok(s: int, x0: int, y: Seq<i64>) -> bool {
    &&& 0 < s
    &&& y.len() >= 2
    &&& x_ok(x0)
    &&& x_ok(x0 + s * (y.len() - 1))
    &&& y[0] == 0
    &&& y[y.len() - 1] == ONE
    &&& forall|i: int| #![trigger y[i]] 0 <= i < y.len() ==> y_ok(y[i] as int)
    &&& forall|i: int, j: int| #![trigger y[i], y[j]] 0 <= i < j < y.len() ==> y[i] <= y[j]
}

/// The breakpoints of a fixed-step curve: sample `i` at `x0 + i * s`.
pub open spec fn regular_points(s: int, x0: int, y: Seq<i64>) -> Seq<Tup> {
    Seq::new(y.len(), |i: int| Tup { x: (x0 + i * s) as i64, y: y[i] })
}

/// First sample index whose value reaches `y`.
pub open spec fn first_reaching(p: Seq<Tup>, y: int) -> int {
    choose|i: int| 0 <= i < p.len() && #[trigger] p[i].y >= y && forall|j: int| 0 <= j < i ==> #[trigger] p[j].y < y
}

/// Domain value for `y` on a fixed-step curve: at the first sample that
/// reaches `y`, or interpolated between it and the sample before it.
pub open spec fn regular_x_at(p: Seq<Tup>, y: int) -> int {
    if y == 0 {
        p[0].x as int
    } else if y == ONE {
        p[p.len() - 1].x as int
    } else {
        let i = first_reaching(p, y);
        if p[i].y == y {
            p[i].x as int
        } else {
            interp(y, p[i - 1].y as int, p[i - 1].x as int, p[i].y as int, p[i].x as int)
        }
    }
}

proof fn lemma_position(s: int, x0: int, n: int, i: int)
    requires
        0 < s,
        n >= 2,
        x_ok(x0),
        x_ok(x0 + s * (n - 1)),
        0 <= i < n,
    ensures
        x_ok(x0 + i * s),
        x0 <= x0 + i * s <= x0 + s * (n - 1),
{
    assert(0 <= i * s <= s * (n - 1)) by (nonlinear_arith)
        requires 0 < s, 0 <= i < n;
}

proof fn lemma_regular_valid(s: int, x0: int, y: Seq<i64>)
    requires
        regular_ok(s, x0, y),
    ensures
        valid_points(regular_points(s, x0, y)),
        forall|i: int| 0 <= i < y.len() ==> #[trigger] regular_points(s, x0, y)[i].x == x0 + i * s,
{
    let p = regular_points(s, x0, y);
    let n = y.len() as int;
    assert forall|i: int| 0 <= i < y.len() implies #[trigger] p[i].x == x0 + i * s by {
        lemma_position(s, x0, n, i);
    }
    assert forall|i: int, j: int| #![trigger p[i], p[j]] 0 <= i < j < p.len() implies p[i].x < p[j].x && p[i].y <= p[j].y by {
        lemma_position(s, x0, n, i);
        lemma_position(s, x0, n, j);
        assert(i * s < j * s) by (nonlinear_arith)
            requires 0 < s, i < j;
        assert(y[i] <= y[j]);
    }
    assert forall|i: int| #![trigger p[i]] 0 <= i < p.len() implies x_ok(p[i].x as int) && y_ok(p[i].y as int) by {
        lemma_position(s, x0, n, i);
        assert(y_ok(y[i] as int));
    }
}

/// A curve given by an origin, a step and evenly spaced samples.
#[derive(Clone, Debug)]
pub struct RegularDynamicCurve {
    s: i64,
    x0: i64,
    y: Vec<i64>,
}

impl RegularDynamicCurve {
    /// Builds a curve with step `s`, origin `x0` and samples `y`.
    pub fn new(s: i64, x0: i64, y: Vec<i64>) -> (r: Self)
        requires
            regular_ok(s as int, x0 as int, y@),
        ensures
            r.wf(),
            r.breakpoints() == regular_points(s as int, x0 as int, y@),
    {
        RegularDynamicCurve { s, x0, y }
    }

    /// Checks the conditions under which `new` accepts its arguments.
    pub fn check(s: i64, x0: i64, y: &Vec<i64>) -> (r: bool)
        ensures
            r == regular_ok(s as int, x0 as int, y@),
    {
        let n = y.len();
        if s <= 0 || n < 2 || x0 < -X_LIMIT || x0 > X_LIMIT {
            return false;
        }
        if y[0] != 0 || y[n - 1] != ONE {
            return false;
        }
        if (n - 1) as u64 > 0x40000000000000u64 {
            assert(s * (n - 1) >= n - 1) by (nonlinear_arith)
                requires s >= 1, n >= 1;
            return false;
        }
        assert(0 < s * (n - 1) <= 0x7fffffffffffffff * 0x40000000000000) by (nonlinear_arith)
            requires 0 < s <= 0x7fffffffffffffff, 1 <= n - 1 <= 0x40000000000000;
        let span: i128 = s as i128 * (n - 1) as i128;
        if x0 as i128 + span > X_LIMIT as i128 {
            return false;
        }
        let mut i: usize = 0;
        while i < n
            invariant
                n == y@.len(),
                n >= 2,
                i <= n,
                forall|k: int| #![trigger y@[k]] 0 <= k < i ==> y_ok(y@[k] as int),
                forall|a: int, b: int| #![trigger y@[a], y@[b]] 0 <= a < b < i ==> y@[a] <= y@[b],
            decreases n - i,
        {
            if y[i] < 0 || y[i] > ONE {
                assert(!y_ok(y@[i as int] as int));
                return false;
            }
            if i > 0 && y[i - 1] > y[i] {
                assert(y@[i - 1] > y@[i as int]);
                return false;
            }
            i += 1;
        }
        true
    }

    fn position(&self, i: usize) -> (r: i64)
        requires
            self.wf(),
            i < self.y@.len(),
        ensures
            r == self.x0 + i * self.s,
            r == self.breakpoints()[i as int].x,
            x_ok(r as int),
    {
        proof {
            lemma_position(self.s as int, self.x0 as int, self.y@.len() as int, i as int);
            lemma_regular_valid(self.s as int, self.x0 as int, self.y@);
            assert(i <= i * self.s) by (nonlinear_arith)
                requires self.s >= 1, i >= 0;
        }
        self.x0 + (i as i64) * self.s
    }
}

impl Curve for RegularDynamicCurve {
    closed spec fn wf(&self) -> bool {
        regular_ok(self.s as int, self.x0 as int, self.y@)
    }

    closed spec fn breakpoints(&self) -> Seq<Tup> {
        regular_points(self.s as int, self.x0 as int, self.y@)
    }

    open spec fn spec_x_at_y(&self, y: int) -> int {
        regular_x_at(self.breakpoints(), y)
    }

    proof fn lemma_wf(&self) {
        lemma_regular_valid(self.s as int, self.x0 as int, self.y@);
    }

    fn min_x(&self) -> (r: i64) {
        self.position(0)
    }

    fn max_x(&self) -> (r: i64) {
        self.position(self.y.len() - 1)
    }

    fn y_at_x(&self, x: i64) -> (r: i64) {
        proof {
            lemma_regular_valid(self.s as int, self.x0 as int, self.y@);
        }
        let n = self.y.len();
        if x <= self.min_x() {
            return self.y[0];
        }
        if x >= self.max_x() {
            return self.y[n - 1];
        }
        let off = x - self.x0;
        let idx = off / self.s;
        let rem = off % self.s;
        proof {
            vstd::arithmetic::div_mod::lemma_fundamental_div_mod(off as int, self.s as int);
            assert(off == self.s * idx + rem);
            assert(idx * self.s + rem == off) by (nonlinear_arith)
                requires off == self.s * idx + rem;
            assert(0 <= idx);
            if idx >= n - 1 {
                assert(idx * self.s >= (n - 1) * self.s) by (nonlinear_arith)
                    requires idx >= n - 1, self.s > 0;
                assert(self.s * (n - 1) == (n - 1) * self.s) by (nonlinear_arith);
            }
        }
        let i = idx as usize;
        let lx = self.position(i);
        let rx = self.position(i + 1);
        proof {
            assert(lx == self.x0 + idx * self.s);
            assert(rx == lx + self.s) by (nonlinear_arith)
                requires rx == self.x0 + (i + 1) * self.s, lx == self.x0 + i * self.s;
            let p = self.breakpoints();
            crate::curve::lemma_y_at_segment(p, x as int, i as int);
            assert(p[i as int].y == self.y@[i as int]);
            assert(p[i + 1].y == self.y@[i + 1]);
        }
        if rem == 0 {
            proof {
                crate::canonical::lemma_interp_bounds(x as int, lx as int, self.y@[i as int] as int, rx as int, self.y@[i + 1] as int);
            }
            return self.y[i];
        }
        proof {
            assert(y_ok(self.y@[i as int] as int) && y_ok(self.y@[i + 1] as int));
        }
        lerp(x, lx, self.y[i], rx, self.y[i + 1])
    }

    fn x_at_y(&self, y: i64) -> (r: i64) {
        proof {
            lemma_regular_valid(self.s as int, self.x0 as int, self.y@);
        }
        let ghost p = self.breakpoints();
        if y == 0 {
            return self.min_x();
        }
        if y == ONE {
            return self.max_x();
        }
        let n = self.y.len();
        let mut i: usize = 0;
        while self.y[i] < y
            invariant
                self.wf(),
                p == self.breakpoints(),
                valid_points(p),
                n == self.y@.len(),
                p.len() == n,
                0 <= i < n,
                0 < y < ONE,
                forall|j: int| 0 <= j < i ==> #[trigger] p[j].y < y,
            decreases n - i,
        {
            assert(p[i as int].y == self.y@[i as int]);
            i += 1;
            if i == n {
                assert(p[n - 1].y == ONE);
                assert(false);
            }
        }
        proof {
            assert(p[i as int].y == self.y@[i as int]);
            let f = first_reaching(p, y as int);
            assert(0 <= i < p.len() && p[i as int].y >= y && forall|j: int| 0 <= j < i ==> #[trigger] p[j].y < y);
            assert(0 <= f < p.len() && p[f].y >= y && forall|j: int| 0 <= j < f ==> #[trigger] p[j].y < y);
            if f < i {
                assert(p[f].y < y);
            }
            if i < f {
                assert(p[i as int].y < y);
            }
            assert(f == i);
            assert(p[0].x <= p[i as int].x <= p[n - 1].x) by {
                if i > 0 {
                    assert(p[0].x < p[i as int].x);
                }
                if i < n - 1 {
                    assert(p[i as int].x < p[n - 1].x);
                }
            }
        }
        if self.y[i] == y {
            return self.position(i);
        }
        let lx = self.position(i - 1);
        let rx = self.position(i);
        proof {
            assert(p[i - 1].y == self.y@[i - 1]);
            assert(p[0].x <= p[i - 1].x);
            assert(y_ok(self.y@[i - 1] as int) && y_ok(self.y@[i as int] as int));
            assert(p[i - 1].x < p[i as int].x);
        }
        lerp(y, self.y[i - 1], lx, self.y[i], rx)
    }

    fn get_values_as_vectors(&self) -> (r: (Vec<i64>, Vec<i64>)) {
        let xs = self.get_x_values();
        let mut ys: Vec<i64> = Vec::new();
        let mut i: usize = 0;
        while i < self.y.len()
            invariant
                i <= self.y@.len(),
                ys@ =~= ys_of(self.breakpoints()).subrange(0, i as int),
            decreases self.y@.len() - i,
        {
            ys.push(self.y[i]);
            i += 1;
        }
        assert(ys@ =~= ys_of(self.breakpoints()));
        (xs, ys)
    }

    fn get_x_values(&self) -> (r: Vec<i64>) {
        let mut xs: Vec<i64> = Vec::new();
        let mut i: usize = 0;
        while i < self.y.len()
            invariant
                self.wf(),
                i <= self.y@.len(),
                xs@ =~= xs_of(self.breakpoints()).subrange(0, i as int),
            decreases self.y@.len() - i,
        {
            let x = self.position(i);
            xs.push(x);
            i += 1;
        }
        assert(xs@ =~= xs_of(self.breakpoints()));
        xs
    }
}

/// Looking up the domain value of a fixed-step curve's value at `x` gives
/// `x` back, up to the rounding of the two lookups (at most the segment's
/// width over its rise, plus one unit), wherever `x` lies inside the domain
/// on a rising segment whose start is not the end of a flat run. Where the
/// value repeats, the inverse answers with the first sample that reaches it.
pub proof fn lemma_regular_inverse_round_trip(p: Seq<Tup>, x: int)
    requires
        valid_points(p),
        p[0].x < x < p[p.len() - 1].x,
        p[crate::curve::segment(p, x)].y < p[crate::curve::segment(p, x) + 1].y,
        crate::curve::segment(p, x) == 0 || p[crate::curve::segment(p, x) - 1].y < p[crate::curve::segment(p, x)].y,
    ensures
        ({
            let i = crate::curve::segment(p, x);
            let e = (p[i + 1].x - p[i].x) / (p[i + 1].y - p[i].y) + 1;
            x - e <= regular_x_at(p, crate::curve::y_at(p, x)) <= x
        }),
{
    crate::curve::lemma_segment_exists(p, x);
    let i = crate::curve::segment(p, x);
    let lx = p[i].x as int;
    let ly = p[i].y as int;
    let rx = p[i + 1].x as int;
    let ry = p[i + 1].y as int;
    crate::curve::lemma_y_at_segment(p, x, i);
    let t = x - lx;
    let d = rx - lx;
    let h = ry - ly;
    crate::canonical::lemma_floor_round_trip(t, d, h);
    let q = h * t / d;
    crate::canonical::lemma_interp_value(x, lx, ly, rx, ry);
    let y = crate::curve::y_at(p, x);
    assert(y == ly + q);
    let e = d / h + 1;
    let w = q * d / h;
    assert(t - e <= w <= t);
    assert(y_ok(ry));
    if y == 0 {
        assert(i == 0);
        assert(q == 0);
        assert(w == 0) by {
            assert(q * d == 0) by (nonlinear_arith)
                requires q == 0;
        }
        assert(regular_x_at(p, y) == lx);
        assert(x - e <= regular_x_at(p, y) <= x);
    } else {
        let f = if q == 0 { i } else { i + 1 };
        assert(0 <= f < p.len() && p[f].y >= y && forall|j: int| 0 <= j < f ==> #[trigger] p[j].y < y) by {
            assert forall|j: int| 0 <= j < f implies #[trigger] p[j].y < y by {
                if q == 0 {
                    assert(p[j].y <= p[i - 1].y);
                } else {
                    assert(p[j].y <= p[i].y);
                }
            }
        }
        let g = first_reaching(p, y);
        assert(0 <= g < p.len() && p[g].y >= y && forall|j: int| 0 <= j < g ==> #[trigger] p[j].y < y);
        if g < f {
            assert(p[g].y < y);
        }
        if f < g {
            assert(p[f].y < y);
        }
        if q == 0 {
            assert(w == 0) by {
                assert(q * d == 0) by (nonlinear_arith)
                    requires q == 0;
            }
            assert(regular_x_at(p, y) == lx);
        } else {
            crate::canonical::lemma_interp_value(y, ly, lx, ry, rx);
            assert(regular_x_at(p, y) == lx + d * q / h);
            assert(d * q == q * d) by (nonlinear_arith);
            assert(regular_x_at(p, y) == lx + w);
        }
        assert(x - e <= regular_x_at(p, y) <= x);
    }
}

} // verus!
