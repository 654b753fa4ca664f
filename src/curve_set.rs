//! An ordered collection of curves keyed by a domain value, with
//! interpolation between neighbouring curves.

use vstd::prelude::*;
use crate::canonical::{x_ok, ONE};
use crate::combine::{abs, combined_points, wabs, weighted_average, weighted_average_checked, wtotal};
use crate::curve::{Curve, Tup};
use crate::irregular_dynamic::IrregularDynamicCurve;
use crate::simplification::{dp_keep, select};

verus! {

/// Why `curve_at_x` found no curve.
#[derive(Clone, Copy, Debug, PartialEq, Eq)]
pub enum CurveSetError {
    /// The key lies at or below the smallest stored key.
    BelowMinimum,
    /// The key lies at or above the largest stored key.
    AboveMaximum,
}

/// Keys strictly increasing and within the domain limits, curves well formed.
pub open spec fn entries_ok(e: Seq<(i64, IrregularDynamicCurve)>) -> bool {
    &&& forall|i: int, j: int| #![trigger e[i], e[j]] 0 <= i < j < e.len() ==> e[i].0 < e[j].0
    &&& forall|i: int| #![trigger e[i]] 0 <= i < e.len() ==> x_ok(e[i].0 as int) && e[i].1.wf()
}

/// Position at which key `x` goes: after every smaller key, before every
/// larger one.
pub open spec fn insert_pos(e: Seq<(i64, IrregularDynamicCurve)>, x: int) -> int {
    choose|k: int| pos_ok(e, x, k)
}

pub open spec fn pos_ok(e: Seq<(i64, IrregularDynamicCurve)>, x: int, k: int) -> bool {
    0 <= k <= e.len() && (forall|i: int| 0 <= i < k ==> #[trigger] e[i].0 < x) && (forall|i: int|
        k <= i < e.len() ==> #[trigger] e[i].0 > x)
}

/// The neighbouring pair `i`, `i + 1` used for `x`: the last pair whose
/// first key is at most `x`, or the first pair where `x` lies below all keys.
pub open spec fn bracket_ok(e: Seq<(i64, IrregularDynamicCurve)>, x: int, i: int) -> bool {
    &&& 0 <= i < e.len() - 1
    &&& (i == 0 || e[i].0 <= x)
    &&& (i == e.len() - 2 || x < e[i + 1].0)
}

pub open spec fn bracket(e: Seq<(i64, IrregularDynamicCurve)>, x: int) -> int {
    choose|i: int| bracket_ok(e, x, i)
}

/// Position of `x` between keys `lx` and `rx`, with 1 as `ONE`; rounded
/// toward zero, and beyond [0, 1] outside the pair.
pub open spec fn frac(x: int, lx: int, rx: int) -> int {
    if x >= lx {
        (x - lx) * ONE / (rx - lx)
    } else {
        -((lx - x) * ONE / (rx - lx))
    }
}

/// The blend of two curves with weights `1 - a` and `a`.
pub open spec fn blend_weights(a: int) -> Seq<i64> {
    seq![(ONE - a) as i64, a as i64]
}

pub open spec fn blend(c1: &IrregularDynamicCurve, c2: &IrregularDynamicCurve, a: int) -> Seq<Tup> {
    select(
        combined_points(seq![c1, c2], blend_weights(a)),
        dp_keep(combined_points(seq![c1, c2], blend_weights(a)), 0),
    )
}

/// The curve that interpolation at `x` gives, from the bracketing pair.
pub open spec fn blend_at(e: Seq<(i64, IrregularDynamicCurve)>, x: int) -> Seq<Tup> {
    let i = bracket(e, x);
    blend(&e[i].1, &e[i + 1].1, frac(x, e[i].0 as int, e[i + 1].0 as int))
}

proof fn lemma_bracket_unique(e: Seq<(i64, IrregularDynamicCurve)>, x: int, i: int)
    requires
        entries_ok(e),
        bracket_ok(e, x, i),
    ensures
        bracket(e, x) == i,
{
    let j = bracket(e, x);
    assert(bracket_ok(e, x, j));
    if j < i {
        assert(e[j + 1].0 <= e[i].0);
    }
    if i < j {
        assert(e[i + 1].0 <= e[j].0);
    }
}

/// Curves keyed by a domain value, keys strictly increasing.
#[derive(Debug)]
pub struct CurveSet {
    curves: Vec<(i64, IrregularDynamicCurve)>,
}

impl CurveSet {
    /// The stored (key, curve) pairs, in key order.
    pub closed spec fn entries(&self) -> Seq<(i64, IrregularDynamicCurve)> {
        self.curves@
    }

    pub closed spec fn wf(&self) -> bool {
        entries_ok(self.curves@)
    }

    /// An empty collection.
    pub fn new() -> (r: Self)
        ensures
            r.wf(),
            r.entries().len() == 0,
    {
        CurveSet { curves: Vec::new() }
    }

    /// The stored (key, curve) pairs.
    pub fn curves(&self) -> (r: &Vec<(i64, IrregularDynamicCurve)>)
        ensures
            r@ == self.entries(),
    {
        &self.curves
    }

    /// Smallest key.
    pub fn min_x(&self) -> (r: i64)
        requires
            self.entries().len() >= 1,
        ensures
            r == self.entries()[0].0,
    {
        self.curves[0].0
    }

    /// Largest key.
    pub fn max_x(&self) -> (r: i64)
        requires
            self.entries().len() >= 1,
        ensures
            r == self.entries()[self.entries().len() - 1].0,
    {
        self.curves[self.curves.len() - 1].0
    }

    /// Index `i` of the pair `i`, `i + 1` that `x` falls in, by bisection.
    fn binary_search_by_x(&self, x: i64, start: usize, end: usize) -> (r: usize)
        requires
            self.wf(),
            start < end < self.curves@.len(),
            start == 0 || self.curves@[start as int].0 <= x,
            end == self.curves@.len() - 1 || x < self.curves@[end as int].0,
        ensures
            bracket_ok(self.curves@, x as int, r as int),
        decreases end - start,
    {
        if start + 1 == end {
            start
        } else {
            let mid = start + (end - start) / 2;
            if x < self.curves[mid].0 {
                self.binary_search_by_x(x, start, mid)
            } else {
                self.binary_search_by_x(x, mid, end)
            }
        }
    }

    /// The curve for `x`; beyond the stored keys, linear extrapolation from
    /// the two nearest curves. `None` where the extrapolated points do not
    /// form a valid curve, or the extrapolation factor is too large to
    /// represent.
    pub fn curve_at_x_with_extrapolation(&self, x: i64) -> (r: Option<IrregularDynamicCurve>)
        requires
            self.wf(),
            self.entries().len() >= 2,
            x_ok(x as int),
        ensures
            r.is_some() ==> r.unwrap().wf() && r.unwrap().breakpoints() == blend_at(self.entries(), x as int),
            ({
                let e = self.entries();
                let i = bracket(e, x as int);
                let a = frac(x as int, e[i].0 as int, e[i + 1].0 as int);
                &&& abs(ONE - a) + abs(a) <= i64::MAX ==> (r.is_some() == crate::curve::valid_points(
                    combined_points(seq![&e[i].1, &e[i + 1].1], blend_weights(a)),
                ))
                &&& abs(ONE - a) + abs(a) > i64::MAX ==> r.is_none()
            }),
    {
        let i = self.binary_search_by_x(x, 0, self.curves.len() - 1);
        proof {
            lemma_bracket_unique(self.curves@, x as int, i as int);
        }
        let lx = self.curves[i].0;
        let rx = self.curves[i + 1].0;
        proof {
            assert(x_ok(lx as int) && x_ok(rx as int) && lx < rx);
        }
        let a: i128 = if x >= lx {
            let q = ((x - lx) as i128 * ONE as i128) / (rx - lx) as i128;
            q
        } else {
            let q = ((lx - x) as i128 * ONE as i128) / (rx - lx) as i128;
            -q
        };
        proof {
            assert(0 <= (x - lx) * ONE <= 0x20000000000000 * 0x100000000 || x < lx) by (nonlinear_arith)
                requires x - lx <= 0x20000000000000;
            assert(0 <= (lx - x) * ONE <= 0x20000000000000 * 0x100000000 || x >= lx) by (nonlinear_arith)
                requires lx - x <= 0x20000000000000;
        }
        let w0: i128 = ONE as i128 - a;
        let spread: i128 = (if w0 < 0 { -w0 } else { w0 }) + (if a < 0 { -a } else { a });
        if spread > 0x7fffffffffffffff {
            return None;
        }
        let a64 = a as i64;
        let mut cs: Vec<&IrregularDynamicCurve> = Vec::new();
        cs.push(&self.curves[i].1);
        cs.push(&self.curves[i + 1].1);
        let mut ws: Vec<i64> = Vec::new();
        ws.push(ONE - a64);
        ws.push(a64);
        proof {
            let e = self.curves@;
            assert(cs@ =~= seq![&e[i as int].1, &e[i + 1].1]);
            assert(ws@ =~= blend_weights(a as int));
            assert(e[i as int].1.wf() && e[i + 1].1.wf());
            assert(cs@[0].wf() && cs@[1].wf());
            assert(wtotal(ws@, 0) == 0);
            assert(wtotal(ws@, 1) == ws@[0]);
            assert(wtotal(ws@, 2) == ONE);
            assert(wabs(ws@, 0) == 0);
            assert(wabs(ws@, 1) == abs(ws@[0] as int));
            assert(wabs(ws@, 2) == abs(ONE - a) + abs(a as int));
        }
        weighted_average_checked(cs, ws)
    }

    fn interpolate(&self, x: i64) -> (r: IrregularDynamicCurve)
        requires
            self.wf(),
            self.entries().len() >= 2,
            self.entries()[0].0 < x < self.entries()[self.entries().len() - 1].0,
        ensures
            r.wf(),
            r.breakpoints() == blend_at(self.entries(), x as int),
            r.breakpoints() == blend(
                &self.entries()[bracket(self.entries(), x as int)].1,
                &self.entries()[bracket(self.entries(), x as int) + 1].1,
                frac(
                    x as int,
                    self.entries()[bracket(self.entries(), x as int)].0 as int,
                    self.entries()[bracket(self.entries(), x as int) + 1].0 as int,
                ),
            ),
    {
        let i = self.binary_search_by_x(x, 0, self.curves.len() - 1);
        proof {
            lemma_bracket_unique(self.curves@, x as int, i as int);
        }
        let lx = self.curves[i].0;
        let rx = self.curves[i + 1].0;
        proof {
            let e = self.curves@;
            assert(x_ok(lx as int) && x_ok(rx as int) && lx < rx);
            if i == 0 {
                assert(e[0].0 < x);
            }
            if i == e.len() - 2 {
                assert(x < e[e.len() - 1].0);
            }
            assert(lx <= x < rx);
            assert(0 <= (x - lx) * ONE <= (rx - lx) * ONE) by (nonlinear_arith)
                requires lx <= x < rx;
            assert((rx - lx) * ONE <= 0x20000000000000 * 0x100000000) by (nonlinear_arith)
                requires rx - lx <= 0x20000000000000;
            vstd::arithmetic::div_mod::lemma_div_is_ordered((x - lx) * ONE, (rx - lx) * ONE, rx - lx);
            vstd::arithmetic::div_mod::lemma_div_multiples_vanish(ONE as int, rx - lx);
            assert((rx - lx) * ONE == ONE * (rx - lx)) by (nonlinear_arith);
            vstd::arithmetic::div_mod::lemma_div_pos_is_pos((x - lx) * ONE, rx - lx);
        }
        let a: i128 = ((x - lx) as i128 * ONE as i128) / (rx - lx) as i128;
        let a64 = a as i64;
        let mut cs: Vec<&IrregularDynamicCurve> = Vec::new();
        cs.push(&self.curves[i].1);
        cs.push(&self.curves[i + 1].1);
        let mut ws: Vec<i64> = Vec::new();
        ws.push(ONE - a64);
        ws.push(a64);
        proof {
            let e = self.curves@;
            assert(cs@ =~= seq![&e[i as int].1, &e[i + 1].1]);
            assert(ws@ =~= blend_weights(a as int));
            assert(e[i as int].1.wf() && e[i + 1].1.wf());
            assert(cs@[0].wf() && cs@[1].wf());
            assert(wtotal(ws@, 0) == 0);
            assert(wtotal(ws@, 1) == ws@[0]);
            assert(wtotal(ws@, 2) == ONE);
            assert(ws@[0] >= 0 && ws@[1] >= 0);
        }
        weighted_average(cs, ws)
    }

    /// The curve for `x`: the first curve at or below the smallest key, the
    /// last at or above the largest, else the interpolation between the two
    /// curves around `x`.
    pub fn curve_at_x_with_continuation(&self, x: i64) -> (r: IrregularDynamicCurve)
        requires
            self.wf(),
            self.entries().len() >= 1,
        ensures
            r.wf(),
            x <= self.entries()[0].0 ==> r.breakpoints() == self.entries()[0].1.breakpoints(),
            self.entries()[0].0 < x && x >= self.entries()[self.entries().len() - 1].0 ==> r.breakpoints()
                == self.entries()[self.entries().len() - 1].1.breakpoints(),
            self.entries()[0].0 < x < self.entries()[self.entries().len() - 1].0 ==> r.breakpoints() == blend_at(
                self.entries(),
                x as int,
            ),
    {
        let n = self.curves.len();
        if x <= self.min_x() {
            assert(self.curves@[0].1.wf());
            return self.curves[0].1.duplicate();
        }
        if x >= self.max_x() {
            assert(self.curves@[n - 1].1.wf());
            return self.curves[n - 1].1.duplicate();
        }
        self.interpolate(x)
    }

    /// The curve for `x` strictly between the smallest and largest key;
    /// an error at or beyond either.
    pub fn curve_at_x(&self, x: i64) -> (r: Result<IrregularDynamicCurve, CurveSetError>)
        requires
            self.wf(),
            self.entries().len() >= 1,
        ensures
            x <= self.entries()[0].0 <==> r == Err::<IrregularDynamicCurve, CurveSetError>(CurveSetError::BelowMinimum),
            self.entries()[0].0 < x && x >= self.entries()[self.entries().len() - 1].0 <==> r == Err::<
                IrregularDynamicCurve,
                CurveSetError,
            >(CurveSetError::AboveMaximum),
            r.is_ok() ==> r.unwrap().wf() && r.unwrap().breakpoints() == blend_at(self.entries(), x as int),
    {
        if x <= self.min_x() {
            return Err(CurveSetError::BelowMinimum);
        }
        if x >= self.max_x() {
            return Err(CurveSetError::AboveMaximum);
        }
        Ok(self.interpolate(x))
    }

    /// Inserts a curve under a key that is not stored yet, keeping the keys
    /// in order.
    pub fn add_curve(&mut self, x: i64, curve: IrregularDynamicCurve)
        requires
            old(self).wf(),
            curve.wf(),
            x_ok(x as int),
            forall|i: int| 0 <= i < old(self).entries().len() ==> #[trigger] old(self).entries()[i].0 != x,
        ensures
            final(self).wf(),
            final(self).entries() == old(self).entries().insert(insert_pos(old(self).entries(), x as int), (x, curve)),
    {
        let ghost e = self.curves@;
        let n = self.curves.len();
        assert(forall|i: int| 0 <= i < n ==> #[trigger] e[i].0 != x) by {
            assert forall|i: int| 0 <= i < n implies #[trigger] e[i].0 != x by {
                assert(old(self).entries()[i].0 != x);
            }
        }
        let mut k: usize = 0;
        while k < n && self.curves[k].0 < x
            invariant
                self.curves@ == e,
                entries_ok(e),
                n == e.len(),
                k <= n,
                forall|i: int| 0 <= i < k ==> #[trigger] e[i].0 < x,
                forall|i: int| 0 <= i < n ==> #[trigger] e[i].0 != x,
            decreases n - k,
        {
            k += 1;
        }
        proof {
            assert forall|i: int| k <= i < n implies #[trigger] e[i].0 > x by {
                assert(e[i].0 != x);
                if i > k {
                    assert(e[k as int].0 < e[i].0);
                    assert(e[k as int].0 != x);
                }
            }
            let p = insert_pos(e, x as int);
            assert(pos_ok(e, x as int, k as int));
            assert(pos_ok(e, x as int, p));
            if p < k {
                assert(e[p].0 > x);
            }
            if k < p {
                assert(e[k as int].0 < x);
            }
        }
        self.curves.insert(k, (x, curve));
        proof {
            let t = self.curves@;
            assert forall|i: int, j: int| #![trigger t[i], t[j]] 0 <= i < j < t.len() implies t[i].0 < t[j].0 by {
                let i1 = if i < k { i } else { i - 1 };
                let j1 = if j <= k { j } else { j - 1 };
                if i != k && j != k {
                    assert(t[i] == e[i1] && t[j] == e[j1]);
                } else if i == k {
                    assert(t[j] == e[j - 1]);
                } else {
                    assert(t[i] == e[i]);
                }
            }
            assert forall|i: int| #![trigger t[i]] 0 <= i < t.len() implies x_ok(t[i].0 as int) && t[i].1.wf() by {
                if i < k {
                    assert(t[i] == e[i]);
                } else if i > k {
                    assert(t[i] == e[i - 1]);
                }
            }
        }
    }
}

} // verus!
