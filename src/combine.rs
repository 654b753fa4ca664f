//! Combining curves: the area between two curves, and weighted averages of
//! several curves.

use vstd::prelude::*;
use crate::canonical::{x_ok, y_ok, ONE};
use crate::curve::{lemma_y_at_range, valid_points, xs_of, y_at, Curve, Tup};
use crate::merging::{all_of, dedup_sorted, kmerge_sorted, merge_sorted, nondecreasing, sorted_seq_of, strictly_increasing, views};
use crate::irregular_dynamic::IrregularDynamicCurve;
use crate::simplification::{dp_keep, select};

verus! {

broadcast use vstd::multiset::group_multiset_axioms;

pub open spec fn abs(v: int) -> int {
    if v < 0 { -v } else { v }
}

/// Area between two curves over one stretch of width `h`, from the signed
/// differences `d1` at its start and `d2` at its end: a trapezoid where the
/// signs agree, two triangles meeting at the crossing where they do not;
/// rounded down.
pub open spec fn seg_area(h: int, d1: int, d2: int) -> int {
    let a = abs(d1);
    let c = abs(d2);
    if d1 * d2 >= 0 {
        (a + c) * h / 2
    } else {
        h * (a * a + c * c) / (2 * (a + c))
    }
}

/// Signed difference of two curves at `x`.
pub open spec fn diff(pa: Seq<Tup>, pb: Seq<Tup>, x: int) -> int {
    y_at(pa, x) - y_at(pb, x)
}

/// Area over the first `k` stretches between consecutive values of `u`.
pub open spec fn area_sum(pa: Seq<Tup>, pb: Seq<Tup>, u: Seq<i64>, k: int) -> int
    decreases k,
{
    if k <= 0 {
        0
    } else {
        area_sum(pa, pb, u, k - 1) + seg_area(
            u[k] - u[k - 1],
            diff(pa, pb, u[k - 1] as int),
            diff(pa, pb, u[k] as int),
        )
    }
}

/// The domain values of the breakpoints of both curves, ascending, without
/// repeats.
pub open spec fn union_xs(pa: Seq<Tup>, pb: Seq<Tup>) -> Seq<i64> {
    sorted_seq_of(xs_of(pa).to_set().union(xs_of(pb).to_set()))
}

/// The area enclosed between two curves' graphs (in raw domain units times
/// raw range units), summed over the stretches between the breakpoints of
/// both.
pub open spec fn area_between(pa: Seq<Tup>, pb: Seq<Tup>) -> int {
    let u = union_xs(pa, pb);
    area_sum(pa, pb, u, u.len() - 1)
}

proof fn lemma_seg_area_bounds(h: int, d1: int, d2: int)
    requires
        0 <= h,
        abs(d1) <= ONE,
        abs(d2) <= ONE,
    ensures
        0 <= seg_area(h, d1, d2) <= h * ONE,
{
    let a = abs(d1);
    let c = abs(d2);
    if d1 * d2 >= 0 {
        assert(0 <= (a + c) * h <= (h * ONE) * 2) by (nonlinear_arith)
            requires 0 <= a <= ONE, 0 <= c <= ONE, 0 <= h;
        vstd::arithmetic::div_mod::lemma_div_is_ordered((a + c) * h, (h * ONE) * 2, 2);
        vstd::arithmetic::div_mod::lemma_div_pos_is_pos((a + c) * h, 2);
    } else {
        assert(a > 0 && c > 0) by (nonlinear_arith)
            requires d1 * d2 < 0, a == abs(d1), c == abs(d2);
        assert(0 <= h * (a * a + c * c) <= (h * ONE) * (2 * (a + c))) by (nonlinear_arith)
            requires 0 < a <= ONE, 0 < c <= ONE, 0 <= h;
        vstd::arithmetic::div_mod::lemma_div_is_ordered(h * (a * a + c * c), (h * ONE) * (2 * (a + c)), 2 * (a + c));
        vstd::arithmetic::div_mod::lemma_div_multiples_vanish(h * ONE, 2 * (a + c));
        assert((2 * (a + c)) * (h * ONE) == (h * ONE) * (2 * (a + c))) by (nonlinear_arith);
        vstd::arithmetic::div_mod::lemma_div_pos_is_pos(h * (a * a + c * c), 2 * (a + c));
    }
}

proof fn lemma_seg_area_negate(h: int, d1: int, d2: int)
    ensures
        seg_area(h, d1, d2) == seg_area(h, -d1, -d2),
{
    assert(d1 * d2 == (-d1) * (-d2)) by (nonlinear_arith);
}

fn seg_area_exec(h: i64, d1: i64, d2: i64) -> (r: i128)
    requires
        0 <= h <= 0x20000000000000,
        abs(d1 as int) <= ONE,
        abs(d2 as int) <= ONE,
    ensures
        r == seg_area(h as int, d1 as int, d2 as int),
        0 <= r <= h * ONE,
{
    proof {
        lemma_seg_area_bounds(h as int, d1 as int, d2 as int);
    }
    let a: u128 = if d1 < 0 { (-d1) as u128 } else { d1 as u128 };
    let c: u128 = if d2 < 0 { (-d2) as u128 } else { d2 as u128 };
    let hh: u128 = h as u128;
    assert((d1 as i128) * (d2 as i128) <= 0x10000000000000000 && (d1 as i128) * (d2 as i128) >= -0x10000000000000000) by (nonlinear_arith)
        requires -0x100000000 <= d1 <= 0x100000000, -0x100000000 <= d2 <= 0x100000000;
    if (d1 as i128) * (d2 as i128) >= 0 {
        assert((a + c) * hh <= 0x200000000 * 0x20000000000000) by (nonlinear_arith)
            requires a + c <= 0x200000000, hh <= 0x20000000000000;
        (((a + c) * hh) / 2) as i128
    } else {
        assert(a * a <= 0x10000000000000000 && c * c <= 0x10000000000000000) by (nonlinear_arith)
            requires a <= 0x100000000, c <= 0x100000000;
        assert(hh * (a * a + c * c) <= 0x20000000000000 * 0x20000000000000000) by (nonlinear_arith)
            requires a * a + c * c <= 0x20000000000000000, hh <= 0x20000000000000;
        assert(a > 0 && c > 0) by (nonlinear_arith)
            requires (d1 as int) * (d2 as int) < 0, a == abs(d1 as int), c == abs(d2 as int);
        ((hh * (a * a + c * c)) / (2 * (a + c))) as i128
    }
}

proof fn lemma_union_set(xa: Seq<i64>, xb: Seq<i64>, m: Seq<i64>)
    requires
        m.to_multiset() == xa.to_multiset().add(xb.to_multiset()),
    ensures
        m.to_set() == xa.to_set().union(xb.to_set()),
{
    m.to_multiset_ensures();
    xa.to_multiset_ensures();
    xb.to_multiset_ensures();
    assert forall|v: i64| m.to_set().contains(v) <==> xa.to_set().union(xb.to_set()).contains(v) by {
        assert(m.contains(v) <==> m.to_multiset().count(v) > 0);
    }
    assert(m.to_set() =~= xa.to_set().union(xb.to_set()));
}

proof fn lemma_xs_sorted(p: Seq<Tup>)
    requires
        valid_points(p),
    ensures
        strictly_increasing(xs_of(p)),
        nondecreasing(xs_of(p)),
        forall|v: i64| #[trigger] xs_of(p).to_set().contains(v) ==> x_ok(v as int),
{
    let xs = xs_of(p);
    assert forall|i: int, j: int| #![trigger xs[i], xs[j]] 0 <= i < j < xs.len() implies xs[i] < xs[j] by {
        assert(p[i].x < p[j].x);
    }
    assert forall|v: i64| #[trigger] xs.to_set().contains(v) implies x_ok(v as int) by {
        let i = choose|i: int| 0 <= i < xs.len() && xs[i] == v;
        assert(x_ok(p[i].x as int));
    }
}

/// The area between the graphs of two curves, summed over the stretches
/// between consecutive breakpoints of either curve.
#[verifier::rlimit(100)]
pub fn distance<A: Curve, B: Curve>(a: &A, b: &B) -> (r: i128)
    requires
        a.wf(),
        b.wf(),
    ensures
        r == area_between(a.breakpoints(), b.breakpoints()),
        r >= 0,
{
    let ghost pa = a.breakpoints();
    let ghost pb = b.breakpoints();
    proof {
        a.lemma_wf();
        b.lemma_wf();
        lemma_xs_sorted(pa);
        lemma_xs_sorted(pb);
    }
    let xa = a.get_x_values();
    let xb = b.get_x_values();
    let merged = merge_sorted(&xa, &xb);
    let u = dedup_sorted(&merged);
    proof {
        lemma_union_set(xa@, xb@, merged@);
        assert(u@ == union_xs(pa, pb));
    }
    let n = u.len();
    if n == 0 {
        return 0;
    }
    proof {
        assert forall|j: int| 0 <= j < n implies x_ok(#[trigger] u@[j] as int) by {
            assert(u@.to_set().contains(u@[j]));
        }
    }
    let x0 = u[0];
    let mut prev_x = x0;
    let ya0 = a.y_at_x(x0);
    let yb0 = b.y_at_x(x0);
    proof {
        lemma_y_at_range(pa, x0 as int);
        lemma_y_at_range(pb, x0 as int);
    }
    let mut prev_d = ya0 - yb0;
    let mut total: i128 = 0;
    let mut k: usize = 1;
    while k < n
        invariant
            a.wf(),
            b.wf(),
            valid_points(pa),
            valid_points(pb),
            pa == a.breakpoints(),
            pb == b.breakpoints(),
            n == u@.len(),
            u@ == union_xs(pa, pb),
            strictly_increasing(u@),
            forall|j: int| 0 <= j < n ==> x_ok(#[trigger] u@[j] as int),
            1 <= k <= n,
            x0 == u@[0],
            x_ok(x0 as int),
            prev_x == u@[k - 1],
            x_ok(prev_x as int),
            prev_d == diff(pa, pb, prev_x as int),
            abs(prev_d as int) <= ONE,
            total == area_sum(pa, pb, u@, k - 1),
            0 <= total <= (prev_x - x0) * ONE,
        decreases n - k,
    {
        let x = u[k];
        proof {
            assert(x_ok(u@[k as int] as int));
            assert(prev_x < x);
            lemma_y_at_range(pa, x as int);
            lemma_y_at_range(pb, x as int);
        }
        let d = a.y_at_x(x) - b.y_at_x(x);
        let area = seg_area_exec(x - prev_x, prev_d, d);
        proof {
            assert((prev_x - x0) * ONE + (x - prev_x) * ONE == (x - x0) * ONE) by (nonlinear_arith);
            assert((x - x0) * ONE <= 0x20000000000000 * 0x100000000) by (nonlinear_arith)
                requires x - x0 <= 0x20000000000000;
        }
        total = total + area;
        prev_x = x;
        prev_d = d;
        k += 1;
    }
    total
}

/// A curve lies at distance zero from itself.
pub proof fn lemma_distance_self(p: Seq<Tup>)
    ensures
        area_between(p, p) == 0,
{
    let u = union_xs(p, p);
    lemma_area_sum_self(p, u, u.len() - 1);
}

proof fn lemma_area_sum_self(p: Seq<Tup>, u: Seq<i64>, k: int)
    ensures
        area_sum(p, p, u, k) == 0,
    decreases k,
{
    if k > 0 {
        lemma_area_sum_self(p, u, k - 1);
        let h = u[k] - u[k - 1];
        assert(diff(p, p, u[k - 1] as int) == 0 && diff(p, p, u[k] as int) == 0);
        assert((0 + 0) * h / 2 == 0) by (nonlinear_arith);
    }
}

/// The distance from `a` to `b` is the distance from `b` to `a`.
pub proof fn lemma_distance_symmetric(pa: Seq<Tup>, pb: Seq<Tup>)
    ensures
        area_between(pa, pb) == area_between(pb, pa),
{
    assert(xs_of(pa).to_set().union(xs_of(pb).to_set()) =~= xs_of(pb).to_set().union(xs_of(pa).to_set()));
    let u = union_xs(pa, pb);
    assert(u == union_xs(pb, pa));
    lemma_area_sum_symmetric(pa, pb, u, u.len() - 1);
}

proof fn lemma_area_sum_symmetric(pa: Seq<Tup>, pb: Seq<Tup>, u: Seq<i64>, k: int)
    ensures
        area_sum(pa, pb, u, k) == area_sum(pb, pa, u, k),
    decreases k,
{
    if k > 0 {
        lemma_area_sum_symmetric(pa, pb, u, k - 1);
        lemma_seg_area_negate(u[k] - u[k - 1], diff(pa, pb, u[k - 1] as int), diff(pa, pb, u[k] as int));
    }
}

/// Weighted sum of all curves' values at `x`.
#[verifier::rlimit(40)]
fn weighted_sum<C: Curve>(curves: &Vec<&C>, weights: &Vec<i64>, x: i64) -> (r: i128)
    requires
        curves@.len() == weights@.len(),
        all_wf(curves@),
        all_valid(curves@),
        wabs(weights@, weights@.len() as int) <= i64::MAX,
    ensures
        r == wsum(curves@, weights@, x as int, curves@.len() as int),
{
    let n = curves.len();
    let mut acc: i128 = 0;
    let mut i: usize = 0;
    while i < n
        invariant
            n == curves@.len() == weights@.len(),
            all_wf(curves@),
            all_valid(curves@),
            wabs(weights@, n as int) <= i64::MAX,
            i <= n,
            acc == wsum(curves@, weights@, x as int, i as int),
        decreases n - i,
    {
        proof {
            lemma_wsum_abs(curves@, weights@, x as int, i + 1);
            lemma_wabs_mono(weights@, i + 1, n as int);
            assert(wabs(weights@, i + 1) * ONE <= 0x7fffffffffffffff * ONE) by (nonlinear_arith)
                requires wabs(weights@, i + 1) <= 0x7fffffffffffffff;
            assert(curves@[i as int].wf());
        }
        let y = curves[i].y_at_x(x);
        let w = weights[i];
        proof {
            lemma_y_at_range(curves@[i as int].breakpoints(), x as int);
        }
        assert(-0x8000000000000000 * 0x100000000 <= (w as int) * (y as int) <= 0x7fffffffffffffff * 0x100000000) by (nonlinear_arith)
            requires -0x8000000000000000 <= w <= 0x7fffffffffffffff, 0 <= y <= 0x100000000;
        assert(acc + (w as int) * (y as int) == wsum(curves@, weights@, x as int, i + 1));
        acc = acc + (w as i128) * (y as i128);
        i += 1;
    }
    acc
}

/// The ascending domain values, without repeats, of all curves' breakpoints.
fn union_of_breakpoints<C: Curve>(curves: &Vec<&C>) -> (u: Vec<i64>)
    requires
        all_wf(curves@),
        all_valid(curves@),
    ensures
        u@ == sorted_seq_of(xs_union(curves@, curves@.len() as int)),
        strictly_increasing(u@),
        u@.to_set() == xs_union(curves@, curves@.len() as int),
{
    let n = curves.len();
    let ghost cs = curves@;
    let mut lists: Vec<Vec<i64>> = Vec::new();
    let mut i: usize = 0;
    while i < n
        invariant
            n == cs.len(),
            curves@ == cs,
            all_wf(cs),
            all_valid(cs),
            i <= n,
            lists@.len() == i,
            forall|j: int| 0 <= j < i ==> #[trigger] lists@[j]@ == xs_of(cs[j].breakpoints()),
        decreases n - i,
    {
        assert(cs[i as int].wf());
        let xs = curves[i].get_x_values();
        lists.push(xs);
        i += 1;
    }
    let ghost ls = views(lists@);
    proof {
        assert forall|j: int| 0 <= j < lists@.len() implies nondecreasing(#[trigger] lists@[j]@) by {
            assert(valid_points(cs[j].breakpoints()));
            lemma_xs_sorted(cs[j].breakpoints());
        }
    }
    let merged = kmerge_sorted(lists);
    let u = dedup_sorted(&merged);
    proof {
        merged@.to_multiset_ensures();
        assert forall|v: i64| u@.to_set().contains(v) <==> xs_union(cs, n as int).contains(v) by {
            lemma_all_of(ls, v);
            lemma_xs_union(cs, n as int, v);
            assert(merged@.to_set().contains(v) <==> merged@.contains(v));
            if exists|j: int| 0 <= j < ls.len() && #[trigger] ls[j].contains(v) {
                let j = choose|j: int| 0 <= j < ls.len() && #[trigger] ls[j].contains(v);
                assert(xs_of(cs[j].breakpoints()).contains(v));
            }
            if exists|j: int| 0 <= j < n && #[trigger] xs_of(cs[j].breakpoints()).contains(v) {
                let j = choose|j: int| 0 <= j < n && #[trigger] xs_of(cs[j].breakpoints()).contains(v);
                assert(ls[j].contains(v));
            }
        }
        assert(u@.to_set() =~= xs_union(cs, n as int));
    }
    u
}

/// The points of `combined_points`, or `None` where one of them would have a
/// negative range value.
fn combined_values<C: Curve>(curves: &Vec<&C>, weights: &Vec<i64>, u: &Vec<i64>, total: i128) -> (r: Option<Vec<Tup>>)
    requires
        curves@.len() == weights@.len(),
        all_wf(curves@),
        all_valid(curves@),
        wabs(weights@, weights@.len() as int) <= i64::MAX,
        total == wtotal(weights@, weights@.len() as int),
        0 < total,
        total == ONE || weights_ok(weights@),
        u@ == sorted_seq_of(xs_union(curves@, curves@.len() as int)),
    ensures
        r.is_some() ==> r.unwrap()@ == combined_points(curves@, weights@),
        r.is_none() ==> !valid_points(combined_points(curves@, weights@)),
        weights_ok(weights@) ==> r.is_some(),
{
    let n = curves.len();
    let ghost cs = curves@;
    let ghost ws = weights@;
    let ghost target = combined_points(cs, ws);
    let mut pts: Vec<Tup> = Vec::new();
    let mut k: usize = 0;
    while k < u.len()
        invariant
            n == cs.len() == ws.len(),
            curves@ == cs,
            weights@ == ws,
            all_wf(cs),
            all_valid(cs),
            wabs(ws, n as int) <= i64::MAX,
            total == wtotal(ws, n as int),
            0 < total,
            total == ONE || weights_ok(ws),
            u@ == sorted_seq_of(xs_union(cs, n as int)),
            target == combined_points(cs, ws),
            target.len() == u@.len(),
            k <= u@.len(),
            pts@ == target.take(k as int),
        decreases u@.len() - k,
    {
        let x = u[k];
        let acc = weighted_sum(curves, weights, x);
        proof {
            lemma_wsum_abs(cs, ws, x as int, n as int);
            if weights_ok(ws) {
                lemma_wsum_bounds(cs, ws, x as int, n as int);
            }
        }
        if acc < 0 {
            proof {
                assert(!weights_ok(ws));
                assert(total == ONE);
                assert(-(0x7fffffffffffffff * ONE) <= acc);
                vstd::arithmetic::div_mod::lemma_div_is_ordered(-(0x7fffffffffffffff * ONE), acc as int, ONE as int);
                vstd::arithmetic::div_mod::lemma_div_multiples_vanish(-0x7fffffffffffffff, ONE as int);
                assert(ONE * (-0x7fffffffffffffff) == -(0x7fffffffffffffff * ONE));
                assert((acc as int) / (ONE as int) < 0);
                assert(!y_ok(target[k as int].y as int));
            }
            return None;
        }
        proof {
            if weights_ok(ws) {
                vstd::arithmetic::div_mod::lemma_div_is_ordered(acc as int, total * ONE, total as int);
                vstd::arithmetic::div_mod::lemma_div_multiples_vanish(ONE as int, total as int);
                assert(total * ONE == ONE * total) by (nonlinear_arith);
            } else {
                vstd::arithmetic::div_mod::lemma_div_is_ordered(acc as int, 0x7fffffffffffffff * ONE, ONE as int);
                vstd::arithmetic::div_mod::lemma_div_multiples_vanish(0x7fffffffffffffff, ONE as int);
                assert(ONE * 0x7fffffffffffffff == 0x7fffffffffffffff * ONE);
            }
        }
        let y = (acc as u128) / (total as u128);
        pts.push(Tup { x, y: y as i64 });
        proof {
            assert(target[k as int] == Tup { x, y: y as i64 });
            assert(pts@ =~= target.take(k + 1));
        }
        k += 1;
    }
    proof {
        assert(pts@ =~= target);
    }
    Some(pts)
}

fn weights_total(weights: &Vec<i64>) -> (r: i128)
    requires
        wabs(weights@, weights@.len() as int) <= i64::MAX,
    ensures
        r == wtotal(weights@, weights@.len() as int),
{
    let n = weights.len();
    let mut total: i128 = 0;
    let mut i: usize = 0;
    while i < n
        invariant
            n == weights@.len(),
            wabs(weights@, n as int) <= i64::MAX,
            i <= n,
            total == wtotal(weights@, i as int),
        decreases n - i,
    {
        proof {
            lemma_wabs_mono(weights@, i + 1, n as int);
            lemma_wtotal_abs(weights@, i + 1);
        }
        total = total + weights[i] as i128;
        i += 1;
    }
    total
}

/// Weighted average of several curves: at every breakpoint of any of them,
/// the weighted mean of their values (rounded down), with the points that
/// lie exactly on a chord of their neighbours removed.
pub fn weighted_average<C: Curve>(curves: Vec<&C>, weights: Vec<i64>) -> (r: IrregularDynamicCurve)
    requires
        curves@.len() == weights@.len(),
        all_wf(curves@),
        weights_ok(weights@),
    ensures
        r.wf(),
        r.breakpoints() == select(
            combined_points(curves@, weights@),
            dp_keep(combined_points(curves@, weights@), 0),
        ),
{
    let ghost cs = curves@;
    let ghost ws = weights@;
    proof {
        assert forall|i: int| 0 <= i < cs.len() implies valid_points(#[trigger] cs[i].breakpoints()) by {
            assert(cs[i].wf());
            cs[i].lemma_wf();
        }
        if cs.len() == 0 {
            assert(wtotal(ws, 0) == 0);
        }
        lemma_wabs_nonneg(ws, ws.len() as int);
    }
    let total = weights_total(&weights);
    let u = union_of_breakpoints(&curves);
    proof {
        lemma_combined_valid(cs, ws, u@);
    }
    let pts = combined_values(&curves, &weights, &u, total).unwrap();
    let mut ret = IrregularDynamicCurve::from_valid(pts);
    ret.simplify(0);
    ret
}

/// A weighted average whose weights may be negative but add up to exactly
/// 1: the curve that `weighted_average` describes, or `None` where those
/// points do not form a valid curve.
pub fn weighted_average_checked<C: Curve>(curves: Vec<&C>, weights: Vec<i64>) -> (r: Option<IrregularDynamicCurve>)
    requires
        curves@.len() == weights@.len(),
        all_wf(curves@),
        wtotal(weights@, weights@.len() as int) == ONE,
        wabs(weights@, weights@.len() as int) <= i64::MAX,
    ensures
        r.is_some() == valid_points(combined_points(curves@, weights@)),
        r.is_some() ==> r.unwrap().wf() && r.unwrap().breakpoints() == select(
            combined_points(curves@, weights@),
            dp_keep(combined_points(curves@, weights@), 0),
        ),
{
    let ghost cs = curves@;
    proof {
        assert forall|i: int| 0 <= i < cs.len() implies valid_points(#[trigger] cs[i].breakpoints()) by {
            assert(cs[i].wf());
            cs[i].lemma_wf();
        }
    }
    let total = weights_total(&weights);
    let u = union_of_breakpoints(&curves);
    let pts = combined_values(&curves, &weights, &u, total);
    match pts {
        Some(p) => {
            if IrregularDynamicCurve::check(&p) {
                let mut ret = IrregularDynamicCurve::from_valid(p);
                ret.simplify(0);
                Some(ret)
            } else {
                None
            }
        },
        None => None,
    }
}

/// `n` weights of one.
pub open spec fn unit_weights(n: int) -> Seq<i64> {
    Seq::new(n as nat, |i: int| 1i64)
}

proof fn lemma_unit_total(n: int, k: int)
    requires
        0 <= k <= n,
    ensures
        wtotal(unit_weights(n), k) == k,
    decreases k,
{
    if k > 0 {
        lemma_unit_total(n, k - 1);
    }
}

impl IrregularDynamicCurve {
    /// The plain average of several curves: `weighted_average` with equal
    /// weights.
    pub fn average(curves: &Vec<&IrregularDynamicCurve>) -> (r: IrregularDynamicCurve)
        requires
            1 <= curves@.len() <= i64::MAX,
            all_wf(curves@),
        ensures
            r.wf(),
            r.breakpoints() == select(
                combined_points(curves@, unit_weights(curves@.len() as int)),
                dp_keep(combined_points(curves@, unit_weights(curves@.len() as int)), 0),
            ),
    {
        let n = curves.len();
        let mut cs: Vec<&IrregularDynamicCurve> = Vec::new();
        let mut ws: Vec<i64> = Vec::new();
        let mut i: usize = 0;
        while i < n
            invariant
                n == curves@.len(),
                i <= n,
                cs@ == curves@.take(i as int),
                ws@ == unit_weights(i as int),
            decreases n - i,
        {
            cs.push(curves[i]);
            ws.push(1);
            proof {
                assert(cs@ =~= curves@.take(i + 1));
                assert(ws@ =~= unit_weights(i + 1));
            }
            i += 1;
        }
        proof {
            assert(cs@ =~= curves@);
            assert(ws@ =~= unit_weights(n as int));
            lemma_unit_total(n as int, n as int);
        }
        weighted_average(cs, ws)
    }
}

/// Sum of the magnitudes of the first `n` weights.
pub open spec fn wabs(ws: Seq<i64>, n: int) -> int
    decreases n,
{
    if n <= 0 {
        0
    } else {
        wabs(ws, n - 1) + abs(ws[n - 1] as int)
    }
}

proof fn lemma_wabs_mono(ws: Seq<i64>, i: int, n: int)
    requires
        0 <= i <= n <= ws.len(),
    ensures
        0 <= wabs(ws, i) <= wabs(ws, n),
    decreases n,
{
    if n > i {
        lemma_wabs_mono(ws, i, n - 1);
    } else if i > 0 {
        lemma_wabs_mono(ws, i - 1, i - 1);
    }
}

proof fn lemma_wtotal_abs(ws: Seq<i64>, n: int)
    requires
        0 <= n <= ws.len(),
    ensures
        -wabs(ws, n) <= wtotal(ws, n) <= wabs(ws, n),
    decreases n,
{
    if n > 0 {
        lemma_wtotal_abs(ws, n - 1);
    }
}

proof fn lemma_wabs_nonneg(ws: Seq<i64>, n: int)
    requires
        0 <= n <= ws.len(),
        forall|j: int| 0 <= j < ws.len() ==> #[trigger] ws[j] >= 0,
    ensures
        wabs(ws, n) == wtotal(ws, n),
    decreases n,
{
    if n > 0 {
        lemma_wabs_nonneg(ws, n - 1);
        assert(ws[n - 1] >= 0);
    }
}

proof fn lemma_wsum_abs<C: Curve>(cs: Seq<&C>, ws: Seq<i64>, x: int, n: int)
    requires
        0 <= n <= cs.len() == ws.len(),
        all_valid(cs),
    ensures
        -(wabs(ws, n) * ONE) <= wsum(cs, ws, x, n) <= wabs(ws, n) * ONE,
    decreases n,
{
    if n > 0 {
        lemma_wsum_abs(cs, ws, x, n - 1);
        assert(valid_points(cs[n - 1].breakpoints()));
        lemma_y_at_range(cs[n - 1].breakpoints(), x);
        let w = ws[n - 1] as int;
        let y = y_at(cs[n - 1].breakpoints(), x);
        assert(-(abs(w) * ONE) <= w * y <= abs(w) * ONE) by (nonlinear_arith)
            requires 0 <= y <= ONE, abs(w) == (if w < 0 { -w } else { w });
        assert(wabs(ws, n) * ONE == wabs(ws, n - 1) * ONE + abs(w) * ONE) by (nonlinear_arith)
            requires wabs(ws, n) == wabs(ws, n - 1) + abs(w);
    }
}

/// Sum of the first `n` weights.
pub open spec fn wtotal(ws: Seq<i64>, n: int) -> int
    decreases n,
{
    if n <= 0 {
        0
    } else {
        wtotal(ws, n - 1) + ws[n - 1]
    }
}

/// Weights that an average can use: none negative, a positive sum that fits
/// in an `i64`.
pub open spec fn weights_ok(ws: Seq<i64>) -> bool {
    &&& forall|i: int| 0 <= i < ws.len() ==> #[trigger] ws[i] >= 0
    &&& 0 < wtotal(ws, ws.len() as int) <= i64::MAX
}

/// Weighted sum of the first `n` curves' values at `x`.
pub open spec fn wsum<C: Curve>(cs: Seq<&C>, ws: Seq<i64>, x: int, n: int) -> int
    decreases n,
{
    if n <= 0 {
        0
    } else {
        wsum(cs, ws, x, n - 1) + ws[n - 1] * y_at(cs[n - 1].breakpoints(), x)
    }
}

/// Domain values of the breakpoints of the first `n` curves.
pub open spec fn xs_union<C: Curve>(cs: Seq<&C>, n: int) -> Set<i64>
    decreases n,
{
    if n <= 0 {
        Set::empty()
    } else {
        xs_union(cs, n - 1).union(xs_of(cs[n - 1].breakpoints()).to_set())
    }
}

/// The weighted average, rounded down, at every breakpoint of any curve.
pub open spec fn combined_points<C: Curve>(cs: Seq<&C>, ws: Seq<i64>) -> Seq<Tup> {
    let u = sorted_seq_of(xs_union(cs, cs.len() as int));
    Seq::new(
        u.len(),
        |k: int| Tup { x: u[k], y: (wsum(cs, ws, u[k] as int, cs.len() as int) / wtotal(ws, ws.len() as int)) as i64 },
    )
}

/// All curves of the list are well formed.
pub open spec fn all_wf<C: Curve>(cs: Seq<&C>) -> bool {
    forall|i: int| 0 <= i < cs.len() ==> #[trigger] cs[i].wf()
}

/// All curves of the list define valid breakpoints.
pub open spec fn all_valid<C: Curve>(cs: Seq<&C>) -> bool {
    forall|i: int| 0 <= i < cs.len() ==> valid_points(#[trigger] cs[i].breakpoints())
}

proof fn lemma_wtotal_mono(ws: Seq<i64>, i: int, n: int)
    requires
        0 <= i <= n <= ws.len(),
        forall|j: int| 0 <= j < ws.len() ==> #[trigger] ws[j] >= 0,
    ensures
        0 <= wtotal(ws, i) <= wtotal(ws, n),
    decreases n,
{
    if n > i {
        lemma_wtotal_mono(ws, i, n - 1);
        assert(ws[n - 1] >= 0);
    } else if i > 0 {
        lemma_wtotal_mono(ws, 0, i - 1);
        lemma_wtotal_mono(ws, i - 1, i - 1);
        assert(ws[i - 1] >= 0);
    }
}

proof fn lemma_wsum_bounds<C: Curve>(cs: Seq<&C>, ws: Seq<i64>, x: int, n: int)
    requires
        0 <= n <= cs.len() == ws.len(),
        all_valid(cs),
        forall|j: int| 0 <= j < ws.len() ==> #[trigger] ws[j] >= 0,
    ensures
        0 <= wsum(cs, ws, x, n) <= wtotal(ws, n) * ONE,
    decreases n,
{
    if n > 0 {
        lemma_wsum_bounds(cs, ws, x, n - 1);
        assert(valid_points(cs[n - 1].breakpoints()));
        lemma_y_at_range(cs[n - 1].breakpoints(), x);
        let w = ws[n - 1] as int;
        let y = y_at(cs[n - 1].breakpoints(), x);
        assert(0 <= w * y <= w * ONE) by (nonlinear_arith)
            requires 0 <= w, 0 <= y <= ONE;
        assert(wtotal(ws, n) * ONE == wtotal(ws, n - 1) * ONE + w * ONE) by (nonlinear_arith)
            requires wtotal(ws, n) == wtotal(ws, n - 1) + w;
    }
}

proof fn lemma_wsum_mono<C: Curve>(cs: Seq<&C>, ws: Seq<i64>, x1: int, x2: int, n: int)
    requires
        0 <= n <= cs.len() == ws.len(),
        all_valid(cs),
        forall|j: int| 0 <= j < ws.len() ==> #[trigger] ws[j] >= 0,
        x1 <= x2,
    ensures
        wsum(cs, ws, x1, n) <= wsum(cs, ws, x2, n),
    decreases n,
{
    if n > 0 {
        lemma_wsum_mono(cs, ws, x1, x2, n - 1);
        assert(valid_points(cs[n - 1].breakpoints()));
        crate::curve::lemma_y_at_monotone(cs[n - 1].breakpoints(), x1, x2);
        let w = ws[n - 1] as int;
        let y1 = y_at(cs[n - 1].breakpoints(), x1);
        let y2 = y_at(cs[n - 1].breakpoints(), x2);
        assert(w * y1 <= w * y2) by (nonlinear_arith)
            requires 0 <= w, y1 <= y2;
    }
}

proof fn lemma_wsum_ends<C: Curve>(cs: Seq<&C>, ws: Seq<i64>, x: int, n: int)
    requires
        0 <= n <= cs.len() == ws.len(),
        all_valid(cs),
    ensures
        (forall|i: int| 0 <= i < n ==> x <= #[trigger] cs[i].breakpoints()[0].x) ==> wsum(cs, ws, x, n) == 0,
        (forall|i: int|
            0 <= i < n ==> x >= #[trigger] cs[i].breakpoints()[cs[i].breakpoints().len() - 1].x)
            ==> wsum(cs, ws, x, n) == wtotal(ws, n) * ONE,
    decreases n,
{
    if n > 0 {
        lemma_wsum_ends(cs, ws, x, n - 1);
        let p = cs[n - 1].breakpoints();
        assert(valid_points(p));
        assert(p[0].x < p[p.len() - 1].x);
        let w = ws[n - 1] as int;
        assert(wtotal(ws, n) * ONE == wtotal(ws, n - 1) * ONE + w * ONE) by (nonlinear_arith)
            requires wtotal(ws, n) == wtotal(ws, n - 1) + w;
        if forall|i: int| 0 <= i < n ==> x <= #[trigger] cs[i].breakpoints()[0].x {
            assert(x <= cs[n - 1].breakpoints()[0].x);
            assert(w * 0 == 0);
        }
        if forall|i: int| 0 <= i < n ==> x >= #[trigger] cs[i].breakpoints()[cs[i].breakpoints().len() - 1].x {
            assert(x >= cs[n - 1].breakpoints()[cs[n - 1].breakpoints().len() - 1].x);
        }
    }
}

proof fn lemma_xs_union<C: Curve>(cs: Seq<&C>, n: int, v: i64)
    requires
        0 <= n <= cs.len(),
    ensures
        xs_union(cs, n).contains(v) <==> exists|i: int| 0 <= i < n && #[trigger] xs_of(cs[i].breakpoints()).contains(v),
    decreases n,
{
    if n > 0 {
        lemma_xs_union(cs, n - 1, v);
        if xs_of(cs[n - 1].breakpoints()).contains(v) {
            assert(xs_union(cs, n).contains(v));
        }
    }
}

proof fn lemma_all_of(ls: Seq<Seq<i64>>, v: i64)
    ensures
        all_of(ls).count(v) > 0 <==> exists|i: int| 0 <= i < ls.len() && #[trigger] ls[i].contains(v),
    decreases ls.len(),
{
    if ls.len() > 0 {
        let t = ls.drop_last();
        lemma_all_of(t, v);
        ls.last().to_multiset_ensures();
        if exists|i: int| 0 <= i < ls.len() && #[trigger] ls[i].contains(v) {
            let i = choose|i: int| 0 <= i < ls.len() && #[trigger] ls[i].contains(v);
            if i < ls.len() - 1 {
                assert(t[i] == ls[i]);
            }
        }
        if exists|i: int| 0 <= i < t.len() && #[trigger] t[i].contains(v) {
            let i = choose|i: int| 0 <= i < t.len() && #[trigger] t[i].contains(v);
            assert(ls[i] == t[i]);
        }
    }
}

proof fn lemma_combined_valid<C: Curve>(cs: Seq<&C>, ws: Seq<i64>, u: Seq<i64>)
    requires
        cs.len() == ws.len() >= 1,
        all_valid(cs),
        weights_ok(ws),
        strictly_increasing(u),
        u.to_set() == xs_union(cs, cs.len() as int),
        u == sorted_seq_of(xs_union(cs, cs.len() as int)),
    ensures
        valid_points(combined_points(cs, ws)),
{
    let n = cs.len() as int;
    let w = wtotal(ws, ws.len() as int);
    let p = combined_points(cs, ws);
    // every union value is a breakpoint of some curve, hence within limits
    assert forall|k: int| 0 <= k < u.len() implies x_ok(#[trigger] u[k] as int) by {
        assert(u.to_set().contains(u[k]));
        lemma_xs_union(cs, n, u[k]);
        let i = choose|i: int| 0 <= i < n && #[trigger] xs_of(cs[i].breakpoints()).contains(u[k]);
        assert(valid_points(cs[i].breakpoints()));
        let j = choose|j: int| 0 <= j < xs_of(cs[i].breakpoints()).len() && xs_of(cs[i].breakpoints())[j] == u[k];
        assert(x_ok(cs[i].breakpoints()[j].x as int));
    }
    // the first union value lies at or below every curve's first point, the
    // last one at or above every curve's last point
    let c0 = cs[0].breakpoints();
    assert(valid_points(c0));
    assert(xs_of(c0).contains(c0[0].x) && xs_of(c0).contains(c0[c0.len() - 1].x)) by {
        assert(xs_of(c0)[0] == c0[0].x);
        assert(xs_of(c0)[c0.len() - 1] == c0[c0.len() - 1].x);
    }
    lemma_xs_union(cs, n, c0[0].x);
    lemma_xs_union(cs, n, c0[c0.len() - 1].x);
    assert(u.to_set().contains(c0[0].x));
    assert(u.to_set().contains(c0[c0.len() - 1].x));
    let ka = choose|k: int| 0 <= k < u.len() && u[k] == c0[0].x;
    let kb = choose|k: int| 0 <= k < u.len() && u[k] == c0[c0.len() - 1].x;
    assert(ka != kb);
    assert(u.len() >= 2);
    let m = u.len() - 1;
    assert forall|i: int| 0 <= i < n implies u[0] <= #[trigger] cs[i].breakpoints()[0].x
        && u[m] >= cs[i].breakpoints()[cs[i].breakpoints().len() - 1].x by {
        let q = cs[i].breakpoints();
        assert(valid_points(q));
        assert(xs_of(q)[0] == q[0].x);
        assert(xs_of(q)[q.len() - 1] == q[q.len() - 1].x);
        assert(xs_of(q).contains(q[0].x));
        assert(xs_of(q).contains(q[q.len() - 1].x));
        lemma_xs_union(cs, n, q[0].x);
        lemma_xs_union(cs, n, q[q.len() - 1].x);
        assert(u.to_set().contains(q[0].x));
        assert(u.to_set().contains(q[q.len() - 1].x));
        let k1 = choose|k: int| 0 <= k < u.len() && u[k] == q[0].x;
        let k2 = choose|k: int| 0 <= k < u.len() && u[k] == q[q.len() - 1].x;
        if k1 > 0 {
            assert(u[0] < u[k1]);
        }
        if k2 < m {
            assert(u[k2] < u[m]);
        }
    }
    lemma_wsum_ends(cs, ws, u[0] as int, n);
    lemma_wsum_ends(cs, ws, u[m] as int, n);
    assert(p[0].y == 0) by {
        assert(0int / w == 0);
    }
    assert(p[m].y == ONE) by {
        vstd::arithmetic::div_mod::lemma_div_multiples_vanish(ONE as int, w);
        assert(w * ONE == ONE * w) by (nonlinear_arith);
    }
    assert forall|k: int| #![trigger p[k]] 0 <= k < p.len() implies x_ok(p[k].x as int) && y_ok(p[k].y as int) by {
        assert(x_ok(u[k] as int));
        lemma_wsum_bounds(cs, ws, u[k] as int, n);
        let s = wsum(cs, ws, u[k] as int, n);
        vstd::arithmetic::div_mod::lemma_div_is_ordered(s, w * ONE, w);
        vstd::arithmetic::div_mod::lemma_div_multiples_vanish(ONE as int, w);
        assert(w * ONE == ONE * w) by (nonlinear_arith);
        vstd::arithmetic::div_mod::lemma_div_pos_is_pos(s, w);
    }
    assert forall|a: int, b: int| #![trigger p[a], p[b]] 0 <= a < b < p.len() implies p[a].x < p[b].x && p[a].y <= p[b].y by {
        assert(u[a] < u[b]);
        lemma_wsum_mono(cs, ws, u[a] as int, u[b] as int, n);
        lemma_wsum_bounds(cs, ws, u[a] as int, n);
        lemma_wsum_bounds(cs, ws, u[b] as int, n);
        let sa = wsum(cs, ws, u[a] as int, n);
        let sb = wsum(cs, ws, u[b] as int, n);
        vstd::arithmetic::div_mod::lemma_div_is_ordered(sa, sb, w);
        vstd::arithmetic::div_mod::lemma_div_is_ordered(sb, w * ONE, w);
        vstd::arithmetic::div_mod::lemma_div_multiples_vanish(ONE as int, w);
        assert(w * ONE == ONE * w) by (nonlinear_arith);
        vstd::arithmetic::div_mod::lemma_div_pos_is_pos(sa, w);
        assert(0 <= sa / w <= sb / w <= ONE);
    }
}

} // verus!
