//! Point reduction on breakpoint sequences: Douglas–Peucker with a
//! tolerance, and removal of the least significant point down to a budget.

use vstd::prelude::*;
use crate::canonical::{x_ok, y_ok};
use crate::curve::{valid_points, Tup};
use crate::geometry::{norm2, perp, perp_distance, sqrt_of, tup_ok};

verus! {

/// Distance of `s[i]` from the chord from `s[a]` to `s[b]`.
pub open spec fn chord_dist(s: Seq<Tup>, a: int, b: int, i: int) -> int {
    perp(s[i], s[a], s[b], sqrt_of(norm2(s[a], s[b])))
}

/// First index in `a+1 ..= k` whose distance from the chord `a`–`b` is largest.
pub open spec fn farthest(s: Seq<Tup>, a: int, b: int, k: int) -> int
    decreases k - a,
{
    if k <= a + 1 {
        a + 1
    } else {
        let m = farthest(s, a, b, k - 1);
        if chord_dist(s, a, b, k) > chord_dist(s, a, b, m) {
            k
        } else {
            m
        }
    }
}

/// The indices that Douglas–Peucker with tolerance `tol` removes from the
/// range `a ..= b`: all interior ones when the farthest point is within
/// `tol` of the chord, else those removed from the two halves split there.
pub open spec fn dp_removed(s: Seq<Tup>, tol: int, a: int, b: int) -> Set<int>
    decreases b - a,
{
    if b - a < 2 {
        Set::empty()
    } else {
        let m = farthest(s, a, b, b - 1);
        if chord_dist(s, a, b, m) <= tol {
            Set::new(|i: int| a < i < b)
        } else if a < m < b {
            dp_removed(s, tol, a, m).union(dp_removed(s, tol, m, b))
        } else {
            Set::empty()
        }
    }
}

/// The points of `s` whose flag in `keep` is set, in order.
pub open spec fn select(s: Seq<Tup>, keep: Seq<bool>) -> Seq<Tup>
    decreases s.len(),
{
    if s.len() == 0 {
        Seq::empty()
    } else {
        let r = select(s.drop_last(), keep.take(s.len() - 1));
        if keep[s.len() - 1] {
            r.push(s.last())
        } else {
            r
        }
    }
}

/// What `simplify` keeps of a valid sequence.
pub open spec fn dp_keep(s: Seq<Tup>, tol: int) -> Seq<bool> {
    Seq::new(s.len(), |i: int| !dp_removed(s, tol, 0, s.len() - 1).contains(i))
}

/// Significance of the middle point of the triple starting at `i`.
pub open spec fn triple_score(s: Seq<Tup>, i: int) -> int {
    perp(s[i + 1], s[i], s[i + 2], sqrt_of(norm2(s[i], s[i + 2])))
}

/// First index in `0 ..= k` of a triple with the least score.
pub open spec fn least_triple(s: Seq<Tup>, k: int) -> int
    decreases k,
{
    if k <= 0 {
        0
    } else {
        let m = least_triple(s, k - 1);
        if triple_score(s, k) < triple_score(s, m) {
            k
        } else {
            m
        }
    }
}

/// Removes the middle point of the least significant triple.
pub open spec fn drop_least(s: Seq<Tup>) -> Seq<Tup> {
    s.remove(least_triple(s, s.len() - 3) + 1)
}

/// `k` rounds of `drop_least`.
pub open spec fn drop_rounds(s: Seq<Tup>, k: nat) -> Seq<Tup>
    decreases k,
{
    if k == 0 {
        s
    } else {
        drop_rounds(drop_least(s), (k - 1) as nat)
    }
}

proof fn lemma_farthest_bounds(s: Seq<Tup>, a: int, b: int, k: int)
    requires
        a + 1 <= k,
    ensures
        a + 1 <= farthest(s, a, b, k) <= k,
    decreases k - a,
{
    if k > a + 1 {
        lemma_farthest_bounds(s, a, b, k - 1);
    }
}

proof fn lemma_least_triple_bounds(s: Seq<Tup>, k: int)
    requires
        0 <= k,
    ensures
        0 <= least_triple(s, k) <= k,
    decreases k,
{
    if k > 0 {
        lemma_least_triple_bounds(s, k - 1);
    }
}

/// Every point of `r` is a point of `s`.
pub open spec fn drawn_from(r: Seq<Tup>, s: Seq<Tup>) -> bool {
    forall|k: int| 0 <= k < r.len() ==> #[trigger] drawn_at(r, s, k)
}

/// Point `k` of `r` is a point of `s`.
pub open spec fn drawn_at(r: Seq<Tup>, s: Seq<Tup>, k: int) -> bool {
    exists|j: int| 0 <= j < s.len() && r[k] == #[trigger] s[j]
}

/// What `select` returns is made of points of `s`, and no more of them.
pub proof fn lemma_select_sub(s: Seq<Tup>, keep: Seq<bool>)
    ensures
        select(s, keep).len() <= s.len(),
        drawn_from(select(s, keep), s),
    decreases s.len(),
{
    let r = select(s, keep);
    if s.len() == 0 {
        assert(r =~= Seq::<Tup>::empty());
        assert(drawn_from(r, s));
    } else {
        let t = s.drop_last();
        let kt = keep.take(s.len() - 1);
        lemma_select_sub(t, kt);
        let rt = select(t, kt);
        assert forall|k: int| 0 <= k < r.len() implies #[trigger] drawn_at(r, s, k) by {
            if k < rt.len() {
                assert(drawn_at(rt, t, k));
                let j = choose|j: int| 0 <= j < t.len() && rt[k] == #[trigger] t[j];
                assert(t[j] == s[j]);
                assert(r[k] == rt[k]);
                assert(0 <= j < s.len() && r[k] == s[j]);
            } else {
                assert(r[k] == s[s.len() - 1]);
            }
        }
        assert(drawn_from(r, s));
    }
    assert(drawn_from(r, s));
}

/// Removing an interior point keeps a sequence valid.
pub proof fn lemma_remove_valid(s: Seq<Tup>, j: int)
    requires
        valid_points(s),
        0 < j < s.len() - 1,
    ensures
        valid_points(s.remove(j)),
{
    let t = s.remove(j);
    assert forall|a: int, b: int| #![trigger t[a], t[b]] 0 <= a < b < t.len() implies t[a].x < t[b].x
        && t[a].y <= t[b].y by {
        let a1 = if a < j { a } else { a + 1 };
        let b1 = if b < j { b } else { b + 1 };
        assert(t[a] == s[a1] && t[b] == s[b1]);
    }
    assert forall|k: int| #![trigger t[k]] 0 <= k < t.len() implies x_ok(t[k].x as int) && y_ok(t[k].y as int) by {
        let k1 = if k < j { k } else { k + 1 };
        assert(t[k] == s[k1]);
    }
}

/// Distance of point `i` from the chord between points `start` and `end`.
fn distance(points: &Vec<Tup>, start: usize, end: usize, i: usize) -> (r: i128)
    requires
        valid_points(points@),
        start < end < points@.len(),
        i < points@.len(),
    ensures
        r == chord_dist(points@, start as int, end as int, i as int),
        r >= 0,
{
    proof {
        assert(tup_ok(points@[start as int]) && tup_ok(points@[end as int]) && tup_ok(points@[i as int]));
    }
    perp_distance(points[i], points[start], points[end])
}

/// Douglas–Peucker on the range `start ..= end`: clears the flag of every
/// point that it removes.
fn simplify_rec(points: &Vec<Tup>, tol: i64, start: usize, end: usize, keep: &mut Vec<bool>)
    requires
        valid_points(points@),
        start <= end < points@.len(),
        old(keep)@.len() == points@.len(),
    ensures
        final(keep)@.len() == points@.len(),
        forall|i: int|
            0 <= i < points@.len() ==> #[trigger] final(keep)@[i] == (old(keep)@[i]
                && !dp_removed(points@, tol as int, start as int, end as int).contains(i)),
    decreases end - start,
{
    if end - start < 2 {
        return;
    }
    let mut max_d: i128 = -1;
    let mut max_d_i: usize = start + 1;
    let mut i: usize = start + 1;
    while i < end
        invariant
            valid_points(points@),
            start + 1 <= i <= end < points@.len(),
            end - start >= 2,
            i == start + 1 ==> max_d == -1,
            i > start + 1 ==> max_d_i == farthest(points@, start as int, end as int, i - 1)
                && max_d == chord_dist(points@, start as int, end as int, max_d_i as int),
            start + 1 <= max_d_i < end,
        decreases end - i,
    {
        let d = distance(points, start, end, i);
        if d > max_d {
            max_d = d;
            max_d_i = i;
        }
        assert(max_d_i == farthest(points@, start as int, end as int, i as int));
        i += 1;
    }
    let ghost m = farthest(points@, start as int, end as int, end - 1);
    assert(max_d_i == m);
    if max_d <= tol as i128 {
        let mut k: usize = start + 1;
        while k < end
            invariant
                start + 1 <= k <= end < points@.len(),
                keep@.len() == points@.len(),
                forall|j: int|
                    0 <= j < points@.len() ==> #[trigger] keep@[j] == (old(keep)@[j] && !(start < j && j < k)),
            decreases end - k,
        {
            keep.set(k, false);
            k += 1;
        }
    } else {
        simplify_rec(points, tol, start, max_d_i, keep);
        simplify_rec(points, tol, max_d_i, end, keep);
    }
}

/// The points whose flag is set, in order.
fn select_points(points: &Vec<Tup>, keep: &Vec<bool>) -> (r: Vec<Tup>)
    requires
        valid_points(points@),
        keep@.len() == points@.len(),
        keep@[0],
        keep@[points@.len() - 1],
    ensures
        r@ == select(points@, keep@),
        valid_points(r@),
        r@.len() <= points@.len(),
        r@[0] == points@[0],
        r@[r@.len() - 1] == points@[points@.len() - 1],
        drawn_from(r@, points@),
{
    let n = points.len();
    let mut out: Vec<Tup> = Vec::new();
    let ghost mut idx: Seq<int> = Seq::empty();
    let mut i: usize = 0;
    while i < n
        invariant
            n == points@.len(),
            n >= 2,
            keep@.len() == n,
            keep@[0],
            valid_points(points@),
            i <= n,
            out@ == select(points@.take(i as int), keep@.take(i as int)),
            idx.len() == out@.len(),
            out@.len() <= i,
            forall|k: int| #![trigger idx[k]] 0 <= k < idx.len() ==> 0 <= idx[k] < i && out@[k] == points@[idx[k]],
            forall|a: int, b: int| #![trigger idx[a], idx[b]] 0 <= a < b < idx.len() ==> idx[a] < idx[b],
            i > 0 ==> idx.len() > 0 && idx[0] == 0,
            i > 0 && keep@[i - 1] ==> idx.len() > 0 && idx[idx.len() - 1] == i - 1,
        decreases n - i,
    {
        let ghost t = points@.take(i + 1);
        assert(t.drop_last() =~= points@.take(i as int));
        assert(keep@.take(i + 1).take(i as int) =~= keep@.take(i as int));
        assert(t.last() == points@[i as int]);
        if keep[i] {
            out.push(points[i]);
            proof {
                idx = idx.push(i as int);
            }
        }
        i += 1;
    }
    assert(points@.take(n as int) =~= points@);
    assert(keep@.take(n as int) =~= keep@);
    proof {
        let o = out@;
        assert forall|a: int, b: int| #![trigger o[a], o[b]] 0 <= a < b < o.len() implies o[a].x < o[b].x
            && o[a].y <= o[b].y by {
            assert(idx[a] < idx[b]);
            assert(o[a] == points@[idx[a]] && o[b] == points@[idx[b]]);
        }
        assert forall|k: int| #![trigger o[k]] 0 <= k < o.len() implies x_ok(o[k].x as int) && y_ok(o[k].y as int) by {
            assert(o[k] == points@[idx[k]]);
        }
        assert forall|k: int| 0 <= k < o.len() implies #[trigger] drawn_at(o, points@, k) by {
            assert(o[k] == points@[idx[k]]);
        }
        if o.len() == 1 {
            assert(idx[0] == 0 && idx[0] == n - 1);
        }
    }
    out
}

/// Douglas–Peucker reduction of a valid sequence.
pub fn simplify_points(points: &Vec<Tup>, tol: i64) -> (r: Vec<Tup>)
    requires
        valid_points(points@),
    ensures
        r@ == select(points@, dp_keep(points@, tol as int)),
        valid_points(r@),
        r@.len() <= points@.len(),
        r@[0] == points@[0],
        r@[r@.len() - 1] == points@[points@.len() - 1],
        drawn_from(r@, points@),
{
    let n = points.len();
    let mut keep: Vec<bool> = Vec::new();
    let mut i: usize = 0;
    while i < n
        invariant
            i <= n == points@.len(),
            keep@.len() == i,
            forall|j: int| 0 <= j < i ==> #[trigger] keep@[j],
        decreases n - i,
    {
        keep.push(true);
        i += 1;
    }
    simplify_rec(points, tol, 0, n - 1, &mut keep);
    proof {
        lemma_dp_removed_interior(points@, tol as int, 0, n - 1);
        assert(keep@[0]);
        assert(keep@[n - 1]);
        assert(keep@ =~= dp_keep(points@, tol as int));
    }
    select_points(points, &keep)
}

proof fn lemma_dp_removed_interior(s: Seq<Tup>, tol: int, a: int, b: int)
    ensures
        forall|i: int| #[trigger] dp_removed(s, tol, a, b).contains(i) ==> a < i < b,
    decreases b - a,
{
    if b - a >= 2 {
        let m = farthest(s, a, b, b - 1);
        if chord_dist(s, a, b, m) > tol && a < m < b {
            lemma_dp_removed_interior(s, tol, a, m);
            lemma_dp_removed_interior(s, tol, m, b);
            assert forall|i: int| #[trigger] dp_removed(s, tol, a, b).contains(i) implies a < i < b by {
                assert(dp_removed(s, tol, a, m).contains(i) || dp_removed(s, tol, m, b).contains(i));
            }
        }
    }
}

/// Index of the first triple whose middle point matters least.
fn least_triple_index(points: &Vec<Tup>) -> (r: usize)
    requires
        valid_points(points@),
        points@.len() >= 3,
    ensures
        r == least_triple(points@, points@.len() - 3),
        r + 2 < points@.len(),
{
    let n = points.len();
    let mut best: usize = 0;
    proof {
        assert(tup_ok(points@[0]) && tup_ok(points@[1]) && tup_ok(points@[2]));
    }
    let mut best_d: i128 = perp_distance(points[1], points[0], points[2]);
    let mut i: usize = 1;
    while i + 2 < n
        invariant
            n == points@.len(),
            valid_points(points@),
            1 <= i <= n - 2,
            best == least_triple(points@, i - 1),
            best < i,
            best_d == triple_score(points@, best as int),
        decreases n - i,
    {
        proof {
            assert(tup_ok(points@[i as int]) && tup_ok(points@[i + 1]) && tup_ok(points@[i + 2]));
        }
        let d = perp_distance(points[i + 1], points[i], points[i + 2]);
        if d < best_d {
            best = i;
            best_d = d;
        }
        i += 1;
    }
    best
}

/// Removes least significant points until at most `max_points` remain.
pub fn simplify_fixed_points(points: &mut Vec<Tup>, max_points: usize)
    requires
        valid_points(old(points)@),
        max_points >= 2 || old(points)@.len() <= max_points,
    ensures
        valid_points(final(points)@),
        final(points)@ == (if old(points)@.len() > max_points {
            drop_rounds(old(points)@, (old(points)@.len() - max_points) as nat)
        } else {
            old(points)@
        }),
        final(points)@.len() == (if old(points)@.len() > max_points { max_points as int } else { old(points)@.len() as int }),
        final(points)@[0] == old(points)@[0],
        final(points)@[final(points)@.len() - 1] == old(points)@[old(points)@.len() - 1],
{
    if points.len() <= max_points {
        return;
    }
    let ghost target = drop_rounds(old(points)@, (old(points)@.len() - max_points) as nat);
    while points.len() > max_points
        invariant
            valid_points(points@),
            points@.len() >= max_points >= 2,
            drop_rounds(points@, (points@.len() - max_points) as nat) == target,
            points@[0] == old(points)@[0],
            points@[points@.len() - 1] == old(points)@[old(points)@.len() - 1],
        decreases points@.len(),
    {
        let m = least_triple_index(points);
        let ghost before = points@;
        proof {
            lemma_remove_valid(before, m + 1);
            assert(drop_least(before) == before.remove(m + 1));
        }
        points.remove(m + 1);
    }
}

} // verus!
