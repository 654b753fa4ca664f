//! Ordered unions of domain values: the merge of sorted lists (through
//! itertools) and the removal of repeats.

use vstd::prelude::*;
use vstd::multiset::Multiset;
use itertools::Itertools;

verus! {

broadcast use vstd::multiset::group_multiset_axioms;

/// Each value is at most the next.
pub open spec fn nondecreasing(s: Seq<i64>) -> bool {
    forall|i: int, j: int| #![trigger s[i], s[j]] 0 <= i < j < s.len() ==> s[i] <= s[j]
}

/// Each value is below the next.
pub open spec fn strictly_increasing(s: Seq<i64>) -> bool {
    forall|i: int, j: int| #![trigger s[i], s[j]] 0 <= i < j < s.len() ==> s[i] < s[j]
}

/// The ascending sequence without repeats that holds exactly the values of `s`.
pub open spec fn sorted_seq_of(s: Set<i64>) -> Seq<i64> {
    choose|u: Seq<i64>| strictly_increasing(u) && u.to_set() == s
}

/// The views of a list of vectors.
pub open spec fn views(ls: Seq<Vec<i64>>) -> Seq<Seq<i64>> {
    Seq::new(ls.len(), |i: int| ls[i]@)
}

/// All values of all lists, counted with repeats.
pub open spec fn all_of(ls: Seq<Seq<i64>>) -> Multiset<i64>
    decreases ls.len(),
{
    if ls.len() == 0 {
        Multiset::empty()
    } else {
        all_of(ls.drop_last()).add(ls.last().to_multiset())
    }
}

/// Relies on itertools' `Itertools::merge`: two ascending sequences merge
/// into one ascending sequence that holds the elements of both.
#[verifier::external_body]
pub(crate) fn merge_sorted(a: &Vec<i64>, b: &Vec<i64>) -> (r: Vec<i64>)
    requires
        nondecreasing(a@),
        nondecreasing(b@),
    ensures
        nondecreasing(r@),
        r@.to_multiset() == a@.to_multiset().add(b@.to_multiset()),
{
    a.iter().merge(b.iter()).copied().collect()
}

/// Relies on itertools' `kmerge`: ascending sequences merge into one
/// ascending sequence that holds the elements of all of them.
#[verifier::external_body]
pub(crate) fn kmerge_sorted(lists: Vec<Vec<i64>>) -> (r: Vec<i64>)
    requires
        forall|i: int| 0 <= i < lists@.len() ==> nondecreasing(#[trigger] lists@[i]@),
    ensures
        nondecreasing(r@),
        r@.to_multiset() == all_of(views(lists@)),
{
    itertools::kmerge(lists).collect()
}

/// Two ascending sequences without repeats that hold the same values are
/// equal.
pub proof fn lemma_sorted_unique(a: Seq<i64>, b: Seq<i64>)
    requires
        strictly_increasing(a),
        strictly_increasing(b),
        a.to_set() == b.to_set(),
    ensures
        a == b,
    decreases a.len(),
{
    if a.len() == 0 || b.len() == 0 {
        if a.len() > 0 {
            assert(a.to_set().contains(a[0]));
        }
        if b.len() > 0 {
            assert(b.to_set().contains(b[0]));
        }
        assert(a =~= b);
    } else {
        assert(a.to_set().contains(a[0]));
        assert(b.to_set().contains(b[0]));
        let ja = choose|j: int| 0 <= j < b.len() && b[j] == a[0];
        let jb = choose|j: int| 0 <= j < a.len() && a[j] == b[0];
        if ja > 0 {
            assert(b[0] < b[ja]);
        }
        if jb > 0 {
            assert(a[0] < a[jb]);
        }
        assert(a[0] == b[0]);
        let ta = a.drop_first();
        let tb = b.drop_first();
        assert forall|v: i64| ta.to_set().contains(v) <==> tb.to_set().contains(v) by {
            if ta.to_set().contains(v) {
                let i = choose|i: int| 0 <= i < ta.len() && ta[i] == v;
                assert(a[0] < a[i + 1]);
                assert(a.to_set().contains(v));
                let j = choose|j: int| 0 <= j < b.len() && b[j] == v;
                assert(j != 0);
                assert(tb[j - 1] == v);
            }
            if tb.to_set().contains(v) {
                let i = choose|i: int| 0 <= i < tb.len() && tb[i] == v;
                assert(b[0] < b[i + 1]);
                assert(b.to_set().contains(v));
                let j = choose|j: int| 0 <= j < a.len() && a[j] == v;
                assert(j != 0);
                assert(ta[j - 1] == v);
            }
        }
        assert(ta.to_set() =~= tb.to_set());
        lemma_sorted_unique(ta, tb);
        assert forall|i: int| 0 <= i < a.len() implies a[i] == b[i] by {
            if i > 0 {
                assert(a[i] == ta[i - 1] && b[i] == tb[i - 1]);
            }
        }
        assert(a =~= b);
    }
}

/// A sequence that is ascending without repeats is the one `sorted_seq_of`
/// names for its values.
pub proof fn lemma_sorted_seq_of(u: Seq<i64>)
    requires
        strictly_increasing(u),
    ensures
        sorted_seq_of(u.to_set()) == u,
{
    let w = sorted_seq_of(u.to_set());
    assert(strictly_increasing(w) && w.to_set() == u.to_set());
    lemma_sorted_unique(w, u);
}

/// Drops each value that repeats the one before it, which leaves an
/// ascending sequence without repeats.
pub fn dedup_sorted(v: &Vec<i64>) -> (r: Vec<i64>)
    requires
        nondecreasing(v@),
    ensures
        strictly_increasing(r@),
        r@.to_set() == v@.to_set(),
        r@ == sorted_seq_of(v@.to_set()),
{
    let mut out: Vec<i64> = Vec::new();
    let mut i: usize = 0;
    while i < v.len()
        invariant
            i <= v@.len(),
            nondecreasing(v@),
            strictly_increasing(out@),
            out@.to_set() == v@.take(i as int).to_set(),
            i > 0 ==> out@.len() > 0 && out@[out@.len() - 1] == v@[i - 1],
            i == 0 ==> out@.len() == 0,
        decreases v@.len() - i,
    {
        let x = v[i];
        let ghost before = out@;
        if out.len() == 0 || out[out.len() - 1] != x {
            proof {
                if out@.len() > 0 {
                    assert(v@[i - 1] <= x);
                }
            }
            out.push(x);
            proof {
                assert forall|a: int, b: int| #![trigger out@[a], out@[b]] 0 <= a < b < out@.len() implies out@[a] < out@[b] by {
                    if b == out@.len() - 1 && a < b - 1 {
                        assert(before[a] < before[b - 1]);
                    }
                }
            }
        }
        proof {
            let t = v@.take(i + 1);
            assert(t =~= v@.take(i as int).push(x));
            assert forall|y: i64| out@.to_set().contains(y) <==> t.to_set().contains(y) by {
                if t.to_set().contains(y) {
                    let k = choose|k: int| 0 <= k < t.len() && t[k] == y;
                    if k < i {
                        assert(v@.take(i as int)[k] == y);
                        assert(v@.take(i as int).to_set().contains(y));
                        assert(before.to_set().contains(y));
                        let j = choose|j: int| 0 <= j < before.len() && before[j] == y;
                        assert(out@[j] == y);
                    } else {
                        assert(out@[out@.len() - 1] == y);
                    }
                }
                if out@.to_set().contains(y) {
                    let k = choose|k: int| 0 <= k < out@.len() && out@[k] == y;
                    if k < before.len() {
                        assert(before[k] == y);
                        assert(before.to_set().contains(y));
                        assert(v@.take(i as int).to_set().contains(y));
                        let j = choose|j: int| 0 <= j < i && v@.take(i as int)[j] == y;
                        assert(t[j] == y);
                    } else {
                        assert(t[i as int] == y);
                    }
                }
            }
            assert(out@.to_set() =~= t.to_set());
        }
        i += 1;
    }
    assert(v@.take(v@.len() as int) =~= v@);
    proof {
        lemma_sorted_seq_of(out@);
    }
    out
}

} // verus!
