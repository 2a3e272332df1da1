//! Recall@k: how much of the true top-k answer a search result found.
//!
//! Results are compared by id alone. The true answer is the set of ids among
//! the first `k` true results (fewer if there are fewer); recall is the size of
//! its intersection with the set of ids among the first `k` returned results,
//! over the size of the true answer, so it always lies between zero and one.
//! With no true answer at all there is nothing to miss, and recall is one.
use std::collections::HashSet;
use vstd::prelude::*;

verus! {

broadcast use vstd::std_specs::hash::group_hash_axioms;

/// The first `k` ids of `ids`, or all of them if there are fewer.
pub open spec fn top_k(ids: Seq<u64>, k: usize) -> Seq<u64> {
    if k < ids.len() {
        ids.take(k as int)
    } else {
        ids
    }
}

/// The true ids that the first `k` returned ids found.
pub open spec fn found_ids(approx: Seq<u64>, truth: Seq<u64>, k: usize) -> Set<u64> {
    top_k(approx, k).to_set().intersect(top_k(truth, k).to_set())
}

/// Recall@k as a fraction (numerator, denominator): one over one when the
/// first `k` true results are empty, otherwise |returned ids ∩ true ids| over
/// |true ids|, each taken among the first `k`.
pub open spec fn recall_fraction(approx: Seq<u64>, truth: Seq<u64>, k: usize) -> (nat, nat) {
    let relevant = top_k(truth, k);
    if relevant.len() == 0 {
        (1, 1)
    } else {
        (found_ids(approx, truth, k).len(), relevant.to_set().len())
    }
}

/// A fraction `num / den`.
#[derive(Debug, Clone, Copy, PartialEq, Eq, Structural)]
pub struct Ratio {
    pub num: usize,
    pub den: usize,
}

/// Recall@k of the returned ids `approx` against the true ids `truth`, as the
/// fraction that `recall_fraction` describes. The denominator is never zero.
pub fn recall_ratio(approx: &[u64], truth: &[u64], k: usize) -> (r: Ratio)
    ensures
        r.num == recall_fraction(approx@, truth@, k).0,
        r.den == recall_fraction(approx@, truth@, k).1,
        r.den >= 1,
{
    let mut truth_ids: HashSet<u64> = HashSet::new();
    let mut i: usize = 0;
    while i < k && i < truth.len()
        invariant
            i <= k,
            i <= truth@.len(),
            truth_ids@ == truth@.take(i as int).to_set(),
        decreases k - i,
    {
        proof {
            assert(truth@.take(i + 1) =~= truth@.take(i as int).push(truth@[i as int]));
            truth@.take(i as int).lemma_push_to_set_commute(truth@[i as int]);
        }
        truth_ids.insert(truth[i]);
        i += 1;
    }
    let ghost relevant = top_k(truth@, k);
    assert(truth@.take(i as int) =~= relevant);
    if truth_ids.is_empty() {
        proof {
            if relevant.len() > 0 {
                assert(relevant.to_set().contains(relevant[0]));
            }
        }
        return Ratio { num: 1, den: 1 };
    }
    proof {
        vstd::seq_lib::seq_to_set_is_finite(relevant);
    }
    let den = truth_ids.len();
    let ghost rel = relevant.to_set();
    proof {
        assert(approx@.take(0).to_set() =~= Set::empty());
        assert(rel.difference(Set::empty()) =~= rel);
        assert(Set::<u64>::empty().intersect(rel) =~= Set::empty());
    }
    let mut count: usize = 0;
    let mut j: usize = 0;
    while j < k && j < approx.len()
        invariant
            j <= k,
            j <= approx@.len(),
            rel.finite(),
            den == rel.len(),
            truth_ids@ == rel.difference(approx@.take(j as int).to_set()),
            count == approx@.take(j as int).to_set().intersect(rel).len(),
            approx@.take(j as int).to_set().intersect(rel).finite(),
            count <= den,
        decreases k - j,
    {
        let ghost seen = approx@.take(j as int).to_set();
        let ghost x = approx@[j as int];
        proof {
            assert(approx@.take(j + 1) =~= approx@.take(j as int).push(x));
            approx@.take(j as int).lemma_push_to_set_commute(x);
        }
        let hit = truth_ids.remove(&approx[j]);
        if hit {
            proof {
                assert(seen.insert(x).intersect(rel) =~= seen.intersect(rel).insert(x));
                vstd::set_lib::lemma_len_subset(seen.insert(x).intersect(rel), rel);
            }
            count += 1;
        } else {
            assert(seen.insert(x).intersect(rel) =~= seen.intersect(rel));
        }
        j += 1;
        assert(truth_ids@ =~= rel.difference(approx@.take(j as int).to_set()));
    }
    assert(approx@.take(j as int) =~= top_k(approx@, k));
    assert(top_k(approx@, k).to_set().intersect(rel) == found_ids(approx@, truth@, k));
    Ratio { num: count, den }
}

/// Recall lies between zero and one: the found ids are a subset of the true
/// ids, and the denominator is at least one.
pub proof fn law_recall_at_most_one(approx: Seq<u64>, truth: Seq<u64>, k: usize)
    ensures
        recall_fraction(approx, truth, k).0 <= recall_fraction(approx, truth, k).1,
        recall_fraction(approx, truth, k).1 >= 1,
{
    let relevant = top_k(truth, k);
    vstd::seq_lib::seq_to_set_is_finite(relevant);
    if relevant.len() > 0 {
        vstd::set_lib::lemma_len_subset(found_ids(approx, truth, k), relevant.to_set());
        assert(relevant.to_set().contains(relevant[0]));
        vstd::set_lib::lemma_len_subset(set![relevant[0]], relevant.to_set());
    }
}

/// Finding every true answer among the first `k` returned ids is recall one.
pub proof fn law_found_all_is_perfect(approx: Seq<u64>, truth: Seq<u64>, k: usize)
    requires
        forall|i: int| 0 <= i < top_k(truth, k).len() ==> top_k(approx, k).contains(
            #[trigger] top_k(truth, k)[i],
        ),
    ensures
        recall_fraction(approx, truth, k).0 == recall_fraction(approx, truth, k).1,
{
    let p = top_k(approx, k);
    let r = top_k(truth, k).to_set();
    assert(found_ids(approx, truth, k) =~= r) by {
        assert forall|x: u64| r.contains(x) implies p.to_set().contains(x) by {
            let i = choose|i: int| 0 <= i < top_k(truth, k).len() && top_k(truth, k)[i] == x;
        }
    }
}

/// Checking a result against itself gives recall one.
pub proof fn law_perfect_recall(ids: Seq<u64>, k: usize)
    ensures
        recall_fraction(ids, ids, k).0 == recall_fraction(ids, ids, k).1,
{
    let p = top_k(ids, k);
    assert forall|i: int| 0 <= i < p.len() implies p.contains(#[trigger] p[i]) by {}
    law_found_all_is_perfect(ids, ids, k);
}

/// Repeating a returned id changes nothing: only which ids were returned
/// among the first `k` counts.
pub proof fn law_returned_repeats_irrelevant(approx1: Seq<u64>, approx2: Seq<u64>, truth: Seq<u64>, k: usize)
    requires
        top_k(approx1, k).to_set() == top_k(approx2, k).to_set(),
    ensures
        recall_fraction(approx1, truth, k) == recall_fraction(approx2, truth, k),
{
}

/// Recall depends on the true results only through the set of ids among the
/// first `k` of them: reordering or repeating them changes nothing.
pub proof fn law_truth_order_irrelevant(approx: Seq<u64>, truth1: Seq<u64>, truth2: Seq<u64>, k: usize)
    requires
        top_k(truth1, k).to_set() == top_k(truth2, k).to_set(),
    ensures
        recall_fraction(approx, truth1, k) == recall_fraction(approx, truth2, k),
{
    let p1 = top_k(truth1, k);
    let p2 = top_k(truth2, k);
    if p1.len() > 0 {
        assert(p2.to_set().contains(p1[0]));
    }
    if p2.len() > 0 {
        assert(p1.to_set().contains(p2[0]));
    }
}

/// Only the first `k` returned ids count: what follows them changes nothing.
pub proof fn law_ids_past_k_ignored(approx: Seq<u64>, extra: Seq<u64>, truth: Seq<u64>, k: usize)
    requires
        k <= approx.len(),
    ensures
        recall_fraction(approx + extra, truth, k) == recall_fraction(approx, truth, k),
{
    assert(top_k(approx + extra, k) =~= top_k(approx, k));
}

/// What recall counts, by position: the denominator is the number of distinct
/// ids at positions below `k` of `truth`, and the numerator the number of those
/// ids that also stand at some position below `k` of `approx`; with no true
/// result below `k` the fraction is one over one.
pub proof fn law_recall_counts(approx: Seq<u64>, truth: Seq<u64>, k: usize)
    ensures
        ({
            let true_ids = Set::new(|x: u64| exists|j: int| 0 <= j < truth.len() && j < k && truth[j] == x);
            let hits = Set::new(
                |x: u64|
                    true_ids.contains(x) && exists|i: int| 0 <= i < approx.len() && i < k && approx[i] == x,
            );
            &&& (truth.len() == 0 || k == 0) ==> recall_fraction(approx, truth, k) == (1nat, 1nat)
            &&& (truth.len() > 0 && k > 0) ==> recall_fraction(approx, truth, k) == (hits.len(), true_ids.len())
        }),
{
    let true_ids = Set::new(|x: u64| exists|j: int| 0 <= j < truth.len() && j < k && truth[j] == x);
    let hits = Set::new(
        |x: u64| true_ids.contains(x) && exists|i: int| 0 <= i < approx.len() && i < k && approx[i] == x,
    );
    let pt = top_k(truth, k);
    let pa = top_k(approx, k);
    assert forall|x: u64| pt.to_set().contains(x) <==> true_ids.contains(x) by {
        if pt.contains(x) {
            let j = choose|j: int| 0 <= j < pt.len() && pt[j] == x;
            assert(truth[j] == x);
        }
        if true_ids.contains(x) {
            let j = choose|j: int| 0 <= j < truth.len() && j < k && truth[j] == x;
            assert(pt[j] == x);
        }
    }
    assert(pt.to_set() =~= true_ids);
    assert forall|x: u64| pa.to_set().contains(x) <==> exists|i: int| 0 <= i < approx.len() && i < k && approx[i] == x by {
        if pa.contains(x) {
            let i = choose|i: int| 0 <= i < pa.len() && pa[i] == x;
            assert(approx[i] == x);
        }
        if exists|i: int| 0 <= i < approx.len() && i < k && approx[i] == x {
            let i = choose|i: int| 0 <= i < approx.len() && i < k && approx[i] == x;
            assert(pa[i] == x);
        }
    }
    assert(found_ids(approx, truth, k) =~= hits);
    if truth.len() > 0 && k > 0 {
        assert(pt.len() > 0);
    }
}

} // verus!
