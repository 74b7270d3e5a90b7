//! Ranking of scored entries: descending by score, cut to the best `k`.

use crate::score::Score;
use vstd::prelude::*;
use vstd::relations::{sorted_by, total_ordering};
use vstd::seq_lib::{
    group_to_multiset_ensures, lemma_multiset_commutative, lemma_sorted_unique, to_multiset_build,
};

verus! {

/// One entry of a search result: an identifier and the similarity score that
/// its stored vector obtained.
#[derive(Clone, Copy, Debug, PartialEq, Eq, Structural)]
pub struct ScoredResult {
    pub id: u128,
    pub score: Score,
}

/// Whether `a` stands at or before `b` in a ranking. A higher score comes
/// first and what is not a number comes last; entries whose scores rank alike
/// are ordered by ascending identifier, and at last by the bits of the score,
/// so that any two distinct entries are ordered in exactly one way.
pub open spec fn precedes(a: ScoredResult, b: ScoredResult) -> bool {
    ||| a.score.rank() > b.score.rank()
    ||| a.score.rank() == b.score.rank() && a.id < b.id
    ||| a.score.rank() == b.score.rank() && a.id == b.id && a.score.bits <= b.score.bits
}

/// `precedes` as a relation.
pub open spec fn ranking_order() -> spec_fn(ScoredResult, ScoredResult) -> bool {
    |a: ScoredResult, b: ScoredResult| precedes(a, b)
}

/// The ranking of `entries` cut to `k`: the entries sorted by `precedes`, of
/// which the first `k` are kept, or all where there are fewer.
pub open spec fn ranking(entries: Seq<ScoredResult>, k: nat) -> Seq<ScoredResult> {
    let sorted = entries.sort_by(ranking_order());
    if k < sorted.len() {
        sorted.take(k as int)
    } else {
        sorted
    }
}

/// Whether the scores of `hits` never rise from one entry to a later one.
pub open spec fn is_descending(hits: Seq<ScoredResult>) -> bool {
    forall|i: int, j: int|
        0 <= i < j < hits.len() ==> (#[trigger] hits[i]).score.rank() >= (#[trigger] hits[j]).score.rank()
}

/// `precedes` is a total order: reflexive, antisymmetric, transitive, and any
/// two entries are comparable.
pub proof fn lemma_precedes_is_total_order()
    ensures
        total_ordering(ranking_order()),
{
    let order = ranking_order();
    assert forall|a: ScoredResult, b: ScoredResult| #[trigger] order(a, b) && #[trigger] order(b, a) implies a
        == b by {
        assert(a.score.bits == b.score.bits);
        assert(a.score == b.score);
    }
    assert(vstd::relations::reflexive(order));
    assert(vstd::relations::antisymmetric(order));
    assert(vstd::relations::transitive(order));
    assert(vstd::relations::strongly_connected(order));
}

/// In a descending ranking no entry scores less, as floating-point numbers
/// compare, than an entry behind it.
pub proof fn lemma_descending_has_no_inversion(hits: Seq<ScoredResult>, i: int, j: int)
    requires
        is_descending(hits),
        0 <= i < j < hits.len(),
    ensures
        !hits[i].score.less_than(hits[j].score),
{
}

/// What the sorted sequence behind a ranking is: sorted by `precedes`, with
/// the same entries as the input, each as often.
pub proof fn lemma_sorted_entries(entries: Seq<ScoredResult>)
    ensures
        sorted_by(entries.sort_by(ranking_order()), ranking_order()),
        entries.sort_by(ranking_order()).to_multiset() == entries.to_multiset(),
        entries.sort_by(ranking_order()).len() == entries.len(),
{
    broadcast use group_to_multiset_ensures;

    lemma_precedes_is_total_order();
    entries.lemma_sort_by_ensures(ranking_order());
    assert(entries.sort_by(ranking_order()).to_multiset().len() == entries.to_multiset().len());
}

/// A ranking has `k` entries, or all of them where there are fewer; it is
/// descending; each of its entries is one of the input; and an entry of the
/// input that it leaves out is preceded by every entry that it keeps.
pub proof fn lemma_ranking_properties(entries: Seq<ScoredResult>, k: nat)
    ensures
        ranking(entries, k).len() == if k < entries.len() { k } else { entries.len() },
        sorted_by(ranking(entries, k), ranking_order()),
        is_descending(ranking(entries, k)),
        ranking(entries, k).to_multiset().subset_of(entries.to_multiset()),
        forall|i: int| 0 <= i < ranking(entries, k).len() ==> entries.contains(#[trigger] ranking(entries, k)[i]),
        forall|e: ScoredResult, i: int|
            entries.contains(e) && !ranking(entries, k).contains(e) && 0 <= i < ranking(entries, k).len()
                ==> #[trigger] precedes(ranking(entries, k)[i], e),
        forall|e: ScoredResult| entries.contains(e) && !ranking(entries, k).contains(e) ==> ranking(entries, k).len() == k,
{
    broadcast use group_to_multiset_ensures;

    lemma_sorted_entries(entries);
    let order = ranking_order();
    let sorted = entries.sort_by(order);
    let hits = ranking(entries, k);
    assert forall|i: int, j: int| 0 <= i < j < hits.len() implies (#[trigger] hits[i]).score.rank() >= (
    #[trigger] hits[j]).score.rank() by {
        assert(order(sorted[i], sorted[j]));
    }
    assert forall|i: int| 0 <= i < hits.len() implies entries.contains(#[trigger] hits[i]) by {
        assert(sorted[i] == hits[i]);
        assert(sorted.contains(sorted[i]));
        assert(sorted.to_multiset().count(hits[i]) > 0);
    }
    if k < sorted.len() {
        let rest = sorted.skip(k as int);
        assert(sorted =~= hits + rest);
        lemma_multiset_commutative(hits, rest);
        assert forall|e: ScoredResult, i: int|
            entries.contains(e) && !hits.contains(e) && 0 <= i < hits.len() implies #[trigger] precedes(
            hits[i],
            e,
        ) by {
            assert(entries.to_multiset().count(e) > 0);
            assert(sorted.contains(e));
            let p = choose|p: int| 0 <= p < sorted.len() && sorted[p] == e;
            if p < k {
                assert(hits[p] == e);
            }
            assert(order(sorted[i], sorted[p]));
        }
    } else {
        assert(hits == sorted);
        assert forall|e: ScoredResult| entries.contains(e) implies hits.contains(e) by {
            assert(entries.to_multiset().count(e) > 0);
        }
    }
}

/// Where no entry occurs twice in the input, none occurs twice in the ranking.
pub proof fn lemma_ranking_has_no_duplicates(entries: Seq<ScoredResult>, k: nat)
    requires
        entries.no_duplicates(),
    ensures
        ranking(entries, k).no_duplicates(),
{
    broadcast use group_to_multiset_ensures;

    let hits = ranking(entries, k);
    lemma_ranking_properties(entries, k);
    entries.lemma_multiset_has_no_duplicates();
    assert forall|e: ScoredResult| hits.to_multiset().contains(e) implies hits.to_multiset().count(e) == 1 by {
        assert(hits.to_multiset().count(e) <= entries.to_multiset().count(e));
    }
    hits.lemma_multiset_has_no_duplicates_conv();
}

/// A ranking depends on which entries there are and not on the order in which
/// they are handed over.
pub proof fn lemma_ranking_ignores_input_order(a: Seq<ScoredResult>, b: Seq<ScoredResult>, k: nat)
    requires
        a.to_multiset() == b.to_multiset(),
    ensures
        ranking(a, k) == ranking(b, k),
{
    lemma_sorted_entries(a);
    lemma_sorted_entries(b);
    lemma_precedes_is_total_order();
    lemma_sorted_unique(a.sort_by(ranking_order()), b.sort_by(ranking_order()), ranking_order());
}

/// Decides whether `a` stands at or before `b` in a ranking.
pub fn ranks_before(a: &ScoredResult, b: &ScoredResult) -> (before: bool)
    ensures
        before == precedes(*a, *b),
{
    let key_a: i64 = a.score.rank_key();
    let key_b: i64 = b.score.rank_key();
    if key_a != key_b {
        key_a > key_b
    } else if a.id != b.id {
        a.id < b.id
    } else {
        a.score.to_bits() <= b.score.to_bits()
    }
}

/// The first `n + 1` entries of a run are its first `n` and the one behind
/// them.
proof fn lemma_take_one_more(run: Seq<ScoredResult>, n: int)
    requires
        0 <= n < run.len(),
    ensures
        run.take(n + 1).to_multiset() == run.take(n).to_multiset().insert(run[n]),
{
    assert(run.take(n + 1) =~= run.take(n).push(run[n]));
    to_multiset_build(run.take(n), run[n]);
}

/// Merges two ranked runs into one.
fn merge(left: &Vec<ScoredResult>, right: &Vec<ScoredResult>) -> (merged: Vec<ScoredResult>)
    requires
        sorted_by(left@, ranking_order()),
        sorted_by(right@, ranking_order()),
    ensures
        sorted_by(merged@, ranking_order()),
        merged@.to_multiset() == left@.to_multiset().add(right@.to_multiset()),
{
    broadcast use {group_to_multiset_ensures, vstd::multiset::group_multiset_axioms};

    let mut merged: Vec<ScoredResult> = Vec::new();
    let mut i: usize = 0;
    let mut j: usize = 0;
    proof {
        assert(left@.take(0) =~= Seq::<ScoredResult>::empty());
        assert(right@.take(0) =~= Seq::<ScoredResult>::empty());
        assert(merged@.to_multiset() =~= left@.take(0).to_multiset().add(right@.take(0).to_multiset()));
    }
    while i < left.len() || j < right.len()
        invariant
            i <= left.len(),
            j <= right.len(),
            sorted_by(left@, ranking_order()),
            sorted_by(right@, ranking_order()),
            sorted_by(merged@, ranking_order()),
            merged@.to_multiset() == left@.take(i as int).to_multiset().add(right@.take(j as int).to_multiset()),
            forall|p: int, q: int|
                0 <= p < merged.len() && i <= q < left.len() ==> #[trigger] precedes(merged@[p], left@[q]),
            forall|p: int, q: int|
                0 <= p < merged.len() && j <= q < right.len() ==> #[trigger] precedes(merged@[p], right@[q]),
        decreases left.len() - i + right.len() - j,
    {
        let from_left = if i == left.len() {
            false
        } else if j == right.len() {
            true
        } else {
            ranks_before(&left[i], &right[j])
        };
        let ghost before = merged@;
        let entry = if from_left {
            left[i]
        } else {
            right[j]
        };
        proof {
            assert forall|q: int| i <= q < left.len() implies #[trigger] precedes(entry, left@[q]) by {
                if i < q {
                    assert(ranking_order()(left@[i as int], left@[q]));
                }
            }
            assert forall|q: int| j <= q < right.len() implies #[trigger] precedes(entry, right@[q]) by {
                if j < q {
                    assert(ranking_order()(right@[j as int], right@[q]));
                }
            }
            if from_left {
                lemma_take_one_more(left@, i as int);
            } else {
                lemma_take_one_more(right@, j as int);
            }
            to_multiset_build(before, entry);
        }
        merged.push(entry);
        if from_left {
            i += 1;
        } else {
            j += 1;
        }
        proof {
            assert(merged@.to_multiset() =~= left@.take(i as int).to_multiset().add(
                right@.take(j as int).to_multiset(),
            ));
            assert forall|p: int, q: int| 0 <= p < q < merged@.len() implies #[trigger] ranking_order()(
                merged@[p],
                merged@[q],
            ) by {
                if q < before.len() {
                    assert(ranking_order()(before[p], before[q]));
                }
            }
        }
    }
    proof {
        assert(left@.take(i as int) =~= left@);
        assert(right@.take(j as int) =~= right@);
    }
    merged
}

/// Ranks the entries of `entries` from `lo` up to `hi`.
fn sort_range(entries: &Vec<ScoredResult>, lo: usize, hi: usize) -> (sorted: Vec<ScoredResult>)
    requires
        lo <= hi <= entries.len(),
    ensures
        sorted_by(sorted@, ranking_order()),
        sorted@.to_multiset() == entries@.subrange(lo as int, hi as int).to_multiset(),
    decreases hi - lo,
{
    broadcast use group_to_multiset_ensures;

    if hi - lo <= 1 {
        let mut run: Vec<ScoredResult> = Vec::new();
        if lo < hi {
            run.push(entries[lo]);
        }
        proof {
            assert(run@ =~= entries@.subrange(lo as int, hi as int));
        }
        run
    } else {
        let mid: usize = lo + (hi - lo) / 2;
        let left = sort_range(entries, lo, mid);
        let right = sort_range(entries, mid, hi);
        proof {
            let first = entries@.subrange(lo as int, mid as int);
            let second = entries@.subrange(mid as int, hi as int);
            assert(entries@.subrange(lo as int, hi as int) =~= first + second);
            lemma_multiset_commutative(first, second);
        }
        merge(&left, &right)
    }
}

/// Ranks `entries` and keeps the best `k`: the result is `ranking(entries, k)`,
/// and so does not depend on the order in which the entries were handed over.
/// It has `k` entries, or all of them where there are fewer; its scores never
/// rise; and every entry left out is preceded by every entry kept.
pub fn rank(entries: Vec<ScoredResult>, k: usize) -> (hits: Vec<ScoredResult>)
    ensures
        hits@ == ranking(entries@, k as nat),
        hits.len() == if k < entries.len() { k } else { entries.len() },
        is_descending(hits@),
        hits@.to_multiset().subset_of(entries@.to_multiset()),
        forall|i: int| 0 <= i < hits.len() ==> entries@.contains(#[trigger] hits@[i]),
        forall|e: ScoredResult, i: int|
            entries@.contains(e) && !hits@.contains(e) && 0 <= i < hits.len() ==> #[trigger] precedes(hits@[i], e),
{
    let mut sorted = sort_range(&entries, 0, entries.len());
    proof {
        assert(entries@.subrange(0, entries.len() as int) =~= entries@);
        lemma_sorted_entries(entries@);
        lemma_precedes_is_total_order();
        lemma_sorted_unique(sorted@, entries@.sort_by(ranking_order()), ranking_order());
        lemma_ranking_properties(entries@, k as nat);
    }
    sorted.truncate(k);
    sorted
}

} // verus!
