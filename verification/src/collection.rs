//! A collection: vectors stored under identifiers, and the search over them.

use crate::ranking::{
    is_descending, lemma_ranking_has_no_duplicates, lemma_ranking_properties, precedes, rank,
    ranking, ScoredResult,
};
use crate::score::Score;
use std::collections::HashMap;
use vstd::prelude::*;
use vstd::std_specs::iter::IteratorSpec;

verus! {

/// What a store holds under `key`: the vector, or nothing.
pub open spec fn lookup<T>(documents: Map<u128, Seq<T>>, key: u128) -> Option<Seq<T>> {
    if documents.contains_key(key) {
        Some(documents[key])
    } else {
        None
    }
}

/// The identifiers under which a vector of `dimension` components is stored:
/// those that a search with a request of that length takes into account.
pub open spec fn eligible<T>(documents: Map<u128, Seq<T>>, dimension: nat) -> Set<u128> {
    Set::new(|key: u128| documents.contains_key(key) && documents[key].len() == dimension)
}

/// Whether `score` may return `outcome` for two vectors with the components
/// `a` and `b`.
pub open spec fn may_score<T, F: Fn(&[T], &[T]) -> Score>(
    score: F,
    a: Seq<T>,
    b: Seq<T>,
    outcome: Score,
) -> bool {
    exists|x: &[T], y: &[T]| x@ == a && y@ == b && #[trigger] call_ensures(score, (x, y), outcome)
}

/// Whether `scored` is a scoring of `documents` against `request`: it holds
/// each eligible identifier once and no other, each with a score that `score`
/// may return for the request and the vector stored under that identifier.
pub open spec fn is_scoring<T, F: Fn(&[T], &[T]) -> Score>(
    documents: Map<u128, Seq<T>>,
    request: Seq<T>,
    score: F,
    scored: Seq<ScoredResult>,
) -> bool {
    &&& forall|i: int, j: int|
        0 <= i < j < scored.len() ==> (#[trigger] scored[i]).id != (#[trigger] scored[j]).id
    &&& forall|i: int|
        0 <= i < scored.len() ==> {
            &&& eligible(documents, request.len()).contains((#[trigger] scored[i]).id)
            &&& may_score(score, request, documents[scored[i].id], scored[i].score)
        }
    &&& forall|key: u128| #[trigger]
        eligible(documents, request.len()).contains(key) ==> exists|i: int|
            0 <= i < scored.len() && (#[trigger] scored[i]).id == key
}

/// Whether `hits` is a result of searching `documents` for the `k` vectors
/// most similar to `request`: the ranking, cut to `k`, of a scoring of the
/// documents against the request.
pub open spec fn is_search_result<T, F: Fn(&[T], &[T]) -> Score>(
    documents: Map<u128, Seq<T>>,
    request: Seq<T>,
    k: nat,
    score: F,
    hits: Seq<ScoredResult>,
) -> bool {
    exists|scored: Seq<ScoredResult>| #[trigger]
        is_scoring(documents, request, score, scored) && hits == ranking(scored, k)
}

/// Whether every one of `hits` precedes `key` in the ranking, for a score that
/// `score` may return for the request and the vector stored under `key`.
pub open spec fn is_outranked<T, F: Fn(&[T], &[T]) -> Score>(
    documents: Map<u128, Seq<T>>,
    request: Seq<T>,
    score: F,
    hits: Seq<ScoredResult>,
    key: u128,
) -> bool {
    exists|outcome: Score| #[trigger]
        may_score(score, request, documents[key], outcome) && forall|i: int|
            0 <= i < hits.len() ==> #[trigger] precedes(hits[i], ScoredResult { id: key, score: outcome })
}

/// Whether `key` is the identifier of one of `hits`.
pub open spec fn is_among(hits: Seq<ScoredResult>, key: u128) -> bool {
    exists|i: int| 0 <= i < hits.len() && (#[trigger] hits[i]).id == key
}

/// A store of vectors, each under an identifier of its own. The vectors of
/// one collection need not have the same length. The components are of any
/// type: a collection stores and hands out vectors and compares their lengths,
/// and leaves their contents to the function that scores them.
pub struct Collection<T> {
    documents: HashMap<u128, Vec<T>>,
}

impl<T> View for Collection<T> {
    type V = Map<u128, Seq<T>>;

    /// The vectors of the collection by identifier.
    closed spec fn view(&self) -> Map<u128, Seq<T>> {
        self.documents@.map_values(|vector: Vec<T>| vector@)
    }
}

impl<T> Collection<T> {
    /// An empty collection.
    pub fn new() -> (collection: Self)
        ensures
            collection@ == Map::<u128, Seq<T>>::empty(),
    {
        let collection = Collection { documents: HashMap::new() };
        assert(collection@ =~= Map::<u128, Seq<T>>::empty());
        collection
    }

    /// Stores `vector` under `key`, in place of what was stored there.
    pub fn upsert(&mut self, key: u128, vector: Vec<T>)
        ensures
            final(self)@ == old(self)@.insert(key, vector@),
    {
        self.documents.insert(key, vector);
        assert(self@ =~= old(self)@.insert(key, vector@));
    }

    /// The vector stored under `key`, if there is one.
    pub fn read(&self, key: &u128) -> (found: Option<&Vec<T>>)
        ensures
            match found {
                Some(vector) => lookup(self@, *key) == Some(vector@),
                None => lookup(self@, *key) is None,
            },
    {
        self.documents.get(key)
    }

    /// Removes what is stored under `key`; without effect where nothing is.
    pub fn delete(&mut self, key: &u128)
        ensures
            final(self)@ == old(self)@.remove(*key),
    {
        self.documents.remove(key);
        assert(self@ =~= old(self)@.remove(*key));
    }

    /// The `k` stored vectors most similar to `request`, as `score` judges
    /// similarity, best first.
    ///
    /// Only vectors with as many components as `request` are scored, and
    /// `score` is called on such pairs alone; the others are passed over
    /// without an error. The result is the ranking, cut to `k`, of a scoring of
    /// the eligible vectors: each eligible identifier enters it once with the
    /// score that `score` returned for it. So it has `k` entries, or one for
    /// each eligible identifier where those are fewer; its scores never rise;
    /// no identifier occurs twice; and an eligible identifier is left out
    /// only where `k` entries precede it.
    pub fn search<F: Fn(&[T], &[T]) -> Score>(&self, request: &[T], k: usize, score: F) -> (hits: Vec<
        ScoredResult,
    >)
        requires
            forall|y: &[T]| y@.len() == request@.len() ==> call_requires(score, (request, y)),
        ensures
            is_search_result(self@, request@, k as nat, score, hits@),
            hits.len() <= k,
            eligible(self@, request@.len()).finite(),
            hits.len() == if k < eligible(self@, request@.len()).len() {
                k as nat
            } else {
                eligible(self@, request@.len()).len()
            },
            is_descending(hits@),
            forall|i: int|
                0 <= i < hits.len() ==> {
                    &&& eligible(self@, request@.len()).contains((#[trigger] hits@[i]).id)
                    &&& may_score(score, request@, self@[hits@[i].id], hits@[i].score)
                },
            forall|i: int, j: int| 0 <= i < j < hits.len() ==> (#[trigger] hits@[i]).id != (#[trigger] hits@[j]).id,
            forall|key: u128|
                eligible(self@, request@.len()).contains(key) && !#[trigger] is_among(hits@, key) ==> hits.len() == k,
            forall|key: u128|
                eligible(self@, request@.len()).contains(key) && !is_among(hits@, key) ==> #[trigger] is_outranked(
                    self@,
                    request@,
                    score,
                    hits@,
                    key,
                ),
    {
        let scored = self.score_eligible(request, &score);
        proof {
            lemma_search_result_properties(self@, request@, k as nat, score, ranking(scored@, k as nat));
        }
        rank(scored, k)
    }

    /// Scores every stored vector that has as many components as `request`.
    fn score_eligible<F: Fn(&[T], &[T]) -> Score>(&self, request: &[T], score: &F) -> (scored: Vec<
        ScoredResult,
    >)
        requires
            forall|y: &[T]| y@.len() == request@.len() ==> call_requires(*score, (request, y)),
        ensures
            is_scoring(self@, request@, *score, scored@),
    {
        let mut scored: Vec<ScoredResult> = Vec::new();
        let ghost mut origin: Seq<int> = Seq::empty();
        let ghost items = self.documents.iter().remaining();
        for entry in it: self.documents.iter()
            invariant
                it.seq() == items,
                forall|y: &[T]| y@.len() == request@.len() ==> call_requires(*score, (request, y)),
                origin.len() == scored.len(),
                forall|j: int| 0 <= j < origin.len() ==> 0 <= #[trigger] origin[j] < it.index(),
                forall|j: int, l: int| 0 <= j < l < origin.len() ==> #[trigger] origin[j] < #[trigger] origin[l],
                forall|j: int|
                    0 <= j < scored.len() ==> {
                        let source = items[origin[j]];
                        &&& (#[trigger] scored@[j]).id == *source.0
                        &&& source.1@.len() == request@.len()
                        &&& may_score(*score, request@, source.1@, scored@[j].score)
                    },
                forall|i: int|
                    0 <= i < it.index() && (#[trigger] items[i]).1@.len() == request@.len() ==> exists|j: int|
                        0 <= j < origin.len() && #[trigger] origin[j] == i,
        {
            let (key, vector) = entry;
            let ghost earlier = origin;
            if vector.len() == request.len() {
                let candidate = vector.as_slice();
                let outcome = score(request, candidate);
                scored.push(ScoredResult { id: *key, score: outcome });
                proof {
                    origin = origin.push(it.index());
                    assert(origin[earlier.len() as int] == it.index());
                }
            }
            proof {
                assert forall|i: int|
                    0 <= i < it.index() + 1 && (#[trigger] items[i]).1@.len() == request@.len() implies exists|
                    j: int,
                | 0 <= j < origin.len() && #[trigger] origin[j] == i by {
                    if i < it.index() {
                        let j = choose|j: int| 0 <= j < earlier.len() && #[trigger] earlier[j] == i;
                        assert(origin[j] == i);
                    }
                }
            }
        }
        proof {
            let documents = self.documents@;
            assert forall|i: int, j: int| 0 <= i < j < scored@.len() implies (#[trigger] scored@[i]).id != (
            #[trigger] scored@[j]).id by {
                let a = items[origin[i]];
                let b = items[origin[j]];
                assert(documents[*a.0] == *a.1);
                assert(documents[*b.0] == *b.1);
                if *a.0 == *b.0 {
                    assert(a == b);
                }
            }
            assert forall|i: int| 0 <= i < scored@.len() implies {
                &&& eligible(self@, request@.len()).contains((#[trigger] scored@[i]).id)
                &&& may_score(*score, request@, self@[scored@[i].id], scored@[i].score)
            } by {
                let a = items[origin[i]];
                assert(documents.contains_key(*a.0) && documents[*a.0] == *a.1);
            }
            assert forall|key: u128| #[trigger]
                eligible(self@, request@.len()).contains(key) implies exists|i: int|
                0 <= i < scored@.len() && (#[trigger] scored@[i]).id == key by {
                assert(documents.contains_key(key));
                assert(items.contains((&key, &documents[key])));
                let p = choose|p: int| 0 <= p < items.len() && items[p] == (&key, &documents[key]);
                let j = choose|j: int| 0 <= j < origin.len() && #[trigger] origin[j] == p;
                assert(scored@[j].id == key);
            }
        }
        scored
    }
}

/// A scoring has one entry for each eligible identifier.
pub proof fn lemma_scoring_length<T, F: Fn(&[T], &[T]) -> Score>(
    documents: Map<u128, Seq<T>>,
    request: Seq<T>,
    score: F,
    scored: Seq<ScoredResult>,
)
    requires
        is_scoring(documents, request, score, scored),
    ensures
        eligible(documents, request.len()).finite(),
        scored.len() == eligible(documents, request.len()).len(),
{
    let ids = scored.map_values(|entry: ScoredResult| entry.id);
    assert forall|i: int, j: int| 0 <= i < ids.len() && 0 <= j < ids.len() && i != j implies ids[i] != ids[j] by {
        if i < j {
            assert(scored[i].id != scored[j].id);
        } else {
            assert(scored[j].id != scored[i].id);
        }
    }
    assert forall|key: u128| ids.to_set().contains(key) <==> eligible(documents, request.len()).contains(
        key,
    ) by {
        if ids.to_set().contains(key) {
            let i = choose|i: int| 0 <= i < ids.len() && ids[i] == key;
            assert(eligible(documents, request.len()).contains(scored[i].id));
        }
        if eligible(documents, request.len()).contains(key) {
            let i = choose|i: int| 0 <= i < scored.len() && (#[trigger] scored[i]).id == key;
            assert(ids[i] == key);
        }
    }
    assert(ids.to_set() =~= eligible(documents, request.len()));
    ids.unique_seq_to_set();
    vstd::seq_lib::seq_to_set_is_finite(ids);
}

/// What holds of every search result. It has at most `k` entries: `k`, or one
/// for each eligible identifier where those are fewer. Its scores never rise.
/// It holds eligible identifiers alone, none twice, each with a score that
/// `score` may return for the request and the vector stored under it. And an
/// eligible identifier is left out only where the result is full and every
/// one of its entries precedes that identifier.
pub proof fn lemma_search_result_properties<T, F: Fn(&[T], &[T]) -> Score>(
    documents: Map<u128, Seq<T>>,
    request: Seq<T>,
    k: nat,
    score: F,
    hits: Seq<ScoredResult>,
)
    requires
        is_search_result(documents, request, k, score, hits),
    ensures
        hits.len() <= k,
        eligible(documents, request.len()).finite(),
        hits.len() == if k < eligible(documents, request.len()).len() {
            k
        } else {
            eligible(documents, request.len()).len()
        },
        is_descending(hits),
        forall|i: int|
            0 <= i < hits.len() ==> {
                &&& eligible(documents, request.len()).contains((#[trigger] hits[i]).id)
                &&& may_score(score, request, documents[hits[i].id], hits[i].score)
            },
        forall|i: int, j: int| 0 <= i < j < hits.len() ==> (#[trigger] hits[i]).id != (#[trigger] hits[j]).id,
        forall|key: u128|
            eligible(documents, request.len()).contains(key) && !#[trigger] is_among(hits, key) ==> hits.len() == k,
        forall|key: u128|
            eligible(documents, request.len()).contains(key) && !is_among(hits, key) ==> #[trigger] is_outranked(
                documents,
                request,
                score,
                hits,
                key,
            ),
{
    let scored = choose|scored: Seq<ScoredResult>| #[trigger]
        is_scoring(documents, request, score, scored) && hits == ranking(scored, k);
    lemma_scoring_length(documents, request, score, scored);
    lemma_ranking_properties(scored, k);
    assert forall|p: int, q: int| 0 <= p < scored.len() && 0 <= q < scored.len() && p != q implies scored[p]
        != scored[q] by {
        if p < q {
            assert(scored[p].id != scored[q].id);
        } else {
            assert(scored[q].id != scored[p].id);
        }
    }
    lemma_ranking_has_no_duplicates(scored, k);
    assert forall|i: int| 0 <= i < hits.len() implies {
        &&& eligible(documents, request.len()).contains((#[trigger] hits[i]).id)
        &&& may_score(score, request, documents[hits[i].id], hits[i].score)
    } by {
        assert(scored.contains(hits[i]));
        let p = choose|p: int| 0 <= p < scored.len() && scored[p] == hits[i];
        assert(eligible(documents, request.len()).contains(scored[p].id));
    }
    assert forall|i: int, j: int| 0 <= i < j < hits.len() implies (#[trigger] hits[i]).id != (
    #[trigger] hits[j]).id by {
        assert(scored.contains(hits[i]));
        assert(scored.contains(hits[j]));
        let p = choose|p: int| 0 <= p < scored.len() && scored[p] == hits[i];
        let q = choose|q: int| 0 <= q < scored.len() && scored[q] == hits[j];
        if p < q {
            assert(scored[p].id != scored[q].id);
        } else if q < p {
            assert(scored[q].id != scored[p].id);
        }
    }
    assert forall|key: u128|
        #![trigger is_among(hits, key)]
        #![trigger is_outranked(documents, request, score, hits, key)]
        eligible(documents, request.len()).contains(key) && !is_among(hits, key) implies hits.len() == k
        && is_outranked(documents, request, score, hits, key) by {
        let p = choose|p: int| 0 <= p < scored.len() && (#[trigger] scored[p]).id == key;
        let entry = scored[p];
        assert(scored.contains(entry));
        if hits.contains(entry) {
            let i = choose|i: int| 0 <= i < hits.len() && hits[i] == entry;
            assert(hits[i].id == key);
        }
        assert(may_score(score, request, documents[entry.id], entry.score));
        assert forall|i: int| 0 <= i < hits.len() implies #[trigger] precedes(hits[i], entry) by {}
        assert(entry == ScoredResult { id: key, score: entry.score });
    }
}

/// A vector that was just stored under an identifier is what a lookup of
/// that identifier yields, component for component.
pub proof fn lemma_lookup_after_upsert<T>(documents: Map<u128, Seq<T>>, key: u128, vector: Seq<T>)
    ensures
        lookup(documents.insert(key, vector), key) == Some(vector),
{
}

/// Storing under one identifier leaves what is stored under every other.
pub proof fn lemma_upsert_keeps_the_others<T>(
    documents: Map<u128, Seq<T>>,
    key: u128,
    vector: Seq<T>,
    other: u128,
)
    requires
        other != key,
    ensures
        lookup(documents.insert(key, vector), other) == lookup(documents, other),
{
}

/// After an identifier was deleted a lookup of it yields nothing.
pub proof fn lemma_lookup_after_delete<T>(documents: Map<u128, Seq<T>>, key: u128)
    ensures
        lookup(documents.remove(key), key) is None,
{
}

/// Deleting one identifier leaves what is stored under every other.
pub proof fn lemma_delete_keeps_the_others<T>(documents: Map<u128, Seq<T>>, key: u128, other: u128)
    requires
        other != key,
    ensures
        lookup(documents.remove(key), other) == lookup(documents, other),
{
}

} // verus!
