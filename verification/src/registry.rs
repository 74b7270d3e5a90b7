//! The database: collections by name.

use crate::collection::{is_search_result, Collection};
use crate::ranking::ScoredResult;
use crate::score::Score;
use vstd::prelude::*;

verus! {

/// A set of collections, each under a name of its own. It owns its
/// collections and does no more than find them by name.
pub struct BaseDeDonnees<T> {
    names: Vec<String>,
    collections: Vec<Collection<T>>,
}

impl<T> View for BaseDeDonnees<T> {
    type V = Map<Seq<char>, Map<u128, Seq<T>>>;

    /// What each collection holds, by the collection's name.
    closed spec fn view(&self) -> Map<Seq<char>, Map<u128, Seq<T>>> {
        Map::new(
            |name: Seq<char>| self.has(name),
            |name: Seq<char>| self.collections[self.position(name)]@,
        )
    }
}

impl<T> BaseDeDonnees<T> {
    /// Each collection has its name, and no two go by the same name.
    #[verifier::type_invariant]
    spec fn names_are_distinct(self) -> bool {
        &&& self.names.len() == self.collections.len()
        &&& forall|i: int, j: int|
            0 <= i < j < self.names.len() ==> (#[trigger] self.names[i])@ != (#[trigger] self.names[j])@
    }

    /// Whether a collection goes by `name`.
    spec fn has(self, name: Seq<char>) -> bool {
        exists|i: int| 0 <= i < self.names.len() && (#[trigger] self.names[i])@ == name
    }

    /// Where the collection that goes by `name` stands.
    spec fn position(self, name: Seq<char>) -> int {
        choose|i: int| 0 <= i < self.names.len() && (#[trigger] self.names[i])@ == name
    }

    /// Finds the collection that goes by `name`.
    fn find(&self, name: &str) -> (found: Option<usize>)
        ensures
            match found {
                Some(i) => {
                    &&& i < self.names.len()
                    &&& self.names[i as int]@ == name@
                    &&& self.has(name@)
                    &&& self.position(name@) == i
                },
                None => !self.has(name@),
            },
    {
        let wanted = name.to_owned();
        let mut i: usize = 0;
        while i < self.names.len()
            invariant
                i <= self.names.len(),
                wanted@ == name@,
                forall|j: int| 0 <= j < i ==> (#[trigger] self.names[j])@ != name@,
            decreases self.names.len() - i,
        {
            if self.names[i] == wanted {
                proof {
                    use_type_invariant(self);
                    assert(self.has(name@));
                    let p = self.position(name@);
                    if p < i {
                        assert(self.names[p]@ != self.names[i as int]@);
                    } else if i < p {
                        assert(self.names[i as int]@ != self.names[p]@);
                    }
                }
                return Some(i);
            }
            i += 1;
        }
        None
    }

    /// A database without collections.
    pub fn new() -> (database: Self)
        ensures
            database@ == Map::<Seq<char>, Map<u128, Seq<T>>>::empty(),
    {
        let database = BaseDeDonnees { names: Vec::new(), collections: Vec::new() };
        assert(database@ =~= Map::<Seq<char>, Map<u128, Seq<T>>>::empty());
        database
    }

    /// Puts an empty collection under `nom`, in place of the collection that
    /// went by that name, if there was one.
    pub fn add(&mut self, nom: String)
        ensures
            final(self)@ == old(self)@.insert(nom@, Map::<u128, Seq<T>>::empty()),
    {
        let found = self.find(nom.as_str());
        proof {
            use_type_invariant(&*self);
        }
        let ghost before = *self;
        match found {
            Some(i) => {
                self.collections[i] = Collection::new();
            },
            None => {
                let mut taken = BaseDeDonnees { names: Vec::new(), collections: Vec::new() };
                std::mem::swap(self, &mut taken);
                let BaseDeDonnees { mut names, mut collections } = taken;
                names.push(nom);
                collections.push(Collection::new());
                proof {
                    assert forall|i: int, j: int| 0 <= i < j < names.len() implies (#[trigger] names[i])@ != (
                    #[trigger] names[j])@ by {
                        if j < before.names.len() {
                            assert(before.names[i]@ != before.names[j]@);
                        } else {
                            assert(before.names[i]@ != nom@);
                        }
                    }
                }
                *self = BaseDeDonnees { names, collections };
            },
        }
        proof {
            let after = *self;
            assert forall|name: Seq<char>| after.has(name) <==> (before.has(name) || name == nom@) by {
                if before.has(name) {
                    let p = before.position(name);
                    assert(after.names[p]@ == name);
                }
                if name == nom@ {
                    match found {
                        Some(i) => {
                            assert(after.names[i as int]@ == name);
                        },
                        None => {
                            assert(after.names[before.names.len() as int]@ == name);
                        },
                    }
                }
                if after.has(name) {
                    let p = after.position(name);
                    if p < before.names.len() {
                        assert(before.names[p]@ == name);
                    }
                }
            }
            assert forall|name: Seq<char>| after.has(name) implies #[trigger] after@[name] == before@.insert(
                nom@,
                Map::<u128, Seq<T>>::empty(),
            )[name] by {
                after.lemma_position(name);
                if name != nom@ {
                    before.lemma_position(name);
                    let p = before.position(name);
                    assert(after.names[p]@ == name);
                    after.lemma_position_is(name, p);
                }
            }
            assert(after@ =~= before@.insert(nom@, Map::<u128, Seq<T>>::empty()));
        }
    }

    /// The collection that goes by `nom`, if there is one.
    pub fn get(&self, nom: &str) -> (found: Option<&Collection<T>>)
        ensures
            match found {
                Some(collection) => self@.contains_key(nom@) && collection@ == self@[nom@],
                None => !self@.contains_key(nom@),
            },
    {
        proof {
            use_type_invariant(self);
        }
        match self.find(nom) {
            Some(i) => Some(&self.collections[i]),
            None => None,
        }
    }

    /// The collection that goes by `nom`, if there is one, to be changed in
    /// place: what the caller leaves in it is what the database then holds
    /// under that name, and no other collection changes.
    pub fn get_mut(&mut self, nom: &str) -> (found: Option<&mut Collection<T>>)
        ensures
            match found {
                Some(collection) => {
                    &&& old(self)@.contains_key(nom@)
                    &&& collection@ == old(self)@[nom@]
                    &&& final(self)@ == old(self)@.insert(nom@, final(collection)@)
                },
                None => !old(self)@.contains_key(nom@) && final(self)@ == old(self)@,
            },
    {
        proof {
            use_type_invariant(&*self);
        }
        match self.find(nom) {
            Some(i) => Some(&mut self.collections[i]),
            None => None,
        }
    }

    /// Searches the collection that goes by `cname`: `None` where there is no
    /// such collection, and else a result of searching what that collection
    /// holds, of which `lemma_search_result_properties` says what holds.
    pub fn search<F: Fn(&[T], &[T]) -> Score>(&self, cname: &str, request: &[T], k: usize, score: F) -> (hits:
        Option<Vec<ScoredResult>>)
        requires
            forall|y: &[T]| y@.len() == request@.len() ==> call_requires(score, (request, y)),
        ensures
            match hits {
                Some(found) => {
                    &&& self@.contains_key(cname@)
                    &&& is_search_result(self@[cname@], request@, k as nat, score, found@)
                },
                None => !self@.contains_key(cname@),
            },
    {
        match self.get(cname) {
            Some(collection) => Some(collection.search(request, k, score)),
            None => None,
        }
    }

    /// The position of a name that some collection goes by is that of this
    /// collection.
    proof fn lemma_position(self, name: Seq<char>)
        requires
            self.has(name),
        ensures
            0 <= self.position(name) < self.names.len(),
            self.names[self.position(name)]@ == name,
    {
    }

    /// A name stands where it is found.
    proof fn lemma_position_is(self, name: Seq<char>, p: int)
        requires
            self.names_are_distinct(),
            0 <= p < self.names.len(),
            self.names[p]@ == name,
        ensures
            self.position(name) == p,
    {
        let q = self.position(name);
        if q < p {
            assert(self.names[q]@ != self.names[p]@);
        } else if p < q {
            assert(self.names[p]@ != self.names[q]@);
        }
    }
}

} // verus!
