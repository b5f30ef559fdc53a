//! The database: a registry of collections by name, with lazy creation,
//! loading from snapshot text, dropping, and the expiry sweep.

use vstd::prelude::*;
use crate::collection::coll_of_text;
use crate::collection::Collection;
use crate::doc::doc_live;
use crate::doc::DocModel;
use crate::value::str_eq;
use crate::DbError;

verus! {

/// Whether a collection with the given name stands in the sequence.
pub open spec fn has_name(s: Seq<Collection>, n: Seq<char>) -> bool {
    exists|j: int| 0 <= j < s.len() && s[j].name_model() == n
}

/// A registry of collections, each name bound to at most one collection.
pub struct Database {
    root: String,
    cols: Vec<Collection>,
}

impl Database {
    /// The registered collections, in registration order.
    pub closed spec fn cols_seq(&self) -> Seq<Collection> {
        self.cols@
    }

    /// The storage root path, as a model.
    pub closed spec fn root_model(&self) -> Seq<char> {
        self.root@
    }

    /// Well-formed: names are distinct and every collection is
    /// well-formed.
    pub open spec fn wf(&self) -> bool {
        &&& forall|i: int, j: int|
            0 <= i < j < self.cols_seq().len() ==> self.cols_seq()[i].name_model()
                != self.cols_seq()[j].name_model()
        &&& forall|i: int| 0 <= i < self.cols_seq().len() ==> (#[trigger] self.cols_seq()[i]).wf()
    }

    /// A new database rooted at the given path, with no collections.
    pub fn new(root: String) -> (r: Database)
        ensures
            r.wf(),
            r.root_model() == root@,
            r.cols_seq().len() == 0,
    {
        Database { root, cols: Vec::new() }
    }

    /// The storage root path.
    pub fn root(&self) -> (r: &String)
        ensures
            r@ == self.root_model(),
    {
        &self.root
    }

    /// The number of registered collections.
    pub fn len(&self) -> (r: usize)
        ensures
            r == self.cols_seq().len(),
    {
        self.cols.len()
    }

    /// The index of the collection with the given name, if registered.
    pub fn find_collection(&self, name: &str) -> (r: Option<usize>)
        ensures
            match r {
                Some(i) => i < self.cols_seq().len() && self.cols_seq()[i as int].name_model()
                    == name@,
                None => !has_name(self.cols_seq(), name@),
            },
    {
        let mut i: usize = 0;
        while i < self.cols.len()
            invariant
                0 <= i <= self.cols@.len(),
                forall|k: int| 0 <= k < i ==> (#[trigger] self.cols@[k].name_model()) != name@,
            decreases self.cols@.len() - i,
        {
            if str_eq(self.cols[i].name().as_str(), name) {
                return Some(i);
            }
            i += 1;
        }
        None
    }

    /// A read-only reference to the collection at an index.
    pub fn collection_at(&self, i: usize) -> (r: &Collection)
        requires
            i < self.cols_seq().len(),
        ensures
            *r == self.cols_seq()[i as int],
    {
        &self.cols[i]
    }

    /// A mutable reference to the collection at an index. The caller is
    /// responsible for keeping the collection well-formed; its methods
    /// all do, and none changes its name.
    pub fn collection_mut(&mut self, i: usize) -> (r: &mut Collection)
        requires
            i < old(self).cols_seq().len(),
        ensures
            *r == old(self).cols_seq()[i as int],
            final(self).cols_seq() == old(self).cols_seq().update(i as int, *final(r)),
            final(self).root_model() == old(self).root_model(),
    {
        let r = &mut self.cols[i];
        r
    }

    /// The index of the collection with the given name, creating and
    /// registering an empty one when the name is new.
    pub fn collection(&mut self, name: &str) -> (i: usize)
        requires
            old(self).wf(),
        ensures
            final(self).wf(),
            final(self).root_model() == old(self).root_model(),
            i < final(self).cols_seq().len(),
            final(self).cols_seq()[i as int].name_model() == name@,
            has_name(old(self).cols_seq(), name@) ==> *final(self) == *old(self) && old(
                self,
            ).cols_seq()[i as int].name_model() == name@,
            !has_name(old(self).cols_seq(), name@) ==> {
                &&& i == old(self).cols_seq().len()
                &&& final(self).cols_seq().len() == old(self).cols_seq().len() + 1
                &&& forall|j: int|
                    0 <= j < old(self).cols_seq().len() ==> final(self).cols_seq()[j] == old(
                        self,
                    ).cols_seq()[j]
                &&& final(self).cols_seq()[i as int]@ == Map::<Seq<char>, DocModel>::empty()
                &&& final(self).cols_seq()[i as int].docs_seq().len() == 0
            },
    {
        match self.find_collection(name) {
            Some(i) => i,
            None => {
                let c = Collection::new(name.to_owned());
                let i = self.cols.len();
                self.cols.push(c);
                i
            },
        }
    }

    /// Registers a collection rebuilt from snapshot text under the given
    /// name. A name already registered is left untouched; malformed text
    /// fails with `Serialization` and changes nothing.
    pub fn load_collection(&mut self, name: &str, text: &str) -> (r: Result<(), DbError>)
        requires
            old(self).wf(),
        ensures
            final(self).wf(),
            final(self).root_model() == old(self).root_model(),
            has_name(old(self).cols_seq(), name@) ==> *final(self) == *old(self) && r is Ok,
            !has_name(old(self).cols_seq(), name@) ==> {
                &&& (r is Ok) == (coll_of_text(text@) is Some)
                &&& r is Err ==> r->Err_0 == DbError::Serialization && *final(self) == *old(self)
                &&& r is Ok ==> {
                    &&& final(self).cols_seq().len() == old(self).cols_seq().len() + 1
                    &&& forall|j: int|
                        0 <= j < old(self).cols_seq().len() ==> final(self).cols_seq()[j] == old(
                            self,
                        ).cols_seq()[j]
                    &&& final(self).cols_seq().last().name_model() == name@
                    &&& final(self).cols_seq().last().docs_seq() == coll_of_text(text@)->0
                }
            },
    {
        match self.find_collection(name) {
            Some(_) => Ok(()),
            None => {
                match Collection::from_snapshot(name.to_owned(), text) {
                    Ok(c) => {
                        self.cols.push(c);
                        Ok(())
                    },
                    Err(e) => Err(DbError::Serialization),
                }
            },
        }
    }

    /// Removes the collection with the given name from the registry;
    /// fails with `CollectionNotFound` when no such collection exists.
    pub fn drop_collection(&mut self, name: &str) -> (r: Result<(), DbError>)
        requires
            old(self).wf(),
        ensures
            final(self).wf(),
            final(self).root_model() == old(self).root_model(),
            (r is Ok) == has_name(old(self).cols_seq(), name@),
            r is Err ==> r->Err_0 == DbError::CollectionNotFound && *final(self) == *old(self),
            r is Ok ==> exists|k: int|
                0 <= k < old(self).cols_seq().len() && old(self).cols_seq()[k].name_model()
                    == name@ && final(self).cols_seq() == old(self).cols_seq().remove(k),
            r is Ok ==> !has_name(final(self).cols_seq(), name@),
    {
        match self.find_collection(name) {
            None => Err(DbError::CollectionNotFound),
            Some(i) => {
                let ghost before = self.cols@;
                self.cols.remove(i);
                proof {
                    assert(self.cols@ =~= before.remove(i as int));
                    assert(!has_name(self.cols@, name@)) by {
                        if has_name(self.cols@, name@) {
                            let j = choose|j: int|
                                0 <= j < self.cols@.len() && self.cols@[j].name_model() == name@;
                            if j < i {
                                assert(before[j].name_model() == name@);
                            } else {
                                assert(before[j + 1].name_model() == name@);
                            }
                        }
                    }
                }
                Ok(())
            },
        }
    }

    /// Sweeps every collection at time `now`, removing expired documents;
    /// reports, for each collection in order, whether it changed.
    #[verifier::loop_isolation(false)]
    pub fn sweep_all(&mut self, now: i64) -> (changed: Vec<bool>)
        requires
            old(self).wf(),
        ensures
            final(self).wf(),
            final(self).root_model() == old(self).root_model(),
            final(self).cols_seq().len() == old(self).cols_seq().len(),
            changed@.len() == old(self).cols_seq().len(),
            forall|i: int|
                0 <= i < old(self).cols_seq().len() ==> {
                    &&& (#[trigger] final(self).cols_seq()[i]).name_model() == old(
                        self,
                    ).cols_seq()[i].name_model()
                    &&& final(self).cols_seq()[i].docs_seq() == old(self).cols_seq()[
                        i].docs_seq().filter(|d: DocModel| doc_live(d, now as int))
                    &&& changed@[i] == (final(self).cols_seq()[i].docs_seq().len() != old(
                        self,
                    ).cols_seq()[i].docs_seq().len())
                },
    {
        let mut changed: Vec<bool> = Vec::new();
        let n = self.cols.len();
        let mut i: usize = 0;
        while i < n
            invariant
                0 <= i <= n,
                n == self.cols@.len(),
                n == old(self).cols_seq().len(),
                self.root == old(self).root,
                changed@.len() == i,
                forall|j: int| i <= j < n ==> self.cols@[j] == old(self).cols_seq()[j],
                forall|j: int|
                    0 <= j < i ==> {
                        &&& (#[trigger] self.cols@[j]).wf()
                        &&& self.cols@[j].name_model() == old(self).cols_seq()[j].name_model()
                        &&& self.cols@[j].docs_seq() == old(self).cols_seq()[j].docs_seq().filter(
                            |d: DocModel| doc_live(d, now as int),
                        )
                        &&& changed@[j] == (self.cols@[j].docs_seq().len() != old(
                            self,
                        ).cols_seq()[j].docs_seq().len())
                    },
            decreases n - i,
        {
            let ghost before = self.cols@;
            let mut c = self.cols.remove(i);
            proof {
                assert(before[i as int] == old(self).cols_seq()[i as int]);
                assert(old(self).cols_seq()[i as int].wf());
            }
            let ch = c.sweep(now);
            self.cols.insert(i, c);
            proof {
                assert(self.cols@ =~= before.update(i as int, self.cols@[i as int]));
            }
            changed.push(ch);
            i += 1;
        }
        changed
    }
}

} // verus!
