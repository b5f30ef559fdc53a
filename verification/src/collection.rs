//! Collections: a named set of documents addressed by identifier, with
//! snapshot serialization and reload.

use vstd::prelude::*;
use crate::codec::from_text;
use crate::codec::members_wf;
use crate::codec::member_wf;
use crate::codec::parse_text;
use crate::codec::ser_val;
use crate::codec::to_text;
use crate::codec::val_wf;
use crate::codec::lemma_parse_text_complete;
use crate::doc::doc_live;
use crate::doc::doc_of_val;
use crate::doc::doc_to_jsonval;
use crate::doc::doc_to_val;
use crate::doc::doc_wf;
use crate::doc::jsonval_to_doc;
use crate::doc::lemma_doc_roundtrip;
use crate::doc::lemma_doc_val_wf;
use crate::doc::lemma_jsonval_wf;
use crate::doc::DocModel;
use crate::doc::Document;
use crate::value::lemma_obj_members_model;
use crate::value::members_model;
use crate::value::str_eq;
use crate::value::JsonVal;
use crate::value::MemberModel;
use crate::value::ValModel;
use crate::DbError;

verus! {

/// The models of a vector of documents, element by element.
pub open spec fn docs_model(s: Seq<Document>) -> Seq<DocModel> {
    Seq::new(
        s.len(),
        |i: int|
            if 0 <= i < s.len() {
                s[i]@
            } else {
                DocModel {
                    id: Seq::empty(),
                    data: ValModel::Null,
                    created_at: 0,
                    updated_at: 0,
                    expires_at: None,
                }
            },
    )
}

/// Whether the identifiers in a document sequence are pairwise distinct.
pub open spec fn unique_ids(s: Seq<DocModel>) -> bool {
    forall|i: int, j: int| 0 <= i < j < s.len() ==> s[i].id != s[j].id
}

/// The identifier-to-document mapping described by a document sequence;
/// a later entry with the same identifier wins.
pub open spec fn map_of(s: Seq<DocModel>) -> Map<Seq<char>, DocModel>
    decreases s.len(),
{
    if s.len() == 0 {
        Map::empty()
    } else {
        map_of(s.drop_last()).insert(s.last().id, s.last())
    }
}

/// With distinct identifiers, the mapping contains exactly the sequence's
/// documents, each under its own identifier.
pub proof fn lemma_map_of_props(s: Seq<DocModel>)
    requires
        unique_ids(s),
    ensures
        forall|k: Seq<char>|
            map_of(s).contains_key(k) <==> (exists|i: int| 0 <= i < s.len() && s[i].id == k),
        forall|i: int|
            0 <= i < s.len() ==> map_of(s).contains_key(#[trigger] s[i].id) && map_of(s)[s[i].id]
                == s[i],
        map_of(s).dom().finite(),
        map_of(s).dom().len() == s.len(),
    decreases s.len(),
{
    if s.len() > 0 {
        let p = s.drop_last();
        assert(unique_ids(p));
        lemma_map_of_props(p);
        assert forall|i: int| 0 <= i < s.len() implies map_of(s).contains_key(#[trigger] s[i].id)
            && map_of(s)[s[i].id] == s[i] by {
            if i < s.len() - 1 {
                assert(p[i] == s[i]);
                assert(s[i].id != s.last().id);
            }
        }
        assert(!map_of(p).contains_key(s.last().id)) by {
            if map_of(p).contains_key(s.last().id) {
                let i = choose|i: int| 0 <= i < p.len() && p[i].id == s.last().id;
                assert(s[i].id == s.last().id);
            }
        }
        assert(map_of(s).dom() =~= map_of(p).dom().insert(s.last().id));
        assert(map_of(s).dom().len() == s.len());
        assert forall|k: Seq<char>| map_of(s).contains_key(k) implies (exists|i: int|
            0 <= i < s.len() && s[i].id == k) by {
            if k == s.last().id {
                assert(s[s.len() - 1].id == k);
            } else {
                let i = choose|i: int| 0 <= i < p.len() && p[i].id == k;
                assert(s[i].id == k);
            }
        }
    }
}

/// Appending a document updates the mapping at its identifier.
pub proof fn lemma_map_of_push(s: Seq<DocModel>, d: DocModel)
    ensures
        map_of(s.push(d)) == map_of(s).insert(d.id, d),
{
    assert(s.push(d).drop_last() =~= s);
    assert(s.push(d).last() == d);
}

/// Removing the document at index `i` removes its identifier.
pub proof fn lemma_map_of_remove(s: Seq<DocModel>, i: int)
    requires
        unique_ids(s),
        0 <= i < s.len(),
    ensures
        unique_ids(s.remove(i)),
        map_of(s.remove(i)) =~= map_of(s).remove(s[i].id),
    decreases s.len(),
{
    lemma_map_of_props(s);
    let r = s.remove(i);
    assert(unique_ids(r)) by {
        assert forall|a: int, b: int| 0 <= a < b < r.len() implies r[a].id != r[b].id by {
            let a2 = if a < i {
                a
            } else {
                a + 1
            };
            let b2 = if b < i {
                b
            } else {
                b + 1
            };
            assert(r[a] == s[a2] && r[b] == s[b2]);
        }
    }
    if i == s.len() - 1 {
        assert(r =~= s.drop_last());
        assert(unique_ids(s.drop_last()));
        lemma_map_of_props(s.drop_last());
        assert(!map_of(s.drop_last()).contains_key(s[i].id)) by {
            if map_of(s.drop_last()).contains_key(s[i].id) {
                let j = choose|j: int|
                    0 <= j < s.drop_last().len() && s.drop_last()[j].id == s[i].id;
                assert(s[j].id == s[i].id);
            }
        }
        assert(map_of(r) =~= map_of(s).remove(s[i].id));
    } else {
        let p = s.drop_last();
        assert(unique_ids(p));
        lemma_map_of_remove(p, i);
        assert(r.drop_last() =~= p.remove(i));
        assert(r.last() == s.last());
        assert(map_of(r) == map_of(p.remove(i)).insert(s.last().id, s.last()));
        assert(s[i].id != s.last().id);
        assert(map_of(p.remove(i)).insert(s.last().id, s.last()) =~= map_of(p).remove(
            s[i].id,
        ).insert(s.last().id, s.last()));
        assert(map_of(p).remove(s[i].id).insert(s.last().id, s.last()) =~= map_of(p).insert(
            s.last().id,
            s.last(),
        ).remove(s[i].id));
    }
}

/// A named set of documents with one backing snapshot.
pub struct Collection {
    name: String,
    docs: Vec<Document>,
}

impl View for Collection {
    type V = Map<Seq<char>, DocModel>;

    closed spec fn view(&self) -> Map<Seq<char>, DocModel> {
        map_of(self.docs_seq())
    }
}

impl Collection {
    /// The models of the stored documents, in storage order.
    pub closed spec fn docs_seq(&self) -> Seq<DocModel> {
        docs_model(self.docs@)
    }

    /// The collection's name, as a model.
    pub closed spec fn name_model(&self) -> Seq<char> {
        self.name@
    }

    /// Well-formed: identifiers are distinct and every document is
    /// well-formed.
    pub closed spec fn wf(&self) -> bool {
        &&& unique_ids(self.docs_seq())
        &&& forall|i: int| 0 <= i < self.docs_seq().len() ==> doc_wf(#[trigger] self.docs_seq()[i])
    }

    /// A new, empty collection.
    pub fn new(name: String) -> (r: Collection)
        ensures
            r.wf(),
            r.name_model() == name@,
            r@ == Map::<Seq<char>, DocModel>::empty(),
            r.docs_seq().len() == 0,
    {
        let r = Collection { name, docs: Vec::new() };
        proof {
            assert(r.docs_seq() =~= Seq::<DocModel>::empty());
        }
        r
    }

    /// The collection's name.
    pub fn name(&self) -> (r: &String)
        ensures
            r@ == self.name_model(),
    {
        &self.name
    }

    /// The index of the document with the given identifier, if present.
    fn find_index(&self, id: &str) -> (r: Option<usize>)
        ensures
            match r {
                Some(i) => i < self.docs_seq().len() && self.docs_seq()[i as int].id == id@,
                None => forall|i: int|
                    0 <= i < self.docs_seq().len() ==> (#[trigger] self.docs_seq()[i].id) != id@,
            },
    {
        let mut i: usize = 0;
        while i < self.docs.len()
            invariant
                0 <= i <= self.docs@.len(),
                forall|k: int| 0 <= k < i ==> (#[trigger] docs_model(self.docs@)[k].id) != id@,
            decreases self.docs@.len() - i,
        {
            if str_eq(self.docs[i].id.as_str(), id) {
                proof {
                    assert(docs_model(self.docs@)[i as int].id == id@);
                }
                return Some(i);
            }
            i += 1;
        }
        None
    }

    /// A copy of the document with the given identifier, or absence.
    pub fn find(&self, id: &str) -> (r: Option<Document>)
        requires
            self.wf(),
        ensures
            (r is Some) == self@.contains_key(id@),
            r is Some ==> r->0@ == self@[id@],
    {
        proof {
            lemma_map_of_props(self.docs_seq());
        }
        match self.find_index(id) {
            Some(i) => Some(self.docs[i].clone()),
            None => None,
        }
    }

    /// A copy of every current document, in storage order.
    pub fn find_all(&self) -> (r: Vec<Document>)
        ensures
            docs_model(r@) == self.docs_seq(),
            r@.len() == self.docs_seq().len(),
    {
        let mut out: Vec<Document> = Vec::new();
        let mut i: usize = 0;
        while i < self.docs.len()
            invariant
                0 <= i <= self.docs@.len(),
                out@.len() == i,
                forall|k: int| 0 <= k < i ==> out@[k]@ == self.docs@[k]@,
            decreases self.docs@.len() - i,
        {
            out.push(self.docs[i].clone());
            i += 1;
        }
        proof {
            assert(docs_model(out@) =~= docs_model(self.docs@));
        }
        out
    }
}

} // verus!

verus! {

use crate::trusted::fresh_id;
use crate::trusted::now_millis;
use crate::codec::I64_MAX;
use crate::codec::I64_MIN;

/// The expiry instant for a time-to-live of `t` seconds from `now`
/// milliseconds, saturating at the 64-bit bounds.
pub open spec fn expiry_at(now: int, t: int) -> int {
    let e = now + t * 1000;
    if e < I64_MIN {
        I64_MIN as int
    } else if e > I64_MAX {
        I64_MAX as int
    } else {
        e
    }
}

/// The expiry field computed from an optional time-to-live.
pub open spec fn expiry_opt(now: int, ttl: Option<i64>) -> Option<int> {
    match ttl {
        None => None,
        Some(t) => Some(expiry_at(now, t as int)),
    }
}

/// Computes the saturating expiry instant.
fn expiry_of(now: i64, t: i64) -> (r: i64)
    ensures
        r as int == expiry_at(now as int, t as int),
{
    let e: i128 = (now as i128) + (t as i128) * 1000;
    if e < (I64_MIN as i128) {
        I64_MIN
    } else if e > (I64_MAX as i128) {
        I64_MAX
    } else {
        e as i64
    }
}

impl Collection {
    /// Stores a document under the given identifier at time `now`: a
    /// record already present under that identifier is replaced. Returns
    /// a copy of the stored document.
    pub fn insert_with(&mut self, id: String, data: JsonVal, ttl: Option<i64>, now: i64) -> (d:
        Document)
        requires
            old(self).wf(),
        ensures
            final(self).wf(),
            final(self).name_model() == old(self).name_model(),
            d@.id == id@,
            d@.data == data@,
            d@.created_at == now as int,
            d@.updated_at == now as int,
            d@.expires_at == expiry_opt(now as int, ttl),
            final(self)@ == old(self)@.insert(id@, d@),
            !old(self)@.contains_key(id@) ==> final(self).docs_seq().len() == old(
                self,
            ).docs_seq().len() + 1,
            old(self)@.contains_key(id@) ==> final(self).docs_seq().len() == old(
                self,
            ).docs_seq().len(),
    {
        proof {
            lemma_map_of_props(self.docs_seq());
        }
        let expires_at = match ttl {
            None => None,
            Some(t) => Some(expiry_of(now, t)),
        };
        match self.find_index(id.as_str()) {
            Some(i) => {
                let ghost before = self.docs_seq();
                proof {
                    lemma_map_of_remove(before, i as int);
                }
                self.docs.remove(i);
                proof {
                    assert(self.docs_seq() =~= before.remove(i as int));
                }
            },
            None => {
            },
        }
        let ghost mid = self.docs_seq();
        let doc = Document { id, data, created_at: now, updated_at: now, expires_at };
        let d = doc.clone();
        proof {
            lemma_jsonval_wf(&doc.data);
            lemma_map_of_push(mid, doc@);
        }
        self.docs.push(doc);
        proof {
            assert(self.docs_seq() =~= mid.push(d@));
            assert(self@ =~= old(self)@.insert(d@.id, d@));
            assert forall|a: int, b: int|
                0 <= a < b < self.docs_seq().len() implies self.docs_seq()[a].id
                != self.docs_seq()[b].id by {
                if b < self.docs_seq().len() - 1 {
                    assert(mid[a] == self.docs_seq()[a]);
                    assert(mid[b] == self.docs_seq()[b]);
                } else {
                    assert(mid[a] == self.docs_seq()[a]);
                }
            }
        }
        d
    }

    /// Inserts a new document with a freshly generated identifier and the
    /// current time, and returns a copy of it. The stored mapping gains
    /// the new identifier; any record previously stored under that
    /// (freshly random) identifier is replaced.
    pub fn insert(&mut self, data: JsonVal, ttl: Option<i64>) -> (d: Document)
        requires
            old(self).wf(),
        ensures
            final(self).wf(),
            final(self).name_model() == old(self).name_model(),
            d@.data == data@,
            d@.created_at == d@.updated_at,
            d@.expires_at == expiry_opt(d@.created_at, ttl),
            final(self)@ == old(self)@.insert(d@.id, d@),
            !old(self)@.contains_key(d@.id) ==> final(self).docs_seq().len() == old(
                self,
            ).docs_seq().len() + 1,
    {
        let id = fresh_id();
        let now = now_millis();
        self.insert_with(id, data, ttl, now)
    }

    /// Replaces the body of the document with the given identifier at
    /// time `now`; fails with `NotFound` when the identifier is absent.
    /// The update time advances to `now`, or stays if `now` lies behind.
    pub fn update_with(&mut self, id: &str, data: JsonVal, now: i64) -> (r: Result<
        Document,
        DbError,
    >)
        requires
            old(self).wf(),
        ensures
            final(self).wf(),
            final(self).name_model() == old(self).name_model(),
            (r is Ok) == old(self)@.contains_key(id@),
            r is Err ==> r->Err_0 == DbError::NotFound && *final(self) == *old(self),
            r is Ok ==> {
                let d = r->Ok_0@;
                &&& d.id == id@
                &&& d.data == data@
                &&& d.created_at == old(self)@[id@].created_at
                &&& d.expires_at == old(self)@[id@].expires_at
                &&& d.updated_at == (if now as int > old(self)@[id@].updated_at {
                    now as int
                } else {
                    old(self)@[id@].updated_at
                })
                &&& final(self)@ == old(self)@.insert(id@, d)
                &&& final(self).docs_seq().len() == old(self).docs_seq().len()
            },
    {
        proof {
            lemma_map_of_props(self.docs_seq());
        }
        match self.find_index(id) {
            None => Err(DbError::NotFound),
            Some(i) => {
                let ghost before = self.docs_seq();
                proof {
                    lemma_map_of_remove(before, i as int);
                }
                let mut doc = self.docs.remove(i);
                proof {
                    assert(self.docs_seq() =~= before.remove(i as int));
                }
                doc.data = data;
                if now > doc.updated_at {
                    doc.updated_at = now;
                }
                let d = doc.clone();
                let ghost mid = self.docs_seq();
                proof {
                    lemma_jsonval_wf(&doc.data);
                    lemma_map_of_push(mid, doc@);
                }
                self.docs.push(doc);
                proof {
                    assert(self.docs_seq() =~= mid.push(d@));
                    assert(self@ =~= old(self)@.insert(id@, d@));
                    assert forall|a: int, b: int|
                        0 <= a < b < self.docs_seq().len() implies self.docs_seq()[a].id
                        != self.docs_seq()[b].id by {
                        assert(mid[a] == self.docs_seq()[a]);
                        if b < self.docs_seq().len() - 1 {
                            assert(mid[b] == self.docs_seq()[b]);
                        } else {
                            assert(!map_of(mid).contains_key(d@.id)) by {
                                lemma_map_of_props(mid);
                            }
                            lemma_map_of_props(mid);
                        }
                    }
                }
                Ok(d)
            },
        }
    }

    /// Replaces a document's body at the current time.
    pub fn update(&mut self, id: &str, data: JsonVal) -> (r: Result<Document, DbError>)
        requires
            old(self).wf(),
        ensures
            final(self).wf(),
            final(self).name_model() == old(self).name_model(),
            (r is Ok) == old(self)@.contains_key(id@),
            r is Err ==> r->Err_0 == DbError::NotFound && *final(self) == *old(self),
            r is Ok ==> {
                let d = r->Ok_0@;
                &&& d.id == id@
                &&& d.data == data@
                &&& d.created_at == old(self)@[id@].created_at
                &&& d.expires_at == old(self)@[id@].expires_at
                &&& d.updated_at >= old(self)@[id@].updated_at
                &&& final(self)@ == old(self)@.insert(id@, d)
            },
    {
        let now = now_millis();
        self.update_with(id, data, now)
    }

    /// Removes the document with the given identifier; fails with
    /// `NotFound` when it is absent.
    pub fn delete(&mut self, id: &str) -> (r: Result<(), DbError>)
        requires
            old(self).wf(),
        ensures
            final(self).wf(),
            final(self).name_model() == old(self).name_model(),
            (r is Ok) == old(self)@.contains_key(id@),
            r is Err ==> r->Err_0 == DbError::NotFound && *final(self) == *old(self),
            r is Ok ==> final(self)@ == old(self)@.remove(id@) && final(self).docs_seq().len()
                == old(self).docs_seq().len() - 1,
    {
        proof {
            lemma_map_of_props(self.docs_seq());
        }
        match self.find_index(id) {
            None => Err(DbError::NotFound),
            Some(i) => {
                let ghost before = self.docs_seq();
                proof {
                    lemma_map_of_remove(before, i as int);
                }
                self.docs.remove(i);
                proof {
                    assert(self.docs_seq() =~= before.remove(i as int));
                    assert(self@ =~= old(self)@.remove(id@));
                }
                Ok(())
            },
        }
    }

    /// Removes every document that has expired by time `now`; reports
    /// whether anything was removed.
    #[verifier::loop_isolation(false)]
    pub fn sweep(&mut self, now: i64) -> (changed: bool)
        requires
            old(self).wf(),
        ensures
            final(self).wf(),
            final(self).name_model() == old(self).name_model(),
            final(self).docs_seq() == old(self).docs_seq().filter(
                |d: DocModel| doc_live(d, now as int),
            ),
            changed == (final(self).docs_seq().len() != old(self).docs_seq().len()),
    {
        let ghost pred = |d: DocModel| doc_live(d, now as int);
        let before_len = self.docs.len();
        let mut kept: Vec<Document> = Vec::new();
        let mut i: usize = 0;
        proof {
            reveal(Seq::filter);
            assert(docs_model(self.docs@.subrange(0, 0)).filter(pred) =~= Seq::<
                DocModel,
            >::empty());
            assert(docs_model(kept@) =~= Seq::<DocModel>::empty());
        }
        while i < self.docs.len()
            invariant
                0 <= i <= self.docs@.len(),
                docs_model(kept@) == docs_model(self.docs@.subrange(0, i as int)).filter(pred),
            decreases self.docs@.len() - i,
        {
            let live = match self.docs[i].expires_at {
                None => true,
                Some(t) => t > now,
            };
            let ghost prefix = docs_model(self.docs@.subrange(0, i as int));
            let ghost prefix2 = docs_model(self.docs@.subrange(0, i as int + 1));
            proof {
                assert(prefix2.drop_last() =~= prefix);
                assert(prefix2.last() == self.docs@[i as int]@);
            }
            if live {
                kept.push(self.docs[i].clone());
                proof {
                    assert(docs_model(kept@) =~= prefix.filter(pred).push(
                        self.docs@[i as int]@,
                    ));
                    assert(prefix2.filter(pred) =~= prefix.filter(pred).push(
                        self.docs@[i as int]@,
                    ));
                }
            } else {
                proof {
                    assert(docs_model(kept@) =~= prefix.filter(pred));
                    assert(prefix2.filter(pred) =~= prefix.filter(pred));
                }
            }
            i += 1;
        }
        proof {
            assert(self.docs@.subrange(0, self.docs@.len() as int) =~= self.docs@);
            assert(docs_model(kept@) == docs_model(self.docs@).filter(pred));
        }
        let changed = kept.len() != before_len;
        self.docs = kept;
        proof {
            let s = old(self).docs_seq();
            let f = s.filter(pred);
            assert forall|a: int, b: int| 0 <= a < b < f.len() implies f[a].id != f[b].id by {
                lemma_filter_is_subsequence(s, pred, a, b);
            }
            assert forall|a: int| 0 <= a < f.len() implies doc_wf(#[trigger] f[a]) by {
                lemma_filter_member(s, pred, a);
            }
        }
        changed
    }
}

/// Two positions of a filtered sequence come from two distinct positions
/// of the original, in order.
pub proof fn lemma_filter_is_subsequence(
    s: Seq<DocModel>,
    pred: spec_fn(DocModel) -> bool,
    a: int,
    b: int,
)
    requires
        0 <= a < b < s.filter(pred).len(),
        unique_ids(s),
    ensures
        s.filter(pred)[a].id != s.filter(pred)[b].id,
    decreases s.len(),
{
    reveal(Seq::filter);
    if s.len() > 0 {
        let p = s.drop_last();
        assert(unique_ids(p));
        let f = s.filter(pred);
        if pred(s.last()) {
            if b == f.len() - 1 {
                lemma_filter_member(p, pred, a);
                let i = choose|i: int| 0 <= i < p.len() && p[i] == p.filter(pred)[a];
                assert(s[i] == p[i]);
                assert(s[i].id != s.last().id);
            } else {
                lemma_filter_is_subsequence(p, pred, a, b);
            }
        } else {
            lemma_filter_is_subsequence(p, pred, a, b);
        }
    }
}

/// Every member of a filtered sequence is a member of the original.
pub proof fn lemma_filter_member(s: Seq<DocModel>, pred: spec_fn(DocModel) -> bool, a: int)
    requires
        0 <= a < s.filter(pred).len(),
        unique_ids(s) ==> true,
    ensures
        exists|i: int| 0 <= i < s.len() && s[i] == s.filter(pred)[a],
        (forall|i: int| 0 <= i < s.len() ==> doc_wf(#[trigger] s[i])) ==> doc_wf(
            s.filter(pred)[a],
        ),
    decreases s.len(),
{
    reveal(Seq::filter);
    if s.len() > 0 {
        let p = s.drop_last();
        let f = s.filter(pred);
        if pred(s.last()) && a == f.len() - 1 {
            assert(s[s.len() - 1] == f[a]);
        } else {
            lemma_filter_member(p, pred, a);
            let i = choose|i: int| 0 <= i < p.len() && p[i] == p.filter(pred)[a];
            assert(s[i] == p[i]);
        }
    }
}

} // verus!

verus! {

/// The snapshot value form of a document sequence: an object mapping
/// each identifier to its record.
pub open spec fn coll_val(ds: Seq<DocModel>) -> ValModel {
    ValModel::Obj(
        Seq::new(
            ds.len(),
            |i: int|
                if 0 <= i < ds.len() {
                    MemberModel { key: ds[i].id, val: doc_to_val(ds[i]) }
                } else {
                    MemberModel { key: Seq::empty(), val: ValModel::Null }
                },
        ),
    )
}

/// Reads a document sequence back from snapshot members, from index `i`.
pub open spec fn docs_of_members(ms: Seq<MemberModel>, i: int) -> Option<Seq<DocModel>>
    decreases ms.len() - i,
{
    if !(0 <= i < ms.len()) {
        Some(Seq::empty())
    } else {
        match doc_of_val(ms[i].val) {
            None => None,
            Some(d) => if d.id != ms[i].key {
                None
            } else {
                match docs_of_members(ms, i + 1) {
                    None => None,
                    Some(rest) => Some(seq![d] + rest),
                }
            },
        }
    }
}

/// Reads a document sequence back from a snapshot value.
pub open spec fn coll_of_val(v: ValModel) -> Option<Seq<DocModel>> {
    if v is Obj {
        match docs_of_members(v->Obj_0, 0) {
            None => None,
            Some(ds) => if unique_ids(ds) {
                Some(ds)
            } else {
                None
            },
        }
    } else {
        None
    }
}

/// Reads a document sequence back from snapshot text.
pub open spec fn coll_of_text(s: Seq<char>) -> Option<Seq<DocModel>> {
    match parse_text(s) {
        None => None,
        Some(v) => coll_of_val(v),
    }
}

/// The members of a snapshot value form are well-formed.
proof fn lemma_coll_val_wf_from(ds: Seq<DocModel>, i: int)
    requires
        forall|k: int| 0 <= k < ds.len() ==> doc_wf(#[trigger] ds[k]),
        0 <= i <= ds.len(),
    ensures
        members_wf(coll_val(ds)->Obj_0, i),
    decreases ds.len() - i,
{
    if i < ds.len() {
        lemma_doc_val_wf(ds[i]);
        lemma_coll_val_wf_from(ds, i + 1);
        assert(member_wf(coll_val(ds)->Obj_0[i])) by {
            reveal_with_fuel(member_wf, 2);
        }
    }
}

/// Reading members built from well-formed documents yields them back.
proof fn lemma_docs_of_members_roundtrip(ds: Seq<DocModel>, i: int)
    requires
        forall|k: int| 0 <= k < ds.len() ==> doc_wf(#[trigger] ds[k]),
        0 <= i <= ds.len(),
    ensures
        docs_of_members(coll_val(ds)->Obj_0, i) == Some(ds.subrange(i, ds.len() as int)),
    decreases ds.len() - i,
{
    let ms = coll_val(ds)->Obj_0;
    if i < ds.len() {
        lemma_doc_roundtrip(ds[i]);
        assert(ms[i].val == doc_to_val(ds[i]));
        assert(doc_of_val(ms[i].val) == Some(ds[i]));
        lemma_docs_of_members_roundtrip(ds, i + 1);
        assert(seq![ds[i]] + ds.subrange(i + 1, ds.len() as int) =~= ds.subrange(
            i,
            ds.len() as int,
        ));
    } else {
        assert(ds.subrange(i, ds.len() as int) =~= Seq::<DocModel>::empty());
    }
}

/// Round trip: the snapshot text of a well-formed document sequence reads
/// back as exactly that sequence.
pub proof fn lemma_snapshot_roundtrip(ds: Seq<DocModel>)
    requires
        unique_ids(ds),
        forall|k: int| 0 <= k < ds.len() ==> doc_wf(#[trigger] ds[k]),
    ensures
        coll_of_text(ser_val(coll_val(ds))) == Some(ds),
{
    assert(val_wf(coll_val(ds))) by {
        lemma_coll_val_wf_from(ds, 0);
    }
    lemma_parse_text_complete(coll_val(ds));
    lemma_docs_of_members_roundtrip(ds, 0);
    assert(ds.subrange(0, ds.len() as int) =~= ds);
}

impl Collection {
    /// The full snapshot text of the collection.
    pub fn snapshot(&self) -> (r: String)
        ensures
            r@ == ser_val(coll_val(self.docs_seq())),
    {
        let mut ms: Vec<(String, JsonVal)> = Vec::new();
        let mut i: usize = 0;
        while i < self.docs.len()
            invariant
                0 <= i <= self.docs@.len(),
                ms@.len() == i,
                forall|k: int|
                    0 <= k < i ==> (#[trigger] ms@[k].0@) == docs_model(self.docs@)[k].id && ms@[
                        k].1@ == doc_to_val(docs_model(self.docs@)[k]),
            decreases self.docs@.len() - i,
        {
            let key = self.docs[i].id.clone();
            let val = doc_to_jsonval(&self.docs[i]);
            ms.push((key, val));
            i += 1;
        }
        let body = JsonVal::Obj(ms);
        proof {
            lemma_obj_members_model(&body);
            assert(body@->Obj_0 =~= coll_val(self.docs_seq())->Obj_0);
        }
        to_text(&body)
    }

    /// Rebuilds a collection from its snapshot text; fails with
    /// `Serialization` exactly when the text is not a well-formed
    /// snapshot.
    #[verifier::loop_isolation(false)]
    pub fn from_snapshot(name: String, text: &str) -> (r: Result<Collection, DbError>)
        ensures
            (r is Ok) == (coll_of_text(text@) is Some),
            r is Err ==> r->Err_0 == DbError::Serialization,
            r is Ok ==> {
                let c = r->Ok_0;
                &&& c.wf()
                &&& c.name_model() == name@
                &&& c.docs_seq() == coll_of_text(text@)->0
            },
    {
        let parsed = match from_text(text) {
            None => {
                return Err(DbError::Serialization);
            },
            Some(v) => v,
        };
        let ms = match parsed {
            JsonVal::Obj(ms) => ms,
            _ => {
                return Err(DbError::Serialization);
            },
        };
        proof {
            let ghost pv = parse_text(text@)->0;
            assert(pv is Obj);
        }
        let ghost mm = parse_text(text@)->0->Obj_0;
        proof {
            assert(members_model(ms@) == mm);
        }
        let mut docs: Vec<Document> = Vec::new();
        let mut i: usize = 0;
        while i < ms.len()
            invariant
                0 <= i <= ms@.len(),
                docs@.len() == i,
                members_model(ms@) == mm,
                (match docs_of_members(mm, i as int) {
                    Some(rest) => docs_of_members(mm, 0) == Some(docs_model(docs@) + rest),
                    None => docs_of_members(mm, 0) is None,
                }),
            decreases ms@.len() - i,
        {
            let d = match jsonval_to_doc(&ms[i].1) {
                None => {
                    proof {
                        assert(mm[i as int].val == ms@[i as int].1@);
                        assert(docs_of_members(mm, i as int) is None);
                    }
                    return Err(DbError::Serialization);
                },
                Some(d) => d,
            };
            if !str_eq(ms[i].0.as_str(), d.id.as_str()) {
                proof {
                    assert(docs_of_members(mm, i as int) is None);
                }
                return Err(DbError::Serialization);
            }
            docs.push(d);
            proof {
                let ghost rest2 = docs_of_members(mm, i as int + 1);
                if rest2 is Some {
                    assert(docs_of_members(mm, i as int) == Some(
                        seq![docs_model(docs@)[i as int]] + rest2->0,
                    ));
                    assert(docs_model(docs@) + rest2->0 =~= docs_model(docs@.drop_last()) + (seq![
                        docs_model(docs@)[i as int]] + rest2->0)) by {
                        assert(docs_model(docs@.drop_last()) =~= docs_model(docs@).drop_last());
                    }
                }
            }
            i += 1;
        }
        proof {
            assert(docs_of_members(mm, ms@.len() as int) == Some(Seq::<DocModel>::empty()));
            assert(docs_model(docs@) + Seq::<DocModel>::empty() =~= docs_model(docs@));
            assert(docs_of_members(mm, 0) == Some(docs_model(docs@)));
        }
        // Distinct identifiers.
        let n = docs.len();
        let mut a: usize = 0;
        while a < n
            invariant
                0 <= a <= n,
                n == docs@.len(),
                forall|x: int, y: int|
                    0 <= x < y < docs@.len() && x < a ==> docs_model(docs@)[x].id != docs_model(
                        docs@,
                    )[y].id,
            decreases n - a,
        {
            let mut b: usize = a + 1;
            while b < n
                invariant
                    a < b <= n,
                    n == docs@.len(),
                    forall|y: int|
                        a < y < b ==> docs_model(docs@)[a as int].id != docs_model(docs@)[y].id,
                decreases n - b,
            {
                if str_eq(docs[a].id.as_str(), docs[b].id.as_str()) {
                    proof {
                        assert(docs_model(docs@)[a as int].id == docs_model(docs@)[b as int].id);
                        assert(!unique_ids(docs_model(docs@)));
                    }
                    return Err(DbError::Serialization);
                }
                b += 1;
            }
            a += 1;
        }
        proof {
            assert(unique_ids(docs_model(docs@)));
        }
        let c = Collection { name, docs };
        proof {
            assert(c.docs_seq() == coll_of_text(text@)->0);
            assert forall|k: int| 0 <= k < c.docs_seq().len() implies doc_wf(
                #[trigger] c.docs_seq()[k],
            ) by {
                lemma_docs_of_members_wf(mm, 0, c.docs_seq(), k);
            }
        }
        Ok(c)
    }
}

/// Every document read back from snapshot members is well-formed.
proof fn lemma_docs_of_members_wf(ms: Seq<MemberModel>, i: int, ds: Seq<DocModel>, k: int)
    requires
        0 <= i <= ms.len(),
        docs_of_members(ms, i) == Some(ds),
        0 <= k < ds.len(),
    ensures
        doc_wf(ds[k]),
    decreases ms.len() - i,
{
    if i < ms.len() {
        let d = doc_of_val(ms[i].val)->0;
        let rest = docs_of_members(ms, i + 1)->0;
        assert(ds == seq![d] + rest);
        if k == 0 {
            assert(ds[0] == d);
        } else {
            lemma_docs_of_members_wf(ms, i + 1, rest, k - 1);
            assert(ds[k] == rest[k - 1]);
        }
    }
}

} // verus!
