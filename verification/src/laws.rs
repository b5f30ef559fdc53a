//! Store-level laws: what the operations' contracts, taken together,
//! guarantee about the identifier-to-document mapping.

use vstd::prelude::*;
use crate::collection::map_of;
use crate::collection::unique_ids;
use crate::doc::doc_live;
use crate::doc::DocModel;

verus! {

/// Inserting a document and then looking its identifier up yields that
/// document: its body, identifier and creation time are those stored.
/// `insert` ends with the mapping `m.insert(d.id, d)`; `find` reads the
/// mapping at a key.
pub proof fn law_insert_then_find(m: Map<Seq<char>, DocModel>, d: DocModel)
    ensures
        m.insert(d.id, d).contains_key(d.id),
        m.insert(d.id, d)[d.id] == d,
{
}

/// Deleting an identifier makes it absent, so a following `find` yields
/// absence and a second `delete` of the same identifier fails: `delete`
/// ends with the mapping `m.remove(k)`, and both `find` and `delete`
/// succeed exactly on contained keys.
pub proof fn law_delete_then_absent(m: Map<Seq<char>, DocModel>, k: Seq<char>)
    ensures
        !m.remove(k).contains_key(k),
{
}

/// Inserting under a fresh identifier loses no other document: every
/// other key keeps its presence and its value.
pub proof fn law_insert_preserves_others(m: Map<Seq<char>, DocModel>, d: DocModel, k: Seq<char>)
    requires
        k != d.id,
    ensures
        m.insert(d.id, d).contains_key(k) == m.contains_key(k),
        m.contains_key(k) ==> m.insert(d.id, d)[k] == m[k],
{
}

/// After a sweep at time `now`, no document that had expired by `now`
/// remains reachable: the swept sequence is the filter of the old one,
/// and the mapping it describes no longer contains the expired
/// identifier.
pub proof fn law_sweep_removes_expired(s: Seq<DocModel>, now: int, i: int)
    requires
        unique_ids(s),
        0 <= i < s.len(),
        !doc_live(s[i], now),
    ensures
        !map_of(s.filter(|d: DocModel| doc_live(d, now))).contains_key(s[i].id),
{
    let pred = |d: DocModel| doc_live(d, now);
    let f = s.filter(pred);
    assert(unique_ids(f)) by {
        assert forall|a: int, b: int| 0 <= a < b < f.len() implies f[a].id != f[b].id by {
            crate::collection::lemma_filter_is_subsequence(s, pred, a, b);
        }
    }
    crate::collection::lemma_map_of_props(f);
    if map_of(f).contains_key(s[i].id) {
        let a = choose|a: int| 0 <= a < f.len() && f[a].id == s[i].id;
        crate::collection::lemma_filter_member(s, pred, a);
        let j = choose|j: int| 0 <= j < s.len() && s[j] == f[a];
        broadcast use vstd::seq_lib::group_filter_ensures;

        assert(pred(f[a]));
        assert(s[j].id == s[i].id);
        assert(j == i || s[j].id != s[i].id);
        assert(s[i] == f[a]);
        assert(doc_live(s[i], now));
    }
}

/// A document still live at `now` survives a sweep at `now` unchanged.
pub proof fn law_sweep_keeps_live(s: Seq<DocModel>, now: int, i: int)
    requires
        unique_ids(s),
        0 <= i < s.len(),
        doc_live(s[i], now),
    ensures
        map_of(s.filter(|d: DocModel| doc_live(d, now))).contains_key(s[i].id),
        map_of(s.filter(|d: DocModel| doc_live(d, now)))[s[i].id] == s[i],
{
    let pred = |d: DocModel| doc_live(d, now);
    let f = s.filter(pred);
    assert(unique_ids(f)) by {
        assert forall|a: int, b: int| 0 <= a < b < f.len() implies f[a].id != f[b].id by {
            crate::collection::lemma_filter_is_subsequence(s, pred, a, b);
        }
    }
    crate::collection::lemma_map_of_props(f);
    broadcast use vstd::seq_lib::group_filter_ensures;

    assert(f.contains(s[i])) by {
        assert(s.contains(s[i]));
    }
    let a = choose|a: int| 0 <= a < f.len() && f[a] == s[i];
    assert(f[a].id == s[i].id);
}

} // verus!
