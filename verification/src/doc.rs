//! Documents: the stored record, its mathematical model, and the
//! conversion between a record and its snapshot value form.

use vstd::prelude::*;
use crate::codec::val_wf;
use crate::codec::I64_MAX;
use crate::codec::I64_MIN;
use crate::value::JsonVal;
use crate::value::MemberModel;
use crate::value::ValModel;

verus! {

/// One stored record: an opaque body with identifier and timestamps.
/// Timestamps are milliseconds since the Unix epoch.
#[derive(Debug)]
pub struct Document {
    pub id: String,
    pub data: JsonVal,
    pub created_at: i64,
    pub updated_at: i64,
    pub expires_at: Option<i64>,
}

/// Mathematical model of a document.
pub ghost struct DocModel {
    pub id: Seq<char>,
    pub data: ValModel,
    pub created_at: int,
    pub updated_at: int,
    pub expires_at: Option<int>,
}

impl View for Document {
    type V = DocModel;

    open spec fn view(&self) -> DocModel {
        DocModel {
            id: self.id@,
            data: self.data@,
            created_at: self.created_at as int,
            updated_at: self.updated_at as int,
            expires_at: match self.expires_at {
                None => None,
                Some(t) => Some(t as int),
            },
        }
    }
}

impl Clone for Document {
    /// A clone has the same model.
    fn clone(&self) -> (r: Self)
        ensures
            r@ == self@,
    {
        Document {
            id: self.id.clone(),
            data: self.data.clone(),
            created_at: self.created_at,
            updated_at: self.updated_at,
            expires_at: match self.expires_at {
                None => None,
                Some(t) => Some(t),
            },
        }
    }
}

/// A well-formed document: the update time never precedes the creation
/// time, all timestamps fit 64 bits, and the body is well-formed.
pub open spec fn doc_wf(d: DocModel) -> bool {
    &&& d.updated_at >= d.created_at
    &&& I64_MIN <= d.created_at <= I64_MAX
    &&& I64_MIN <= d.updated_at <= I64_MAX
    &&& (d.expires_at is Some ==> I64_MIN <= d.expires_at->0 <= I64_MAX)
    &&& val_wf(d.data)
}

/// Whether a document is still live at time `now`: it has no expiry, or
/// its expiry lies strictly in the future.
pub open spec fn doc_live(d: DocModel, now: int) -> bool {
    match d.expires_at {
        None => true,
        Some(t) => t > now,
    }
}

/// The snapshot field names.
pub open spec fn key_id() -> Seq<char> {
    seq!['i', 'd']
}

pub open spec fn key_data() -> Seq<char> {
    seq!['d', 'a', 't', 'a']
}

pub open spec fn key_created() -> Seq<char> {
    seq!['c', 'r', 'e', 'a', 't', 'e', 'd', '_', 'a', 't']
}

pub open spec fn key_updated() -> Seq<char> {
    seq!['u', 'p', 'd', 'a', 't', 'e', 'd', '_', 'a', 't']
}

pub open spec fn key_expires() -> Seq<char> {
    seq!['e', 'x', 'p', 'i', 'r', 'e', 's', '_', 'a', 't']
}

/// The snapshot value form of a document: a five-member record.
pub open spec fn doc_to_val(d: DocModel) -> ValModel {
    ValModel::Obj(
        seq![
            MemberModel { key: key_id(), val: ValModel::Str(d.id) },
            MemberModel { key: key_data(), val: d.data },
            MemberModel { key: key_created(), val: ValModel::Int(d.created_at) },
            MemberModel { key: key_updated(), val: ValModel::Int(d.updated_at) },
            MemberModel {
                key: key_expires(),
                val: match d.expires_at {
                    None => ValModel::Null,
                    Some(t) => ValModel::Int(t),
                },
            },
        ],
    )
}

/// Reads a document back from its snapshot value form; absence means the
/// value does not have the record shape or is not well-formed.
pub open spec fn doc_of_val(v: ValModel) -> Option<DocModel> {
    if v is Obj && v->Obj_0.len() == 5 {
        let ms = v->Obj_0;
        if ms[0].key == key_id() && ms[0].val is Str && ms[1].key == key_data() && ms[2].key
            == key_created() && ms[2].val is Int && ms[3].key == key_updated() && ms[3].val is Int
            && ms[4].key == key_expires() && (ms[4].val is Null || ms[4].val is Int) {
            let d = DocModel {
                id: ms[0].val->Str_0,
                data: ms[1].val,
                created_at: ms[2].val->Int_0,
                updated_at: ms[3].val->Int_0,
                expires_at: if ms[4].val is Null {
                    None
                } else {
                    Some(ms[4].val->Int_0)
                },
            };
            if doc_wf(d) {
                Some(d)
            } else {
                None
            }
        } else {
            None
        }
    } else {
        None
    }
}

/// Reading back the value form of a well-formed document yields it.
pub proof fn lemma_doc_roundtrip(d: DocModel)
    requires
        doc_wf(d),
    ensures
        doc_of_val(doc_to_val(d)) == Some(d),
{
}

} // verus!

verus! {

use crate::codec::vals_wf;
use crate::codec::members_wf;
use crate::codec::member_wf;
use crate::value::lemma_arr_seq_model;
use crate::value::lemma_obj_members_model;
use crate::value::members_model;
use crate::value::seq_model;
use crate::value::str_eq;

/// Every executable value is well-formed: its integers are 64-bit.
pub proof fn lemma_jsonval_wf(v: &JsonVal)
    ensures
        val_wf(v@),
    decreases v, 0int,
{
    match v {
        JsonVal::Arr(elems) => {
            lemma_arr_seq_model(v);
            lemma_vals_wf(elems, 0);
        },
        JsonVal::Obj(members) => {
            lemma_obj_members_model(v);
            lemma_members_wf(members, 0);
        },
        _ => {},
    }
}

/// Elements of an executable vector are well-formed from any index on.
pub proof fn lemma_vals_wf(elems: &Vec<JsonVal>, i: int)
    ensures
        vals_wf(seq_model(elems@), i),
    decreases elems, elems@.len() - i, 0int,
{
    if 0 <= i < elems@.len() {
        let ghost e = elems@[i];
        lemma_jsonval_wf(&e);
        assert(seq_model(elems@)[i] == elems@[i]@);
        lemma_vals_wf(elems, i + 1);
    }
}

/// Members of an executable vector are well-formed from any index on.
pub proof fn lemma_members_wf(members: &Vec<(String, JsonVal)>, i: int)
    ensures
        members_wf(members_model(members@), i),
    decreases members, members@.len() - i, 0int,
{
    if 0 <= i < members@.len() {
        let ghost e = members@[i].1;
        lemma_jsonval_wf(&e);
        assert(members_model(members@)[i] == (MemberModel {
            key: members@[i].0@,
            val: members@[i].1@,
        }));
        assert(member_wf(members_model(members@)[i]));
        lemma_members_wf(members, i + 1);
    }
}

/// The value form of a well-formed document is itself well-formed.
pub proof fn lemma_doc_val_wf(d: DocModel)
    requires
        doc_wf(d),
    ensures
        val_wf(doc_to_val(d)),
{
    let ms = doc_to_val(d)->Obj_0;
    assert(members_wf(ms, 0)) by {
        reveal_with_fuel(members_wf, 7);
        reveal_with_fuel(member_wf, 2);
    }
}

/// Builds the snapshot value form of a document.
pub fn doc_to_jsonval(d: &Document) -> (r: JsonVal)
    ensures
        r@ == doc_to_val(d@),
{
    let mut ms: Vec<(String, JsonVal)> = Vec::new();
    ms.push((String::from_str("id"), JsonVal::Str(d.id.clone())));
    ms.push((String::from_str("data"), d.data.clone()));
    ms.push((String::from_str("created_at"), JsonVal::Int(d.created_at)));
    ms.push((String::from_str("updated_at"), JsonVal::Int(d.updated_at)));
    let ex = match d.expires_at {
        None => JsonVal::Null,
        Some(t) => JsonVal::Int(t),
    };
    ms.push((String::from_str("expires_at"), ex));
    let r = JsonVal::Obj(ms);
    proof {
        reveal_strlit("id");
        reveal_strlit("data");
        reveal_strlit("created_at");
        reveal_strlit("updated_at");
        reveal_strlit("expires_at");
        assert("id"@ =~= key_id());
        assert("data"@ =~= key_data());
        assert("created_at"@ =~= key_created());
        assert("updated_at"@ =~= key_updated());
        assert("expires_at"@ =~= key_expires());
        lemma_obj_members_model(&r);
        assert(r@->Obj_0 =~= doc_to_val(d@)->Obj_0);
    }
    r
}

/// Reads a document back from a snapshot value.
pub fn jsonval_to_doc(v: &JsonVal) -> (r: Option<Document>)
    ensures
        (r is Some) == (doc_of_val(v@) is Some),
        r is Some ==> doc_of_val(v@) == Some(r->0@),
{
    proof {
        reveal_strlit("id");
        reveal_strlit("data");
        reveal_strlit("created_at");
        reveal_strlit("updated_at");
        reveal_strlit("expires_at");
        assert("id"@ =~= key_id());
        assert("data"@ =~= key_data());
        assert("created_at"@ =~= key_created());
        assert("updated_at"@ =~= key_updated());
        assert("expires_at"@ =~= key_expires());
    }
    match v {
        JsonVal::Obj(ms) => {
            proof {
                lemma_obj_members_model(v);
            }
            if ms.len() != 5 {
                return None;
            }
            let keys_ok = str_eq(ms[0].0.as_str(), "id") && str_eq(ms[1].0.as_str(), "data")
                && str_eq(ms[2].0.as_str(), "created_at") && str_eq(ms[3].0.as_str(), "updated_at")
                && str_eq(ms[4].0.as_str(), "expires_at");
            if !keys_ok {
                return None;
            }
            let id = match &ms[0].1 {
                JsonVal::Str(s) => s.clone(),
                _ => {
                    return None;
                },
            };
            let created = match &ms[2].1 {
                JsonVal::Int(n) => *n,
                _ => {
                    return None;
                },
            };
            let updated = match &ms[3].1 {
                JsonVal::Int(n) => *n,
                _ => {
                    return None;
                },
            };
            let expires = match &ms[4].1 {
                JsonVal::Null => None,
                JsonVal::Int(n) => Some(*n),
                _ => {
                    return None;
                },
            };
            if updated < created {
                return None;
            }
            let data = ms[1].1.clone();
            proof {
                let ghost dv = ms@[1].1;
                lemma_jsonval_wf(&dv);
            }
            let d = Document { id, data, created_at: created, updated_at: updated, expires_at: expires };
            proof {
                assert(doc_of_val(v@) == Some(d@));
            }
            Some(d)
        },
        _ => None,
    }
}

} // verus!
