//! The structured-value model: document bodies are opaque trees of
//! maps, lists and scalars, modeled mathematically by [`ValModel`].

use vstd::prelude::*;
use vstd::string::StrSliceExecFns;

verus! {

/// Mathematical model of a structured value: the shape contracts speak of.
#[verifier::ext_equal]
pub ghost enum ValModel {
    Null,
    Bool(bool),
    Int(int),
    Str(Seq<char>),
    Arr(Seq<ValModel>),
    Obj(Seq<MemberModel>),
}

/// One object member in the model: a key and its value.
#[verifier::ext_equal]
pub ghost struct MemberModel {
    pub key: Seq<char>,
    pub val: ValModel,
}

/// An opaque structured document body: nested objects, arrays and scalars.
/// Numbers are 64-bit signed integers; object member order is preserved.
#[derive(Debug)]
pub enum JsonVal {
    Null,
    Bool(bool),
    Int(i64),
    Str(String),
    Arr(Vec<JsonVal>),
    Obj(Vec<(String, JsonVal)>),
}

impl View for JsonVal {
    type V = ValModel;

    open spec fn view(&self) -> ValModel
        decreases self,
    {
        if self is Null {
            ValModel::Null
        } else if self is Bool {
            ValModel::Bool(self->Bool_0)
        } else if self is Int {
            ValModel::Int(self->Int_0 as int)
        } else if self is Str {
            ValModel::Str(self->Str_0@)
        } else if self is Obj {
            ValModel::Obj(
                Seq::new(
                    self->Obj_0@.len(),
                    |i: int|
                        if 0 <= i < self->Obj_0@.len() {
                            MemberModel { key: self->Obj_0@[i].0@, val: self->Obj_0@[i].1@ }
                        } else {
                            MemberModel { key: Seq::empty(), val: ValModel::Null }
                        },
                ),
            )
        } else if self is Arr {
            ValModel::Arr(
                Seq::new(
                    self->Arr_0@.len(),
                    |i: int|
                        if 0 <= i < self->Arr_0@.len() {
                            self->Arr_0@[i]@
                        } else {
                            ValModel::Null
                        },
                ),
            )
        } else {
            ValModel::Null
        }
    }
}

/// The model of an array value, element by element.
pub proof fn lemma_arr_model(v: &JsonVal)
    requires
        v is Arr,
    ensures
        v@ is Arr,
        v@->Arr_0.len() == v->Arr_0@.len(),
        forall|i: int| 0 <= i < v->Arr_0@.len() ==> #[trigger] v@->Arr_0[i] == v->Arr_0@[i]@,
{
}

/// The model of an object value, member by member.
pub proof fn lemma_obj_model(v: &JsonVal)
    requires
        v is Obj,
    ensures
        v@ is Obj,
        v@->Obj_0.len() == v->Obj_0@.len(),
        forall|i: int|
            0 <= i < v->Obj_0@.len() ==> #[trigger] v@->Obj_0[i] == (MemberModel {
                key: v->Obj_0@[i].0@,
                val: v->Obj_0@[i].1@,
            }),
{
}

/// The models of a sequence of values, element by element.
pub open spec fn seq_model(elems: Seq<JsonVal>) -> Seq<ValModel> {
    Seq::new(
        elems.len(),
        |i: int|
            if 0 <= i < elems.len() {
                elems[i]@
            } else {
                ValModel::Null
            },
    )
}

/// The models of a sequence of keyed members, element by element.
pub open spec fn members_model(members: Seq<(String, JsonVal)>) -> Seq<MemberModel> {
    Seq::new(
        members.len(),
        |i: int|
            if 0 <= i < members.len() {
                MemberModel { key: members[i].0@, val: members[i].1@ }
            } else {
                MemberModel { key: Seq::empty(), val: ValModel::Null }
            },
    )
}

/// An array value's model is the sequence model of its elements.
pub proof fn lemma_arr_seq_model(v: &JsonVal)
    requires
        v is Arr,
    ensures
        v@ is Arr,
        v@->Arr_0 == seq_model(v->Arr_0@),
{
    lemma_arr_model(v);
    assert(v@->Arr_0 =~= seq_model(v->Arr_0@));
}

/// An object value's model is the member model of its members.
pub proof fn lemma_obj_members_model(v: &JsonVal)
    requires
        v is Obj,
    ensures
        v@ is Obj,
        v@->Obj_0 == members_model(v->Obj_0@),
{
    lemma_obj_model(v);
    assert(v@->Obj_0 =~= members_model(v->Obj_0@));
}

/// Character-wise equality of two string slices.
#[verifier::loop_isolation(false)]
pub fn str_eq(a: &str, b: &str) -> (r: bool)
    ensures
        r == (a@ == b@),
{
    let la = a.unicode_len();
    let lb = b.unicode_len();
    if la != lb {
        return false;
    }
    let mut i: usize = 0;
    while i < la
        invariant
            0 <= i <= la,
            la == a@.len(),
            la == b@.len(),
            forall|k: int| 0 <= k < i ==> a@[k] == b@[k],
        decreases la - i,
    {
        if a.get_char(i) != b.get_char(i) {
            return false;
        }
        i += 1;
    }
    proof {
        assert(a@ =~= b@);
    }
    true
}

/// Structural equality of two values: their models are the same tree.
#[verifier::loop_isolation(false)]
pub fn deep_eq(a: &JsonVal, b: &JsonVal) -> (r: bool)
    ensures
        r == (a@ == b@),
    decreases a,
{
    match a {
        JsonVal::Null => match b {
            JsonVal::Null => true,
            _ => false,
        },
        JsonVal::Bool(x) => match b {
            JsonVal::Bool(y) => x == y,
            _ => false,
        },
        JsonVal::Int(x) => match b {
            JsonVal::Int(y) => x == y,
            _ => false,
        },
        JsonVal::Str(x) => match b {
            JsonVal::Str(y) => x.eq(y),
            _ => false,
        },
        JsonVal::Arr(xs) => match b {
            JsonVal::Arr(ys) => {
                if xs.len() != ys.len() {
                    proof {
                        lemma_arr_model(a);
                        lemma_arr_model(b);
                    }
                    false
                } else {
                    let mut i: usize = 0;
                    let mut same = true;
                    while i < xs.len()
                        invariant
                            0 <= i <= xs@.len(),
                            same == (forall|k: int|
                                0 <= k < i ==> xs@[k]@ == ys@[k]@),
                        decreases xs@.len() - i,
                    {
                        if !deep_eq(&xs[i], &ys[i]) {
                            same = false;
                        }
                        i += 1;
                    }
                    proof {
                        lemma_arr_model(a);
                        lemma_arr_model(b);
                        if same {
                            assert(a@->Arr_0 =~= b@->Arr_0);
                        } else {
                            let k = choose|k: int|
                                0 <= k < xs@.len() && xs@[k]@ != ys@[k]@;
                            assert(a@->Arr_0[k] != b@->Arr_0[k]);
                        }
                    }
                    proof {
                        assert(same == (a@ == b@));
                    }
                    same
                }
            },
            _ => {
                proof {
                    assert(a@ is Arr && !(b@ is Arr));
                }
                false
            },
        },
        JsonVal::Obj(xs) => match b {
            JsonVal::Obj(ys) => {
                if xs.len() != ys.len() {
                    proof {
                        lemma_obj_model(a);
                        lemma_obj_model(b);
                    }
                    false
                } else {
                    let mut i: usize = 0;
                    let mut same = true;
                    while i < xs.len()
                        invariant
                            0 <= i <= xs@.len(),
                            same == (forall|k: int|
                                0 <= k < i ==> xs@[k]@ == ys@[k]@),
                        decreases xs@.len() - i,
                    {
                        let keys_eq = xs[i].0.eq(&ys[i].0);
                        let vals_eq = deep_eq(&xs[i].1, &ys[i].1);
                        if !(keys_eq && vals_eq) {
                            same = false;
                        }
                        i += 1;
                    }
                    proof {
                        lemma_obj_model(a);
                        lemma_obj_model(b);
                        if same {
                            assert(a@->Obj_0 =~= b@->Obj_0);
                        } else {
                            let k = choose|k: int|
                                0 <= k < xs@.len() && xs@[k]@ != ys@[k]@;
                            assert(a@->Obj_0[k] != b@->Obj_0[k]);
                        }
                    }
                    proof {
                        assert(same == (a@ == b@));
                    }
                    same
                }
            },
            _ => {
                proof {
                    assert(a@ is Obj && !(b@ is Obj));
                }
                false
            },
        },
    }
}

impl Clone for JsonVal {
    /// A clone has the same model.
    #[verifier::loop_isolation(false)]
    fn clone(&self) -> (r: Self)
        ensures
            r@ == self@,
        decreases self,
    {
        match self {
            JsonVal::Null => JsonVal::Null,
            JsonVal::Bool(b) => JsonVal::Bool(*b),
            JsonVal::Int(n) => JsonVal::Int(*n),
            JsonVal::Str(s) => JsonVal::Str(s.clone()),
            JsonVal::Arr(elems) => {
                let mut out: Vec<JsonVal> = Vec::new();
                let mut i: usize = 0;
                while i < elems.len()
                    invariant
                        0 <= i <= elems@.len(),
                        out@.len() == i,
                        forall|k: int| 0 <= k < i ==> out@[k]@ == elems@[k]@,
                    decreases elems@.len() - i,
                {
                    out.push(elems[i].clone());
                    i += 1;
                }
                let r = JsonVal::Arr(out);
                proof {
                    lemma_arr_model(&r);
                    lemma_arr_model(self);
                    assert(r@->Arr_0 =~= self@->Arr_0);
                }
                r
            },
            JsonVal::Obj(members) => {
                let mut out: Vec<(String, JsonVal)> = Vec::new();
                let mut i: usize = 0;
                while i < members.len()
                    invariant
                        0 <= i <= members@.len(),
                        out@.len() == i,
                        forall|k: int|
                            0 <= k < i ==> out@[k]@ == members@[k]@,
                    decreases members@.len() - i,
                {
                    let key = members[i].0.clone();
                    let val = members[i].1.clone();
                    out.push((key, val));
                    i += 1;
                }
                let r = JsonVal::Obj(out);
                proof {
                    lemma_obj_model(&r);
                    lemma_obj_model(self);
                    assert(r@->Obj_0 =~= self@->Obj_0);
                }
                r
            },
        }
    }
}

} // verus!
