//! The snapshot text form: a compact structured notation for values,
//! with a serializer, a parser, and proofs that parsing inverts
//! serialization on every well-formed value.

use vstd::prelude::*;
use crate::digits::digit_run_end;
use crate::digits::digit_val;
use crate::digits::digits_val;
use crate::digits::dec_digits;
use crate::digits::is_digit;
use crate::digits::pow10;
use crate::digits::ser_int;
use crate::digits::lemma_dec_digits_form;
use crate::digits::lemma_dec_digits_len_le;
use crate::digits::lemma_digit_run_end;
use crate::digits::lemma_digits_val_of_dec;
use crate::value::MemberModel;
use crate::value::ValModel;

verus! {

pub const I64_MIN: i64 = -9223372036854775808;

pub const I64_MAX: i64 = 9223372036854775807;

/// Whether a model value fits the store: every number is a 64-bit integer.
pub open spec fn val_wf(v: ValModel) -> bool
    decreases v, 1int,
{
    match v {
        ValModel::Null => true,
        ValModel::Bool(_) => true,
        ValModel::Int(n) => I64_MIN <= n <= I64_MAX,
        ValModel::Str(_) => true,
        ValModel::Arr(elems) => vals_wf(elems, 0),
        ValModel::Obj(members) => members_wf(members, 0),
    }
}

/// Whether the elements of an array from index `i` on are well-formed.
pub open spec fn vals_wf(elems: Seq<ValModel>, i: int) -> bool
    decreases elems, elems.len() - i,
{
    if 0 <= i < elems.len() {
        val_wf(elems[i]) && vals_wf(elems, i + 1)
    } else {
        true
    }
}

/// Whether one object member is well-formed.
pub open spec fn member_wf(m: MemberModel) -> bool
    decreases m, 1int,
{
    val_wf(m.val)
}

/// Whether the members of an object from index `i` on are well-formed.
pub open spec fn members_wf(members: Seq<MemberModel>, i: int) -> bool
    decreases members, members.len() - i,
{
    if 0 <= i < members.len() {
        member_wf(members[i]) && members_wf(members, i + 1)
    } else {
        true
    }
}

/// The escape form of one character inside a quoted string.
pub open spec fn esc_char(c: char) -> Seq<char> {
    if c == '"' {
        seq!['\\', '"']
    } else if c == '\\' {
        seq!['\\', '\\']
    } else {
        seq![c]
    }
}

/// The escape form of a whole string body.
pub open spec fn esc_str(t: Seq<char>) -> Seq<char>
    decreases t.len(),
{
    if t.len() == 0 {
        Seq::empty()
    } else {
        esc_char(t[0]) + esc_str(t.drop_first())
    }
}

/// A quoted, escaped string.
pub open spec fn ser_str(t: Seq<char>) -> Seq<char> {
    seq!['"'] + esc_str(t) + seq!['"']
}

/// The serialized text of a value.
pub open spec fn ser_val(v: ValModel) -> Seq<char>
    decreases v, 1int,
{
    match v {
        ValModel::Null => seq!['n', 'u', 'l', 'l'],
        ValModel::Bool(b) => if b {
            seq!['t', 'r', 'u', 'e']
        } else {
            seq!['f', 'a', 'l', 's', 'e']
        },
        ValModel::Int(n) => ser_int(n),
        ValModel::Str(t) => ser_str(t),
        ValModel::Arr(elems) => seq!['['] + ser_elems(elems, 0) + seq![']'],
        ValModel::Obj(members) => seq!['{'] + ser_members(members, 0) + seq!['}'],
    }
}

/// The serialized elements of an array from index `i` on, comma separated.
pub open spec fn ser_elems(elems: Seq<ValModel>, i: int) -> Seq<char>
    decreases elems, elems.len() - i,
{
    if !(0 <= i < elems.len()) {
        Seq::empty()
    } else if i == elems.len() - 1 {
        ser_val(elems[i])
    } else {
        ser_val(elems[i]) + seq![','] + ser_elems(elems, i + 1)
    }
}

/// One serialized object member: quoted key, colon, value.
pub open spec fn ser_member(m: MemberModel) -> Seq<char>
    decreases m, 1int,
{
    ser_str(m.key) + seq![':'] + ser_val(m.val)
}

/// The serialized members of an object from index `i` on, comma separated.
pub open spec fn ser_members(members: Seq<MemberModel>, i: int) -> Seq<char>
    decreases members, members.len() - i,
{
    if !(0 <= i < members.len()) {
        Seq::empty()
    } else if i == members.len() - 1 {
        ser_member(members[i])
    } else {
        ser_member(members[i]) + seq![','] + ser_members(members, i + 1)
    }
}

/// Parses a quoted string body starting after the opening quote; yields
/// the unescaped text and the position after the closing quote.
pub open spec fn parse_str_body(s: Seq<char>, pos: int) -> Option<(Seq<char>, int)>
    decreases s.len() - pos,
{
    if pos < 0 || pos >= s.len() {
        None
    } else if s[pos] == '"' {
        Some((Seq::empty(), pos + 1))
    } else if s[pos] == '\\' {
        if pos + 1 < s.len() && (s[pos + 1] == '"' || s[pos + 1] == '\\') {
            match parse_str_body(s, pos + 2) {
                Some((t, e)) => Some((seq![s[pos + 1]] + t, e)),
                None => None,
            }
        } else {
            None
        }
    } else {
        match parse_str_body(s, pos + 1) {
            Some((t, e)) => Some((seq![s[pos]] + t, e)),
            None => None,
        }
    }
}

/// Parses an integer: optional minus sign, then an unpadded digit run of
/// at most nineteen digits whose value fits a 64-bit integer.
pub open spec fn parse_int(s: Seq<char>, pos: int) -> Option<(int, int)> {
    if pos < 0 || pos >= s.len() {
        None
    } else {
        let neg = s[pos] == '-';
        let dp = if neg {
            pos + 1
        } else {
            pos
        };
        if dp >= s.len() || !is_digit(s[dp]) {
            None
        } else {
            let e = digit_run_end(s, dp);
            let k = e - dp;
            if k > 19 {
                None
            } else if s[dp] == '0' && (k > 1 || neg) {
                None
            } else {
                let m = digits_val(s, dp, e) as int;
                if neg {
                    if m <= 9223372036854775808 {
                        Some((-m, e))
                    } else {
                        None
                    }
                } else {
                    if m <= I64_MAX {
                        Some((m, e))
                    } else {
                        None
                    }
                }
            }
        }
    }
}

/// Parses one value at `pos`; yields the value and the position after it.
pub open spec fn parse_val(s: Seq<char>, pos: int) -> Option<(ValModel, int)>
    decreases s.len() - pos, 0int,
{
    if pos < 0 || pos >= s.len() {
        None
    } else {
        let c = s[pos];
        if c == 'n' {
            if pos + 4 <= s.len() && s[pos + 1] == 'u' && s[pos + 2] == 'l' && s[pos + 3] == 'l' {
                Some((ValModel::Null, pos + 4))
            } else {
                None
            }
        } else if c == 't' {
            if pos + 4 <= s.len() && s[pos + 1] == 'r' && s[pos + 2] == 'u' && s[pos + 3] == 'e' {
                Some((ValModel::Bool(true), pos + 4))
            } else {
                None
            }
        } else if c == 'f' {
            if pos + 5 <= s.len() && s[pos + 1] == 'a' && s[pos + 2] == 'l' && s[pos + 3] == 's'
                && s[pos + 4] == 'e' {
                Some((ValModel::Bool(false), pos + 5))
            } else {
                None
            }
        } else if c == '"' {
            match parse_str_body(s, pos + 1) {
                Some((t, e)) => Some((ValModel::Str(t), e)),
                None => None,
            }
        } else if c == '[' {
            if pos + 1 < s.len() && s[pos + 1] == ']' {
                Some((ValModel::Arr(Seq::empty()), pos + 2))
            } else {
                match parse_elems(s, pos + 1) {
                    Some((es, e)) => Some((ValModel::Arr(es), e)),
                    None => None,
                }
            }
        } else if c == '{' {
            if pos + 1 < s.len() && s[pos + 1] == '}' {
                Some((ValModel::Obj(Seq::empty()), pos + 2))
            } else {
                match parse_members(s, pos + 1) {
                    Some((ms, e)) => Some((ValModel::Obj(ms), e)),
                    None => None,
                }
            }
        } else if c == '-' || is_digit(c) {
            match parse_int(s, pos) {
                Some((n, e)) => Some((ValModel::Int(n), e)),
                None => None,
            }
        } else {
            None
        }
    }
}

/// Parses one or more comma-separated elements, then the closing bracket.
pub open spec fn parse_elems(s: Seq<char>, pos: int) -> Option<(Seq<ValModel>, int)>
    decreases s.len() - pos, 1int,
{
    if pos < 0 || pos >= s.len() {
        None
    } else {
        match parse_val(s, pos) {
            None => None,
            Some((v, e)) => if !(pos < e <= s.len()) {
                None
            } else if e < s.len() && s[e] == ',' {
                match parse_elems(s, e + 1) {
                    Some((rest, e2)) => Some((seq![v] + rest, e2)),
                    None => None,
                }
            } else if e < s.len() && s[e] == ']' {
                Some((seq![v], e + 1))
            } else {
                None
            },
        }
    }
}

/// Parses one or more comma-separated members, then the closing brace.
pub open spec fn parse_members(s: Seq<char>, pos: int) -> Option<(Seq<MemberModel>, int)>
    decreases s.len() - pos, 1int,
{
    if pos < 0 || pos >= s.len() || s[pos] != '"' {
        None
    } else {
        match parse_str_body(s, pos + 1) {
            None => None,
            Some((key, ke)) => if !(pos < ke && ke < s.len() && s[ke] == ':') {
                None
            } else {
                match parse_val(s, ke + 1) {
                    None => None,
                    Some((v, e)) => if !(ke + 1 <= e <= s.len()) {
                        None
                    } else if e < s.len() && s[e] == ',' {
                        match parse_members(s, e + 1) {
                            Some((rest, e2)) => Some(
                                (seq![MemberModel { key, val: v }] + rest, e2),
                            ),
                            None => None,
                        }
                    } else if e < s.len() && s[e] == '}' {
                        Some((seq![MemberModel { key, val: v }], e + 1))
                    } else {
                        None
                    },
                }
            },
        }
    }
}

/// Parses a complete text: one value covering the whole input.
pub open spec fn parse_text(s: Seq<char>) -> Option<ValModel> {
    match parse_val(s, 0) {
        Some((v, e)) => if e == s.len() {
            Some(v)
        } else {
            None
        },
        None => None,
    }
}

} // verus!

verus! {

/// One character of a subrange equality, at an explicit offset.
pub proof fn lemma_subrange_char(s: Seq<char>, lo: int, hi: int, t: Seq<char>, j: int)
    requires
        0 <= lo <= hi <= s.len(),
        s.subrange(lo, hi) == t,
        0 <= j < hi - lo,
    ensures
        s[lo + j] == t[j],
{
    assert(s.subrange(lo, hi)[j] == s[lo + j]);
}

/// Serialized text is never empty, and its first character names the
/// value's shape.
pub proof fn lemma_ser_val_first(v: ValModel)
    ensures
        ser_val(v).len() >= 1,
        v is Null ==> ser_val(v)[0] == 'n',
        v is Bool ==> ser_val(v)[0] == 't' || ser_val(v)[0] == 'f',
        v is Int ==> ser_val(v)[0] == '-' || is_digit(ser_val(v)[0]),
        v is Str ==> ser_val(v)[0] == '"',
        v is Arr ==> ser_val(v)[0] == '[',
        v is Obj ==> ser_val(v)[0] == '{',
{
    match v {
        ValModel::Int(n) => {
            if n < 0 {
                lemma_dec_digits_form((-n) as nat);
            } else {
                lemma_dec_digits_form(n as nat);
                assert(ser_val(v)[0] == dec_digits(n as nat)[0]);
            }
        },
        _ => {},
    }
}

/// Appending one character to a string appends its escape form.
pub proof fn lemma_esc_str_snoc(t: Seq<char>, c: char)
    ensures
        esc_str(t.push(c)) == esc_str(t) + esc_char(c),
    decreases t.len(),
{
    let u = t.push(c);
    assert(u.len() == t.len() + 1);
    if t.len() == 0 {
        assert(u[0] == c);
        assert(u.drop_first() =~= Seq::<char>::empty());
        assert(esc_str(u) == esc_char(u[0]) + esc_str(u.drop_first()));
        assert(esc_str(Seq::<char>::empty()) == Seq::<char>::empty());
        assert(esc_char(c) + Seq::<char>::empty() =~= esc_char(c));
        assert(esc_str(t) == Seq::<char>::empty());
        assert(esc_str(t) + esc_char(c) =~= esc_char(c));
    } else {
        assert(u[0] == t[0]);
        assert(u.drop_first() =~= t.drop_first().push(c));
        lemma_esc_str_snoc(t.drop_first(), c);
        assert(esc_str(u) == esc_char(u[0]) + esc_str(u.drop_first()));
        assert(esc_str(u.drop_first()) == esc_str(t.drop_first()) + esc_char(c));
        assert(esc_char(t[0]) + (esc_str(t.drop_first()) + esc_char(c)) =~= (esc_char(t[0])
            + esc_str(t.drop_first())) + esc_char(c));
        assert(esc_str(t) == esc_char(t[0]) + esc_str(t.drop_first()));
    }
}

/// Parsing the escaped form of `t` followed by a closing quote yields `t`.
pub proof fn lemma_parse_str_complete(s: Seq<char>, pos: int, t: Seq<char>)
    requires
        0 <= pos,
        pos + esc_str(t).len() + 1 <= s.len(),
        s.subrange(pos, pos + esc_str(t).len()) == esc_str(t),
        s[pos + esc_str(t).len()] == '"',
    ensures
        parse_str_body(s, pos) == Some((t, pos + esc_str(t).len() + 1)),
    decreases t.len(),
{
    let el = esc_str(t).len() as int;
    if t.len() == 0 {
        assert(s[pos] == '"');
    } else {
        let e0 = esc_char(t[0]);
        let rest = t.drop_first();
        assert(esc_str(t) == e0 + esc_str(rest));
        let w = e0.len() as int;
        assert(esc_str(rest).len() == el - w);
        assert(s.subrange(pos + w, pos + el) =~= esc_str(rest)) by {
            assert forall|j: int| 0 <= j < el - w implies s.subrange(pos + w, pos + el)[j]
                == esc_str(rest)[j] by {
                assert(s[pos + w + j] == esc_str(t)[w + j]);
                assert(esc_str(t)[w + j] == esc_str(rest)[j]);
            }
        }
        lemma_parse_str_complete(s, pos + w, rest);
        lemma_subrange_char(s, pos, pos + el, esc_str(t), 0);
        assert(esc_str(t)[0] == e0[0]);
        if t[0] == '"' {
            assert(s[pos] == '\\');
            lemma_subrange_char(s, pos, pos + el, esc_str(t), 1);
            assert(esc_str(t)[1] == e0[1]);
            assert(s[pos + 1] == '"');
            assert(parse_str_body(s, pos) == Some((seq![s[pos + 1]] + rest, pos + el + 1)));
            assert(seq![s[pos + 1]] + rest =~= t);
        } else if t[0] == '\\' {
            assert(s[pos] == '\\');
            lemma_subrange_char(s, pos, pos + el, esc_str(t), 1);
            assert(esc_str(t)[1] == e0[1]);
            assert(s[pos + 1] == '\\');
            assert(seq![s[pos + 1]] + rest =~= t);
        } else {
            assert(s[pos] == t[0]);
            assert(s[pos] != '"' && s[pos] != '\\');
            assert(seq![s[pos]] + rest =~= t);
        }
    }
}

/// Parsing the decimal text of `n` (with no digit following) yields `n`.
pub proof fn lemma_parse_int_complete(s: Seq<char>, pos: int, n: int)
    requires
        I64_MIN <= n <= I64_MAX,
        0 <= pos,
        pos + ser_int(n).len() <= s.len(),
        s.subrange(pos, pos + ser_int(n).len()) == ser_int(n),
        pos + ser_int(n).len() == s.len() || !is_digit(s[pos + ser_int(n).len()]),
    ensures
        parse_int(s, pos) == Some((n, pos + ser_int(n).len())),
{
    let L = ser_int(n).len() as int;
    let m = if n < 0 {
        (-n) as nat
    } else {
        n as nat
    };
    let d = dec_digits(m);
    lemma_dec_digits_form(m);
    assert(pow10(19) == 10000000000000000000) by {
        reveal_with_fuel(pow10, 20);
    }
    lemma_dec_digits_len_le(m, 19);
    let dp = if n < 0 {
        pos + 1
    } else {
        pos
    };
    let e = dp + d.len();
    assert(e == pos + L);
    assert forall|j: int| dp <= j < e implies is_digit(#[trigger] s[j]) by {
        lemma_subrange_char(s, pos, pos + L, ser_int(n), j - pos);
        if n < 0 {
            assert(ser_int(n)[j - pos] == d[j - pos - 1]);
        } else {
            assert(ser_int(n)[j - pos] == d[j - pos]);
        }
    }
    lemma_subrange_char(s, pos, pos + L, ser_int(n), dp - pos);
    assert(s[dp] == d[0]);
    if n < 0 {
        lemma_subrange_char(s, pos, pos + L, ser_int(n), 0);
        assert(s[pos] == '-');
    } else {
        assert(s[pos] == d[0]);
        assert(s[pos] != '-');
    }
    lemma_digit_run_end(s, dp, e);
    assert(digit_run_end(s, dp) == e);
    assert(e - dp == d.len());
    assert(d.len() <= 19);
    assert(s.subrange(dp, e) =~= d) by {
        assert forall|j: int| 0 <= j < d.len() implies s.subrange(dp, e)[j] == d[j] by {
            lemma_subrange_char(s, pos, pos + L, ser_int(n), dp + j - pos);
            if n < 0 {
                assert(ser_int(n)[dp + j - pos] == d[j]);
            } else {
                assert(ser_int(n)[j] == d[j]);
            }
        }
    }
    lemma_digits_val_of_dec(s, dp, e, m);
    if n < 0 {
        assert(m >= 1);
        assert(s[dp] != '0');
        assert(m <= 9223372036854775808);
        assert(parse_int(s, pos) == Some((-(m as int), e)));
    } else {
        if m == 0 {
            assert(d =~= seq!['0']);
            assert(d.len() == 1);
        } else {
            assert(s[dp] != '0');
        }
        assert(m <= I64_MAX);
        assert(parse_int(s, pos) == Some((m as int, e)));
    }
}

} // verus!

verus! {

/// Parsing the serialized text of a well-formed value yields that value.
pub proof fn lemma_parse_val_complete(s: Seq<char>, pos: int, v: ValModel)
    requires
        val_wf(v),
        0 <= pos,
        pos + ser_val(v).len() <= s.len(),
        s.subrange(pos, pos + ser_val(v).len() as int) == ser_val(v),
        pos + ser_val(v).len() == s.len() || !is_digit(s[pos + ser_val(v).len()]),
    ensures
        parse_val(s, pos) == Some((v, pos + ser_val(v).len() as int)),
    decreases ser_val(v).len(), 0int,
{
    let sv = ser_val(v);
    let L = sv.len() as int;
    lemma_subrange_char(s, pos, pos + L, sv, 0);
    match v {
        ValModel::Null => {
            lemma_subrange_char(s, pos, pos + L, sv, 1);
            lemma_subrange_char(s, pos, pos + L, sv, 2);
            lemma_subrange_char(s, pos, pos + L, sv, 3);
            assert(s[pos] == 'n' && s[pos + 1] == 'u' && s[pos + 2] == 'l' && s[pos + 3] == 'l');
        },
        ValModel::Bool(b) => {
            lemma_subrange_char(s, pos, pos + L, sv, 1);
            lemma_subrange_char(s, pos, pos + L, sv, 2);
            lemma_subrange_char(s, pos, pos + L, sv, 3);
            if !b {
                lemma_subrange_char(s, pos, pos + L, sv, 4);
            }
        },
        ValModel::Int(n) => {
            lemma_ser_val_first(v);
            assert(s[pos] == sv[0]);
            lemma_parse_int_complete(s, pos, n);
        },
        ValModel::Str(t) => {
            let el = esc_str(t).len() as int;
            assert(sv == seq!['"'] + esc_str(t) + seq!['"']);
            assert(s[pos] == '"');
            assert(s.subrange(pos + 1, pos + 1 + el) =~= esc_str(t)) by {
                assert forall|j: int| 0 <= j < el implies s.subrange(pos + 1, pos + 1 + el)[j]
                    == esc_str(t)[j] by {
                    lemma_subrange_char(s, pos, pos + L, sv, 1 + j);
                    assert(sv[1 + j] == esc_str(t)[j]);
                }
            }
            lemma_subrange_char(s, pos, pos + L, sv, L - 1);
            assert(sv[L - 1] == '"');
            lemma_parse_str_complete(s, pos + 1, t);
        },
        ValModel::Arr(elems) => {
            let inner = ser_elems(elems, 0);
            let il = inner.len() as int;
            assert(sv == seq!['['] + inner + seq![']']);
            assert(s[pos] == '[');
            lemma_subrange_char(s, pos, pos + L, sv, L - 1);
            assert(sv[L - 1] == ']');
            if elems.len() == 0 {
                assert(il == 0);
                assert(L == 2);
                lemma_subrange_char(s, pos, pos + L, sv, 1);
                assert(s[pos + 1] == ']');
                assert(elems =~= Seq::<ValModel>::empty());
            } else {
                lemma_ser_val_first(elems[0]);
                assert(inner[0] == ser_val(elems[0])[0]);
                lemma_subrange_char(s, pos, pos + L, sv, 1);
                assert(sv[1] == inner[0]);
                assert(s[pos + 1] != ']');
                assert(s.subrange(pos + 1, pos + 1 + il) =~= inner) by {
                    assert forall|j: int| 0 <= j < il implies s.subrange(pos + 1, pos + 1 + il)[j]
                        == inner[j] by {
                        lemma_subrange_char(s, pos, pos + L, sv, 1 + j);
                        assert(sv[1 + j] == inner[j]);
                    }
                }
                assert(s[pos + 1 + il] == ']');
                lemma_parse_elems_complete(s, pos + 1, elems, 0);
                assert(elems.subrange(0, elems.len() as int) =~= elems);
            }
        },
        ValModel::Obj(members) => {
            let inner = ser_members(members, 0);
            let il = inner.len() as int;
            assert(sv == seq!['{'] + inner + seq!['}']);
            assert(s[pos] == '{');
            lemma_subrange_char(s, pos, pos + L, sv, L - 1);
            assert(sv[L - 1] == '}');
            if members.len() == 0 {
                assert(il == 0);
                assert(L == 2);
                lemma_subrange_char(s, pos, pos + L, sv, 1);
                assert(s[pos + 1] == '}');
                assert(members =~= Seq::<MemberModel>::empty());
            } else {
                assert(ser_member(members[0]) == ser_str(members[0].key) + seq![':'] + ser_val(
                    members[0].val,
                ));
                assert(ser_member(members[0])[0] == '"');
                assert(inner[0] == ser_member(members[0])[0]);
                lemma_subrange_char(s, pos, pos + L, sv, 1);
                assert(sv[1] == inner[0]);
                assert(s[pos + 1] != '}');
                assert(s.subrange(pos + 1, pos + 1 + il) =~= inner) by {
                    assert forall|j: int| 0 <= j < il implies s.subrange(pos + 1, pos + 1 + il)[j]
                        == inner[j] by {
                        lemma_subrange_char(s, pos, pos + L, sv, 1 + j);
                        assert(sv[1 + j] == inner[j]);
                    }
                }
                assert(s[pos + 1 + il] == '}');
                lemma_parse_members_complete(s, pos + 1, members, 0);
                assert(members.subrange(0, members.len() as int) =~= members);
            }
        },
    }
}

/// Parsing serialized elements followed by a closing bracket yields them.
pub proof fn lemma_parse_elems_complete(s: Seq<char>, pos: int, elems: Seq<ValModel>, i: int)
    requires
        vals_wf(elems, i),
        0 <= i < elems.len(),
        0 <= pos,
        pos + ser_elems(elems, i).len() < s.len(),
        s.subrange(pos, pos + ser_elems(elems, i).len() as int) == ser_elems(elems, i),
        s[pos + ser_elems(elems, i).len()] == ']',
    ensures
        parse_elems(s, pos) == Some(
            (elems.subrange(i, elems.len() as int), pos + ser_elems(elems, i).len() + 1),
        ),
    decreases ser_elems(elems, i).len(), 1int,
{
    let E = ser_elems(elems, i);
    let L = E.len() as int;
    let v0 = elems[i];
    let lv = ser_val(v0).len() as int;
    lemma_ser_val_first(v0);
    assert(val_wf(v0));
    if i == elems.len() - 1 {
        assert(E == ser_val(v0));
        lemma_parse_val_complete(s, pos, v0);
        assert(parse_val(s, pos) == Some((v0, pos + lv)));
        assert(s[pos + lv] == ']');
        assert(parse_elems(s, pos) == Some((seq![v0], pos + lv + 1)));
        assert(seq![v0] =~= elems.subrange(i, elems.len() as int));
    } else {
        let rest = ser_elems(elems, i + 1);
        let rl = rest.len() as int;
        assert(E == ser_val(v0) + seq![','] + rest);
        assert(L == lv + 1 + rl);
        assert(s.subrange(pos, pos + lv) =~= ser_val(v0)) by {
            assert forall|j: int| 0 <= j < lv implies s.subrange(pos, pos + lv)[j] == ser_val(
                v0,
            )[j] by {
                lemma_subrange_char(s, pos, pos + L, E, j);
                assert(E[j] == ser_val(v0)[j]);
            }
        }
        lemma_subrange_char(s, pos, pos + L, E, lv);
        assert(E[lv] == ',');
        assert(s[pos + lv] == ',');
        lemma_parse_val_complete(s, pos, v0);
        assert(parse_val(s, pos) == Some((v0, pos + lv)));
        assert(s.subrange(pos + lv + 1, pos + lv + 1 + rl) =~= rest) by {
            assert forall|j: int| 0 <= j < rl implies s.subrange(pos + lv + 1, pos + lv + 1 + rl)[j]
                == rest[j] by {
                lemma_subrange_char(s, pos, pos + L, E, lv + 1 + j);
                assert(E[lv + 1 + j] == rest[j]);
            }
        }
        assert(s[pos + lv + 1 + rl] == ']');
        lemma_parse_elems_complete(s, pos + lv + 1, elems, i + 1);
        assert(parse_elems(s, pos + lv + 1) == Some(
            (elems.subrange(i + 1, elems.len() as int), pos + L + 1),
        ));
        assert(parse_elems(s, pos) == Some(
            (seq![v0] + elems.subrange(i + 1, elems.len() as int), pos + L + 1),
        ));
        assert(seq![v0] + elems.subrange(i + 1, elems.len() as int) =~= elems.subrange(
            i,
            elems.len() as int,
        ));
    }
}

/// Parsing serialized members followed by a closing brace yields them.
pub proof fn lemma_parse_members_complete(s: Seq<char>, pos: int, members: Seq<MemberModel>, i: int)
    requires
        members_wf(members, i),
        0 <= i < members.len(),
        0 <= pos,
        pos + ser_members(members, i).len() < s.len(),
        s.subrange(pos, pos + ser_members(members, i).len() as int) == ser_members(members, i),
        s[pos + ser_members(members, i).len()] == '}',
    ensures
        parse_members(s, pos) == Some(
            (members.subrange(i, members.len() as int), pos + ser_members(members, i).len() + 1),
        ),
    decreases ser_members(members, i).len(), 1int,
{
    let E = ser_members(members, i);
    let L = E.len() as int;
    let m0 = members[i];
    let sm = ser_member(m0);
    let lm = sm.len() as int;
    let key = m0.key;
    let kl = ser_str(key).len() as int;
    let lv = ser_val(m0.val).len() as int;
    assert(member_wf(m0)) by {
        reveal_with_fuel(members_wf, 2);
    }
    assert(val_wf(m0.val)) by {
        reveal_with_fuel(member_wf, 2);
    }
    assert(sm == ser_str(key) + seq![':'] + ser_val(m0.val));
    assert(lm == kl + 1 + lv);
    assert(ser_str(key) == seq!['"'] + esc_str(key) + seq!['"']);
    let el = esc_str(key).len() as int;
    assert(kl == el + 2);
    // The member text is a prefix of E in both branches of ser_members.
    assert(forall|j: int| 0 <= j < lm ==> E[j] == sm[j]);
    // Key: opening quote, escaped body, closing quote.
    lemma_subrange_char(s, pos, pos + L, E, 0);
    assert(sm[0] == '"');
    assert(s[pos] == '"');
    assert(s.subrange(pos + 1, pos + 1 + el) =~= esc_str(key)) by {
        assert forall|j: int| 0 <= j < el implies s.subrange(pos + 1, pos + 1 + el)[j] == esc_str(
            key,
        )[j] by {
            lemma_subrange_char(s, pos, pos + L, E, 1 + j);
            assert(sm[1 + j] == ser_str(key)[1 + j]);
            assert(ser_str(key)[1 + j] == esc_str(key)[j]);
        }
    }
    lemma_subrange_char(s, pos, pos + L, E, kl - 1);
    assert(sm[kl - 1] == ser_str(key)[kl - 1]);
    assert(ser_str(key)[kl - 1] == '"');
    assert(s[pos + 1 + el] == '"');
    lemma_parse_str_complete(s, pos + 1, key);
    assert(parse_str_body(s, pos + 1) == Some((key, pos + kl)));
    // Colon.
    lemma_subrange_char(s, pos, pos + L, E, kl);
    assert(sm[kl] == ':');
    assert(s[pos + kl] == ':');
    // Value.
    assert(s.subrange(pos + kl + 1, pos + kl + 1 + lv) =~= ser_val(m0.val)) by {
        assert forall|j: int| 0 <= j < lv implies s.subrange(pos + kl + 1, pos + kl + 1 + lv)[j]
            == ser_val(m0.val)[j] by {
            lemma_subrange_char(s, pos, pos + L, E, kl + 1 + j);
            assert(sm[kl + 1 + j] == ser_val(m0.val)[j]);
        }
    }
    if i == members.len() - 1 {
        assert(E == sm);
        assert(s[pos + lm] == '}');
        lemma_parse_val_complete(s, pos + kl + 1, m0.val);
        assert(parse_val(s, pos + kl + 1) == Some((m0.val, pos + lm)));
        assert(parse_members(s, pos) == Some(
            (seq![MemberModel { key, val: m0.val }], pos + lm + 1),
        ));
        assert(MemberModel { key, val: m0.val } == m0);
        assert(seq![m0] =~= members.subrange(i, members.len() as int));
    } else {
        let rest = ser_members(members, i + 1);
        let rl = rest.len() as int;
        assert(E == sm + seq![','] + rest);
        assert(L == lm + 1 + rl);
        lemma_subrange_char(s, pos, pos + L, E, lm);
        assert(E[lm] == ',');
        assert(s[pos + lm] == ',');
        lemma_parse_val_complete(s, pos + kl + 1, m0.val);
        assert(parse_val(s, pos + kl + 1) == Some((m0.val, pos + lm)));
        assert(s.subrange(pos + lm + 1, pos + lm + 1 + rl) =~= rest) by {
            assert forall|j: int| 0 <= j < rl implies s.subrange(pos + lm + 1, pos + lm + 1 + rl)[j]
                == rest[j] by {
                lemma_subrange_char(s, pos, pos + L, E, lm + 1 + j);
                assert(E[lm + 1 + j] == rest[j]);
            }
        }
        assert(s[pos + lm + 1 + rl] == '}');
        lemma_parse_members_complete(s, pos + lm + 1, members, i + 1);
        assert(parse_members(s, pos) == Some(
            (seq![MemberModel { key, val: m0.val }] + members.subrange(i + 1, members.len() as int),
                pos + L + 1),
        ));
        assert(MemberModel { key, val: m0.val } == m0);
        assert(seq![m0] + members.subrange(i + 1, members.len() as int) =~= members.subrange(
            i,
            members.len() as int,
        ));
    }
}

/// Round trip: parsing the full serialized text of a well-formed value
/// yields exactly that value.
pub proof fn lemma_parse_text_complete(v: ValModel)
    requires
        val_wf(v),
    ensures
        parse_text(ser_val(v)) == Some(v),
{
    let s = ser_val(v);
    assert(s.subrange(0, s.len() as int) =~= s);
    lemma_parse_val_complete(s, 0, v);
}

} // verus!

verus! {

use crate::digits::digit_char;
use crate::digits::lemma_digits_val_bound;
use crate::digits::lemma_pow10_mono;
use crate::trusted::chars_to_string;
use crate::trusted::string_to_chars;
use crate::value::lemma_arr_seq_model;
use crate::value::lemma_obj_members_model;
use crate::value::members_model;
use crate::value::seq_model;
use crate::value::JsonVal;

/// The character of one decimal digit.
fn digit_to_char(d: u8) -> (c: char)
    requires
        d < 10,
    ensures
        c == digit_char(d as int),
{
    if d == 0 {
        '0'
    } else if d == 1 {
        '1'
    } else if d == 2 {
        '2'
    } else if d == 3 {
        '3'
    } else if d == 4 {
        '4'
    } else if d == 5 {
        '5'
    } else if d == 6 {
        '6'
    } else if d == 7 {
        '7'
    } else if d == 8 {
        '8'
    } else {
        '9'
    }
}

/// Whether a character is a decimal digit.
fn is_digit_x(c: char) -> (r: bool)
    ensures
        r == is_digit(c),
{
    c == '0' || c == '1' || c == '2' || c == '3' || c == '4' || c == '5' || c == '6' || c == '7'
        || c == '8' || c == '9'
}

/// The value of a digit character.
fn digit_val_x(c: char) -> (d: u8)
    requires
        is_digit(c),
    ensures
        d as int == digit_val(c),
        d < 10,
{
    if c == '0' {
        0
    } else if c == '1' {
        1
    } else if c == '2' {
        2
    } else if c == '3' {
        3
    } else if c == '4' {
        4
    } else if c == '5' {
        5
    } else if c == '6' {
        6
    } else if c == '7' {
        7
    } else if c == '8' {
        8
    } else {
        9
    }
}

/// Appends the decimal digits of a magnitude.
fn write_mag(m: u64, out: &mut Vec<char>)
    ensures
        final(out)@ == old(out)@ + dec_digits(m as nat),
    decreases m,
{
    if m < 10 {
        out.push(digit_to_char(m as u8));
        assert(out@ =~= old(out)@ + dec_digits(m as nat));
    } else {
        write_mag(m / 10, out);
        out.push(digit_to_char((m % 10) as u8));
        assert(out@ =~= old(out)@ + dec_digits(m as nat));
    }
}

/// Appends the decimal text of an integer.
fn write_int(n: i64, out: &mut Vec<char>)
    ensures
        final(out)@ == old(out)@ + ser_int(n as int),
{
    if n >= 0 {
        write_mag(n as u64, out);
    } else {
        out.push('-');
        let m128: i128 = -(n as i128);
        let m: u64 = m128 as u64;
        assert(m as nat == (-(n as int)) as nat);
        write_mag(m, out);
        assert(out@ =~= old(out)@ + ser_int(n as int));
    }
}

/// Appends a quoted, escaped string.
#[verifier::loop_isolation(false)]
fn write_str_body(t: &String, out: &mut Vec<char>)
    ensures
        final(out)@ == old(out)@ + ser_str(t@),
{
    out.push('"');
    let cs = string_to_chars(t.as_str());
    let ghost base = out@;
    let mut i: usize = 0;
    while i < cs.len()
        invariant
            0 <= i <= cs@.len(),
            cs@ == t@,
            out@ == base + esc_str(t@.subrange(0, i as int)),
        decreases cs@.len() - i,
    {
        let c = cs[i];
        proof {
            assert(t@.subrange(0, i as int + 1) =~= t@.subrange(0, i as int).push(t@[i as int]));
            lemma_esc_str_snoc(t@.subrange(0, i as int), t@[i as int]);
        }
        if c == '"' {
            out.push('\\');
            out.push('"');
        } else if c == '\\' {
            out.push('\\');
            out.push('\\');
        } else {
            out.push(c);
        }
        proof {
            assert(out@ =~= base + esc_str(t@.subrange(0, i as int)) + esc_char(t@[i as int]));
        }
        i += 1;
    }
    proof {
        assert(t@.subrange(0, t@.len() as int) =~= t@);
    }
    out.push('"');
    proof {
        assert(out@ =~= old(out)@ + ser_str(t@));
    }
}

/// Appends the serialized text of a value.
fn write_val(v: &JsonVal, out: &mut Vec<char>)
    ensures
        final(out)@ == old(out)@ + ser_val(v@),
    decreases v, 0int,
{
    match v {
        JsonVal::Null => {
            out.push('n');
            out.push('u');
            out.push('l');
            out.push('l');
            proof {
                assert(out@ =~= old(out)@ + ser_val(v@));
            }
        },
        JsonVal::Bool(b) => {
            if *b {
                out.push('t');
                out.push('r');
                out.push('u');
                out.push('e');
            } else {
                out.push('f');
                out.push('a');
                out.push('l');
                out.push('s');
                out.push('e');
            }
            proof {
                assert(out@ =~= old(out)@ + ser_val(v@));
            }
        },
        JsonVal::Int(n) => {
            write_int(*n, out);
        },
        JsonVal::Str(s) => {
            write_str_body(s, out);
        },
        JsonVal::Arr(elems) => {
            proof {
                lemma_arr_seq_model(v);
            }
            out.push('[');
            if elems.len() > 0 {
                write_elems(elems, 0, out);
            }
            out.push(']');
            proof {
                assert(out@ =~= old(out)@ + ser_val(v@));
            }
        },
        JsonVal::Obj(members) => {
            proof {
                lemma_obj_members_model(v);
            }
            out.push('{');
            if members.len() > 0 {
                write_members(members, 0, out);
            }
            out.push('}');
            proof {
                assert(out@ =~= old(out)@ + ser_val(v@));
            }
        },
    }
}

/// Appends the serialized elements of an array from index `i` on.
fn write_elems(elems: &Vec<JsonVal>, i: usize, out: &mut Vec<char>)
    requires
        i < elems@.len(),
    ensures
        final(out)@ == old(out)@ + ser_elems(seq_model(elems@), i as int),
    decreases elems, elems@.len() - i,
{
    let n = elems.len();
    write_val(&elems[i], out);
    proof {
        assert(seq_model(elems@)[i as int] == elems@[i as int]@);
    }
    if i < n - 1 {
        out.push(',');
        write_elems(elems, i + 1, out);
        proof {
            assert(out@ =~= old(out)@ + ser_elems(seq_model(elems@), i as int));
        }
    } else {
        proof {
            assert(i as int == seq_model(elems@).len() - 1);
            assert(out@ =~= old(out)@ + ser_elems(seq_model(elems@), i as int));
        }
    }
}

/// Appends the serialized members of an object from index `i` on.
fn write_members(members: &Vec<(String, JsonVal)>, i: usize, out: &mut Vec<char>)
    requires
        i < members@.len(),
    ensures
        final(out)@ == old(out)@ + ser_members(members_model(members@), i as int),
    decreases members, members@.len() - i,
{
    let n = members.len();
    write_str_body(&members[i].0, out);
    out.push(':');
    write_val(&members[i].1, out);
    proof {
        assert(members_model(members@)[i as int] == (MemberModel {
            key: members@[i as int].0@,
            val: members@[i as int].1@,
        }));
        assert(out@ =~= old(out)@ + ser_member(members_model(members@)[i as int]));
    }
    if i < n - 1 {
        out.push(',');
        write_members(members, i + 1, out);
        proof {
            assert(out@ =~= old(out)@ + ser_members(members_model(members@), i as int));
        }
    } else {
        proof {
            assert(i as int == members_model(members@).len() - 1);
            assert(out@ =~= old(out)@ + ser_members(members_model(members@), i as int));
        }
    }
}

/// The serialized text of a value, as a string.
pub fn to_text(v: &JsonVal) -> (r: String)
    ensures
        r@ == ser_val(v@),
{
    let mut out: Vec<char> = Vec::new();
    write_val(v, &mut out);
    chars_to_string(&out)
}

} // verus!

verus! {

/// Whether an executable string-parse result matches the specification's.
pub open spec fn str_res_matches(r: Option<(Vec<char>, usize)>, m: Option<(Seq<char>, int)>) -> bool {
    match r {
        None => m is None,
        Some((t, e)) => m == Some((t@, e as int)),
    }
}

/// Whether an executable value-parse result matches the specification's.
pub open spec fn val_res_matches(r: Option<(JsonVal, usize)>, m: Option<(ValModel, int)>) -> bool {
    match r {
        None => m is None,
        Some((v, e)) => m == Some((v@, e as int)),
    }
}

/// Whether an executable element-list result matches the specification's.
pub open spec fn elems_res_matches(
    r: Option<(Vec<JsonVal>, usize)>,
    m: Option<(Seq<ValModel>, int)>,
) -> bool {
    match r {
        None => m is None,
        Some((es, e)) => m == Some((seq_model(es@), e as int)),
    }
}

/// Whether an executable member-list result matches the specification's.
pub open spec fn members_res_matches(
    r: Option<(Vec<(String, JsonVal)>, usize)>,
    m: Option<(Seq<MemberModel>, int)>,
) -> bool {
    match r {
        None => m is None,
        Some((ms, e)) => m == Some((members_model(ms@), e as int)),
    }
}

/// Parses a quoted string body, starting after the opening quote.
fn parse_str_at(s: &Vec<char>, pos: usize) -> (r: Option<(Vec<char>, usize)>)
    ensures
        str_res_matches(r, parse_str_body(s@, pos as int)),
    decreases s@.len() - pos,
{
    if pos >= s.len() {
        None
    } else {
        let c = s[pos];
        if c == '"' {
            Some((Vec::new(), pos + 1))
        } else if c == '\\' {
            if s.len() - pos >= 2 && (s[pos + 1] == '"' || s[pos + 1] == '\\') {
                let esc = s[pos + 1];
                match parse_str_at(s, pos + 2) {
                    Some((t, e)) => {
                        let mut t2 = t;
                        t2.insert(0, esc);
                        proof {
                            assert(t2@ =~= seq![s@[pos as int + 1]] + (parse_str_body(
                                s@,
                                pos as int + 2,
                            )->0).0);
                        }
                        Some((t2, e))
                    },
                    None => None,
                }
            } else {
                None
            }
        } else {
            match parse_str_at(s, pos + 1) {
                Some((t, e)) => {
                    let mut t2 = t;
                    t2.insert(0, c);
                    proof {
                        assert(t2@ =~= seq![s@[pos as int]] + (parse_str_body(
                            s@,
                            pos as int + 1,
                        )->0).0);
                    }
                    Some((t2, e))
                },
                None => None,
            }
        }
    }
}

/// Parses an integer at `pos`.
#[verifier::loop_isolation(false)]
fn parse_int_at(s: &Vec<char>, pos: usize) -> (r: Option<(i64, usize)>)
    requires
        pos < s@.len(),
    ensures
        (match r {
            None => parse_int(s@, pos as int) is None,
            Some((n, e)) => parse_int(s@, pos as int) == Some((n as int, e as int)),
        }),
{
    let len = s.len();
    let neg = s[pos] == '-';
    let dp = if neg {
        pos + 1
    } else {
        pos
    };
    if dp >= len || !is_digit_x(s[dp]) {
        return None;
    }
    // Find the end of the digit run.
    let mut j = dp;
    while j < s.len() && is_digit_x(s[j])
        invariant
            dp <= j <= s@.len(),
            forall|q: int| dp <= q < j ==> is_digit(#[trigger] s@[q]),
            digit_run_end(s@, dp as int) == digit_run_end(s@, j as int),
        decreases s@.len() - j,
    {
        j += 1;
    }
    let ghost e = digit_run_end(s@, dp as int);
    proof {
        assert(e == j as int);
    }
    let k = j - dp;
    if k > 19 {
        return None;
    }
    if s[dp] == '0' && (k > 1 || neg) {
        return None;
    }
    // Accumulate the digit run's value.
    let mut acc: u64 = 0;
    let mut p = dp;
    proof {
        assert(pow10(19) == 10000000000000000000) by {
            reveal_with_fuel(pow10, 20);
        }
    }
    while p < j
        invariant
            dp <= p <= j,
            acc as nat == digits_val(s@, dp as int, p as int),
        decreases j - p,
    {
        proof {
            lemma_digits_val_bound(s@, dp as int, p as int);
            lemma_pow10_mono((p - dp) as nat, 18);
            assert(pow10(18) == 1000000000000000000) by {
                reveal_with_fuel(pow10, 19);
            }
        }
        let d = digit_val_x(s[p]);
        acc = acc * 10 + (d as u64);
        p += 1;
    }
    proof {
        assert(acc as nat == digits_val(s@, dp as int, e));
    }
    if neg {
        if acc <= 9223372036854775808u64 {
            let n: i64 = if acc == 9223372036854775808u64 {
                I64_MIN
            } else {
                -(acc as i64)
            };
            Some((n, j))
        } else {
            None
        }
    } else {
        if acc <= 9223372036854775807u64 {
            Some((acc as i64, j))
        } else {
            None
        }
    }
}

/// Parses one value at `pos`.
fn parse_val_at(s: &Vec<char>, pos: usize) -> (r: Option<(JsonVal, usize)>)
    ensures
        val_res_matches(r, parse_val(s@, pos as int)),
    decreases s@.len() - pos, 0int,
{
    if pos >= s.len() {
        return None;
    }
    let c = s[pos];
    if c == 'n' {
        if s.len() - pos >= 4 && s[pos + 1] == 'u' && s[pos + 2] == 'l' && s[pos + 3] == 'l' {
            Some((JsonVal::Null, pos + 4))
        } else {
            None
        }
    } else if c == 't' {
        if s.len() - pos >= 4 && s[pos + 1] == 'r' && s[pos + 2] == 'u' && s[pos + 3] == 'e' {
            Some((JsonVal::Bool(true), pos + 4))
        } else {
            None
        }
    } else if c == 'f' {
        if s.len() - pos >= 5 && s[pos + 1] == 'a' && s[pos + 2] == 'l' && s[pos + 3] == 's' && s[
            pos + 4] == 'e' {
            Some((JsonVal::Bool(false), pos + 5))
        } else {
            None
        }
    } else if c == '"' {
        match parse_str_at(s, pos + 1) {
            Some((t, e)) => {
                let text = chars_to_string(&t);
                Some((JsonVal::Str(text), e))
            },
            None => None,
        }
    } else if c == '[' {
        if s.len() - pos >= 2 && s[pos + 1] == ']' {
            let r = Some((JsonVal::Arr(Vec::new()), pos + 2));
            proof {
                let jv = (r->0).0;
                lemma_arr_seq_model(&jv);
                assert(jv@->Arr_0 =~= Seq::<ValModel>::empty());
            }
            r
        } else {
            match parse_elems_at(s, pos + 1) {
                Some((es, e)) => {
                    let r = Some((JsonVal::Arr(es), e));
                    proof {
                        let jv = (r->0).0;
                        lemma_arr_seq_model(&jv);
                    }
                    r
                },
                None => None,
            }
        }
    } else if c == '{' {
        if s.len() - pos >= 2 && s[pos + 1] == '}' {
            let r = Some((JsonVal::Obj(Vec::new()), pos + 2));
            proof {
                let jv = (r->0).0;
                lemma_obj_members_model(&jv);
                assert(jv@->Obj_0 =~= Seq::<MemberModel>::empty());
            }
            r
        } else {
            match parse_members_at(s, pos + 1) {
                Some((ms, e)) => {
                    let r = Some((JsonVal::Obj(ms), e));
                    proof {
                        let jv = (r->0).0;
                        lemma_obj_members_model(&jv);
                    }
                    r
                },
                None => None,
            }
        }
    } else if c == '-' || is_digit_x(c) {
        match parse_int_at(s, pos) {
            Some((n, e)) => Some((JsonVal::Int(n), e)),
            None => None,
        }
    } else {
        None
    }
}

/// Parses comma-separated elements, then the closing bracket.
fn parse_elems_at(s: &Vec<char>, pos: usize) -> (r: Option<(Vec<JsonVal>, usize)>)
    ensures
        elems_res_matches(r, parse_elems(s@, pos as int)),
    decreases s@.len() - pos, 1int,
{
    if pos >= s.len() {
        return None;
    }
    match parse_val_at(s, pos) {
        None => None,
        Some((v, e)) => {
            if !(pos < e && e <= s.len()) {
                return None;
            }
            if e < s.len() && s[e] == ',' {
                match parse_elems_at(s, e + 1) {
                    Some((rest, e2)) => {
                        let ghost vm = v@;
                        let mut rest2 = rest;
                        let ghost before = rest2@;
                        rest2.insert(0, v);
                        proof {
                            assert(seq_model(rest2@) =~= seq![vm] + seq_model(before)) by {
                                assert(rest2@.len() == before.len() + 1);
                                assert(rest2@[0] == v);
                                assert forall|q: int| 0 <= q < rest2@.len() implies seq_model(
                                    rest2@,
                                )[q] == (seq![vm] + seq_model(before))[q] by {
                                    if q > 0 {
                                        assert(rest2@[q] == before[q - 1]);
                                    }
                                }
                            }
                        }
                        Some((rest2, e2))
                    },
                    None => None,
                }
            } else if e < s.len() && s[e] == ']' {
                let mut one: Vec<JsonVal> = Vec::new();
                one.push(v);
                proof {
                    assert(seq_model(one@) =~= seq![one@[0]@]);
                }
                Some((one, e + 1))
            } else {
                None
            }
        },
    }
}

} // verus!

verus! {

/// Parses comma-separated members, then the closing brace.
fn parse_members_at(s: &Vec<char>, pos: usize) -> (r: Option<(Vec<(String, JsonVal)>, usize)>)
    ensures
        members_res_matches(r, parse_members(s@, pos as int)),
    decreases s@.len() - pos, 1int,
{
    if pos >= s.len() || s[pos] != '"' {
        return None;
    }
    match parse_str_at(s, pos + 1) {
        None => None,
        Some((kv, ke)) => {
            let key = chars_to_string(&kv);
            if !(pos < ke && ke < s.len()) {
                return None;
            }
            if s[ke] != ':' {
                return None;
            }
            match parse_val_at(s, ke + 1) {
                None => None,
                Some((v, e)) => {
                    if !(ke + 1 <= e && e <= s.len()) {
                        return None;
                    }
                    if e < s.len() && s[e] == ',' {
                        match parse_members_at(s, e + 1) {
                            Some((rest, e2)) => {
                                let ghost km = key@;
                                let ghost vm = v@;
                                let mut rest2 = rest;
                                let ghost before = rest2@;
                                rest2.insert(0, (key, v));
                                proof {
                                    assert(members_model(rest2@) =~= seq![
                                        MemberModel { key: km, val: vm },
                                    ] + members_model(before)) by {
                                        assert(rest2@.len() == before.len() + 1);
                                        assert forall|q: int|
                                            0 <= q < rest2@.len() implies members_model(rest2@)[q]
                                            == (seq![MemberModel { key: km, val: vm }]
                                            + members_model(before))[q] by {
                                            if q > 0 {
                                                assert(rest2@[q] == before[q - 1]);
                                            }
                                        }
                                    }
                                }
                                Some((rest2, e2))
                            },
                            None => None,
                        }
                    } else if e < s.len() && s[e] == '}' {
                        let ghost km = key@;
                        let ghost vm = v@;
                        let mut one: Vec<(String, JsonVal)> = Vec::new();
                        one.push((key, v));
                        proof {
                            assert(members_model(one@) =~= seq![MemberModel { key: km, val: vm }]);
                        }
                        Some((one, e + 1))
                    } else {
                        None
                    }
                },
            }
        },
    }
}

/// Parses a complete text: one value covering the whole input.
pub fn from_text(s: &str) -> (r: Option<JsonVal>)
    ensures
        (r is Some) == (parse_text(s@) is Some),
        r is Some ==> parse_text(s@) == Some(r->0@),
{
    let cs = string_to_chars(s);
    match parse_val_at(&cs, 0) {
        Some((v, e)) => {
            if e == cs.len() {
                Some(v)
            } else {
                None
            }
        },
        None => None,
    }
}

} // verus!
