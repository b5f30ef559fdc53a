//! Decimal text for 64-bit integers: the serializer's digit form, the
//! parser's value of a digit run, and the proofs that they invert.

use vstd::prelude::*;

verus! {

/// The ten digit characters, by value.
pub open spec fn digit_char(d: int) -> char {
    if d == 0 {
        '0'
    } else if d == 1 {
        '1'
    } else if d == 2 {
        '2'
    } else if d == 3 {
        '3'
    } else if d == 4 {
        '4'
    } else if d == 5 {
        '5'
    } else if d == 6 {
        '6'
    } else if d == 7 {
        '7'
    } else if d == 8 {
        '8'
    } else {
        '9'
    }
}

/// Whether a character is a decimal digit.
pub open spec fn is_digit(c: char) -> bool {
    c == '0' || c == '1' || c == '2' || c == '3' || c == '4' || c == '5' || c == '6' || c == '7'
        || c == '8' || c == '9'
}

/// The value of a digit character.
pub open spec fn digit_val(c: char) -> int {
    if c == '0' {
        0
    } else if c == '1' {
        1
    } else if c == '2' {
        2
    } else if c == '3' {
        3
    } else if c == '4' {
        4
    } else if c == '5' {
        5
    } else if c == '6' {
        6
    } else if c == '7' {
        7
    } else if c == '8' {
        8
    } else {
        9
    }
}

/// The decimal digit string of a natural number, most significant first.
pub open spec fn dec_digits(n: nat) -> Seq<char>
    decreases n,
{
    if n < 10 {
        seq![digit_char(n as int)]
    } else {
        dec_digits(n / 10) + seq![digit_char((n % 10) as int)]
    }
}

/// The decimal text of an integer: a minus sign for negatives, then digits.
pub open spec fn ser_int(n: int) -> Seq<char> {
    if n < 0 {
        seq!['-'] + dec_digits((-n) as nat)
    } else {
        dec_digits(n as nat)
    }
}

/// Powers of ten.
pub open spec fn pow10(k: nat) -> nat
    decreases k,
{
    if k == 0 {
        1nat
    } else {
        10 * pow10((k - 1) as nat)
    }
}

/// Every digit string is non-empty, consists of digits, starts with a
/// non-zero digit unless the number is zero, and round-trips each digit.
pub proof fn lemma_dec_digits_form(n: nat)
    ensures
        dec_digits(n).len() >= 1,
        forall|i: int| 0 <= i < dec_digits(n).len() ==> is_digit(#[trigger] dec_digits(n)[i]),
        n >= 1 ==> dec_digits(n)[0] != '0',
        n == 0 ==> dec_digits(n) =~= seq!['0'],
        n < pow10(dec_digits(n).len() as nat),
    decreases n,
{
    if n < 10 {
        assert(pow10(1) == 10) by {
            reveal_with_fuel(pow10, 2);
        }
    } else {
        lemma_dec_digits_form(n / 10);
        let d = dec_digits(n);
        let p = dec_digits(n / 10);
        assert(d == p + seq![digit_char((n % 10) as int)]);
        assert(d.len() == p.len() + 1);
        assert(pow10(d.len() as nat) == 10 * pow10(p.len() as nat));
        assert(n / 10 < pow10(p.len() as nat));
        assert(n < pow10(d.len() as nat)) by {
            assert(n == 10 * (n / 10) + n % 10);
            assert(10 * (n / 10) <= 10 * (pow10(p.len() as nat) - 1)) by (nonlinear_arith)
                requires
                    n / 10 <= pow10(p.len() as nat) - 1,
            ;
        }
    }
}

/// A number below the `k`-th power of ten has at most `k` digits.
pub proof fn lemma_dec_digits_len_le(n: nat, k: nat)
    requires
        k >= 1,
        n < pow10(k),
    ensures
        dec_digits(n).len() <= k,
    decreases n,
{
    if n < 10 {
    } else {
        assert(pow10(k) == 10 * pow10((k - 1) as nat));
        assert(n / 10 < pow10((k - 1) as nat)) by (nonlinear_arith)
            requires
                n < 10 * pow10((k - 1) as nat),
        ;
        assert(k - 1 >= 1) by {
            if k == 1 {
                assert(pow10(1) == 10) by {
                    reveal_with_fuel(pow10, 2);
                }
                assert(n < 10);
            }
        }
        lemma_dec_digits_len_le(n / 10, (k - 1) as nat);
    }
}

/// Powers of ten grow with the exponent.
pub proof fn lemma_pow10_mono(a: nat, b: nat)
    requires
        a <= b,
    ensures
        pow10(a) <= pow10(b),
    decreases b,
{
    if a < b {
        lemma_pow10_mono(a, (b - 1) as nat);
        assert(pow10(b) == 10 * pow10((b - 1) as nat));
    }
}

/// The value of the digit run `s[i..e]`, read as a decimal number.
pub open spec fn digits_val(s: Seq<char>, i: int, e: int) -> nat
    decreases e - i,
{
    if e <= i {
        0
    } else {
        digits_val(s, i, e - 1) * 10 + digit_val(s[e - 1]) as nat
    }
}

/// The first position at or after `i` that does not hold a digit.
pub open spec fn digit_run_end(s: Seq<char>, i: int) -> int
    decreases s.len() - i,
{
    if i < 0 || i >= s.len() || !is_digit(s[i]) {
        i
    } else {
        digit_run_end(s, i + 1)
    }
}

/// A digit run ends exactly where the digits stop.
pub proof fn lemma_digit_run_end(s: Seq<char>, i: int, e: int)
    requires
        0 <= i <= e <= s.len(),
        forall|j: int| i <= j < e ==> is_digit(#[trigger] s[j]),
        e == s.len() || !is_digit(s[e]),
    ensures
        digit_run_end(s, i) == e,
    decreases e - i,
{
    if i < e {
        lemma_digit_run_end(s, i + 1, e);
    }
}

/// Reading back the digit string of `m` yields `m`.
pub proof fn lemma_digits_val_of_dec(s: Seq<char>, i: int, e: int, m: nat)
    requires
        0 <= i <= e <= s.len(),
        s.subrange(i, e) == dec_digits(m),
    ensures
        digits_val(s, i, e) == m,
    decreases m,
{
    let d = dec_digits(m);
    assert(e - i == d.len());
    if m < 10 {
        assert(s[e - 1] == d[0]);
        assert(digit_val(digit_char(m as int)) == m);
        assert(digits_val(s, i, e) == digits_val(s, i, e - 1) * 10 + digit_val(s[e - 1]) as nat);
        assert(digits_val(s, i, e - 1) == 0);
    } else {
        let p = dec_digits(m / 10);
        assert(d == p + seq![digit_char((m % 10) as int)]);
        assert(s.subrange(i, e - 1) =~= p) by {
            assert forall|j: int| 0 <= j < e - 1 - i implies s.subrange(i, e - 1)[j] == p[j] by {
                assert(s.subrange(i, e)[j] == d[j]);
            }
        }
        lemma_digits_val_of_dec(s, i, e - 1, m / 10);
        assert(s[e - 1] == d[d.len() - 1]);
        assert(d[d.len() - 1] == digit_char((m % 10) as int));
        assert(digit_val(digit_char((m % 10) as int)) == (m % 10) as int);
        assert(digits_val(s, i, e) == (m / 10) * 10 + m % 10);
        assert((m / 10) * 10 + m % 10 == m);
    }
}

/// A digit run's value is bounded by the power of ten of its width.
pub proof fn lemma_digits_val_bound(s: Seq<char>, i: int, e: int)
    requires
        0 <= i <= e <= s.len(),
    ensures
        digits_val(s, i, e) < pow10((e - i) as nat),
    decreases e - i,
{
    if e <= i {
        assert(pow10(0) == 1) by {
            reveal_with_fuel(pow10, 1);
        }
    } else {
        lemma_digits_val_bound(s, i, e - 1);
        let v = digits_val(s, i, e - 1);
        let p = pow10((e - 1 - i) as nat);
        assert(digit_val(s[e - 1]) <= 9);
        assert(v * 10 + 9 < p * 10) by (nonlinear_arith)
            requires
                v < p,
        ;
        assert(pow10((e - i) as nat) == 10 * p);
    }
}

} // verus!
