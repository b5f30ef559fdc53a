//! Trusted boundary: thin wrappers over outside crates and over the few
//! std conversions that vstd leaves unspecified. Each wrapper's contract
//! is believed, not proved; its body only makes the call and converts.

use vstd::prelude::*;

verus! {

/// Relies on str::chars and Iterator::collect: the characters of a
/// string slice, in order, as a vector.
#[verifier::external_body]
pub fn string_to_chars(s: &str) -> (r: Vec<char>)
    ensures
        r@ == s@,
{
    s.chars().collect()
}

/// Relies on Iterator::collect for String: the string holding exactly
/// the given characters, in order.
#[verifier::external_body]
pub fn chars_to_string(v: &Vec<char>) -> (r: String)
    ensures
        r@ == v@,
{
    v.iter().collect()
}

/// Relies on uuid::Uuid::new_v4 and its Display form: a fresh random
/// 128-bit identifier, written in the 36-character hyphenated form.
#[verifier::external_body]
pub fn fresh_id() -> (r: String)
    ensures
        r@.len() == 36,
{
    uuid::Uuid::new_v4().to_string()
}

/// Relies on chrono::Utc::now and DateTime::timestamp_millis: the current
/// wall-clock time as milliseconds since the Unix epoch. Nothing is
/// promised of the value: the clock may move arbitrarily between calls.
#[verifier::external_body]
pub fn now_millis() -> (r: i64)
{
    chrono::Utc::now().timestamp_millis()
}

/// What bcrypt::verify answers for a password and a stored hash: a
/// function of the two arguments alone.
pub uninterp spec fn bcrypt_accepts(password: Seq<char>, hash: Seq<char>) -> bool;

/// Relies on bcrypt::verify: whether the password matches the hash; a
/// malformed hash is treated as a mismatch.
#[verifier::external_body]
pub fn verify_password(password: &str, hash: &str) -> (r: bool)
    ensures
        r == bcrypt_accepts(password@, hash@),
{
    bcrypt::verify(password, hash).unwrap_or(false)
}

/// What base64::decode returns for a given text: a function of the text
/// alone; absence means the text is not valid standard base64.
pub uninterp spec fn base64_decode_of(text: Seq<char>) -> Option<Seq<u8>>;

/// Relies on base64::decode with the standard alphabet and padding.
#[verifier::external_body]
pub fn base64_decode(text: &str) -> (r: Option<Vec<u8>>)
    ensures
        (r is Some) == (base64_decode_of(text@) is Some),
        r is Some ==> base64_decode_of(text@) == Some(r->0@),
{
    base64::decode(text).ok()
}

/// Relies on String::from_utf8: yields the string whose UTF-8 encoding
/// is the given bytes, and succeeds exactly on valid UTF-8.
#[verifier::external_body]
pub fn bytes_to_string(b: Vec<u8>) -> (r: Option<String>)
    ensures
        (r is Some) == vstd::utf8::valid_utf8(b@),
        r is Some ==> vstd::utf8::encode_utf8(r->0@) == b@,
{
    String::from_utf8(b).ok()
}

} // verus!
