//! Credential checking for the HTTP front end: parsing the Basic
//! authorization header and verifying a password against the configured
//! user table. The transport itself lives outside the library.

use vstd::prelude::*;
use vstd::utf8::decode_utf8;
use vstd::utf8::encode_utf8_decode_utf8;
use vstd::utf8::valid_utf8;
use crate::trusted::base64_decode;
use crate::trusted::base64_decode_of;
use crate::trusted::bcrypt_accepts;
use crate::trusted::bytes_to_string;
use crate::trusted::chars_to_string;
use crate::trusted::string_to_chars;
use crate::trusted::verify_password;

verus! {

/// The configured users: each name bound to a bcrypt password hash. An
/// earlier entry wins when a name repeats.
pub struct AuthConfig {
    pub users: Vec<(String, String)>,
}

/// A caller whose credentials were accepted.
pub struct AuthenticatedUser {
    pub username: String,
}

/// The hash stored for a user name, searching from index `i`.
pub open spec fn lookup_from(users: Seq<(String, String)>, name: Seq<char>, i: int) -> Option<
    Seq<char>,
>
    decreases users.len() - i,
{
    if !(0 <= i < users.len()) {
        None
    } else if users[i].0@ == name {
        Some(users[i].1@)
    } else {
        lookup_from(users, name, i + 1)
    }
}

/// The scheme prefix of a Basic authorization header.
pub open spec fn basic_prefix() -> Seq<char> {
    seq!['B', 'a', 's', 'i', 'c', ' ']
}

/// The position of the first colon at or after `i`.
pub open spec fn first_colon(s: Seq<char>, i: int) -> int
    decreases s.len() - i,
{
    if i < 0 || i >= s.len() || s[i] == ':' {
        i
    } else {
        first_colon(s, i + 1)
    }
}

/// Splits credentials at the first colon: name before, password after.
pub open spec fn colon_split(s: Seq<char>) -> Option<(Seq<char>, Seq<char>)> {
    let i = first_colon(s, 0);
    if 0 <= i < s.len() {
        Some((s.subrange(0, i), s.subrange(i + 1, s.len() as int)))
    } else {
        None
    }
}

/// The user name and password carried by a Basic authorization header:
/// the scheme prefix, then base64 text decoding to UTF-8 `name:password`.
pub open spec fn basic_credentials_of(header: Seq<char>) -> Option<(Seq<char>, Seq<char>)> {
    if header.len() >= 6 && header.subrange(0, 6) == basic_prefix() {
        match base64_decode_of(header.skip(6)) {
            None => None,
            Some(bytes) => if valid_utf8(bytes) {
                colon_split(decode_utf8(bytes))
            } else {
                None
            },
        }
    } else {
        None
    }
}

/// Whether the configured table accepts the given name and password.
pub open spec fn credentials_accepted(
    users: Seq<(String, String)>,
    name: Seq<char>,
    password: Seq<char>,
) -> bool {
    match lookup_from(users, name, 0) {
        None => false,
        Some(hash) => bcrypt_accepts(password, hash),
    }
}

impl AuthConfig {
    /// Checks a user name and password against the table; yields the
    /// authenticated caller exactly when the name is configured and the
    /// password matches its hash.
    pub fn authenticate(&self, username: &str, password: &str) -> (r: Option<AuthenticatedUser>)
        ensures
            (r is Some) == credentials_accepted(self.users@, username@, password@),
            r is Some ==> r->0.username@ == username@,
    {
        let mut i: usize = 0;
        while i < self.users.len()
            invariant
                0 <= i <= self.users@.len(),
                lookup_from(self.users@, username@, 0) == lookup_from(
                    self.users@,
                    username@,
                    i as int,
                ),
            decreases self.users@.len() - i,
        {
            if crate::value::str_eq(self.users[i].0.as_str(), username) {
                if verify_password(password, self.users[i].1.as_str()) {
                    return Some(AuthenticatedUser { username: username.to_owned() });
                } else {
                    return None;
                }
            }
            i += 1;
        }
        None
    }

    /// Checks a whole Basic authorization header against the table.
    pub fn authenticate_basic(&self, header: &str) -> (r: Option<AuthenticatedUser>)
        ensures
            (r is Some) == (match basic_credentials_of(header@) {
                None => false,
                Some((name, password)) => credentials_accepted(self.users@, name, password),
            }),
            r is Some ==> basic_credentials_of(header@) is Some && r->0.username@ == (
            basic_credentials_of(header@)->0).0,
    {
        match basic_credentials(header) {
            None => None,
            Some((name, password)) => self.authenticate(name.as_str(), password.as_str()),
        }
    }
}

/// Extracts the user name and password from a Basic authorization header.
#[verifier::loop_isolation(false)]
pub fn basic_credentials(header: &str) -> (r: Option<(String, String)>)
    ensures
        (r is Some) == (basic_credentials_of(header@) is Some),
        r is Some ==> basic_credentials_of(header@) == Some(((r->0).0@, (r->0).1@)),
{
    let cs = string_to_chars(header);
    if cs.len() < 6 {
        return None;
    }
    if !(cs[0] == 'B' && cs[1] == 'a' && cs[2] == 's' && cs[3] == 'i' && cs[4] == 'c' && cs[5]
        == ' ') {
        proof {
            assert(header@.subrange(0, 6) != basic_prefix());
        }
        return None;
    }
    proof {
        assert(header@.subrange(0, 6) =~= basic_prefix());
    }
    let mut rest: Vec<char> = Vec::new();
    let mut i: usize = 6;
    while i < cs.len()
        invariant
            6 <= i <= cs@.len(),
            rest@ == cs@.subrange(6, i as int),
        decreases cs@.len() - i,
    {
        rest.push(cs[i]);
        proof {
            assert(rest@ =~= cs@.subrange(6, i as int + 1));
        }
        i += 1;
    }
    proof {
        assert(rest@ =~= header@.skip(6));
    }
    let rest_text = chars_to_string(&rest);
    let bytes = match base64_decode(rest_text.as_str()) {
        None => {
            return None;
        },
        Some(b) => b,
    };
    let decoded = match bytes_to_string(bytes) {
        None => {
            return None;
        },
        Some(s) => s,
    };
    proof {
        encode_utf8_decode_utf8(decoded@);
    }
    let dc = string_to_chars(decoded.as_str());
    // Find the first colon.
    let mut j: usize = 0;
    while j < dc.len() && dc[j] != ':'
        invariant
            0 <= j <= dc@.len(),
            first_colon(dc@, 0) == first_colon(dc@, j as int),
        decreases dc@.len() - j,
    {
        j += 1;
    }
    if j >= dc.len() {
        return None;
    }
    let mut name_chars: Vec<char> = Vec::new();
    let mut a: usize = 0;
    while a < j
        invariant
            0 <= a <= j,
            j < dc@.len(),
            name_chars@ == dc@.subrange(0, a as int),
        decreases j - a,
    {
        name_chars.push(dc[a]);
        proof {
            assert(name_chars@ =~= dc@.subrange(0, a as int + 1));
        }
        a += 1;
    }
    let mut pass_chars: Vec<char> = Vec::new();
    let mut b: usize = j + 1;
    while b < dc.len()
        invariant
            j + 1 <= b <= dc@.len(),
            j < dc@.len(),
            pass_chars@ == dc@.subrange(j as int + 1, b as int),
        decreases dc@.len() - b,
    {
        pass_chars.push(dc[b]);
        proof {
            assert(pass_chars@ =~= dc@.subrange(j as int + 1, b as int + 1));
        }
        b += 1;
    }
    let name = chars_to_string(&name_chars);
    let password = chars_to_string(&pass_chars);
    proof {
        assert(colon_split(dc@) == Some((name@, password@)));
    }
    Some((name, password))
}

} // verus!
