//! Basic authentication of requests.

use vstd::prelude::*;
use vstd::utf8::{valid_utf8, decode_utf8};
use crate::text::{chars_of, string_of};

verus! {

/// Result of decoding `input` with the standard base64 alphabet and padding
/// (`base64::engine::general_purpose::STANDARD`), `None` when it is refused.
pub uninterp spec fn base64_standard_decode(input: Seq<char>) -> Option<Seq<u8>>;

/// `base64::Engine::decode` with the `STANDARD` engine: named
/// `base64_standard_decode`.
#[verifier::external_body]
fn base64_decode(input: &str) -> (r: Option<Vec<u8>>)
    ensures
        r is None ==> base64_standard_decode(input@) is None,
        r matches Some(v) ==> base64_standard_decode(input@) == Some(v@),
{
    base64::Engine::decode(&base64::engine::general_purpose::STANDARD, input).ok()
}

/// `String::from_utf8`: documented to succeed exactly on valid UTF-8, the
/// string holding the decoded characters.
#[verifier::external_body]
fn string_from_utf8(bytes: Vec<u8>) -> (r: Option<String>)
    ensures
        r is Some <==> valid_utf8(bytes@),
        r matches Some(s) ==> s@ == decode_utf8(bytes@),
{
    String::from_utf8(bytes).ok()
}

/// The text before the first `:` and the text after it.
pub open spec fn split_colon(s: Seq<char>) -> Option<(Seq<char>, Seq<char>)> {
    if s.contains(':') {
        let p = crate::text::run_end(s, 0, crate::text::CharClass::NotColon);
        Some((s.subrange(0, p), s.subrange(p + 1, s.len() as int)))
    } else {
        None
    }
}

/// The text after `Basic ` in an `Authorization` header value, if it starts so.
pub open spec fn basic_payload(header: Seq<char>) -> Option<Seq<char>> {
    let prefix = "Basic "@;
    if header.len() >= prefix.len() && header.subrange(0, prefix.len() as int) == prefix {
        Some(header.subrange(prefix.len() as int, header.len() as int))
    } else {
        None
    }
}

/// The password of the first user named `user`.
pub open spec fn password_of(users: Seq<(String, String)>, user: Seq<char>) -> Option<Seq<char>>
    decreases users.len(),
{
    if users.len() == 0 {
        None
    } else if users[0].0@ == user {
        Some(users[0].1@)
    } else {
        password_of(users.drop_first(), user)
    }
}

/// Names that come once each.
pub open spec fn unique_names(users: Seq<(String, String)>) -> bool {
    forall|i: int, j: int| 0 <= i < j < users.len() ==> users[i].0@ != users[j].0@
}

/// With names that come once each, the password of a listed user is the one
/// listed with it; in any case the first entry of a name is the one used.
pub proof fn law_password_of_listed_user(users: Seq<(String, String)>, i: int)
    requires
        0 <= i < users.len(),
    ensures
        (forall|j: int| 0 <= j < i ==> users[j].0@ != users[i].0@) ==> password_of(
            users,
            users[i].0@,
        ) == Some(users[i].1@),
        unique_names(users) ==> password_of(users, users[i].0@) == Some(users[i].1@),
    decreases i,
{
    if i > 0 {
        let t = users.drop_first();
        assert(t[i - 1] == users[i]);
        if users[0].0@ != users[i].0@ {
            law_password_of_listed_user(t, i - 1);
            if forall|j: int| 0 <= j < i ==> users[j].0@ != users[i].0@ {
                assert forall|j: int| 0 <= j < i - 1 implies #[trigger] t[j].0@ != t[i - 1].0@ by {
                    assert(t[j] == users[j + 1]);
                }
            }
            if unique_names(users) {
                assert forall|a: int, b: int| 0 <= a < b < t.len() implies #[trigger] t[a].0@
                    != #[trigger] t[b].0@ by {
                    assert(t[a] == users[a + 1]);
                    assert(t[b] == users[b + 1]);
                }
            }
        } else {
            assert(!unique_names(users)) by {
                assert(users[0].0@ == users[i].0@);
            }
        }
    }
}

/// The user that the decoded credentials `bytes` (`user:password` in UTF-8)
/// authenticate as: the password must be the one set for that user.
pub open spec fn user_of_credentials(bytes: Option<Seq<u8>>, users: Seq<(String, String)>) -> Option<
    Seq<char>,
> {
    match bytes {
        None => None,
        Some(b) => if valid_utf8(b) {
            match split_colon(decode_utf8(b)) {
                Some((u, p)) => if password_of(users, u) == Some(p) {
                    Some(u)
                } else {
                    None
                },
                None => None,
            }
        } else {
            None
        },
    }
}

/// The user a request authenticates as, from its `Authorization` header.
pub open spec fn authenticated_user(header: Option<Seq<char>>, users: Seq<(String, String)>) -> Option<
    Seq<char>,
> {
    match header {
        None => None,
        Some(h) => match basic_payload(h) {
            Some(encoded) => user_of_credentials(base64_standard_decode(encoded), users),
            None => None,
        },
    }
}

fn find_password<'a>(users: &'a Vec<(String, String)>, user: &String) -> (r: Option<&'a String>)
    ensures
        r is None ==> password_of(users@, user@) is None,
        r matches Some(p) ==> password_of(users@, user@) == Some(p@),
{
    let mut k: usize = 0;
    assert(users@.skip(0) =~= users@);
    while k < users.len()
        invariant
            k <= users.len(),
            password_of(users@, user@) == password_of(users@.skip(k as int), user@),
        decreases users.len() - k,
    {
        assert(users@.skip(k as int)[0] == users@[k as int]);
        assert(users@.skip(k as int).drop_first() =~= users@.skip(k + 1));
        if users[k].0 == *user {
            return Some(&users[k].1);
        }
        k = k + 1;
    }
    None
}

/// The user that decoded credentials authenticate as: `bytes` is what the
/// base64 payload of the header decoded to (`None` when it did not decode),
/// `user:password` in UTF-8; the password must be the one set for that user.
pub fn authenticate_decoded(bytes: Option<Vec<u8>>, users: &Vec<(String, String)>) -> (r: Option<
    String,
>)
    ensures
        r matches Some(u) ==> user_of_credentials(
            match bytes {
                Some(b) => Some(b@),
                None => None,
            },
            users@,
        ) == Some(u@),
        r is None ==> user_of_credentials(
            match bytes {
                Some(b) => Some(b@),
                None => None,
            },
            users@,
        ) is None,
{
    let bytes = match bytes {
        None => {
            return None;
        },
        Some(b) => b,
    };
    let decoded = match string_from_utf8(bytes) {
        None => {
            return None;
        },
        Some(s) => s,
    };
    let dv = chars_of(decoded.as_str());
    let p = crate::text::find_run_end(&dv, 0, crate::text::CharClass::NotColon);
    proof {
        crate::text::lemma_run_end(dv@, 0, crate::text::CharClass::NotColon);
    }
    if p == dv.len() {
        assert(!dv@.contains(':'));
        return None;
    }
    let user = string_of(&dv, 0, p);
    let pass = string_of(&dv, p + 1, dv.len());
    match find_password(users, &user) {
        Some(expected) => {
            if *expected == pass {
                Some(user)
            } else {
                None
            }
        },
        None => None,
    }
}

/// The user a request authenticates as with basic authentication: the
/// header is `Basic ` and the base64 of `user:password` in UTF-8, and the
/// password is the one set for that user.
pub fn authenticate(auth_header: Option<&str>, users: &Vec<(String, String)>) -> (r: Option<String>)
    ensures
        r matches Some(u) ==> authenticated_user(
            match auth_header {
                Some(h) => Some(h@),
                None => None,
            },
            users@,
        ) == Some(u@),
        r is None ==> authenticated_user(
            match auth_header {
                Some(h) => Some(h@),
                None => None,
            },
            users@,
        ) is None,
{
    let header = match auth_header {
        None => {
            return None;
        },
        Some(h) => h,
    };
    let hv = chars_of(header);
    let prefix = chars_of("Basic ");
    proof {
        reveal_strlit("Basic ");
    }
    if hv.len() < prefix.len() || !crate::text::range_equals(&hv, 0, prefix.len(), &prefix) {
        return None;
    }
    let encoded = string_of(&hv, prefix.len(), hv.len());
    let bytes = base64_decode(encoded.as_str());
    authenticate_decoded(bytes, users)
}

} // verus!
