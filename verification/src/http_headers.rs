//! The outside items of the `http` crate (reached through `axum::http`) that
//! the header parser uses, with the contracts that their source shows.

use axum::http::header::{InvalidHeaderValue, MaxSizeReached};
use axum::http::{HeaderMap, HeaderName, HeaderValue};
use crate::text::ascii_lowercase;
use vstd::utf8::encode_utf8;
use vstd::prelude::*;

verus! {

#[verifier::external_type_specification]
#[verifier::external_body]
#[verifier::reject_recursive_types(T)]
pub struct ExHeaderMap<T>(HeaderMap<T>);

#[verifier::external_type_specification]
#[verifier::external_body]
pub struct ExHeaderName(HeaderName);

#[verifier::external_type_specification]
#[verifier::external_body]
pub struct ExHeaderValue(HeaderValue);

#[verifier::external_type_specification]
#[verifier::external_body]
pub struct ExInvalidHeaderValue(InvalidHeaderValue);

#[verifier::external_type_specification]
#[verifier::external_body]
pub struct ExMaxSizeReached(MaxSizeReached);

/// What a `HeaderMap` holds: its names in the order they were first
/// inserted, each with its values in the order they were appended; a value
/// is its bytes and whether it is marked sensitive.
pub uninterp spec fn header_map_contents(m: HeaderMap) -> Seq<(Seq<char>, Seq<(Seq<u8>, bool)>)>;

/// The position of `name` among the names of a map's model, if it is there.
pub open spec fn header_model_position(model: Seq<(Seq<char>, Seq<(Seq<u8>, bool)>)>, name: Seq<char>) -> Option<nat>
    decreases model.len(),
{
    if model.len() == 0 {
        None
    } else if model.last().0 == name {
        Some((model.len() - 1) as nat)
    } else {
        header_model_position(model.drop_last(), name)
    }
}

/// Where a name is found, it is there.
pub proof fn lemma_header_model_position(model: Seq<(Seq<char>, Seq<(Seq<u8>, bool)>)>, name: Seq<char>)
    ensures
        header_model_position(model, name) matches Some(i) ==> i < model.len() && model[i as int].0
            == name,
        header_model_position(model, name) is None ==> forall|i: int|
            0 <= i < model.len() ==> (#[trigger] model[i]).0 != name,
    decreases model.len(),
{
    if model.len() > 0 {
        lemma_header_model_position(model.drop_last(), name);
        if model.last().0 != name && header_model_position(model, name) is None {
            assert forall|i: int| 0 <= i < model.len() implies (#[trigger] model[i]).0 != name by {
                if i < model.len() - 1 {
                    assert(model.drop_last()[i] == model[i]);
                }
            }
        }
    }
}

/// The values a map's model holds under `name`, in order.
pub open spec fn header_model_values(model: Seq<(Seq<char>, Seq<(Seq<u8>, bool)>)>, name: Seq<char>) -> Seq<
    (Seq<u8>, bool),
> {
    match header_model_position(model, name) {
        Some(i) => model[i as int].1,
        None => seq![],
    }
}

proof fn lemma_header_model_same_names(
    a: Seq<(Seq<char>, Seq<(Seq<u8>, bool)>)>,
    b: Seq<(Seq<char>, Seq<(Seq<u8>, bool)>)>,
    name: Seq<char>,
)
    requires
        a.len() == b.len(),
        forall|i: int| 0 <= i < a.len() ==> (#[trigger] a[i]).0 == b[i].0,
    ensures
        header_model_position(a, name) == header_model_position(b, name),
    decreases a.len(),
{
    if a.len() > 0 {
        assert(a.last().0 == b.last().0);
        assert forall|i: int| 0 <= i < a.drop_last().len() implies (
        #[trigger] a.drop_last()[i]).0 == b.drop_last()[i].0 by {
            assert(a[i].0 == b[i].0);
        }
        lemma_header_model_same_names(a.drop_last(), b.drop_last(), name);
    }
}

/// Appending under `name` adds the value after the values of `name` and
/// leaves the values of every other name as they were.
pub proof fn lemma_header_model_append_values(
    model: Seq<(Seq<char>, Seq<(Seq<u8>, bool)>)>,
    name: Seq<char>,
    value: (Seq<u8>, bool),
    other: Seq<char>,
)
    ensures
        header_model_values(header_model_append(model, name, value), other) == if other == name {
            header_model_values(model, other).push(value)
        } else {
            header_model_values(model, other)
        },
{
    lemma_header_model_position(model, name);
    lemma_header_model_position(model, other);
    match header_model_position(model, name) {
        Some(i) => {
            let m2 = header_model_append(model, name, value);
            assert forall|j: int| 0 <= j < model.len() implies (#[trigger] model[j]).0 == m2[j].0 by {}
            lemma_header_model_same_names(model, m2, other);
        },
        None => {
            let m2 = model.push((name, seq![value]));
            assert(m2.drop_last() =~= model);
            if other == name {
                assert(header_model_values(model, other) =~= Seq::<(Seq<u8>, bool)>::empty());
                assert(seq![value] =~= Seq::<(Seq<u8>, bool)>::empty().push(value));
            }
        },
    }
}

/// A map's model after appending `value` under `name`: pushed after the
/// values of `name` if the map has the name, else stored under the name as
/// a new last name.
pub open spec fn header_model_append(
    model: Seq<(Seq<char>, Seq<(Seq<u8>, bool)>)>,
    name: Seq<char>,
    value: (Seq<u8>, bool),
) -> Seq<(Seq<char>, Seq<(Seq<u8>, bool)>)> {
    match header_model_position(model, name) {
        Some(i) => model.update(i as int, (name, model[i as int].1.push(value))),
        None => model.push((name, seq![value])),
    }
}

/// The number of distinct names below which `HeaderMap::try_append` cannot
/// fail: it fails only when its hash table would have to grow beyond
/// `MAX_SIZE` (2^15) slots, which takes at least 6554 distinct names.
pub open spec fn header_map_safe_len() -> nat {
    6553
}

/// A byte that `HeaderName::from_bytes` accepts (the table `HEADER_CHARS`):
/// ASCII letters and digits and ``!#$%&'*+-.^_`|~``.
pub open spec fn is_header_name_char(c: char) -> bool {
    ||| ('a' <= c && c <= 'z')
    ||| ('A' <= c && c <= 'Z')
    ||| ('0' <= c && c <= '9')
    ||| c == '!'
    ||| c == '#'
    ||| c == '$'
    ||| c == '%'
    ||| c == '&'
    ||| c == '\''
    ||| c == '*'
    ||| c == '+'
    ||| c == '-'
    ||| c == '.'
    ||| c == '^'
    ||| c == '_'
    ||| c == '`'
    ||| c == '|'
    ||| c == '~'
}

/// A name that `HeaderName::from_bytes` accepts: between 1 and
/// `MAX_HEADER_NAME_LEN` (2^16 - 1) bytes, each of them a token character.
/// Token characters are ASCII, so the length in bytes is the length in
/// characters, and a non-ASCII character makes the name invalid.
pub open spec fn is_valid_header_name(s: Seq<char>) -> bool {
    &&& 1 <= s.len() <= 65535
    &&& forall|i: int| 0 <= i < s.len() ==> is_header_name_char(#[trigger] s[i])
}

/// A character whose UTF-8 bytes `HeaderValue::from_str` accepts: every byte
/// `b` with `b >= 32 && b != 127 || b == b'\t'`. Characters above ASCII are
/// encoded as bytes of 128 or more, which are all accepted.
pub open spec fn is_header_value_char(c: char) -> bool {
    c == '\t' || (' ' <= c && c != '\u{7f}')
}

/// A string that `HeaderValue::from_str` accepts.
pub open spec fn is_valid_header_value(s: Seq<char>) -> bool {
    forall|i: int| 0 <= i < s.len() ==> is_header_value_char(#[trigger] s[i])
}

/// The text of `InvalidHeaderName`'s `Display`.
pub open spec fn invalid_header_name_text() -> Seq<char> {
    "invalid HTTP header name"@
}

/// Calls `HeaderName::from_bytes` on the UTF-8 bytes of `name`. Its source
/// (`parse_hdr` and the table `HEADER_CHARS`) accepts exactly the names of
/// `is_valid_header_name`; the error is given as its `Display` text, which
/// is always `invalid HTTP header name`.
#[verifier::external_body]
pub(crate) fn header_name_from_str(name: &str) -> (r: Result<HeaderName, String>)
    ensures
        r is Ok <==> is_valid_header_name(name@),
        r matches Err(t) ==> t@ == invalid_header_name_text(),
{
    HeaderName::from_bytes(name.as_bytes()).map_err(|e| e.to_string())
}

/// Calls `HeaderValue::from_str`, which accepts a string exactly when every
/// byte passes `is_valid` (`b >= 32 && b != 127 || b == b'\t'`); the value
/// it builds is not described here.
#[verifier::external_body]
pub(crate) fn header_value_from_str(value: &str) -> (r: Result<HeaderValue, InvalidHeaderValue>)
    ensures
        r is Ok <==> is_valid_header_value(value@),
{
    HeaderValue::from_str(value)
}

/// Calls `HeaderMap::new`, which builds a map that holds nothing.
#[verifier::external_body]
pub(crate) fn header_map_new() -> (m: HeaderMap)
    ensures
        header_map_contents(m) == Seq::<(Seq<char>, Seq<(Seq<u8>, bool)>)>::empty(),
{
    HeaderMap::new()
}

/// Calls `HeaderMap::try_append` with the header `name: value`, the value
/// marked sensitive or not by `HeaderValue::set_sensitive`. The arguments
/// are converted by `HeaderName::from_bytes`, which stores the name in
/// lower case, and `HeaderValue::from_str`, which copies the bytes of the
/// text; both accept them, as `requires` asks. On success the value is
/// appended after the values already under the name (`true` when the name
/// was there), or stored under the name as a new last name (`false`). The
/// call fails, changing nothing, only when the map already holds more than
/// `header_map_safe_len()` names.
#[verifier::external_body]
pub(crate) fn header_map_append(map: &mut HeaderMap, name: &str, value: &str, sensitive: bool) -> (r:
    Result<bool, MaxSizeReached>)
    requires
        is_valid_header_name(name@),
        is_valid_header_value(value@),
    ensures
        r matches Ok(existed) ==> header_map_contents(*final(map)) == header_model_append(
            header_map_contents(*old(map)),
            ascii_lowercase(name@),
            (encode_utf8(value@), sensitive),
        ) && existed == header_model_position(
            header_map_contents(*old(map)),
            ascii_lowercase(name@),
        ) is Some,
        r is Err ==> header_map_contents(*final(map)) == header_map_contents(*old(map)),
        r is Err ==> header_map_contents(*old(map)).len() > header_map_safe_len(),
{
    let name = HeaderName::from_bytes(name.as_bytes()).expect("a valid header name");
    let mut value = HeaderValue::from_str(value).expect("a valid header value");
    value.set_sensitive(sensitive);
    map.try_append(name, value)
}

} // verus!
