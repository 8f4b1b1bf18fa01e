//! Parsing of arguments of the form `<left><sep><right>`, such as `400x600`
//! or `1.0,0.5`.

use std::str::FromStr;
use vstd::prelude::*;
use vstd::string::StrSliceExecFns;

verus! {

/// `k` is the position of the first `separator` in `s`.
pub open spec fn first_at(s: Seq<char>, separator: char, k: int) -> bool {
    &&& 0 <= k < s.len()
    &&& s[k] == separator
    &&& forall|j: int| 0 <= j < k ==> s[j] != separator
}

/// The text before the first `separator` of `s` and the text after it, where
/// `s` holds a `separator`.
pub open spec fn halves_of(s: Seq<char>, separator: char) -> Option<(Seq<char>, Seq<char>)> {
    if exists|k: int| first_at(s, separator, k) {
        let k = choose|k: int| first_at(s, separator, k);
        Some((s.subrange(0, k), s.subrange(k + 1, s.len() as int)))
    } else {
        None
    }
}

/// The first `separator` of a text is in one place only.
pub proof fn lemma_first_at_unique(s: Seq<char>, separator: char, k: int)
    requires
        first_at(s, separator, k),
    ensures
        halves_of(s, separator) == Some((s.subrange(0, k), s.subrange(k + 1, s.len() as int))),
{
    let chosen = choose|k: int| first_at(s, separator, k);
    assert(chosen == k) by {
        if chosen < k {
            assert(s[chosen] != separator);
        } else if k < chosen {
            assert(s[k] != separator);
        }
    }
}

/// The position, counted in characters, of the first `separator` in `s`.
pub fn find_separator(s: &str, separator: char) -> (found: Option<usize>)
    ensures
        match found {
            Some(k) => first_at(s@, separator, k as int),
            None => !s@.contains(separator),
        },
{
    let length = s.unicode_len();
    let mut k: usize = 0;
    while k < length
        invariant
            length == s@.len(),
            k <= length,
            forall|j: int| 0 <= j < k ==> s@[j] != separator,
        decreases length - k,
    {
        if s.get_char(k) == separator {
            return Some(k);
        }
        k += 1;
    }
    None
}

/// Splits `s` at its first `separator`, which belongs to neither half.
pub fn split_pair<'a>(s: &'a str, separator: char) -> (halves: Option<(&'a str, &'a str)>)
    ensures
        match halves {
            Some((left, right)) => halves_of(s@, separator) == Some((left@, right@)),
            None => halves_of(s@, separator) is None,
        },
        halves is None <==> !s@.contains(separator),
{
    match find_separator(s, separator) {
        None => {
            proof {
                if exists|k: int| first_at(s@, separator, k) {
                    let k = choose|k: int| first_at(s@, separator, k);
                    assert(s@.contains(s@[k]));
                }
            }
            None
        },
        Some(k) => {
            proof {
                lemma_first_at_unique(s@, separator, k as int);
                assert(s@.contains(s@[k as int]));
            }
            let length = s.unicode_len();
            Some((s.substring_char(0, k), s.substring_char(k + 1, length)))
        },
    }
}

/// Both values, where both are there.
pub fn both<T>(left: Option<T>, right: Option<T>) -> (pair: Option<(T, T)>)
    ensures
        pair == match (left, right) {
            (Some(l), Some(r)) => Some((l, r)),
            _ => None::<(T, T)>,
        },
{
    match (left, right) {
        (Some(l), Some(r)) => Some((l, r)),
        _ => None,
    }
}

/// Calls `T::from_str` of `std::str::FromStr` on `s` and keeps the value of a
/// success. What a type accepts is that type's own matter: nothing is claimed
/// of the result.
#[verifier::external_body]
fn parse_value<T: FromStr>(s: &str) -> (value: Option<T>) {
    match T::from_str(s) {
        Ok(value) => Some(value),
        Err(_) => None,
    }
}

/// Parses `s`, of the form `<left><sep><right>`, into a pair: the text before
/// the first `separator` and the text after it are each handed to `T`'s
/// parser, and the pair is there where both succeed.
pub fn parse_pair<T: FromStr>(s: &str, separator: char) -> (pair: Option<(T, T)>)
    ensures
        !s@.contains(separator) ==> pair is None,
{
    match split_pair(s, separator) {
        None => None,
        Some((left, right)) => both(parse_value(left), parse_value(right)),
    }
}

} // verus!
