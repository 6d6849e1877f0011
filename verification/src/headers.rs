//! Reading header occurrences out of an `http::HeaderMap`, and the two
//! selection policies.
//!
//! The container is an external collaborator: a case-insensitive
//! multimap that keeps same-named entries in insertion order. It is
//! consumed, never built, here. What it holds for a name is given the
//! uninterpreted name `header_values`; everything after the lookup is
//! verified against that name.

use vstd::prelude::*;

use crate::ascii::{ascii_string, chars_of, check_printable, is_printable_ascii};
use crate::errors::Error;

verus! {

#[verifier::external_type_specification]
#[verifier::external_body]
#[verifier::reject_recursive_types(T)]
pub struct ExHeaderMap<T>(http::HeaderMap<T>);

#[verifier::external_type_specification]
#[verifier::external_body]
pub struct ExHeaderValue(http::HeaderValue);

/// The byte values that the container holds for a name, in insertion
/// order.
pub uninterp spec fn header_values(m: http::HeaderMap, name: Seq<char>) -> Seq<Seq<u8>>;

/// Relies on `http::HeaderMap::get_all`: it yields every value of the
/// named header, in insertion order, matching the name without regard
/// to case; `http::HeaderValue::as_bytes` hands each value's bytes out
/// verbatim.
#[verifier::external_body]
fn get_all_values(m: &http::HeaderMap, name: &str) -> (r: Vec<Vec<u8>>)
    ensures
        r@.len() == header_values(*m, name@).len(),
        forall|i: int|
            0 <= i < r@.len() ==> (#[trigger] r@[i])@ == header_values(*m, name@)[i],
{
    m.get_all(name).into_iter().map(|v| v.as_bytes().to_vec()).collect()
}

/// Which occurrence a selection policy settles on, or why none.
pub enum Pick {
    Absent,
    Multiple,
    NotAscii,
    Value(Seq<u8>),
}

/// The policy for headers that must occur exactly once: zero
/// occurrences and two or more are both refused, and the one value must
/// be printable ASCII.
pub open spec fn pick_single(vals: Seq<Seq<u8>>) -> Pick {
    if vals.len() == 0 {
        Pick::Absent
    } else if vals.len() > 1 {
        Pick::Multiple
    } else if !is_printable_ascii(vals[0]) {
        Pick::NotAscii
    } else {
        Pick::Value(vals[0])
    }
}

/// The policy that trusts only the hop that wrote last: the final
/// occurrence is taken, earlier ones are ignored unread.
pub open spec fn pick_last(vals: Seq<Seq<u8>>) -> Pick {
    if vals.len() == 0 {
        Pick::Absent
    } else if !is_printable_ascii(vals.last()) {
        Pick::NotAscii
    } else {
        Pick::Value(vals.last())
    }
}

/// The error that reports a failed selection.
pub open spec fn selection_err(p: Pick, name: Seq<char>, e: Error) -> bool {
    match e {
        Error::AbsentHeader { header_name } => p is Absent && header_name@ == name,
        Error::SingleHeaderRequired { header_name } => p is Multiple && header_name@ == name,
        Error::NonAsciiHeaderValue { header_name } => p is NotAscii && header_name@ == name,
        _ => false,
    }
}

/// Selects under the exactly-once policy, returning the value's bytes.
pub fn select_single(m: &http::HeaderMap, name: &str) -> (r: Result<Vec<u8>, Error>)
    ensures
        match r {
            Ok(b) => pick_single(header_values(*m, name@)) == Pick::Value(b@)
                && is_printable_ascii(b@),
            Err(e) => selection_err(pick_single(header_values(*m, name@)), name@, e),
        },
{
    let mut vals = get_all_values(m, name);
    if vals.len() == 0 {
        return Err(Error::AbsentHeader { header_name: name.to_owned() });
    }
    if vals.len() > 1 {
        return Err(Error::SingleHeaderRequired { header_name: name.to_owned() });
    }
    if !check_printable(&vals[0]) {
        return Err(Error::NonAsciiHeaderValue { header_name: name.to_owned() });
    }
    match vals.pop() {
        Some(b) => Ok(b),
        None => Err(Error::AbsentHeader { header_name: name.to_owned() }),
    }
}

/// A header value that the guard has admitted: its text is known to be
/// visible ASCII and spaces only.
#[derive(Debug)]
pub struct AsciiHeaderValue(pub String);

impl AsciiHeaderValue {
    /// Returns the value of a header that must occur exactly once.
    /// More than one occurrence is a critical proxy configuration
    /// error, not something to resolve silently.
    pub fn of_single_header(header_map: &http::HeaderMap, header_name: &str) -> (r: Result<
        AsciiHeaderValue,
        Error,
    >)
        ensures
            match r {
                Ok(v) => pick_single(header_values(*header_map, header_name@)) matches Pick::Value(
                    b,
                ) && v.0@ == chars_of(b),
                Err(e) => selection_err(
                    pick_single(header_values(*header_map, header_name@)),
                    header_name@,
                    e,
                ),
            },
    {
        match select_single(header_map, header_name) {
            Ok(b) => Ok(AsciiHeaderValue(ascii_string(&b))),
            Err(e) => Err(e),
        }
    }

    /// Returns the value of the last occurrence of a header.
    pub fn of_last_header(header_map: &http::HeaderMap, header_name: &str) -> (r: Result<
        AsciiHeaderValue,
        Error,
    >)
        ensures
            match r {
                Ok(v) => pick_last(header_values(*header_map, header_name@)) matches Pick::Value(
                    b,
                ) && v.0@ == chars_of(b),
                Err(e) => selection_err(
                    pick_last(header_values(*header_map, header_name@)),
                    header_name@,
                    e,
                ),
            },
    {
        match select_last(header_map, header_name) {
            Ok(b) => Ok(AsciiHeaderValue(ascii_string(&b))),
            Err(e) => Err(e),
        }
    }
}

/// Selects under the last-one-wins policy, returning the value's bytes.
pub fn select_last(m: &http::HeaderMap, name: &str) -> (r: Result<Vec<u8>, Error>)
    ensures
        match r {
            Ok(b) => pick_last(header_values(*m, name@)) == Pick::Value(b@)
                && is_printable_ascii(b@),
            Err(e) => selection_err(pick_last(header_values(*m, name@)), name@, e),
        },
{
    let mut vals = get_all_values(m, name);
    match vals.pop() {
        None => Err(Error::AbsentHeader { header_name: name.to_owned() }),
        Some(b) => {
            if !check_printable(&b) {
                Err(Error::NonAsciiHeaderValue { header_name: name.to_owned() })
            } else {
                Ok(b)
            }
        },
    }
}

} // verus!
