//! The closed set of ways an extraction can fail, and the spec-level
//! picture of an extraction's result.

use vstd::prelude::*;

verus! {

/// Why an extraction failed. No other failure kind can occur.
#[derive(Debug, PartialEq, Eq)]
pub enum Error {
    /// The header is missing from the container.
    AbsentHeader { header_name: String },
    /// A selected occurrence holds bytes outside visible ASCII and space.
    NonAsciiHeaderValue { header_name: String },
    /// The (ASCII-valid) text does not match the convention's syntax.
    MalformedHeaderValue { header_name: String, header_value: String },
    /// A header that must occur exactly once occurred more than once.
    SingleHeaderRequired { header_name: String },
    /// The selected `Forwarded` stanza carries no `for` directive.
    ForwardedNoFor { header_value: String },
    /// The selected `Forwarded` stanza obfuscates the address.
    ForwardedObfuscated { header_value: String },
    /// The selected `Forwarded` stanza declines to name an address.
    ForwardedUnknown { header_value: String },
}

/// What an extraction returned, stated over text rather than over the
/// `String` allocations that carry it at run time.
pub enum Outcome {
    Address(crate::ip::IpAddress),
    AbsentHeader { name: Seq<char> },
    NonAsciiHeaderValue { name: Seq<char> },
    MalformedHeaderValue { name: Seq<char>, value: Seq<char> },
    SingleHeaderRequired { name: Seq<char> },
    ForwardedNoFor { value: Seq<char> },
    ForwardedObfuscated { value: Seq<char> },
    ForwardedUnknown { value: Seq<char> },
}

/// The spec-level picture of a concrete extraction result.
pub open spec fn outcome_of(r: Result<crate::ip::IpAddress, Error>) -> Outcome {
    match r {
        Ok(ip) => Outcome::Address(ip),
        Err(e) => match e {
            Error::AbsentHeader { header_name } => Outcome::AbsentHeader { name: header_name@ },
            Error::NonAsciiHeaderValue { header_name } => Outcome::NonAsciiHeaderValue {
                name: header_name@,
            },
            Error::MalformedHeaderValue { header_name, header_value } => Outcome::MalformedHeaderValue {
                name: header_name@,
                value: header_value@,
            },
            Error::SingleHeaderRequired { header_name } => Outcome::SingleHeaderRequired {
                name: header_name@,
            },
            Error::ForwardedNoFor { header_value } => Outcome::ForwardedNoFor {
                value: header_value@,
            },
            Error::ForwardedObfuscated { header_value } => Outcome::ForwardedObfuscated {
                value: header_value@,
            },
            Error::ForwardedUnknown { header_value } => Outcome::ForwardedUnknown {
                value: header_value@,
            },
        },
    }
}

} // verus!
