//! One extractor per supported proxy convention.
//!
//! Each extractor is a fixed composition: select the trusted occurrence
//! of its header, guard the bytes, decode them under the convention's
//! syntax. Which occurrence to trust is a compile-time fact of the
//! convention, never a parameter, so trust semantics cannot drift per
//! call site.

use vstd::prelude::*;

use crate::ascii::{ascii_string, chars_of};
use crate::errors::{outcome_of, Error, Outcome};
use crate::forwarded::{decode_forwarded, forwarded_value_outcome};
use crate::headers::{header_values, pick_last, pick_single, select_last, select_single, Pick};
use crate::ip::{
    ip_spec, parse_whole, rfind_byte, rfind_byte_exec, trim_spec, vec_range, IpAddress, COLON,
    COMMA,
};

verus! {

/// How a guarded value decodes when the whole of it, less surrounding
/// spaces, must be one IP literal.
pub open spec fn whole_value_outcome(b: Seq<u8>, name: Seq<char>) -> Outcome {
    match ip_spec(trim_spec(b)) {
        Some(ip) => Outcome::Address(ip),
        None => Outcome::MalformedHeaderValue { name, value: chars_of(b) },
    }
}

/// How a guarded value decodes under the CloudFront convention: the
/// text up to the last colon, which always separates a trailing port,
/// must be one IP literal; a value without any colon is malformed.
pub open spec fn port_stripped_outcome(b: Seq<u8>, name: Seq<char>) -> Outcome {
    let i = rfind_byte(b, COLON);
    if i < 0 {
        Outcome::MalformedHeaderValue { name, value: chars_of(b) }
    } else {
        match ip_spec(trim_spec(b.take(i))) {
            Some(ip) => Outcome::Address(ip),
            None => Outcome::MalformedHeaderValue { name, value: chars_of(b) },
        }
    }
}

/// How a guarded value decodes under the `X-Forwarded-For` convention:
/// only the text after the last comma — the final hop's claim — is
/// read, and must be one IP literal; earlier entries are ignored
/// unread.
pub open spec fn rightmost_entry_outcome(b: Seq<u8>, name: Seq<char>) -> Outcome {
    match ip_spec(trim_spec(b.skip(rfind_byte(b, COMMA) + 1))) {
        Some(ip) => Outcome::Address(ip),
        None => Outcome::MalformedHeaderValue { name, value: chars_of(b) },
    }
}

/// The result of an exactly-once convention, over the header's
/// occurrences.
pub open spec fn single_header_outcome(vals: Seq<Seq<u8>>, name: Seq<char>) -> Outcome {
    match pick_single(vals) {
        Pick::Absent => Outcome::AbsentHeader { name },
        Pick::Multiple => Outcome::SingleHeaderRequired { name },
        Pick::NotAscii => Outcome::NonAsciiHeaderValue { name },
        Pick::Value(b) => whole_value_outcome(b, name),
    }
}

/// The result of the CloudFront convention, over the header's
/// occurrences.
pub open spec fn cloudfront_outcome(vals: Seq<Seq<u8>>, name: Seq<char>) -> Outcome {
    match pick_last(vals) {
        Pick::Absent => Outcome::AbsentHeader { name },
        Pick::Multiple => Outcome::SingleHeaderRequired { name },
        Pick::NotAscii => Outcome::NonAsciiHeaderValue { name },
        Pick::Value(b) => port_stripped_outcome(b, name),
    }
}

/// The result of the `X-Forwarded-For` convention, over the header's
/// occurrences.
pub open spec fn xff_outcome(vals: Seq<Seq<u8>>, name: Seq<char>) -> Outcome {
    match pick_last(vals) {
        Pick::Absent => Outcome::AbsentHeader { name },
        Pick::Multiple => Outcome::SingleHeaderRequired { name },
        Pick::NotAscii => Outcome::NonAsciiHeaderValue { name },
        Pick::Value(b) => rightmost_entry_outcome(b, name),
    }
}

/// The result of the `Forwarded` convention, over the header's
/// occurrences.
pub open spec fn forwarded_outcome(vals: Seq<Seq<u8>>, name: Seq<char>) -> Outcome {
    match pick_last(vals) {
        Pick::Absent => Outcome::AbsentHeader { name },
        Pick::Multiple => Outcome::SingleHeaderRequired { name },
        Pick::NotAscii => Outcome::NonAsciiHeaderValue { name },
        Pick::Value(b) => forwarded_value_outcome(b, name),
    }
}

/// Reads an IP from a header that must occur exactly once.
fn ip_from_single_header(header_map: &http::HeaderMap, header_name: &str) -> (r: Result<
    IpAddress,
    Error,
>)
    ensures
        outcome_of(r) == single_header_outcome(
            header_values(*header_map, header_name@),
            header_name@,
        ),
{
    let b = match select_single(header_map, header_name) {
        Ok(b) => b,
        Err(e) => {
            return Err(e);
        },
    };
    match parse_whole(&b) {
        Some(ip) => Ok(ip),
        None => Err(
            Error::MalformedHeaderValue {
                header_name: header_name.to_owned(),
                header_value: ascii_string(&b),
            },
        ),
    }
}

/// Extracts the client IP from the `CF-Connecting-IP` (Cloudflare)
/// header.
pub fn cf_connecting_ip(header_map: &http::HeaderMap) -> (r: Result<IpAddress, Error>)
    ensures
        outcome_of(r) == single_header_outcome(
            header_values(*header_map, "cf-connecting-ip"@),
            "cf-connecting-ip"@,
        ),
{
    ip_from_single_header(header_map, "cf-connecting-ip")
}

/// Extracts the client IP from the `True-Client-IP` (Akamai,
/// Cloudflare) header.
pub fn true_client_ip(header_map: &http::HeaderMap) -> (r: Result<IpAddress, Error>)
    ensures
        outcome_of(r) == single_header_outcome(
            header_values(*header_map, "true-client-ip"@),
            "true-client-ip"@,
        ),
{
    ip_from_single_header(header_map, "true-client-ip")
}

/// Extracts the client IP from the `X-Real-Ip` (Nginx) header.
pub fn x_real_ip(header_map: &http::HeaderMap) -> (r: Result<IpAddress, Error>)
    ensures
        outcome_of(r) == single_header_outcome(
            header_values(*header_map, "x-real-ip"@),
            "x-real-ip"@,
        ),
{
    ip_from_single_header(header_map, "x-real-ip")
}

/// Extracts the client IP from the `Fly-Client-IP` (Fly.io) header.
pub fn fly_client_ip(header_map: &http::HeaderMap) -> (r: Result<IpAddress, Error>)
    ensures
        outcome_of(r) == single_header_outcome(
            header_values(*header_map, "fly-client-ip"@),
            "fly-client-ip"@,
        ),
{
    ip_from_single_header(header_map, "fly-client-ip")
}

/// Extracts the client IP from the `CloudFront-Viewer-Address` (AWS
/// CloudFront) header, whose value always ends in `:port`.
pub fn cloudfront_viewer_address(header_map: &http::HeaderMap) -> (r: Result<IpAddress, Error>)
    ensures
        outcome_of(r) == cloudfront_outcome(
            header_values(*header_map, "cloudfront-viewer-address"@),
            "cloudfront-viewer-address"@,
        ),
{
    let name = "cloudfront-viewer-address";
    let b = match select_last(header_map, name) {
        Ok(b) => b,
        Err(e) => {
            return Err(e);
        },
    };
    match rfind_byte_exec(&b, COLON) {
        None => Err(
            Error::MalformedHeaderValue {
                header_name: name.to_owned(),
                header_value: ascii_string(&b),
            },
        ),
        Some(i) => {
            let prefix = vec_range(&b, 0, i);
            proof {
                assert(prefix@ =~= b@.take(i as int));
            }
            match parse_whole(&prefix) {
                Some(ip) => Ok(ip),
                None => Err(
                    Error::MalformedHeaderValue {
                        header_name: name.to_owned(),
                        header_value: ascii_string(&b),
                    },
                ),
            }
        },
    }
}

/// Extracts the rightmost IP from the comma-separated list in the last
/// `X-Forwarded-For` header.
pub fn rightmost_x_forwarded_for(header_map: &http::HeaderMap) -> (r: Result<IpAddress, Error>)
    ensures
        outcome_of(r) == xff_outcome(
            header_values(*header_map, "x-forwarded-for"@),
            "x-forwarded-for"@,
        ),
{
    let name = "x-forwarded-for";
    let b = match select_last(header_map, name) {
        Ok(b) => b,
        Err(e) => {
            return Err(e);
        },
    };
    let seg = match rfind_byte_exec(&b, COMMA) {
        Some(i) => {
            let n = b.len();
            vec_range(&b, i + 1, n)
        },
        None => {
            proof {
                assert(b@.skip(0) =~= b@);
            }
            vec_range(&b, 0, b.len())
        },
    };
    proof {
        assert(seg@ =~= b@.skip(rfind_byte(b@, COMMA) + 1));
    }
    match parse_whole(&seg) {
        Some(ip) => Ok(ip),
        None => Err(
            Error::MalformedHeaderValue {
                header_name: name.to_owned(),
                header_value: ascii_string(&b),
            },
        ),
    }
}

/// Extracts the IP that the last stanza of the last `Forwarded` header
/// claims with its `for` directive.
pub fn rightmost_forwarded(header_map: &http::HeaderMap) -> (r: Result<IpAddress, Error>)
    ensures
        outcome_of(r) == forwarded_outcome(
            header_values(*header_map, "forwarded"@),
            "forwarded"@,
        ),
{
    let name = "forwarded";
    let b = match select_last(header_map, name) {
        Ok(b) => b,
        Err(e) => {
            return Err(e);
        },
    };
    decode_forwarded(&b, name)
}

} // verus!
