//! The general laws of the extractors, stated over the same spec
//! functions that the extractors' own contracts use, and proved once
//! for every input.

use vstd::prelude::*;

use crate::ascii::is_printable_ascii;
use crate::errors::{outcome_of, Error, Outcome};
use crate::extract::{
    cloudfront_outcome, forwarded_outcome, single_header_outcome, xff_outcome,
};
use crate::ip::{ip_spec, trim_spec, IpAddress};

verus! {

/// Law of the exactly-once policy: an absent header reports
/// `AbsentHeader`; two or more occurrences report
/// `SingleHeaderRequired`, whatever their values hold; one printable
/// occurrence whose trimmed text is an IP literal yields exactly that
/// address.
pub proof fn lemma_single_policy(vals: Seq<Seq<u8>>, name: Seq<char>)
    ensures
        vals.len() == 0 ==> single_header_outcome(vals, name) == (Outcome::AbsentHeader { name }),
        vals.len() >= 2 ==> single_header_outcome(vals, name) == (Outcome::SingleHeaderRequired { name }),
        (vals.len() == 1 && is_printable_ascii(vals[0]) && ip_spec(trim_spec(vals[0])) is Some)
            ==> single_header_outcome(vals, name) == Outcome::Address(
            ip_spec(trim_spec(vals[0])).unwrap(),
        ),
{
}

/// Law of the last-one-wins policy: with at least one occurrence, only
/// the last determines the outcome; occurrence lists that agree on
/// their last entry are indistinguishable, however malformed the
/// earlier entries are.
pub proof fn lemma_take_last_ignores_earlier(
    vals1: Seq<Seq<u8>>,
    vals2: Seq<Seq<u8>>,
    name: Seq<char>,
)
    requires
        vals1.len() >= 1,
        vals2.len() >= 1,
        vals1.last() == vals2.last(),
    ensures
        cloudfront_outcome(vals1, name) == cloudfront_outcome(vals2, name),
        xff_outcome(vals1, name) == xff_outcome(vals2, name),
        forwarded_outcome(vals1, name) == forwarded_outcome(vals2, name),
{
}

/// Law of the guard: a selected value with a byte outside visible
/// ASCII and space reports `NonAsciiHeaderValue`, under every
/// convention, before any structural parsing can see the value.
pub proof fn lemma_ascii_guard_first(vals: Seq<Seq<u8>>, name: Seq<char>)
    ensures
        (vals.len() == 1 && !is_printable_ascii(vals[0])) ==> single_header_outcome(vals, name)
            == (Outcome::NonAsciiHeaderValue { name }),
        (vals.len() >= 1 && !is_printable_ascii(vals.last())) ==> cloudfront_outcome(vals, name)
            == (Outcome::NonAsciiHeaderValue { name }),
        (vals.len() >= 1 && !is_printable_ascii(vals.last())) ==> xff_outcome(vals, name)
            == (Outcome::NonAsciiHeaderValue { name }),
        (vals.len() >= 1 && !is_printable_ascii(vals.last())) ==> forwarded_outcome(vals, name)
            == (Outcome::NonAsciiHeaderValue { name }),
{
}

/// Law of purity: every extractor's contract pins the outcome of its
/// result to a function of the container's contents alone, so two
/// calls against the same container satisfy these premises with the
/// same `o` and must agree. Extraction keeps no state and reads
/// nothing else.
pub proof fn lemma_extraction_deterministic(
    r1: Result<IpAddress, Error>,
    r2: Result<IpAddress, Error>,
    o: Outcome,
)
    requires
        outcome_of(r1) == o,
        outcome_of(r2) == o,
    ensures
        outcome_of(r1) == outcome_of(r2),
{
}

} // verus!
