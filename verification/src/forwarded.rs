//! Consuming the RFC 7239 `Forwarded` grammar.
//!
//! Tokenizing the header into stanzas is the external parser's job; it
//! is consumed, not re-specified, here. Each stanza's `for` identifier
//! comes back as one of four plain shapes, the last stanza — the hop
//! closest to this system, the only trusted one — is selected, and its
//! shape is mapped to an address or to the failure that reports it.
//! The three stanza-shaped failures carry the selected stanza's own
//! text; a value the grammar rejects is malformed and carries the
//! whole value.
//!
//! One shape of value is turned away before the external parser sees
//! it: a `host` directive whose value is a single double-quote, which
//! that parser cannot unquote (its slice would fall out of range). The
//! guard `has_lone_quote_host` names those values; they are malformed
//! here, as an unterminated quoted string is.

use vstd::prelude::*;

use forwarded_header_value::{ForwardedHeaderValue, Identifier};

use crate::ascii::{ascii_string, chars_of, is_printable_ascii};
use crate::errors::{outcome_of, Error, Outcome};
use crate::ip::{
    ip_spec, parse_ip, split_bytes, split_on, trim_bytes, trim_spec, vec_range, IpAddress, COMMA,
};

verus! {

/// `';'`
pub const SEMI: u8 = 59;

/// `'='`
pub const EQUALS: u8 = 61;

/// `'"'`
pub const QUOTE: u8 = 34;

/// `b[i..j)` is one `,`/`;`-delimited part of the value: a maximal run
/// free of both separators, bounded by them or by the ends.
pub open spec fn is_directive_part(b: Seq<u8>, i: int, j: int) -> bool {
    &&& 0 <= i <= j <= b.len()
    &&& (i == 0 || b[i - 1] == COMMA || b[i - 1] == SEMI)
    &&& (j == b.len() || b[j] == COMMA || b[j] == SEMI)
    &&& forall|k: int| i <= k < j ==> #[trigger] b[k] != COMMA && b[k] != SEMI
}

/// A `host` directive, in any letter case, whose value is exactly one
/// double-quote.
pub open spec fn is_lone_quote_host(p: Seq<u8>) -> bool {
    let t = trim_spec(p);
    &&& t.len() == 6
    &&& (t[0] == 104 || t[0] == 72)
    &&& (t[1] == 111 || t[1] == 79)
    &&& (t[2] == 115 || t[2] == 83)
    &&& (t[3] == 116 || t[3] == 84)
    &&& t[4] == EQUALS
    &&& t[5] == QUOTE
}

/// Some part of the value is a `host` directive whose value is one
/// double-quote.
pub open spec fn has_lone_quote_host(b: Seq<u8>) -> bool {
    exists|i: int, j: int| #[trigger] is_directive_part(b, i, j) && is_lone_quote_host(
        b.subrange(i, j),
    )
}

/// Decides `is_lone_quote_host` for the part `b[from..to)`.
fn check_part(b: &Vec<u8>, from: usize, to: usize) -> (r: bool)
    requires
        from <= to <= b@.len(),
    ensures
        r == is_lone_quote_host(b@.subrange(from as int, to as int)),
{
    let p = vec_range(b, from, to);
    let t = trim_bytes(&p);
    if t.len() != 6 {
        return false;
    }
    (t[0] == 104 || t[0] == 72) && (t[1] == 111 || t[1] == 79) && (t[2] == 115 || t[2] == 83) && (
    t[3] == 116 || t[3] == 84) && t[4] == EQUALS && t[5] == QUOTE
}

/// Decides `has_lone_quote_host` for a concrete value, one pass over
/// its parts.
pub fn scan_lone_quote_host(b: &Vec<u8>) -> (r: bool)
    ensures
        r == has_lone_quote_host(b@),
{
    let mut start: usize = 0;
    let mut k: usize = 0;
    while k < b.len()
        invariant
            0 <= start <= k <= b@.len(),
            start == 0 || b@[start - 1] == COMMA || b@[start - 1] == SEMI,
            forall|m: int| start <= m < k ==> #[trigger] b@[m] != COMMA && b@[m] != SEMI,
            forall|i: int, j: int|
                #[trigger] is_directive_part(b@, i, j) && j < k ==> !is_lone_quote_host(
                    b@.subrange(i, j),
                ),
        decreases b@.len() - k,
    {
        let c = b[k];
        if c == COMMA || c == SEMI {
            if check_part(b, start, k) {
                proof {
                    assert(is_directive_part(b@, start as int, k as int));
                }
                return true;
            }
            proof {
                assert forall|i: int, j: int|
                    #[trigger] is_directive_part(b@, i, j) && j < k + 1 implies !is_lone_quote_host(
                    b@.subrange(i, j),
                ) by {
                    if j == k {
                        if i < start {
                            assert(b@[start - 1] != COMMA && b@[start - 1] != SEMI);
                        } else if i > start {
                            assert(b@[i - 1] == COMMA || b@[i - 1] == SEMI);
                        }
                        assert(i == start);
                    }
                }
            }
            start = k + 1;
        }
        k += 1;
    }
    if check_part(b, start, b.len()) {
        proof {
            assert(is_directive_part(b@, start as int, b@.len() as int));
        }
        return true;
    }
    proof {
        assert forall|i: int, j: int|
            #[trigger] is_directive_part(b@, i, j) implies !is_lone_quote_host(
            b@.subrange(i, j),
        ) by {
            if j == b@.len() {
                if i < start {
                    assert(b@[start - 1] != COMMA && b@[start - 1] != SEMI);
                } else if i > start {
                    assert(b@[i - 1] == COMMA || b@[i - 1] == SEMI);
                }
                assert(i == start);
            }
        }
    }
    false
}

/// The last piece of the run that is not blank once its surrounding
/// spaces are dropped; empty if every piece is blank.
pub open spec fn last_nonblank(pieces: Seq<Seq<u8>>) -> Seq<u8>
    decreases pieces.len(),
{
    if pieces.len() == 0 {
        Seq::empty()
    } else if trim_spec(pieces.last()).len() > 0 {
        trim_spec(pieces.last())
    } else {
        last_nonblank(pieces.drop_last())
    }
}

/// The text of the stanza the adapter selects: the last
/// comma-separated piece of the value that is not blank, with its
/// surrounding spaces dropped — the way the external parser carves the
/// value into stanzas.
pub open spec fn last_stanza_text(b: Seq<u8>) -> Seq<u8> {
    last_nonblank(split_on(b, COMMA))
}

/// The selected stanza's text is printable whenever the value is.
pub proof fn lemma_last_stanza_printable(b: Seq<u8>)
    requires
        is_printable_ascii(b),
    ensures
        is_printable_ascii(last_stanza_text(b)),
{
    crate::ip::lemma_split_on_printable(b, COMMA);
    lemma_last_nonblank_printable(split_on(b, COMMA));
}

/// `last_nonblank` of printable pieces is printable.
proof fn lemma_last_nonblank_printable(pieces: Seq<Seq<u8>>)
    requires
        forall|i: int, j: int|
            0 <= i < pieces.len() && 0 <= j < pieces[i].len() ==> 32 <= #[trigger] pieces[i][j]
                <= 126,
    ensures
        is_printable_ascii(last_nonblank(pieces)),
    decreases pieces.len(),
{
    if pieces.len() > 0 {
        if trim_spec(pieces.last()).len() > 0 {
            assert forall|j: int| 0 <= j < pieces.last().len() implies 32
                <= #[trigger] pieces.last()[j] <= 126 by {
                assert(pieces[pieces.len() - 1][j] == pieces.last()[j]);
            }
            crate::ip::lemma_trim_printable(pieces.last());
        } else {
            assert forall|i: int, j: int|
                0 <= i < pieces.drop_last().len() && 0 <= j < pieces.drop_last()[i].len() implies 32
                <= #[trigger] pieces.drop_last()[i][j] <= 126 by {
                assert(pieces.drop_last()[i] == pieces[i]);
            }
            lemma_last_nonblank_printable(pieces.drop_last());
        }
    }
}

/// Finds the selected stanza's text, as `last_stanza_text` describes
/// it.
pub fn last_stanza_bytes(b: &Vec<u8>) -> (r: Vec<u8>)
    ensures
        r@ == last_stanza_text(b@),
{
    let pieces = split_bytes(b, COMMA);
    let ghost svs = split_on(b@, COMMA);
    proof {
        assert(svs.take(pieces@.len() as int) =~= svs);
    }
    let mut i: usize = pieces.len();
    while i > 0
        invariant
            0 <= i <= pieces@.len(),
            pieces@.len() == svs.len(),
            svs == split_on(b@, COMMA),
            forall|m: int| 0 <= m < svs.len() ==> (#[trigger] pieces@[m])@ == svs[m],
            last_nonblank(svs) == last_nonblank(svs.take(i as int)),
        decreases i,
    {
        let t = trim_bytes(&pieces[i - 1]);
        proof {
            assert(svs.take(i as int).last() == svs[i - 1]);
            assert(svs.take(i as int).drop_last() =~= svs.take(i - 1));
        }
        if t.len() > 0 {
            return t;
        }
        i -= 1;
    }
    proof {
        assert(svs.take(0) =~= Seq::<Seq<u8>>::empty());
    }
    Vec::new()
}

/// What one stanza's `for` identifier says about a hop.
#[derive(Debug)]
pub enum StanzaFor {
    /// The stanza carries no `for` directive at all.
    NoFor,
    /// The identifier names an address; the bytes are its textual
    /// rendering, without port or brackets.
    Ip(Vec<u8>),
    /// The identifier is an opaque obfuscated token.
    Obfuscated,
    /// The identifier is the literal `unknown` token.
    Unknown,
}

/// The `for` identifiers of the stanzas that the external RFC 7239
/// parser reads out of a header value, in order; nothing if the value
/// does not parse as that grammar.
pub uninterp spec fn forwarded_stanzas(text: Seq<u8>) -> Option<Vec<StanzaFor>>;

/// Relies on `forwarded_header_value::ForwardedHeaderValue::from_forwarded`:
/// it parses the RFC 7239 grammar deterministically from the text alone,
/// yielding the stanzas in order, each with an optional `for` identifier
/// that is a socket address, a bare address, an obfuscated token, or the
/// `unknown` token. An address is rendered back to text with its port
/// and brackets dropped; `str::from_utf8` converts the argument. The
/// `requires` keeps out the one shape on which `from_forwarded` does not
/// return: a `host` directive whose value is a single double-quote, whose
/// unquoting would slice out of range.
#[verifier::external_body]
fn parse_stanzas(b: &Vec<u8>) -> (r: Option<Vec<StanzaFor>>)
    requires
        is_printable_ascii(b@),
        !has_lone_quote_host(b@),
    ensures
        r == forwarded_stanzas(b@),
{
    let Ok(text) = std::str::from_utf8(b.as_slice()) else { return None };
    let Ok(v) = ForwardedHeaderValue::from_forwarded(text) else { return None };
    Some(v.into_iter().map(|st| match st.forwarded_for {
        None => StanzaFor::NoFor,
        Some(Identifier::SocketAddr(a)) => StanzaFor::Ip(a.ip().to_string().into_bytes()),
        Some(Identifier::IpAddr(ip)) => StanzaFor::Ip(ip.to_string().into_bytes()),
        Some(Identifier::String(_)) => StanzaFor::Obfuscated,
        Some(Identifier::Unknown) => StanzaFor::Unknown,
    }).collect())
}

/// How one stanza's `for` identifier decodes: an address if it names
/// one whose rendering is an IP literal, otherwise the failure that
/// describes its shape, carrying the stanza's own text.
pub open spec fn stanza_outcome(
    st: StanzaFor,
    name: Seq<char>,
    text: Seq<char>,
    stanza: Seq<char>,
) -> Outcome {
    match st {
        StanzaFor::NoFor => Outcome::ForwardedNoFor { value: stanza },
        StanzaFor::Ip(b) => match ip_spec(b@) {
            Some(ip) => Outcome::Address(ip),
            None => Outcome::MalformedHeaderValue { name, value: text },
        },
        StanzaFor::Obfuscated => Outcome::ForwardedObfuscated { value: stanza },
        StanzaFor::Unknown => Outcome::ForwardedUnknown { value: stanza },
    }
}

/// How a guarded `Forwarded` value decodes: a value the grammar
/// rejects — the unquotable lone-quote `host` shape included — or an
/// empty stanza list is malformed, with the whole value as payload;
/// otherwise the last stanza alone decides, as `stanza_outcome`
/// describes it, with that stanza's text in its failures.
pub open spec fn forwarded_value_outcome(b: Seq<u8>, name: Seq<char>) -> Outcome {
    let text = chars_of(b);
    if has_lone_quote_host(b) {
        Outcome::MalformedHeaderValue { name, value: text }
    } else {
        match forwarded_stanzas(b) {
            None => Outcome::MalformedHeaderValue { name, value: text },
            Some(v) => if v@.len() == 0 {
                Outcome::MalformedHeaderValue { name, value: text }
            } else {
                stanza_outcome(v@.last(), name, text, chars_of(last_stanza_text(b)))
            },
        }
    }
}

/// Decodes a guarded `Forwarded` value, as `forwarded_value_outcome`
/// describes it.
pub fn decode_forwarded(b: &Vec<u8>, name: &str) -> (r: Result<IpAddress, Error>)
    requires
        is_printable_ascii(b@),
    ensures
        outcome_of(r) == forwarded_value_outcome(b@, name@),
{
    let text = ascii_string(b);
    if scan_lone_quote_host(b) {
        return Err(
            Error::MalformedHeaderValue { header_name: name.to_owned(), header_value: text },
        );
    }
    let mut stanzas = match parse_stanzas(b) {
        None => {
            return Err(
                Error::MalformedHeaderValue { header_name: name.to_owned(), header_value: text },
            );
        },
        Some(v) => v,
    };
    match stanzas.pop() {
        None => Err(
            Error::MalformedHeaderValue { header_name: name.to_owned(), header_value: text },
        ),
        Some(st) => {
            let stanza_bytes = last_stanza_bytes(b);
            proof {
                lemma_last_stanza_printable(b@);
            }
            let stanza = ascii_string(&stanza_bytes);
            match st {
                StanzaFor::NoFor => Err(Error::ForwardedNoFor { header_value: stanza }),
                StanzaFor::Ip(ipb) => match parse_ip(&ipb) {
                    Some(ip) => Ok(ip),
                    None => Err(
                        Error::MalformedHeaderValue {
                            header_name: name.to_owned(),
                            header_value: text,
                        },
                    ),
                },
                StanzaFor::Obfuscated => Err(Error::ForwardedObfuscated { header_value: stanza }),
                StanzaFor::Unknown => Err(Error::ForwardedUnknown { header_value: stanza }),
            }
        },
    }
}

} // verus!
