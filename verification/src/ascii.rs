//! The guard that admits only printable ASCII header values.
//!
//! Every decoder in this crate works on header bytes that have passed
//! this guard, so all later text handling is unambiguous.

use vstd::prelude::*;

verus! {

/// A byte that is a visible ASCII character or a space.
pub open spec fn is_printable_byte(b: u8) -> bool {
    32 <= b <= 126
}

/// The whole value consists of visible ASCII characters and spaces.
pub open spec fn is_printable_ascii(s: Seq<u8>) -> bool {
    forall|i: int| 0 <= i < s.len() ==> is_printable_byte(#[trigger] s[i])
}

/// The text that a sequence of ASCII bytes spells.
pub open spec fn chars_of(s: Seq<u8>) -> Seq<char> {
    Seq::new(s.len(), |i: int| s[i] as char)
}

/// Decides `is_printable_ascii` for a concrete value.
pub fn check_printable(v: &Vec<u8>) -> (r: bool)
    ensures
        r == is_printable_ascii(v@),
{
    let mut i: usize = 0;
    while i < v.len()
        invariant
            0 <= i <= v@.len(),
            forall|j: int| 0 <= j < i ==> is_printable_byte(#[trigger] v@[j]),
        decreases v@.len() - i,
    {
        let b = v[i];
        if b < 32 || b > 126 {
            return false;
        }
        i += 1;
    }
    true
}

/// Relies on `String::from_utf8`: ASCII bytes are valid UTF-8 and decode
/// to the characters with the same code points.
#[verifier::external_body]
pub(crate) fn ascii_string(v: &Vec<u8>) -> (r: String)
    requires
        forall|i: int| 0 <= i < v@.len() ==> v@[i] < 128,
    ensures
        r@ == chars_of(v@),
{
    String::from_utf8(v.clone()).unwrap()
}

} // verus!
