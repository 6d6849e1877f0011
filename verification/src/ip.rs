//! IP addresses and the parser for their textual forms.
//!
//! An address is held structurally, as octets or hextets, so that every
//! rule about it can be stated over plain integers. The grammar accepted
//! here is the standard literal syntax: dotted decimal octets without
//! leading zeros for IPv4; colon-separated hexadecimal hextets for IPv6,
//! with at most one `::` abbreviation and an optional embedded IPv4
//! tail, without surrounding brackets.

use vstd::prelude::*;

verus! {

/// A structurally valid IP address: four octets, or eight hextets.
#[derive(Clone, Copy, Debug, PartialEq, Eq, Structural)]
pub enum IpAddress {
    V4(u8, u8, u8, u8),
    V6(u16, u16, u16, u16, u16, u16, u16, u16),
}

/// `'0'`
pub const DIGIT_0: u8 = 48;

/// `'9'`
pub const DIGIT_9: u8 = 57;

/// `'.'`
pub const DOT: u8 = 46;

/// `':'`
pub const COLON: u8 = 58;

/// `','`
pub const COMMA: u8 = 44;

/// `' '`
pub const SPACE: u8 = 32;

/// The index of the first occurrence of `sep`, or the length if there
/// is none.
pub open spec fn find_byte(s: Seq<u8>, sep: u8) -> int
    decreases s.len(),
{
    if s.len() == 0 {
        0
    } else if s[0] == sep {
        0
    } else {
        1 + find_byte(s.drop_first(), sep)
    }
}

/// The index of the last occurrence of `sep`, or `-1` if there is none.
pub open spec fn rfind_byte(s: Seq<u8>, sep: u8) -> int
    decreases s.len(),
{
    if s.len() == 0 {
        -1
    } else if s.last() == sep {
        s.len() - 1
    } else {
        rfind_byte(s.drop_last(), sep)
    }
}

/// The maximal `sep`-free pieces of `s`, in order: one piece more than
/// there are separators, and empty pieces where separators touch.
pub open spec fn split_on(s: Seq<u8>, sep: u8) -> Seq<Seq<u8>>
    decreases s.len(),
{
    let i = find_byte(s, sep);
    if 0 <= i < s.len() {
        seq![s.take(i)] + split_on(s.skip(i + 1), sep)
    } else {
        seq![s]
    }
}

/// `find_byte` is what its description says: the first occurrence.
pub proof fn lemma_find_byte_is(s: Seq<u8>, sep: u8, k: int)
    requires
        0 <= k <= s.len(),
        forall|j: int| 0 <= j < k ==> s[j] != sep,
        k < s.len() ==> s[k] == sep,
    ensures
        find_byte(s, sep) == k,
    decreases s.len(),
{
    if s.len() > 0 && k > 0 {
        lemma_find_byte_is(s.drop_first(), sep, k - 1);
    }
}

/// `rfind_byte` is what its description says: the last occurrence.
pub proof fn lemma_rfind_byte_is(s: Seq<u8>, sep: u8, k: int)
    requires
        -1 <= k < s.len(),
        forall|j: int| k < j < s.len() ==> s[j] != sep,
        0 <= k ==> s[k] == sep,
    ensures
        rfind_byte(s, sep) == k,
    decreases s.len(),
{
    if s.len() > 0 && k < s.len() - 1 {
        lemma_rfind_byte_is(s.drop_last(), sep, k);
    }
}

/// Walking past a separator-free head and one separator drops the first
/// piece of the split.
pub proof fn lemma_split_on_step(s: Seq<u8>, sep: u8, k: int)
    requires
        0 <= k < s.len(),
        forall|j: int| 0 <= j < k ==> s[j] != sep,
        s[k] == sep,
    ensures
        split_on(s, sep) == seq![s.take(k)] + split_on(s.skip(k + 1), sep),
{
    lemma_find_byte_is(s, sep, k);
}

/// A separator-free sequence is its own single piece.
pub proof fn lemma_split_on_whole(s: Seq<u8>, sep: u8)
    requires
        forall|j: int| 0 <= j < s.len() ==> s[j] != sep,
    ensures
        split_on(s, sep) == seq![s],
{
    lemma_find_byte_is(s, sep, s.len() as int);
}

/// Splitting after a separator-free head drops that head as the first
/// piece.
proof fn lemma_split_on_prepend(p: Seq<u8>, sep: u8, rest: Seq<u8>)
    requires
        forall|j: int| 0 <= j < p.len() ==> p[j] != sep,
    ensures
        split_on(p + seq![sep] + rest, sep) == seq![p] + split_on(rest, sep),
{
    let s = p + seq![sep] + rest;
    assert(s[p.len() as int] == sep);
    assert forall|j: int| 0 <= j < p.len() implies s[j] != sep by {
        assert(s[j] == p[j]);
    }
    lemma_split_on_step(s, sep, p.len() as int);
    assert(s.take(p.len() as int) =~= p);
    assert(s.skip(p.len() as int + 1) =~= rest);
}

/// Every piece of a split is made of the split text's own bytes, so a
/// printable text splits into printable pieces.
pub proof fn lemma_split_on_printable(s: Seq<u8>, sep: u8)
    requires
        forall|j: int| 0 <= j < s.len() ==> 32 <= #[trigger] s[j] <= 126,
    ensures
        forall|i: int, j: int|
            0 <= i < split_on(s, sep).len() && 0 <= j < split_on(s, sep)[i].len() ==> 32
                <= #[trigger] split_on(s, sep)[i][j] <= 126,
    decreases s.len(),
{
    let k = find_byte(s, sep);
    if 0 <= k < s.len() {
        let rest = s.skip(k + 1);
        assert forall|j: int| 0 <= j < rest.len() implies 32 <= #[trigger] rest[j] <= 126 by {
            assert(rest[j] == s[k + 1 + j]);
        }
        lemma_split_on_printable(rest, sep);
        assert forall|i: int, j: int|
            0 <= i < split_on(s, sep).len() && 0 <= j < split_on(s, sep)[i].len() implies 32
            <= #[trigger] split_on(s, sep)[i][j] <= 126 by {
            if i == 0 {
                assert(split_on(s, sep)[0] == s.take(k));
                assert(s.take(k)[j] == s[j]);
            } else {
                assert(split_on(s, sep)[i] == split_on(rest, sep)[i - 1]);
            }
        }
    }
}

/// Splits a byte string at every occurrence of `sep`.
pub fn split_bytes(v: &Vec<u8>, sep: u8) -> (r: Vec<Vec<u8>>)
    ensures
        r@.len() == split_on(v@, sep).len(),
        forall|i: int| 0 <= i < r@.len() ==> (#[trigger] r@[i])@ == split_on(v@, sep)[i],
{
    let mut r: Vec<Vec<u8>> = Vec::new();
    let mut cur: Vec<u8> = Vec::new();
    let mut start: usize = 0;
    let mut i: usize = 0;
    proof {
        assert(v@.skip(0) =~= v@);
        assert(r@.map_values(|p: Vec<u8>| p@) =~= Seq::<Seq<u8>>::empty());
        assert(cur@ =~= v@.subrange(0, 0));
    }
    while i < v.len()
        invariant
            0 <= start <= i <= v@.len(),
            cur@ == v@.subrange(start as int, i as int),
            forall|j: int| start <= j < i ==> v@[j] != sep,
            split_on(v@, sep) == r@.map_values(|p: Vec<u8>| p@) + split_on(
                v@.skip(start as int),
                sep,
            ),
        decreases v@.len() - i,
    {
        let b = v[i];
        if b == sep {
            proof {
                let rest = v@.skip(start as int);
                assert(rest[i - start] == sep);
                assert forall|j: int| 0 <= j < i - start implies rest[j] != sep by {
                    assert(rest[j] == v@[start + j]);
                }
                lemma_split_on_step(rest, sep, i - start);
                assert(rest.take(i - start) =~= v@.subrange(start as int, i as int));
                assert(rest.skip(i - start + 1) =~= v@.skip(i + 1));
            }
            let ghost old_r = r@;
            r.push(cur);
            proof {
                assert(r@.map_values(|p: Vec<u8>| p@) =~= old_r.map_values(|p: Vec<u8>| p@)
                    + seq![cur@]);
            }
            cur = Vec::new();
            start = i + 1;
        } else {
            cur.push(b);
            proof {
                assert(cur@ =~= v@.subrange(start as int, i + 1));
            }
        }
        i += 1;
    }
    proof {
        let rest = v@.skip(start as int);
        assert forall|j: int| 0 <= j < rest.len() implies rest[j] != sep by {
            assert(rest[j] == v@[start + j]);
        }
        lemma_split_on_whole(rest, sep);
        assert(rest =~= v@.subrange(start as int, v@.len() as int));
    }
    let ghost old_r = r@;
    r.push(cur);
    proof {
        assert(r@.map_values(|p: Vec<u8>| p@) =~= old_r.map_values(|p: Vec<u8>| p@) + seq![cur@]);
        assert forall|i: int| 0 <= i < r@.len() implies (#[trigger] r@[i])@ == split_on(
            v@,
            sep,
        )[i] by {
            assert(r@.map_values(|p: Vec<u8>| p@)[i] == r@[i]@);
        }
    }
    r
}

/// Finds the last occurrence of `sep`, as `rfind_byte` describes it.
pub fn rfind_byte_exec(v: &Vec<u8>, sep: u8) -> (r: Option<usize>)
    ensures
        match r {
            Some(i) => i < v@.len() && rfind_byte(v@, sep) == i,
            None => rfind_byte(v@, sep) == -1,
        },
{
    let mut i: usize = v.len();
    while i > 0
        invariant
            0 <= i <= v@.len(),
            forall|j: int| i <= j < v@.len() ==> v@[j] != sep,
        decreases i,
    {
        if v[i - 1] == sep {
            proof {
                lemma_rfind_byte_is(v@, sep, i - 1);
            }
            return Some(i - 1);
        }
        i -= 1;
    }
    proof {
        lemma_rfind_byte_is(v@, sep, -1);
    }
    None
}

/// Copies the bytes from `from` (inclusive) to `to` (exclusive).
pub fn vec_range(v: &Vec<u8>, from: usize, to: usize) -> (r: Vec<u8>)
    requires
        from <= to <= v@.len(),
    ensures
        r@ == v@.subrange(from as int, to as int),
{
    let mut r: Vec<u8> = Vec::new();
    let mut i: usize = from;
    while i < to
        invariant
            from <= i <= to <= v@.len(),
            r@ == v@.subrange(from as int, i as int),
        decreases to - i,
    {
        r.push(v[i]);
        proof {
            assert(r@ =~= v@.subrange(from as int, i + 1));
        }
        i += 1;
    }
    r
}

/// The index of the first `::`, or the length if there is none.
pub open spec fn find_dcolon(s: Seq<u8>) -> int
    decreases s.len(),
{
    if s.len() < 2 {
        s.len() as int
    } else if s[0] == COLON && s[1] == COLON {
        0
    } else {
        1 + find_dcolon(s.drop_first())
    }
}

/// `find_dcolon` is what its description says: the first `::`.
pub proof fn lemma_find_dcolon_is(s: Seq<u8>, k: int)
    requires
        0 <= k <= s.len(),
        forall|j: int|
            0 <= j < k && j + 1 < s.len() ==> !(#[trigger] s[j] == COLON && s[j + 1] == COLON),
        k < s.len() ==> k + 1 < s.len() && s[k] == COLON && s[k + 1] == COLON,
        k == s.len() - 1 ==> k == s.len(),
    ensures
        find_dcolon(s) == k,
    decreases s.len(),
{
    if s.len() >= 2 && k > 0 {
        lemma_find_dcolon_is(s.drop_first(), k - 1);
    }
}

/// Where `find_dcolon` finds something, both colons are in range.
pub proof fn lemma_find_dcolon_found(s: Seq<u8>)
    ensures
        0 <= find_dcolon(s) <= s.len(),
        find_dcolon(s) < s.len() ==> find_dcolon(s) + 1 < s.len() && s[find_dcolon(s)] == COLON
            && s[find_dcolon(s) + 1] == COLON,
    decreases s.len(),
{
    if s.len() >= 2 && !(s[0] == COLON && s[1] == COLON) {
        lemma_find_dcolon_found(s.drop_first());
    }
}

/// Finds the first `::`, as `find_dcolon` describes it.
pub fn find_double_colon(v: &Vec<u8>) -> (r: usize)
    ensures
        r == find_dcolon(v@),
{
    if v.len() < 2 {
        proof {
            lemma_find_dcolon_is(v@, v@.len() as int);
        }
        return v.len();
    }
    let mut i: usize = 0;
    while i < v.len() - 1
        invariant
            v@.len() >= 2,
            0 <= i <= v@.len(),
            forall|j: int|
                0 <= j < i && j + 1 < v@.len() ==> !(v@[j] == COLON && #[trigger] v@[j + 1]
                    == COLON),
        decreases v@.len() - i,
    {
        if v[i] == COLON && v[i + 1] == COLON {
            proof {
                lemma_find_dcolon_is(v@, i as int);
            }
            return i;
        }
        i += 1;
    }
    proof {
        lemma_find_dcolon_is(v@, v@.len() as int);
    }
    v.len()
}

/// The bytes left after the leading spaces.
pub open spec fn trim_start_spec(s: Seq<u8>) -> Seq<u8>
    decreases s.len(),
{
    if s.len() > 0 && s[0] == SPACE {
        trim_start_spec(s.drop_first())
    } else {
        s
    }
}

/// The bytes left after the trailing spaces.
pub open spec fn trim_end_spec(s: Seq<u8>) -> Seq<u8>
    decreases s.len(),
{
    if s.len() > 0 && s.last() == SPACE {
        trim_end_spec(s.drop_last())
    } else {
        s
    }
}

/// The bytes left after the leading and trailing spaces. Space is the
/// only whitespace that a guarded header value can hold, so this is
/// all the trimming the decoders need.
pub open spec fn trim_spec(s: Seq<u8>) -> Seq<u8> {
    trim_end_spec(trim_start_spec(s))
}

/// Dropping leading spaces is taking a suffix.
proof fn lemma_trim_start_skip(s: Seq<u8>, k: int)
    requires
        0 <= k <= s.len(),
        forall|j: int| 0 <= j < k ==> s[j] == SPACE,
        k < s.len() ==> s[k] != SPACE,
    ensures
        trim_start_spec(s) == s.skip(k),
    decreases s.len(),
{
    if s.len() > 0 && s[0] == SPACE {
        lemma_trim_start_skip(s.drop_first(), k - 1);
        assert(s.drop_first().skip(k - 1) =~= s.skip(k));
    } else {
        assert(s.skip(0) =~= s);
    }
}

/// Dropping trailing spaces is taking a prefix.
proof fn lemma_trim_end_take(s: Seq<u8>, k: int)
    requires
        0 <= k <= s.len(),
        forall|j: int| k <= j < s.len() ==> s[j] == SPACE,
        k > 0 ==> s[k - 1] != SPACE,
    ensures
        trim_end_spec(s) == s.take(k),
    decreases s.len(),
{
    if s.len() > 0 && s.last() == SPACE {
        lemma_trim_end_take(s.drop_last(), k);
        assert(s.drop_last().take(k) =~= s.take(k));
    } else {
        assert(s.take(s.len() as int) =~= s);
    }
}

/// Trimming keeps every remaining byte printable.
pub proof fn lemma_trim_printable(s: Seq<u8>)
    requires
        forall|j: int| 0 <= j < s.len() ==> 32 <= #[trigger] s[j] <= 126,
    ensures
        forall|j: int|
            0 <= j < trim_spec(s).len() ==> 32 <= #[trigger] trim_spec(s)[j] <= 126,
{
    lemma_trim_start_printable(s);
    lemma_trim_end_printable(trim_start_spec(s));
}

/// Dropping leading spaces keeps every remaining byte printable.
proof fn lemma_trim_start_printable(s: Seq<u8>)
    requires
        forall|j: int| 0 <= j < s.len() ==> 32 <= #[trigger] s[j] <= 126,
    ensures
        forall|j: int|
            0 <= j < trim_start_spec(s).len() ==> 32 <= #[trigger] trim_start_spec(s)[j] <= 126,
    decreases s.len(),
{
    if s.len() > 0 && s[0] == SPACE {
        assert forall|j: int| 0 <= j < s.drop_first().len() implies 32 <= #[trigger] s.drop_first()[j]
            <= 126 by {
            assert(s.drop_first()[j] == s[j + 1]);
        }
        lemma_trim_start_printable(s.drop_first());
        assert(trim_start_spec(s) == trim_start_spec(s.drop_first()));
    } else {
        assert(trim_start_spec(s) == s);
    }
}

/// Dropping trailing spaces keeps every remaining byte printable.
proof fn lemma_trim_end_printable(s: Seq<u8>)
    requires
        forall|j: int| 0 <= j < s.len() ==> 32 <= #[trigger] s[j] <= 126,
    ensures
        forall|j: int|
            0 <= j < trim_end_spec(s).len() ==> 32 <= #[trigger] trim_end_spec(s)[j] <= 126,
    decreases s.len(),
{
    if s.len() > 0 && s.last() == SPACE {
        assert forall|j: int| 0 <= j < s.drop_last().len() implies 32 <= #[trigger] s.drop_last()[j]
            <= 126 by {
            assert(s.drop_last()[j] == s[j]);
        }
        lemma_trim_end_printable(s.drop_last());
        assert(trim_end_spec(s) == trim_end_spec(s.drop_last()));
    } else {
        assert(trim_end_spec(s) == s);
    }
}

/// Removes leading and trailing spaces, as `trim_spec` describes it.
pub fn trim_bytes(v: &Vec<u8>) -> (r: Vec<u8>)
    ensures
        r@ == trim_spec(v@),
{
    let mut from: usize = 0;
    while from < v.len() && v[from] == SPACE
        invariant
            0 <= from <= v@.len(),
            forall|j: int| 0 <= j < from ==> v@[j] == SPACE,
        decreases v@.len() - from,
    {
        from += 1;
    }
    proof {
        lemma_trim_start_skip(v@, from as int);
    }
    let mut to: usize = v.len();
    while to > from && v[to - 1] == SPACE
        invariant
            from <= to <= v@.len(),
            forall|j: int| to <= j < v@.len() ==> v@[j] == SPACE,
        decreases to,
    {
        to -= 1;
    }
    proof {
        let tail = v@.skip(from as int);
        assert forall|j: int| to - from <= j < tail.len() implies tail[j] == SPACE by {
            assert(tail[j] == v@[from + j]);
        }
        if to > from {
            assert(tail[to - from - 1] == v@[to - 1]);
        }
        lemma_trim_end_take(tail, to - from);
        assert(tail.take(to - from) =~= v@.subrange(from as int, to as int));
    }
    vec_range(v, from, to)
}

/// A decimal digit.
pub open spec fn is_digit(b: u8) -> bool {
    DIGIT_0 <= b <= DIGIT_9
}

/// The value of a decimal digit.
pub open spec fn digit_val(b: u8) -> int {
    b - DIGIT_0
}

/// The number that a string of decimal digits denotes.
pub open spec fn dec_value(s: Seq<u8>) -> int
    decreases s.len(),
{
    if s.len() == 0 {
        0
    } else {
        dec_value(s.drop_last()) * 10 + digit_val(s.last())
    }
}

/// A decimal octet as IPv4 text writes it: one to three digits, no
/// leading zero, value at most 255.
pub open spec fn is_dec_octet(s: Seq<u8>) -> bool {
    &&& 1 <= s.len() <= 3
    &&& forall|i: int| 0 <= i < s.len() ==> is_digit(#[trigger] s[i])
    &&& s.len() > 1 ==> s[0] != DIGIT_0
    &&& dec_value(s) <= 255
}

/// A digit string's value is non-negative and bounded by its length.
pub proof fn lemma_dec_value_bound(s: Seq<u8>)
    requires
        forall|i: int| 0 <= i < s.len() ==> is_digit(#[trigger] s[i]),
    ensures
        0 <= dec_value(s),
        s.len() <= 1 ==> dec_value(s) <= 9,
        s.len() <= 2 ==> dec_value(s) <= 99,
        s.len() <= 3 ==> dec_value(s) <= 999,
    decreases s.len(),
{
    if s.len() > 0 {
        lemma_dec_value_bound(s.drop_last());
    }
}

/// Reads one decimal octet, as `is_dec_octet` describes it.
pub fn parse_dec_octet(v: &Vec<u8>) -> (r: Option<u8>)
    ensures
        r is Some <==> is_dec_octet(v@),
        r matches Some(x) ==> x == dec_value(v@),
{
    if v.len() < 1 || v.len() > 3 {
        return None;
    }
    if v.len() > 1 && v[0] == DIGIT_0 {
        return None;
    }
    let mut acc: u32 = 0;
    let mut i: usize = 0;
    while i < v.len()
        invariant
            0 <= i <= v@.len(),
            v@.len() <= 3,
            forall|j: int| 0 <= j < i ==> is_digit(#[trigger] v@[j]),
            acc == dec_value(v@.take(i as int)),
            acc <= 999,
        decreases v@.len() - i,
    {
        let b = v[i];
        if b < DIGIT_0 || b > DIGIT_9 {
            return None;
        }
        proof {
            assert(v@.take(i + 1).drop_last() =~= v@.take(i as int));
            assert(v@.take(i + 1).last() == v@[i as int]);
            lemma_dec_value_bound(v@.take(i + 1));
        }
        acc = acc * 10 + (b - DIGIT_0) as u32;
        i += 1;
    }
    proof {
        assert(v@.take(v@.len() as int) =~= v@);
    }
    if acc > 255 {
        return None;
    }
    Some(acc as u8)
}

/// A hexadecimal digit, in either case.
pub open spec fn is_hex_digit(b: u8) -> bool {
    is_digit(b) || 97 <= b <= 102 || 65 <= b <= 70
}

/// The value of a hexadecimal digit.
pub open spec fn hex_digit_val(b: u8) -> int {
    if is_digit(b) {
        b - DIGIT_0
    } else if 97 <= b <= 102 {
        b - 87
    } else {
        b - 55
    }
}

/// The number that a string of hexadecimal digits denotes.
pub open spec fn hex_value(s: Seq<u8>) -> int
    decreases s.len(),
{
    if s.len() == 0 {
        0
    } else {
        hex_value(s.drop_last()) * 16 + hex_digit_val(s.last())
    }
}

/// A hextet as IPv6 text writes it: one to four hexadecimal digits.
pub open spec fn is_hex_group(s: Seq<u8>) -> bool {
    &&& 1 <= s.len() <= 4
    &&& forall|i: int| 0 <= i < s.len() ==> is_hex_digit(#[trigger] s[i])
}

/// A hex string's value is non-negative and bounded by its length.
pub proof fn lemma_hex_value_bound(s: Seq<u8>)
    requires
        forall|i: int| 0 <= i < s.len() ==> is_hex_digit(#[trigger] s[i]),
    ensures
        0 <= hex_value(s),
        s.len() <= 4 ==> hex_value(s) <= 0xffff,
        s.len() <= 3 ==> hex_value(s) <= 0xfff,
        s.len() <= 2 ==> hex_value(s) <= 0xff,
        s.len() <= 1 ==> hex_value(s) <= 0xf,
    decreases s.len(),
{
    if s.len() > 0 {
        lemma_hex_value_bound(s.drop_last());
    }
}

/// Reads one hextet, as `is_hex_group` describes it.
pub fn parse_hex_group(v: &Vec<u8>) -> (r: Option<u16>)
    ensures
        r is Some <==> is_hex_group(v@),
        r matches Some(x) ==> x == hex_value(v@),
{
    if v.len() < 1 || v.len() > 4 {
        return None;
    }
    let mut acc: u32 = 0;
    let mut i: usize = 0;
    while i < v.len()
        invariant
            0 <= i <= v@.len(),
            v@.len() <= 4,
            forall|j: int| 0 <= j < i ==> is_hex_digit(#[trigger] v@[j]),
            acc == hex_value(v@.take(i as int)),
            acc <= 0xffff,
        decreases v@.len() - i,
    {
        let b = v[i];
        let d: u32 = if b >= DIGIT_0 && b <= DIGIT_9 {
            (b - DIGIT_0) as u32
        } else if b >= 97 && b <= 102 {
            (b - 87) as u32
        } else if b >= 65 && b <= 70 {
            (b - 55) as u32
        } else {
            return None;
        };
        proof {
            assert(v@.take(i + 1).drop_last() =~= v@.take(i as int));
            assert(v@.take(i + 1).last() == v@[i as int]);
            lemma_hex_value_bound(v@.take(i + 1));
        }
        acc = acc * 16 + d;
        i += 1;
    }
    proof {
        assert(v@.take(v@.len() as int) =~= v@);
    }
    Some(acc as u16)
}

/// An IPv4 literal: exactly four dot-separated decimal octets.
pub open spec fn ipv4_spec(s: Seq<u8>) -> Option<IpAddress> {
    let segs = split_on(s, DOT);
    if segs.len() == 4 && (forall|i: int| 0 <= i < 4 ==> is_dec_octet(#[trigger] segs[i])) {
        Some(
            IpAddress::V4(
                dec_value(segs[0]) as u8,
                dec_value(segs[1]) as u8,
                dec_value(segs[2]) as u8,
                dec_value(segs[3]) as u8,
            ),
        )
    } else {
        None
    }
}

/// Reads an IPv4 literal, as `ipv4_spec` describes it.
pub fn parse_ipv4(v: &Vec<u8>) -> (r: Option<IpAddress>)
    ensures
        r == ipv4_spec(v@),
{
    let segs = split_bytes(v, DOT);
    if segs.len() != 4 {
        return None;
    }
    let a = parse_dec_octet(&segs[0]);
    let b = parse_dec_octet(&segs[1]);
    let c = parse_dec_octet(&segs[2]);
    let d = parse_dec_octet(&segs[3]);
    match (a, b, c, d) {
        (Some(a), Some(b), Some(c), Some(d)) => Some(IpAddress::V4(a, b, c, d)),
        _ => None,
    }
}

/// The views of a vector of byte vectors.
pub open spec fn seg_views(segs: Seq<Vec<u8>>) -> Seq<Seq<u8>> {
    segs.map_values(|p: Vec<u8>| p@)
}

/// The hextets that a run of groups denotes, if every group is one.
pub open spec fn hex_groups(segs: Seq<Seq<u8>>) -> Option<Seq<u16>> {
    if forall|i: int| 0 <= i < segs.len() ==> is_hex_group(#[trigger] segs[i]) {
        Some(Seq::new(segs.len(), |i: int| hex_value(segs[i]) as u16))
    } else {
        None
    }
}

/// An embedded IPv4 tail read as two hextets.
pub open spec fn ipv4_groups(s: Seq<u8>) -> Option<Seq<u16>> {
    match ipv4_spec(s) {
        Some(ip) => match ip {
            IpAddress::V4(a, b, c, d) => Some(
                seq![((a as int) * 256 + b) as u16, ((c as int) * 256 + d) as u16],
            ),
            _ => None,
        },
        None => None,
    }
}

/// The hextets of the run that may end in an embedded IPv4 tail: either
/// every group is a hextet, or all but the last are and the last is an
/// IPv4 literal.
pub open spec fn tail_groups(segs: Seq<Seq<u8>>) -> Option<Seq<u16>> {
    match hex_groups(segs) {
        Some(g) => Some(g),
        None => if segs.len() >= 1 {
            match (hex_groups(segs.drop_last()), ipv4_groups(segs.last())) {
                (Some(g), Some(t)) => Some(g + t),
                _ => None,
            }
        } else {
            None
        },
    }
}

/// The hextets of an IPv6 literal without `::`: eight hextets, or six
/// and an embedded IPv4 tail.
pub open spec fn full_groups(segs: Seq<Seq<u8>>) -> Option<Seq<u16>> {
    if segs.len() == 8 {
        hex_groups(segs)
    } else if segs.len() == 7 {
        match (hex_groups(segs.drop_last()), ipv4_groups(segs.last())) {
            (Some(g), Some(t)) => Some(g + t),
            _ => None,
        }
    } else {
        None
    }
}

/// `n` zero hextets.
pub open spec fn zero_hextets(n: int) -> Seq<u16> {
    Seq::new(if n < 0 { 0 } else { n as nat }, |i: int| 0u16)
}

/// The address with these eight hextets.
pub open spec fn v6_from(g: Seq<u16>) -> IpAddress {
    IpAddress::V6(g[0], g[1], g[2], g[3], g[4], g[5], g[6], g[7])
}

/// An IPv6 literal: colon-separated hextets, at most one `::` standing
/// for at least one zero hextet, optionally ending in an embedded IPv4
/// tail, eight hextets in all.
pub open spec fn ipv6_spec(s: Seq<u8>) -> Option<IpAddress> {
    let d = find_dcolon(s);
    if 0 <= d < s.len() {
        let left = s.take(d);
        let right = s.skip(d + 2);
        let lg = if left.len() == 0 {
            Some(Seq::<u16>::empty())
        } else {
            hex_groups(split_on(left, COLON))
        };
        let rg = if right.len() == 0 {
            Some(Seq::<u16>::empty())
        } else {
            tail_groups(split_on(right, COLON))
        };
        match (lg, rg) {
            (Some(l), Some(t)) => if l.len() + t.len() <= 7 {
                Some(v6_from(l + zero_hextets(8 - l.len() - t.len()) + t))
            } else {
                None
            },
            _ => None,
        }
    } else {
        match full_groups(split_on(s, COLON)) {
            Some(g) => Some(v6_from(g)),
            None => None,
        }
    }
}

/// Reads the first `n` segments as hextets, as `hex_groups` describes
/// it on them.
fn parse_hex_groups(segs: &Vec<Vec<u8>>, n: usize) -> (r: Option<Vec<u16>>)
    requires
        n <= segs@.len(),
    ensures
        r is Some <==> hex_groups(seg_views(segs@).take(n as int)) is Some,
        r matches Some(g) ==> hex_groups(seg_views(segs@).take(n as int)) == Some(g@),
{
    let ghost svs = seg_views(segs@).take(n as int);
    let mut g: Vec<u16> = Vec::new();
    let mut i: usize = 0;
    while i < n
        invariant
            0 <= i <= n <= segs@.len(),
            svs == seg_views(segs@).take(n as int),
            g@.len() == i,
            forall|j: int| 0 <= j < i ==> is_hex_group(#[trigger] svs[j]),
            forall|j: int| 0 <= j < i ==> #[trigger] g@[j] == hex_value(svs[j]) as u16,
        decreases n - i,
    {
        proof {
            assert(svs[i as int] == segs@[i as int]@);
        }
        match parse_hex_group(&segs[i]) {
            Some(x) => {
                g.push(x);
            },
            None => {
                proof {
                    assert(!is_hex_group(svs[i as int]));
                }
                return None;
            },
        }
        i += 1;
    }
    proof {
        let expected = Seq::new(svs.len(), |i: int| hex_value(svs[i]) as u16);
        assert(g@ =~= expected);
    }
    Some(g)
}

/// Reads an embedded IPv4 tail as two hextets, as `ipv4_groups`
/// describes it.
fn parse_ipv4_groups(v: &Vec<u8>) -> (r: Option<(u16, u16)>)
    ensures
        r is Some <==> ipv4_groups(v@) is Some,
        r matches Some(p) ==> ipv4_groups(v@) == Some(seq![p.0, p.1]),
{
    match parse_ipv4(v) {
        Some(ip) => match ip {
            IpAddress::V4(a, b, c, d) => Some(
                ((a as u16) * 256 + (b as u16), (c as u16) * 256 + (d as u16)),
            ),
            _ => None,
        },
        None => None,
    }
}

/// Reads all segments as `tail_groups` describes them.
fn parse_tail_groups(segs: &Vec<Vec<u8>>) -> (r: Option<Vec<u16>>)
    ensures
        r is Some <==> tail_groups(seg_views(segs@)) is Some,
        r matches Some(g) ==> tail_groups(seg_views(segs@)) == Some(g@),
{
    let ghost svs = seg_views(segs@);
    proof {
        assert(svs.take(segs@.len() as int) =~= svs);
    }
    match parse_hex_groups(segs, segs.len()) {
        Some(g) => Some(g),
        None => {
            if segs.len() == 0 {
                return None;
            }
            proof {
                assert(svs.take(segs@.len() - 1) =~= svs.drop_last());
                assert(svs.last() == segs@[segs@.len() - 1]@);
            }
            let mut g = match parse_hex_groups(segs, segs.len() - 1) {
                Some(g) => g,
                None => {
                    return None;
                },
            };
            match parse_ipv4_groups(&segs[segs.len() - 1]) {
                Some((hi, lo)) => {
                    g.push(hi);
                    g.push(lo);
                    proof {
                        let head = hex_groups(svs.drop_last()).unwrap();
                        assert(g@ =~= head + seq![hi, lo]);
                    }
                    Some(g)
                },
                None => None,
            }
        },
    }
}

/// Reads an IPv6 literal, as `ipv6_spec` describes it.
pub fn parse_ipv6(v: &Vec<u8>) -> (r: Option<IpAddress>)
    ensures
        r == ipv6_spec(v@),
{
    let d = find_double_colon(v);
    proof {
        lemma_find_dcolon_found(v@);
    }
    if d < v.len() {
        let left = vec_range(v, 0, d);
        let right = vec_range(v, d + 2, v.len());
        proof {
            assert(left@ =~= v@.take(d as int));
            assert(right@ =~= v@.skip(d + 2));
        }
        let lg: Option<Vec<u16>> = if left.len() == 0 {
            Some(Vec::new())
        } else {
            let lsegs = split_bytes(&left, COLON);
            proof {
                assert(seg_views(lsegs@).take(lsegs@.len() as int) =~= seg_views(lsegs@));
                assert(seg_views(lsegs@) =~= split_on(left@, COLON));
            }
            parse_hex_groups(&lsegs, lsegs.len())
        };
        let rg: Option<Vec<u16>> = if right.len() == 0 {
            Some(Vec::new())
        } else {
            let rsegs = split_bytes(&right, COLON);
            proof {
                assert(seg_views(rsegs@) =~= split_on(right@, COLON));
            }
            parse_tail_groups(&rsegs)
        };
        match (lg, rg) {
            (Some(l), Some(mut t)) => {
                if l.len() <= 7 && t.len() <= 7 - l.len() {
                    let ghost lv = l@;
                    let ghost tv = t@;
                    let mut g = l;
                    let pad = 8 - g.len() - t.len();
                    let mut k: usize = 0;
                    while k < pad
                        invariant
                            0 <= k <= pad,
                            pad == 8 - lv.len() - tv.len(),
                            g@ == lv + zero_hextets(k as int),
                        decreases pad - k,
                    {
                        g.push(0);
                        proof {
                            assert(g@ =~= lv + zero_hextets(k + 1));
                        }
                        k += 1;
                    }
                    g.append(&mut t);
                    proof {
                        assert(g@ == lv + zero_hextets(8 - lv.len() - tv.len()) + tv);
                    }
                    Some(IpAddress::V6(g[0], g[1], g[2], g[3], g[4], g[5], g[6], g[7]))
                } else {
                    None
                }
            },
            _ => None,
        }
    } else {
        let segs = split_bytes(v, COLON);
        proof {
            assert(seg_views(segs@) =~= split_on(v@, COLON));
        }
        if segs.len() == 8 {
            proof {
                assert(seg_views(segs@).take(8) =~= seg_views(segs@));
            }
            match parse_hex_groups(&segs, 8) {
                Some(g) => Some(
                    IpAddress::V6(g[0], g[1], g[2], g[3], g[4], g[5], g[6], g[7]),
                ),
                None => None,
            }
        } else if segs.len() == 7 {
            proof {
                assert(seg_views(segs@).take(6) =~= seg_views(segs@).drop_last());
                assert(seg_views(segs@).last() == segs@[6]@);
            }
            let g = match parse_hex_groups(&segs, 6) {
                Some(g) => g,
                None => {
                    return None;
                },
            };
            match parse_ipv4_groups(&segs[6]) {
                Some((hi, lo)) => {
                    proof {
                        let head = hex_groups(seg_views(segs@).drop_last()).unwrap();
                        assert((g@ + seq![hi, lo]) =~= head + seq![hi, lo]);
                    }
                    Some(IpAddress::V6(g[0], g[1], g[2], g[3], g[4], g[5], hi, lo))
                },
                None => None,
            }
        } else {
            None
        }
    }
}

/// Whether the text is an IP literal of either family, and which.
pub open spec fn ip_spec(s: Seq<u8>) -> Option<IpAddress> {
    if ipv4_spec(s) is Some {
        ipv4_spec(s)
    } else {
        ipv6_spec(s)
    }
}

/// Reads an IP literal of either family, as `ip_spec` describes it.
pub fn parse_ip(v: &Vec<u8>) -> (r: Option<IpAddress>)
    ensures
        r == ip_spec(v@),
{
    match parse_ipv4(v) {
        Some(ip) => Some(ip),
        None => parse_ipv6(v),
    }
}

/// Reads a whole header value as one IP literal: surrounding spaces are
/// ignored, and nothing else may precede or follow the address.
pub fn parse_whole(v: &Vec<u8>) -> (r: Option<IpAddress>)
    ensures
        r == ip_spec(trim_spec(v@)),
{
    let t = trim_bytes(v);
    parse_ip(&t)
}

/// The decimal digits of `n`, most significant first, no leading zero.
pub open spec fn dec_digits(n: int) -> Seq<u8>
    decreases n,
{
    if n < 10 {
        seq![(DIGIT_0 + if n < 0 { 0 } else { n }) as u8]
    } else {
        dec_digits(n / 10) + seq![(DIGIT_0 + n % 10) as u8]
    }
}

/// The byte that writes one hexadecimal digit, in lower case.
pub open spec fn hex_digit_byte(d: int) -> u8 {
    if d < 10 {
        (DIGIT_0 + if d < 0 { 0 } else { d }) as u8
    } else {
        (87 + d) as u8
    }
}

/// The hexadecimal digits of `n`, most significant first, no leading
/// zero, in lower case.
pub open spec fn hex_digits(n: int) -> Seq<u8>
    decreases n,
{
    if n < 16 {
        seq![hex_digit_byte(if n < 0 { 0 } else { n })]
    } else {
        hex_digits(n / 16) + seq![hex_digit_byte(n % 16)]
    }
}

/// What `dec_digits` writes for an octet: a decimal octet that denotes
/// `n` again, in digits alone.
pub proof fn lemma_dec_digits(n: int)
    requires
        0 <= n <= 255,
    ensures
        is_dec_octet(dec_digits(n)),
        dec_value(dec_digits(n)) == n,
        n > 0 ==> dec_digits(n)[0] != DIGIT_0,
        n < 10 ==> dec_digits(n).len() == 1,
        n < 100 ==> dec_digits(n).len() <= 2,
    decreases n,
{
    if n < 10 {
        let s = dec_digits(n);
        assert(s =~= seq![(DIGIT_0 + n) as u8]);
        assert(s.drop_last() =~= Seq::<u8>::empty());
        assert(dec_value(Seq::<u8>::empty()) == 0);
        assert(dec_value(s) == digit_val(s.last()));
    } else {
        lemma_dec_digits(n / 10);
        let head = dec_digits(n / 10);
        let d = (DIGIT_0 + n % 10) as u8;
        let s = head + seq![d];
        assert(s.drop_last() =~= head);
        assert(s.last() == d);
        assert(dec_value(s) == dec_value(head) * 10 + digit_val(d));
        assert(n / 10 * 10 + n % 10 == n);
        assert(n / 10 <= 25);
        assert(head.len() <= 2);
        assert forall|i: int| 0 <= i < s.len() implies is_digit(#[trigger] s[i]) by {
            if i < head.len() {
                assert(s[i] == head[i]);
            } else {
                assert(s[i] == d);
            }
        }
        assert(s[0] == head[0]);
    }
}

/// What `hex_digits` writes for a hextet: a hextet group that denotes
/// `n` again, in hexadecimal digits alone.
pub proof fn lemma_hex_digits(n: int)
    requires
        0 <= n <= 0xffff,
    ensures
        is_hex_group(hex_digits(n)),
        hex_value(hex_digits(n)) == n,
        n < 16 ==> hex_digits(n).len() == 1,
        n < 256 ==> hex_digits(n).len() <= 2,
        n < 4096 ==> hex_digits(n).len() <= 3,
    decreases n,
{
    if n < 16 {
        let s = hex_digits(n);
        assert(s =~= seq![hex_digit_byte(n)]);
        assert(s.drop_last() =~= Seq::<u8>::empty());
        assert(hex_value(Seq::<u8>::empty()) == 0);
        assert(is_hex_digit(hex_digit_byte(n)));
        assert(hex_digit_val(hex_digit_byte(n)) == n);
        assert(hex_value(s) == hex_digit_val(s.last()));
    } else {
        lemma_hex_digits(n / 16);
        let head = hex_digits(n / 16);
        let d = hex_digit_byte(n % 16);
        let s = head + seq![d];
        assert(s.drop_last() =~= head);
        assert(s.last() == d);
        assert(hex_value(s) == hex_value(head) * 16 + hex_digit_val(d));
        assert(n / 16 * 16 + n % 16 == n);
        assert(n / 16 <= 0xfff);
        assert(head.len() <= 3);
        assert(is_hex_digit(d) && hex_digit_val(d) == n % 16);
        assert forall|i: int| 0 <= i < s.len() implies is_hex_digit(#[trigger] s[i]) by {
            if i < head.len() {
                assert(s[i] == head[i]);
            } else {
                assert(s[i] == d);
            }
        }
    }
}

/// The text of an address: dotted decimal octets for IPv4; all eight
/// hextets in lower-case hexadecimal, colon-separated and never
/// abbreviated, for IPv6.
pub open spec fn render_spec(ip: IpAddress) -> Seq<u8> {
    match ip {
        IpAddress::V4(a, b, c, d) => dec_digits(a as int) + seq![DOT] + dec_digits(b as int)
            + seq![DOT] + dec_digits(c as int) + seq![DOT] + dec_digits(d as int),
        IpAddress::V6(g0, g1, g2, g3, g4, g5, g6, g7) => render_groups(
            seq![g0, g1, g2, g3, g4, g5, g6, g7],
        ),
    }
}

/// The colon-separated hextet groups of an IPv6 rendering.
pub open spec fn render_groups(gs: Seq<u16>) -> Seq<u8>
    decreases gs.len(),
{
    if gs.len() == 0 {
        Seq::empty()
    } else if gs.len() == 1 {
        hex_digits(gs[0] as int)
    } else {
        hex_digits(gs[0] as int) + seq![COLON] + render_groups(gs.drop_first())
    }
}

/// Structure of an IPv6 rendering: it starts and ends in a hexadecimal
/// digit, holds no dot, no space, and no `::`, and splits at colons
/// back into exactly the written hextet groups.
proof fn lemma_render_groups(gs: Seq<u16>)
    requires
        gs.len() >= 1,
    ensures
        render_groups(gs).len() >= 1,
        is_hex_digit(render_groups(gs)[0]),
        is_hex_digit(render_groups(gs).last()),
        forall|j: int|
            0 <= j < render_groups(gs).len() ==> #[trigger] render_groups(gs)[j] != DOT
                && render_groups(gs)[j] != SPACE && 32 <= render_groups(gs)[j] < 127,
        forall|j: int|
            0 <= j < render_groups(gs).len() - 1 ==> !(#[trigger] render_groups(gs)[j] == COLON
                && render_groups(gs)[j + 1] == COLON),
        split_on(render_groups(gs), COLON).len() == gs.len(),
        forall|i: int|
            0 <= i < gs.len() ==> #[trigger] split_on(render_groups(gs), COLON)[i] == hex_digits(
                gs[i] as int,
            ),
    decreases gs.len(),
{
    let s = render_groups(gs);
    if gs.len() == 1 {
        lemma_hex_digits(gs[0] as int);
        assert(s == hex_digits(gs[0] as int));
        lemma_split_on_whole(s, COLON);
        assert(split_on(s, COLON)[0] == s);
    } else {
        let h = hex_digits(gs[0] as int);
        let rest = render_groups(gs.drop_first());
        lemma_hex_digits(gs[0] as int);
        lemma_render_groups(gs.drop_first());
        assert(s == h + seq![COLON] + rest);
        assert forall|j: int| 0 <= j < s.len() implies #[trigger] s[j] != DOT && s[j] != SPACE
            && 32 <= s[j] < 127 by {
            if j < h.len() {
                assert(s[j] == h[j]);
                assert(is_hex_digit(h[j]));
            } else if j == h.len() {
                assert(s[j] == COLON);
            } else {
                assert(s[j] == rest[j - h.len() - 1]);
            }
        }
        assert(s[0] == h[0]);
        assert(s.last() == rest.last());
        assert forall|j: int|
            0 <= j < s.len() - 1 implies !(#[trigger] s[j] == COLON && s[j + 1] == COLON) by {
            if j < h.len() {
                assert(s[j] == h[j] || (j == h.len() - 1 && s[j] == h[j]));
                assert(is_hex_digit(h[j]));
            } else if j == h.len() {
                assert(s[j + 1] == rest[0]);
                assert(is_hex_digit(rest[0]));
            } else {
                assert(s[j] == rest[j - h.len() - 1]);
                assert(s[j + 1] == rest[j - h.len()]);
            }
        }
        lemma_split_on_prepend(h, COLON, rest);
        assert forall|i: int|
            0 <= i < gs.len() implies #[trigger] split_on(s, COLON)[i] == hex_digits(
            gs[i] as int,
        ) by {
            if i == 0 {
                assert(split_on(s, COLON)[0] == h);
            } else {
                assert(split_on(s, COLON)[i] == split_on(rest, COLON)[i - 1]);
                assert(gs.drop_first()[i - 1] == gs[i]);
            }
        }
    }
}

/// Writes the decimal digits of one octet.
fn push_dec_octet(out: &mut Vec<u8>, n: u8)
    ensures
        final(out)@ == old(out)@ + dec_digits(n as int),
{
    proof {
        reveal_with_fuel(dec_digits, 4);
    }
    if n >= 100 {
        out.push(DIGIT_0 + n / 100);
        out.push(DIGIT_0 + (n / 10) % 10);
        out.push(DIGIT_0 + n % 10);
        proof {
            assert(out@ =~= old(out)@ + dec_digits(n as int));
        }
    } else if n >= 10 {
        out.push(DIGIT_0 + n / 10);
        out.push(DIGIT_0 + n % 10);
        proof {
            assert(out@ =~= old(out)@ + dec_digits(n as int));
        }
    } else {
        out.push(DIGIT_0 + n);
        proof {
            assert(out@ =~= old(out)@ + dec_digits(n as int));
        }
    }
}

/// Writes one hexadecimal digit, in lower case.
fn push_hex_digit(out: &mut Vec<u8>, d: u16)
    requires
        d < 16,
    ensures
        final(out)@ == old(out)@ + seq![hex_digit_byte(d as int)],
{
    if d < 10 {
        out.push(DIGIT_0 + d as u8);
    } else {
        out.push(87 + d as u8);
    }
    proof {
        assert(out@ =~= old(out)@ + seq![hex_digit_byte(d as int)]);
    }
}

/// Writes the hexadecimal digits of one hextet, in lower case.
fn push_hex_group(out: &mut Vec<u8>, n: u16)
    ensures
        final(out)@ == old(out)@ + hex_digits(n as int),
{
    proof {
        reveal_with_fuel(hex_digits, 5);
    }
    if n >= 4096 {
        push_hex_digit(out, n / 4096);
        push_hex_digit(out, (n / 256) % 16);
        push_hex_digit(out, (n / 16) % 16);
        push_hex_digit(out, n % 16);
        proof {
            assert(out@ =~= old(out)@ + hex_digits(n as int));
        }
    } else if n >= 256 {
        push_hex_digit(out, n / 256);
        push_hex_digit(out, (n / 16) % 16);
        push_hex_digit(out, n % 16);
        proof {
            assert(out@ =~= old(out)@ + hex_digits(n as int));
        }
    } else if n >= 16 {
        push_hex_digit(out, n / 16);
        push_hex_digit(out, n % 16);
        proof {
            assert(out@ =~= old(out)@ + hex_digits(n as int));
        }
    } else {
        push_hex_digit(out, n);
        proof {
            assert(out@ =~= old(out)@ + hex_digits(n as int));
        }
    }
}

/// An eight-hextet rendering, written out flat.
#[verifier::rlimit(100)]
proof fn lemma_render_groups_eight(gs: Seq<u16>)
    requires
        gs.len() == 8,
    ensures
        render_groups(gs) == hex_digits(gs[0] as int) + seq![COLON] + hex_digits(gs[1] as int)
            + seq![COLON] + hex_digits(gs[2] as int) + seq![COLON] + hex_digits(gs[3] as int)
            + seq![COLON] + hex_digits(gs[4] as int) + seq![COLON] + hex_digits(gs[5] as int)
            + seq![COLON] + hex_digits(gs[6] as int) + seq![COLON] + hex_digits(gs[7] as int),
{
    let t7 = seq![gs[7]];
    let t6 = seq![gs[6], gs[7]];
    let t5 = seq![gs[5], gs[6], gs[7]];
    let t4 = seq![gs[4], gs[5], gs[6], gs[7]];
    let t3 = seq![gs[3], gs[4], gs[5], gs[6], gs[7]];
    let t2 = seq![gs[2], gs[3], gs[4], gs[5], gs[6], gs[7]];
    let t1 = seq![gs[1], gs[2], gs[3], gs[4], gs[5], gs[6], gs[7]];
    assert(render_groups(t7) == hex_digits(gs[7] as int));
    assert(t6.drop_first() =~= t7);
    assert(render_groups(t6) == hex_digits(gs[6] as int) + seq![COLON] + render_groups(t7));
    assert(t5.drop_first() =~= t6);
    assert(render_groups(t5) == hex_digits(gs[5] as int) + seq![COLON] + render_groups(t6));
    assert(t4.drop_first() =~= t5);
    assert(render_groups(t4) == hex_digits(gs[4] as int) + seq![COLON] + render_groups(t5));
    assert(t3.drop_first() =~= t4);
    assert(render_groups(t3) == hex_digits(gs[3] as int) + seq![COLON] + render_groups(t4));
    assert(t2.drop_first() =~= t3);
    assert(render_groups(t2) == hex_digits(gs[2] as int) + seq![COLON] + render_groups(t3));
    assert(t1.drop_first() =~= t2);
    assert(render_groups(t1) == hex_digits(gs[1] as int) + seq![COLON] + render_groups(t2));
    assert(gs.drop_first() =~= t1);
    assert(render_groups(gs) == hex_digits(gs[0] as int) + seq![COLON] + render_groups(t1));
    assert(render_groups(gs) =~= hex_digits(gs[0] as int) + seq![COLON] + hex_digits(gs[1] as int)
        + seq![COLON] + hex_digits(gs[2] as int) + seq![COLON] + hex_digits(gs[3] as int)
        + seq![COLON] + hex_digits(gs[4] as int) + seq![COLON] + hex_digits(gs[5] as int)
        + seq![COLON] + hex_digits(gs[6] as int) + seq![COLON] + hex_digits(gs[7] as int));
}

/// Writes an address back as text, as `render_spec` describes it.
#[verifier::rlimit(60)]
pub fn render_ip(ip: &IpAddress) -> (r: Vec<u8>)
    ensures
        r@ == render_spec(*ip),
{
    let mut out: Vec<u8> = Vec::new();
    match ip {
        IpAddress::V4(a, b, c, d) => {
            push_dec_octet(&mut out, *a);
            out.push(DOT);
            push_dec_octet(&mut out, *b);
            out.push(DOT);
            push_dec_octet(&mut out, *c);
            out.push(DOT);
            push_dec_octet(&mut out, *d);
            proof {
                assert(out@ =~= render_spec(*ip));
            }
        },
        IpAddress::V6(g0, g1, g2, g3, g4, g5, g6, g7) => {
            push_hex_group(&mut out, *g0);
            out.push(COLON);
            push_hex_group(&mut out, *g1);
            out.push(COLON);
            push_hex_group(&mut out, *g2);
            out.push(COLON);
            push_hex_group(&mut out, *g3);
            out.push(COLON);
            push_hex_group(&mut out, *g4);
            out.push(COLON);
            push_hex_group(&mut out, *g5);
            out.push(COLON);
            push_hex_group(&mut out, *g6);
            out.push(COLON);
            push_hex_group(&mut out, *g7);
            proof {
                let gs = seq![*g0, *g1, *g2, *g3, *g4, *g5, *g6, *g7];
                lemma_render_groups_eight(gs);
                assert(out@ =~= render_groups(gs));
            }
        },
    }
    out
}

/// A rendering holds only printable ASCII.
pub proof fn lemma_render_printable(ip: IpAddress)
    ensures
        forall|j: int|
            0 <= j < render_spec(ip).len() ==> 32 <= #[trigger] render_spec(ip)[j] < 127,
{
    match ip {
        IpAddress::V4(a, b, c, d) => {
            lemma_dec_digits(a as int);
            lemma_dec_digits(b as int);
            lemma_dec_digits(c as int);
            lemma_dec_digits(d as int);
            let oct_a = dec_digits(a as int);
            let oct_b = dec_digits(b as int);
            let oct_c = dec_digits(c as int);
            let oct_d = dec_digits(d as int);
            let s = render_spec(ip);
            assert forall|j: int| 0 <= j < s.len() implies 32 <= #[trigger] s[j] < 127 by {
                assert(s[j] == oct_a[j] || s[j] == DOT || s[j] == oct_b[j - oct_a.len() - 1] || s[j]
                    == oct_c[j - oct_a.len() - oct_b.len() - 2] || s[j] == oct_d[j - oct_a.len() - oct_b.len()
                    - oct_c.len() - 3]);
            }
        },
        IpAddress::V6(g0, g1, g2, g3, g4, g5, g6, g7) => {
            let gs = seq![g0, g1, g2, g3, g4, g5, g6, g7];
            lemma_render_groups(gs);
            assert(render_spec(ip) == render_groups(gs));
        },
    }
}

/// Writes an address as text.
pub fn render_text(ip: &IpAddress) -> (r: String)
    ensures
        r@ == crate::ascii::chars_of(render_spec(*ip)),
{
    let b = render_ip(ip);
    proof {
        lemma_render_printable(*ip);
    }
    crate::ascii::ascii_string(&b)
}

/// An address's rendering re-parses, whole, as the same address.
///
/// Law: any address this crate hands out, written back to text with
/// `render_spec` and read again by the whole-value parser — trimming
/// included — comes back unchanged.
#[verifier::rlimit(100)]
pub proof fn lemma_render_parse_round_trip(ip: IpAddress)
    ensures
        ip_spec(trim_spec(render_spec(ip))) == Some(ip),
{
    match ip {
        IpAddress::V4(a, b, c, d) => {
            let oct_a = dec_digits(a as int);
            let oct_b = dec_digits(b as int);
            let oct_c = dec_digits(c as int);
            let oct_d = dec_digits(d as int);
            lemma_dec_digits(a as int);
            lemma_dec_digits(b as int);
            lemma_dec_digits(c as int);
            lemma_dec_digits(d as int);
            let s = render_spec(ip);
            assert(s[0] == oct_a[0]);
            assert(s.last() == oct_d.last());
            assert(is_digit(s[0]) && is_digit(s.last()));
            assert(trim_start_spec(s) == s);
            assert(trim_end_spec(s) == s);
            lemma_split_on_whole(oct_d, DOT);
            assert(oct_c + seq![DOT] + oct_d =~= s.skip(oct_a.len() as int + 1 + oct_b.len() as int + 1));
            lemma_split_on_prepend(oct_c, DOT, oct_d);
            lemma_split_on_prepend(oct_b, DOT, oct_c + seq![DOT] + oct_d);
            assert(s =~= oct_a + seq![DOT] + (oct_b + seq![DOT] + (oct_c + seq![DOT] + oct_d)));
            lemma_split_on_prepend(oct_a, DOT, oct_b + seq![DOT] + (oct_c + seq![DOT] + oct_d));
            let segs = split_on(s, DOT);
            assert(segs =~= seq![oct_a, oct_b, oct_c, oct_d]);
            assert(ipv4_spec(s) == Some(ip));
        },
        IpAddress::V6(g0, g1, g2, g3, g4, g5, g6, g7) => {
            let gs = seq![g0, g1, g2, g3, g4, g5, g6, g7];
            lemma_render_groups(gs);
            let s = render_groups(gs);
            assert(render_spec(ip) == s);
            assert(!(s[0] == SPACE) && !(s.last() == SPACE));
            assert(trim_start_spec(s) == s);
            assert(trim_end_spec(s) == s);
            lemma_split_on_whole(s, DOT);
            assert(split_on(s, DOT).len() == 1);
            assert(ipv4_spec(s) is None);
            lemma_find_dcolon_is(s, s.len() as int);
            let segs = split_on(s, COLON);
            assert forall|i: int| 0 <= i < 8 implies is_hex_group(#[trigger] segs[i]) by {
                lemma_hex_digits(gs[i] as int);
            }
            assert forall|i: int|
                0 <= i < 8 implies hex_value(#[trigger] segs[i]) == gs[i] as int by {
                lemma_hex_digits(gs[i] as int);
            }
            let g = hex_groups(segs).unwrap();
            assert(g =~= gs);
            assert(v6_from(g) == ip);
            assert(ipv6_spec(s) == Some(ip));
        },
    }
}

} // verus!
