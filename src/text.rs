//! Byte-level helpers shared by the header parser: tag comparison, decimal
//! integers and UTF-8 decoding.
use vstd::prelude::*;

verus! {

/// The bytes of an ASCII string, one per character.
pub open spec fn ascii_of(s: Seq<char>) -> Seq<u8> {
    s.map_values(|c: char| c as u8)
}

pub open spec fn is_digit(b: u8) -> bool {
    48 <= b <= 57
}

pub open spec fn all_digits(s: Seq<u8>) -> bool {
    forall|i: int| 0 <= i < s.len() ==> is_digit(#[trigger] s[i])
}

/// The value of a string of decimal digits, most significant first.
pub open spec fn digits_value(s: Seq<u8>) -> nat
    decreases s.len(),
{
    if s.len() == 0 {
        0
    } else {
        digits_value(s.drop_last()) * 10 + (s.last() - 48) as nat
    }
}

/// An unsigned decimal: at least one digit, nothing else, at most `max`.
pub open spec fn unsigned_value(s: Seq<u8>, max: int) -> Option<int> {
    if s.len() > 0 && all_digits(s) && digits_value(s) <= max {
        Some(digits_value(s) as int)
    } else {
        None
    }
}

/// A decimal with an optional leading `+` or `-`, within `min..=max`.
pub open spec fn signed_value(s: Seq<u8>, min: int, max: int) -> Option<int> {
    if s.len() > 0 && s[0] == 43 {
        unsigned_value(s.drop_first(), max)
    } else if s.len() > 0 && s[0] == 45 {
        let t = s.drop_first();
        if t.len() > 0 && all_digits(t) && -digits_value(t) >= min {
            Some(-digits_value(t))
        } else {
            None
        }
    } else {
        unsigned_value(s, max)
    }
}

/// Relies on btoi::btou: Ok exactly for a non-empty run of ASCII digits whose
/// value fits in a u64, with that value.
#[verifier::external_body]
pub(crate) fn parse_u64(b: &[u8]) -> (r: Option<u64>)
    ensures
        unsigned_value(b@, u64::MAX as int) == match r {
            Some(n) => Some(n as int),
            None => None::<int>,
        },
{
    btoi::btou::<u64>(b).ok()
}

/// Relies on btoi::btoi: like `btou` with an optional leading sign, Ok exactly
/// when the value fits in an i32.
#[verifier::external_body]
pub(crate) fn parse_i32(b: &[u8]) -> (r: Option<i32>)
    ensures
        signed_value(b@, i32::MIN as int, i32::MAX as int) == match r {
            Some(n) => Some(n as int),
            None => None::<int>,
        },
{
    btoi::btoi::<i32>(b).ok()
}

/// Relies on String::from_utf8: Ok exactly for valid UTF-8, holding the
/// decoded characters.
#[verifier::external_body]
pub(crate) fn decode_utf8(b: &[u8]) -> (r: Option<String>)
    ensures
        r is Some <==> vstd::utf8::valid_utf8(b@),
        r matches Some(s) ==> s@ == vstd::utf8::decode_utf8(b@),
{
    String::from_utf8(b.to_vec()).ok()
}

pub fn same_bytes(a: &[u8], b: &[u8]) -> (r: bool)
    ensures
        r == (a@ == b@),
{
    if a.len() != b.len() {
        return false;
    }
    let mut i: usize = 0;
    while i < a.len()
        invariant
            a@.len() == b@.len(),
            i <= a@.len(),
            forall|j: int| 0 <= j < i ==> a@[j] == b@[j],
        decreases a@.len() - i,
    {
        if a[i] != b[i] {
            return false;
        }
        i = i + 1;
    }
    assert(a@ =~= b@);
    true
}

/// Whether `key` spells the ASCII string `tag`.
pub fn key_is(key: &[u8], tag: &str) -> (r: bool)
    requires
        vstd::string::is_ascii(tag),
    ensures
        r == (key@ == ascii_of(tag@)),
{
    proof {
        vstd::string::is_ascii_spec_bytes(tag);
    }
    let b = tag.as_bytes();
    let r = same_bytes(key, b);
    proof {
        assert(b@ =~= ascii_of(tag@));
    }
    r
}

/// Byte strings in lexicographic order: `a` comes strictly after `b`.
pub open spec fn bytes_after(a: Seq<u8>, b: Seq<u8>) -> bool
    decreases a.len(),
{
    if a.len() == 0 {
        false
    } else if b.len() == 0 {
        true
    } else if a[0] != b[0] {
        a[0] > b[0]
    } else {
        bytes_after(a.drop_first(), b.drop_first())
    }
}

pub fn bytes_after_exec(a: &[u8], b: &[u8]) -> (r: bool)
    ensures
        r == bytes_after(a@, b@),
{
    let mut i: usize = 0;
    assert(a@.skip(0) =~= a@);
    assert(b@.skip(0) =~= b@);
    while i < a.len() && i < b.len() && a[i] == b[i]
        invariant
            i <= a@.len(),
            i <= b@.len(),
            bytes_after(a@, b@) == bytes_after(a@.skip(i as int), b@.skip(i as int)),
        decreases a@.len() - i,
    {
        assert(a@.skip(i as int).drop_first() =~= a@.skip(i + 1));
        assert(b@.skip(i as int).drop_first() =~= b@.skip(i + 1));
        i = i + 1;
    }
    if i == a.len() {
        false
    } else if i == b.len() {
        true
    } else {
        a[i] > b[i]
    }
}

/// The order is strict: no byte string comes after itself or after one that
/// comes after it.
pub proof fn lemma_bytes_after_asymmetric(a: Seq<u8>, b: Seq<u8>)
    ensures
        bytes_after(a, b) ==> !bytes_after(b, a) && a != b,
    decreases a.len(),
{
    if a.len() > 0 && b.len() > 0 && a[0] == b[0] {
        lemma_bytes_after_asymmetric(a.drop_first(), b.drop_first());
    }
}

/// Two different byte strings are ordered one way or the other.
pub proof fn lemma_bytes_after_total(a: Seq<u8>, b: Seq<u8>)
    ensures
        a != b ==> bytes_after(a, b) || bytes_after(b, a),
    decreases a.len(),
{
    if a.len() == 0 {
        if b.len() == 0 {
            assert(a =~= b);
        }
    } else if b.len() > 0 && a[0] == b[0] {
        lemma_bytes_after_total(a.drop_first(), b.drop_first());
        if a.drop_first() == b.drop_first() {
            assert(a =~= seq![a[0]] + a.drop_first());
            assert(b =~= seq![b[0]] + b.drop_first());
        }
    }
}

pub proof fn lemma_bytes_after_transitive(a: Seq<u8>, b: Seq<u8>, c: Seq<u8>)
    requires
        bytes_after(a, b),
        bytes_after(b, c),
    ensures
        bytes_after(a, c),
    decreases a.len(),
{
    if a.len() > 0 && b.len() > 0 && c.len() > 0 && a[0] == b[0] && b[0] == c[0] {
        lemma_bytes_after_transitive(a.drop_first(), b.drop_first(), c.drop_first());
    }
}

} // verus!
