//! Byte-level text helpers: decimal numbers, ASCII digits and the conversion
//! of rendered bytes into `String`s.

use vstd::prelude::*;
use vstd::utf8::*;

verus! {

/// An ASCII decimal digit.
pub open spec fn is_digit(b: u8) -> bool {
    48 <= b && b <= 57
}

/// Every byte of `s` is an ASCII decimal digit.
pub open spec fn all_digits(s: Seq<u8>) -> bool {
    forall|i: int| 0 <= i < s.len() ==> is_digit(#[trigger] s[i])
}

/// The value of a string of decimal digits, read most significant first.
pub open spec fn digits_value(s: Seq<u8>) -> int
    decreases s.len(),
{
    if s.len() == 0 {
        0
    } else {
        digits_value(s.drop_last()) * 10 + (s.last() - 48)
    }
}

/// A decimal numeral whose value fits in `usize`: at least one ASCII digit,
/// no sign, and no leading zero (`0` alone reads as zero, which the selector
/// grammar then rejects as below 1).
pub open spec fn spec_parse_numeral(s: Seq<u8>) -> Option<usize> {
    if s.len() > 0 && all_digits(s) && (s[0] != 48u8 || s.len() == 1) && digits_value(s)
        <= usize::MAX {
        Some(digits_value(s) as usize)
    } else {
        None
    }
}

/// The decimal representation of `n`, without sign or leading zeros.
pub open spec fn dec_bytes(n: nat) -> Seq<u8>
    decreases n,
{
    if n < 10 {
        seq![(n + 48) as u8]
    } else {
        dec_bytes(n / 10).push(((n % 10) + 48) as u8)
    }
}

proof fn lemma_digits_value_step(s: Seq<u8>, a: int, i: int)
    requires
        0 <= a <= i < s.len(),
    ensures
        digits_value(s.subrange(a, i + 1)) == digits_value(s.subrange(a, i)) * 10 + (s[i] - 48),
{
    assert(s.subrange(a, i + 1).drop_last() =~= s.subrange(a, i));
}

pub proof fn lemma_digits_value_nonneg(s: Seq<u8>)
    requires
        all_digits(s),
    ensures
        digits_value(s) >= 0,
    decreases s.len(),
{
    if s.len() > 0 {
        assert(all_digits(s.drop_last()));
        lemma_digits_value_nonneg(s.drop_last());
        assert(is_digit(s[s.len() - 1]));
    }
}

proof fn lemma_digits_value_grows(s: Seq<u8>, a: int, i: int, j: int)
    requires
        0 <= a <= i <= j <= s.len(),
        all_digits(s.subrange(a, j)),
    ensures
        digits_value(s.subrange(a, i)) <= digits_value(s.subrange(a, j)),
    decreases j - i,
{
    if i < j {
        lemma_digits_value_grows(s, a, i, j - 1);
        assert(all_digits(s.subrange(a, j - 1))) by {
            assert forall|k: int| 0 <= k < s.subrange(a, j - 1).len() implies is_digit(
                #[trigger] s.subrange(a, j - 1)[k],
            ) by {
                assert(s.subrange(a, j - 1)[k] == s.subrange(a, j)[k]);
            }
        }
        lemma_digits_value_step(s, a, j - 1);
        assert(is_digit(s.subrange(a, j)[j - 1 - a]));
        lemma_digits_value_nonneg(s.subrange(a, j - 1));
        lemma_digits_value_grows(s, a, i, j - 1);
    }
}

/// Parses the bytes `s[lo..hi]` as a decimal numeral without sign or
/// leading zero that fits in `usize`.
pub fn parse_numeral(s: &[u8], lo: usize, hi: usize) -> (r: Option<usize>)
    requires
        lo <= hi <= s@.len(),
    ensures
        r == spec_parse_numeral(s@.subrange(lo as int, hi as int)),
{
    let ghost d = s@.subrange(lo as int, hi as int);
    if lo == hi {
        return None;
    }
    if s[lo] == 48u8 && hi - lo > 1 {
        assert(d[0] == 48u8);
        return None;
    }
    assert(d.len() > 0);
    let mut value: usize = 0;
    let mut i = lo;
    assert(s@.subrange(lo as int, lo as int) =~= Seq::<u8>::empty());
    while i < hi
        invariant
            lo <= i <= hi <= s@.len(),
            lo < hi,
            d == s@.subrange(lo as int, hi as int),
            d[0] != 48u8 || d.len() == 1,
            value == digits_value(s@.subrange(lo as int, i as int)),
            all_digits(s@.subrange(lo as int, i as int)),
        decreases hi - i,
    {
        let b = s[i];
        if b < 48u8 || b > 57u8 {
            assert(!is_digit(d[i - lo]));
            return None;
        }
        proof {
            lemma_digits_value_step(s@, lo as int, i as int);
        }
        let dg = (b - 48u8) as usize;
        let next = match value.checked_mul(10) {
            Some(m) => m.checked_add(dg),
            None => None,
        };
        match next {
            Some(v) => {
                value = v;
            },
            None => {
                proof {
                    if all_digits(d) {
                        lemma_digits_value_grows(s@, lo as int, i + 1, hi as int);
                    }
                }
                return None;
            },
        }
        assert(all_digits(s@.subrange(lo as int, i + 1))) by {
            assert forall|k: int| 0 <= k < s@.subrange(lo as int, i + 1).len() implies is_digit(
                #[trigger] s@.subrange(lo as int, i + 1)[k],
            ) by {
                if k < i - lo {
                    assert(s@.subrange(lo as int, i + 1)[k] == s@.subrange(lo as int, i as int)[k]);
                }
            }
        }
        i = i + 1;
    }
    assert(s@.subrange(lo as int, hi as int) == d);
    Some(value)
}

/// The decimal representation of `n` as bytes.
pub fn decimal(n: u64) -> (r: Vec<u8>)
    ensures
        r@ == dec_bytes(n as nat),
    decreases n,
{
    if n < 10 {
        let mut v = Vec::new();
        v.push((n as u8) + 48u8);
        v
    } else {
        let mut v = decimal(n / 10);
        v.push(((n % 10) as u8) + 48u8);
        v
    }
}


/// Index of the first `c` in `s`, or `s.len()` when there is none.
pub open spec fn index_of(s: Seq<u8>, c: u8) -> int
    decreases s.len(),
{
    if s.len() == 0 {
        0
    } else if s[0] == c {
        0
    } else {
        1 + index_of(s.drop_first(), c)
    }
}

/// `index_of` is the first occurrence, or the length when there is none.
pub proof fn lemma_index_of(s: Seq<u8>, c: u8)
    ensures
        0 <= index_of(s, c) <= s.len(),
        forall|k: int| 0 <= k < index_of(s, c) ==> s[k] != c,
        index_of(s, c) < s.len() ==> s[index_of(s, c)] == c,
    decreases s.len(),
{
    if s.len() > 0 && s[0] != c {
        lemma_index_of(s.drop_first(), c);
        assert forall|k: int| 0 <= k < index_of(s, c) implies s[k] != c by {
            if k > 0 {
                assert(s[k] == s.drop_first()[k - 1]);
            }
        }
    }
}

/// A position `j` before which `c` does not occur, and at which it does (or
/// the end), is `index_of`.
pub proof fn lemma_index_of_unique(s: Seq<u8>, c: u8, j: int)
    requires
        0 <= j <= s.len(),
        forall|k: int| 0 <= k < j ==> s[k] != c,
        j < s.len() ==> s[j] == c,
    ensures
        index_of(s, c) == j,
    decreases s.len(),
{
    if s.len() > 0 && j > 0 {
        assert(s[0] != c);
        assert forall|k: int| 0 <= k < j - 1 implies s.drop_first()[k] != c by {
            assert(s.drop_first()[k] == s[k + 1]);
        }
        lemma_index_of_unique(s.drop_first(), c, j - 1);
    }
}

/// Finds the first `c` in `s[lo..hi]`; returns its index in `s`, or `hi`.
pub fn find_byte(s: &[u8], lo: usize, hi: usize, c: u8) -> (r: usize)
    requires
        lo <= hi <= s@.len(),
    ensures
        r == lo + index_of(s@.subrange(lo as int, hi as int), c),
        lo <= r <= hi,
{
    let ghost t = s@.subrange(lo as int, hi as int);
    let mut i = lo;
    while i < hi
        invariant
            lo <= i <= hi <= s@.len(),
            t == s@.subrange(lo as int, hi as int),
            forall|k: int| 0 <= k < i - lo ==> t[k] != c,
        decreases hi - i,
    {
        if s[i] == c {
            proof {
                lemma_index_of_unique(t, c, i - lo);
            }
            return i;
        }
        i = i + 1;
    }
    proof {
        lemma_index_of_unique(t, c, i - lo);
    }
    i
}

/// Appends the UTF-8 bytes of `s` to `v`.
pub fn push_str(v: &mut Vec<u8>, s: &str)
    ensures
        final(v)@ == old(v)@ + encode_utf8(s@),
{
    let b = s.as_bytes();
    push_range(v, b, 0, b.len());
    assert(b@.subrange(0, b@.len() as int) =~= b@);
}

/// Appends `src[lo..hi]` to `v`.
pub fn push_range(v: &mut Vec<u8>, src: &[u8], lo: usize, hi: usize)
    requires
        lo <= hi <= src@.len(),
    ensures
        final(v)@ == old(v)@ + src@.subrange(lo as int, hi as int),
{
    let ghost start = v@;
    let mut i = lo;
    while i < hi
        invariant
            lo <= i <= hi <= src@.len(),
            v@ == start + src@.subrange(lo as int, i as int),
        decreases hi - i,
    {
        v.push(src[i]);
        assert(src@.subrange(lo as int, i + 1) =~= src@.subrange(lo as int, i as int).push(src[i as int]));
        i = i + 1;
    }
}

/// Appends the whole of `src` to `v`.
pub fn push_all(v: &mut Vec<u8>, src: &[u8])
    ensures
        final(v)@ == old(v)@ + src@,
{
    push_range(v, src, 0, src.len());
    assert(src@.subrange(0, src@.len() as int) =~= src@);
}

/// A name for the characters that `String::from_utf8_lossy` makes of a byte
/// string.
pub uninterp spec fn spec_lossy_utf8(b: Seq<u8>) -> Seq<char>;

/// Calls `String::from_utf8_lossy`. Its documentation says that invalid
/// UTF-8 sequences are replaced by U+FFFD; the contract names the result and
/// states the part that can be stated shortly: valid UTF-8 is decoded as it
/// is. What becomes of invalid input is left unsaid.
#[verifier::external_body]
pub fn lossy_string(b: &[u8]) -> (r: String)
    ensures
        r@ == spec_lossy_utf8(b@),
        valid_utf8(b@) ==> r@ == decode_utf8(b@),
{
    String::from_utf8_lossy(b).into_owned()
}

/// Calls `String::from_utf8`, which by its documentation succeeds exactly
/// when the bytes are valid UTF-8 and then holds the characters they encode.
#[verifier::external_body]
pub fn utf8_string(b: Vec<u8>) -> (r: Option<String>)
    ensures
        r is Some <==> valid_utf8(b@),
        r matches Some(s) ==> s@ == decode_utf8(b@),
{
    match String::from_utf8(b) {
        Ok(s) => Some(s),
        Err(_) => None,
    }
}

} // verus!
