//! The index of a data set, a rational number written `num` when its
//! denominator is 1 and `num/den` otherwise.
use crate::error::Error;
use crate::text::{
    all_digits, dec, is_digit, lemma_dec, parse_integer, parsed_in_range, push_decimal,
};
use vstd::prelude::*;

verus! {

/// The text of the index `numerator/denominator`.
pub open spec fn index_text(numerator: nat, denominator: nat) -> Seq<char> {
    if denominator == 1 {
        dec(numerator)
    } else {
        dec(numerator) + seq!['/'] + dec(denominator)
    }
}

/// `s` is two non-empty digit strings joined by a `/` at position `i`.
pub open spec fn slash_split(s: Seq<char>, i: int) -> bool {
    &&& 0 < i < s.len() - 1
    &&& s[i] == '/'
    &&& all_digits(s.take(i))
    &&& all_digits(s.skip(i + 1))
}

/// `s` has the shape `digits/digits`.
pub open spec fn is_rational(s: Seq<char>) -> bool {
    exists|i: int| slash_split(s, i)
}

/// A non-negative integer of at most 32 bits that `s` spells.
pub open spec fn u32_value(s: Seq<char>) -> Option<int> {
    parsed_in_range(s, 0, u32::MAX as int)
}

/// The index that the text `s` gives: numerator and denominator of
/// `digits/digits`, or the integer `s` over 1.
pub open spec fn index_value(s: Seq<char>) -> Result<(u32, u32), Error> {
    if is_rational(s) {
        let i = choose|i: int| slash_split(s, i);
        match (u32_value(s.take(i)), u32_value(s.skip(i + 1))) {
            (Some(a), Some(b)) => Ok((a as u32, b as u32)),
            _ => Err(Error::InvalidIndex),
        }
    } else {
        match u32_value(s) {
            Some(a) => Ok((a as u32, 1)),
            None => Err(Error::InvalidIndex),
        }
    }
}

/// A string has at most one place where it splits as `digits/digits`.
proof fn lemma_slash_split_unique(s: Seq<char>, i: int, j: int)
    requires
        slash_split(s, i),
        slash_split(s, j),
    ensures
        i == j,
{
    if j < i {
        assert(s.take(i)[j] == s[j]);
    }
    if i < j {
        assert(s.take(j)[i] == s[i]);
    }
}

/// Relies on `regex::Regex::captures` with the pattern
/// `^([0-9]+)/([0-9]+)$`: it matches exactly the strings of two non-empty
/// runs of ASCII digits joined by `/`, and its two groups are those runs.
#[verifier::external_body]
fn rational_captures(s: &str) -> (r: Option<(String, String)>)
    ensures
        r is Some <==> is_rational(s@),
        r matches Some((a, b)) ==> s@ == a@ + seq!['/'] + b@ && a@.len() > 0 && b@.len() > 0
            && all_digits(a@) && all_digits(b@),
{
    let re = regex::Regex::new(r"^([0-9]+)/([0-9]+)$").unwrap();
    match re.captures(s) {
        Some(c) => Some((c[1].to_string(), c[2].to_string())),
        None => None,
    }
}

/// The characters of `s`, in order.
pub fn chars_of(s: &str) -> (r: Vec<char>)
    ensures
        r@ == s@,
{
    let mut v: Vec<char> = Vec::new();
    for c in it: s.chars()
        invariant
            it.seq() == s@,
            v@ == it.seq().take(it.index() as int),
    {
        v.push(c);
    }
    v
}

/// Parses `s` as a non-negative integer of at most 32 bits.
fn parse_u32(s: &str) -> (r: Option<u32>)
    ensures
        r == match u32_value(s@) {
            Some(v) => Some(v as u32),
            None => None::<u32>,
        },
{
    let cs = chars_of(s);
    proof {
        assert(cs@.subrange(0, cs@.len() as int) =~= s@);
    }
    match parse_integer(cs.as_slice(), 0, cs.len(), 0, 0xffff_ffff) {
        Some(v) => Some(v as u32),
        None => None,
    }
}

/// Renders the index `numerator/denominator`: `num` when the denominator
/// is 1, else `num/den`.
pub fn format_index(numerator: u32, denominator: u32) -> (r: String)
    ensures
        r@ == index_text(numerator as nat, denominator as nat),
{
    let mut out = String::new();
    push_decimal(&mut out, numerator as u64);
    if denominator != 1 {
        proof {
            reveal_strlit("/");
        }
        out.append("/");
        push_decimal(&mut out, denominator as u64);
    }
    out
}

/// Parses an index written `num/den`, or `num` for a denominator of 1.
pub fn parse_index(index: &str) -> (r: Result<(u32, u32), Error>)
    ensures
        r == index_value(index@),
{
    match rational_captures(index) {
        Some((a, b)) => {
            proof {
                let i = a@.len() as int;
                assert(index@.take(i) =~= a@);
                assert(index@.skip(i + 1) =~= b@);
                assert(index@[i] == '/');
                assert(slash_split(index@, i));
                let j = choose|j: int| slash_split(index@, j);
                lemma_slash_split_unique(index@, i, j);
            }
            let numerator = parse_u32(a.as_str());
            let denominator = parse_u32(b.as_str());
            match (numerator, denominator) {
                (Some(n), Some(d)) => Ok((n, d)),
                _ => Err(Error::InvalidIndex),
            }
        },
        None => match parse_u32(index) {
            Some(n) => Ok((n, 1)),
            None => Err(Error::InvalidIndex),
        },
    }
}

/// Every index renders to a text that parses back to it.
pub proof fn lemma_index_round_trip(numerator: u32, denominator: u32)
    ensures
        index_value(index_text(numerator as nat, denominator as nat)) == Ok::<(u32, u32), Error>(
            (numerator, denominator),
        ),
{
    let n = dec(numerator as nat);
    let d = dec(denominator as nat);
    lemma_dec(numerator as nat);
    lemma_dec(denominator as nat);
    assert(is_digit(n[0]));
    assert(is_digit(d[0]));
    if denominator == 1 {
        if is_rational(n) {
            let i = choose|i: int| slash_split(n, i);
            assert(is_digit(n[i]));
        }
    } else {
        let s = n + seq!['/'] + d;
        let i = n.len() as int;
        assert(s.take(i) =~= n);
        assert(s.skip(i + 1) =~= d);
        assert(slash_split(s, i));
        let j = choose|j: int| slash_split(s, j);
        lemma_slash_split_unique(s, i, j);
    }
}

} // verus!
