//! Decimal rendering and parsing of integers, over characters.
use vstd::prelude::*;

verus! {

/// The character of the decimal digit `d`.
pub open spec fn digit_char(d: nat) -> char {
    if d == 0 {
        '0'
    } else if d == 1 {
        '1'
    } else if d == 2 {
        '2'
    } else if d == 3 {
        '3'
    } else if d == 4 {
        '4'
    } else if d == 5 {
        '5'
    } else if d == 6 {
        '6'
    } else if d == 7 {
        '7'
    } else if d == 8 {
        '8'
    } else {
        '9'
    }
}

/// `c` is an ASCII decimal digit.
pub open spec fn is_digit(c: char) -> bool {
    '0' <= c && c <= '9'
}

/// The value of the ASCII decimal digit `c`.
pub open spec fn digit_value(c: char) -> nat {
    ((c as u32) - 48) as nat
}

/// Every character of `s` is an ASCII decimal digit.
pub open spec fn all_digits(s: Seq<char>) -> bool {
    forall|i: int| 0 <= i < s.len() ==> is_digit(#[trigger] s[i])
}

/// The value of the digit string `s`, most significant digit first.
pub open spec fn digits_value(s: Seq<char>) -> nat
    decreases s.len(),
{
    if s.len() == 0 {
        0
    } else {
        digits_value(s.drop_last()) * 10 + digit_value(s.last())
    }
}

/// The shortest decimal representation of `n`.
pub open spec fn dec(n: nat) -> Seq<char>
    decreases n,
{
    if n < 10 {
        seq![digit_char(n)]
    } else {
        dec(n / 10).push(digit_char(n % 10))
    }
}

/// The decimal representation of `x`, with a leading `-` when negative.
pub open spec fn signed_dec(x: int) -> Seq<char> {
    if x < 0 {
        seq!['-'] + dec((-x) as nat)
    } else {
        dec(x as nat)
    }
}

/// The integer that `s` spells: an optional sign, then at least one digit.
pub open spec fn int_value(s: Seq<char>) -> Option<int> {
    if s.len() > 0 && (s[0] == '+' || s[0] == '-') {
        let t = s.drop_first();
        if t.len() > 0 && all_digits(t) {
            Some(
                if s[0] == '-' {
                    -(digits_value(t) as int)
                } else {
                    digits_value(t) as int
                },
            )
        } else {
            None
        }
    } else if s.len() > 0 && all_digits(s) {
        Some(digits_value(s) as int)
    } else {
        None
    }
}

/// What parsing `s` as an integer of the range `[lo, hi]` gives: the
/// value, where `s` spells one in that range; a `-` sign only where the
/// range has negative numbers.
pub open spec fn parsed_in_range(s: Seq<char>, lo: int, hi: int) -> Option<int> {
    if lo >= 0 && s.len() > 0 && s[0] == '-' {
        None
    } else {
        match int_value(s) {
            Some(v) => if lo <= v && v <= hi {
                Some(v)
            } else {
                None
            },
            None => None,
        }
    }
}

proof fn lemma_digit_char(d: nat)
    requires
        d < 10,
    ensures
        is_digit(digit_char(d)),
        digit_value(digit_char(d)) == d,
        digit_char(d) != '/',
        digit_char(d) != '-',
        digit_char(d) != '+',
{
}

/// The decimal representation of `n` is a non-empty digit string that
/// spells `n`.
pub proof fn lemma_dec(n: nat)
    ensures
        dec(n).len() > 0,
        all_digits(dec(n)),
        digits_value(dec(n)) == n,
    decreases n,
{
    if n < 10 {
        lemma_digit_char(n);
        assert(dec(n).drop_last() =~= Seq::<char>::empty());
        assert(dec(n).last() == digit_char(n));
        assert(digits_value(dec(n)) == digits_value(dec(n).drop_last()) * 10 + digit_value(dec(n).last()));
        assert(digits_value(Seq::<char>::empty()) == 0);
    } else {
        lemma_dec(n / 10);
        lemma_digit_char(n % 10);
        assert(dec(n).drop_last() =~= dec(n / 10));
        assert(dec(n).last() == digit_char(n % 10));
        assert(digits_value(dec(n)) == digits_value(dec(n / 10)) * 10 + digit_value(
            digit_char(n % 10),
        ));
        assert((n / 10) * 10 + n % 10 == n);
    }
}

/// Digit strings spell at least what their prefixes spell.
proof fn lemma_digits_value_prefix(s: Seq<char>, k: int)
    requires
        0 <= k <= s.len(),
        all_digits(s),
    ensures
        digits_value(s.take(k)) <= digits_value(s),
    decreases s.len(),
{
    if k < s.len() {
        assert(s.drop_last().take(k) =~= s.take(k));
        lemma_digits_value_prefix(s.drop_last(), k);
    } else {
        assert(s.take(k) =~= s);
    }
}

/// The string of the single digit `d`.
fn digit_str(d: u32) -> (r: &'static str)
    requires
        d < 10,
    ensures
        r@ == seq![digit_char(d as nat)],
{
    proof {
        reveal_strlit("0");
        reveal_strlit("1");
        reveal_strlit("2");
        reveal_strlit("3");
        reveal_strlit("4");
        reveal_strlit("5");
        reveal_strlit("6");
        reveal_strlit("7");
        reveal_strlit("8");
        reveal_strlit("9");
    }
    if d == 0 {
        "0"
    } else if d == 1 {
        "1"
    } else if d == 2 {
        "2"
    } else if d == 3 {
        "3"
    } else if d == 4 {
        "4"
    } else if d == 5 {
        "5"
    } else if d == 6 {
        "6"
    } else if d == 7 {
        "7"
    } else if d == 8 {
        "8"
    } else {
        "9"
    }
}

/// Appends the decimal representation of `n` to `out`.
pub fn push_decimal(out: &mut String, n: u64)
    ensures
        final(out)@ == old(out)@ + dec(n as nat),
    decreases n,
{
    if n < 10 {
        out.append(digit_str(n as u32));
    } else {
        push_decimal(out, n / 10);
        out.append(digit_str((n % 10) as u32));
        proof {
            assert(old(out)@ + dec((n / 10) as nat) + seq![digit_char((n % 10) as nat)] =~= old(
                out,
            )@ + dec(n as nat));
        }
    }
}

/// Appends the decimal representation of `x`, with a leading `-` when
/// negative.
pub fn push_signed_decimal(out: &mut String, x: i32)
    ensures
        final(out)@ == old(out)@ + signed_dec(x as int),
{
    if x < 0 {
        proof {
            reveal_strlit("-");
        }
        out.append("-");
        let magnitude: u32 = (-(x as i64)) as u32;
        push_decimal(out, magnitude as u64);
        proof {
            assert(old(out)@ + seq!['-'] + dec(magnitude as nat) =~= old(out)@ + signed_dec(
                x as int,
            ));
        }
    } else {
        push_decimal(out, x as u64);
    }
}

/// The value of the ASCII digit `c`, if it is one.
fn digit_of(c: char) -> (r: Option<u32>)
    ensures
        r == if is_digit(c) {
            Some(digit_value(c) as u32)
        } else {
            None::<u32>
        },
{
    if '0' <= c && c <= '9' {
        Some((c as u32) - 48)
    } else {
        None
    }
}

/// Parses `cs[start..end]` as an integer of the range `[lo, hi]`, as
/// `parsed_in_range` says.
pub fn parse_integer(cs: &[char], start: usize, end: usize, lo: i64, hi: i64) -> (r: Option<i64>)
    requires
        start <= end <= cs@.len(),
        -0x1_0000_0000 <= lo <= hi <= 0x1_0000_0000,
    ensures
        r == match parsed_in_range(cs@.subrange(start as int, end as int), lo as int, hi as int) {
            Some(v) => Some(v as i64),
            None => None::<i64>,
        },
{
    let ghost s = cs@.subrange(start as int, end as int);
    if start == end {
        return None;
    }
    let first = cs[start];
    let negative = first == '-';
    if negative && lo >= 0 {
        return None;
    }
    let digits_start: usize = if first == '+' || first == '-' {
        start + 1
    } else {
        start
    };
    let ghost t = cs@.subrange(digits_start as int, end as int);
    proof {
        if first == '+' || first == '-' {
            assert(s.drop_first() =~= t);
        } else {
            assert(s =~= t);
        }
    }
    if digits_start == end {
        return None;
    }
    let mut acc: i64 = 0;
    let mut i: usize = digits_start;
    while i < end
        invariant
            digits_start <= i <= end <= cs@.len(),
            s == cs@.subrange(start as int, end as int),
            start < end,
            first == cs@[start as int],
            negative == (first == '-'),
            negative ==> lo < 0,
            -0x1_0000_0000 <= lo <= hi <= 0x1_0000_0000,
            digits_start == if first == '+' || first == '-' {
                start + 1
            } else {
                start as int
            },
            if first == '+' || first == '-' {
                s.drop_first() == t
            } else {
                s == t
            },
            t == cs@.subrange(digits_start as int, end as int),
            all_digits(t.take(i - digits_start)),
            acc == digits_value(t.take(i - digits_start)),
            acc <= 0x1_0000_0000,
        decreases end - i,
    {
        let d = match digit_of(cs[i]) {
            Some(d) => d,
            None => {
                proof {
                    assert(!is_digit(t[i - digits_start]));
                    assert(!all_digits(t));
                    assert(s[0] == first);
                }
                return None;
            },
        };
        proof {
            assert(t.take(i - digits_start + 1).drop_last() =~= t.take(i - digits_start));
            assert(t.take(i - digits_start + 1).last() == cs@[i as int]);
            assert(digits_value(t.take(i - digits_start + 1)) == acc * 10 + d);
        }
        let next = acc * 10 + d as i64;
        if next > 0x1_0000_0000 {
            proof {
                assert(all_digits(t.take(i - digits_start + 1)));
                assert(s[0] == first);
                if all_digits(t) {
                    lemma_digits_value_prefix(t, i - digits_start + 1);
                    assert(digits_value(t) > 0x1_0000_0000);
                }
            }
            return None;
        }
        acc = next;
        i = i + 1;
    }
    proof {
        assert(t.take(end - digits_start) =~= t);
    }
    let value: i64 = if negative {
        -acc
    } else {
        acc
    };
    if value < lo || value > hi {
        return None;
    }
    Some(value)
}

} // verus!
