//! Variable-length encoding of unsigned 32-bit integers: successive 7-bit
//! groups, least significant first, with the high bit of every byte but the
//! last set.
use crate::error::Error;
use vstd::prelude::*;

verus! {

/// Bytes of the encoding of `x`.
pub open spec fn varint_bytes(x: nat) -> Seq<u8>
    decreases x,
{
    if x < 128 {
        seq![x as u8]
    } else {
        seq![(x % 128 + 128) as u8] + varint_bytes(x / 128)
    }
}

/// Exclusive bound on the value still representable once `k` groups of
/// 7 bits have been consumed.
pub open spec fn group_bound(k: nat) -> nat {
    if k == 0 {
        0x1_0000_0000
    } else if k == 1 {
        0x200_0000
    } else if k == 2 {
        0x4_0000
    } else if k == 3 {
        0x800
    } else if k == 4 {
        0x10
    } else {
        1
    }
}

/// `128^k` for the group positions of a 32-bit value.
pub open spec fn group_weight(k: nat) -> nat
    decreases k,
{
    if k == 0 {
        1
    } else {
        128 * group_weight((k - 1) as nat)
    }
}

proof fn lemma_group_values()
    ensures
        group_weight(0) == 1,
        group_weight(1) == 0x80,
        group_weight(2) == 0x4000,
        group_weight(3) == 0x20_0000,
        group_weight(4) == 0x1000_0000,
{
    reveal_with_fuel(group_weight, 5);
}

/// Decoding of the bytes `b`, whose first byte is the group of index `k`:
/// the value of the remaining groups and the number of bytes they take.
pub open spec fn parse_varint(b: Seq<u8>, k: nat) -> Result<(nat, nat), Error>
    decreases b.len(),
{
    if b.len() == 0 {
        Err(Error::Truncated)
    } else if k >= 5 {
        Err(Error::Overflow)
    } else {
        let w = (b[0] % 128) as nat;
        if w >= group_bound(k) {
            Err(Error::Overflow)
        } else if b[0] < 128 {
            Ok((w, 1))
        } else {
            match parse_varint(b.drop_first(), k + 1) {
                Ok((v, n)) => Ok((w + 128 * v, n + 1)),
                Err(e) => Err(e),
            }
        }
    }
}

/// Decoding of the varint that starts at `pos` in `b`.
pub open spec fn varint_at(b: Seq<u8>, pos: int) -> Result<(nat, nat), Error> {
    parse_varint(b.subrange(pos, b.len() as int), 0)
}

/// What decoding `k` groups already gave, `acc`, joined with the decoding
/// `r` of the remaining ones.
pub open spec fn join_groups(acc: nat, k: nat, r: Result<(nat, nat), Error>) -> Result<
    (nat, nat),
    Error,
> {
    match r {
        Ok((v, n)) => Ok((acc + group_weight(k) * v, n + k)),
        Err(e) => Err(e),
    }
}

proof fn lemma_join_step(acc: nat, k: nat, w: nat, v: nat)
    ensures
        acc + group_weight(k) * (w + 128 * v) == (acc + group_weight(k) * w) + group_weight(k + 1)
            * v,
{
    let g = group_weight(k);
    assert(group_weight(k + 1) == 128 * g);
    assert(g * (w + 128 * v) == g * w + (128 * g) * v) by (nonlinear_arith);
}

/// A successful decoding starting at group `k` consumes at least one byte
/// and yields a value below `group_bound(k)`.
pub proof fn lemma_parse_bounds(b: Seq<u8>, k: nat)
    ensures
        parse_varint(b, k) matches Ok((v, n)) ==> v < group_bound(k) && 1 <= n <= b.len(),
    decreases b.len(),
{
    if b.len() > 0 && k < 5 && ((b[0] % 128) as nat) < group_bound(k) && b[0] >= 128 {
        lemma_parse_bounds(b.drop_first(), k + 1);
        if let Ok((v, n)) = parse_varint(b.drop_first(), k + 1) {
            let w = (b[0] % 128) as nat;
            assert(w + 128 * v < group_bound(k)) by {
                assert(w < 128);
                assert(v < group_bound(k + 1));
            }
        }
    }
}

/// The encoding of every value below `group_bound(k)` decodes back to it,
/// whatever follows it.
pub proof fn lemma_parse_encoding(x: nat, k: nat, rest: Seq<u8>)
    requires
        k <= 4,
        x < group_bound(k),
    ensures
        parse_varint(varint_bytes(x) + rest, k) == Ok::<(nat, nat), Error>(
            (x, varint_bytes(x).len()),
        ),
    decreases x,
{
    let b = varint_bytes(x) + rest;
    if x < 128 {
        assert(b[0] == x as u8);
    } else {
        let tail = varint_bytes(x / 128);
        assert(b[0] == (x % 128 + 128) as u8);
        assert(b.drop_first() =~= tail + rest);
        lemma_parse_encoding(x / 128, k + 1, rest);
    }
}

/// A strict prefix of an encoding is truncated input.
pub proof fn lemma_parse_prefix_truncated(x: nat, k: nat, m: int)
    requires
        k <= 4,
        x < group_bound(k),
        0 <= m < varint_bytes(x).len(),
    ensures
        parse_varint(varint_bytes(x).take(m), k) == Err::<(nat, nat), Error>(Error::Truncated),
    decreases x,
{
    let b = varint_bytes(x).take(m);
    if m > 0 {
        let tail = varint_bytes(x / 128);
        assert(x >= 128);
        assert(b[0] == (x % 128 + 128) as u8);
        assert(b.drop_first() =~= tail.take(m - 1));
        lemma_parse_prefix_truncated(x / 128, k + 1, m - 1);
    }
}

/// Decoding an encoding gives the encoded value back, and every strict
/// prefix of an encoding fails as truncated.
pub proof fn lemma_varint_round_trip(x: u32, m: int)
    requires
        0 <= m < varint_bytes(x as nat).len(),
    ensures
        varint_at(varint_bytes(x as nat), 0) == Ok::<(nat, nat), Error>(
            (x as nat, varint_bytes(x as nat).len()),
        ),
        varint_at(varint_bytes(x as nat).take(m), 0) == Err::<(nat, nat), Error>(
            Error::Truncated,
        ),
{
    let e = varint_bytes(x as nat);
    lemma_parse_encoding(x as nat, 0, Seq::empty());
    assert(e + Seq::<u8>::empty() =~= e);
    assert(e.subrange(0, e.len() as int) =~= e);
    lemma_parse_prefix_truncated(x as nat, 0, m);
    assert(e.take(m).subrange(0, m) =~= e.take(m));
}

/// Appends the encoding of `value` to `data`.
pub fn write_varint(data: &mut Vec<u8>, value: u32)
    ensures
        final(data)@ == old(data)@ + varint_bytes(value as nat),
{
    let mut v: u32 = value;
    while v > 127
        invariant
            data@ + varint_bytes(v as nat) == old(data)@ + varint_bytes(value as nat),
        decreases v,
    {
        let byte: u8 = (v % 128 + 128) as u8;
        proof {
            assert(varint_bytes(v as nat) == seq![byte] + varint_bytes((v / 128) as nat));
            assert(data@.push(byte) + varint_bytes((v / 128) as nat) =~= data@ + (seq![byte]
                + varint_bytes((v / 128) as nat)));
        }
        data.push(byte);
        v = v / 128;
    }
    proof {
        assert(varint_bytes(v as nat) == seq![v as u8]);
    }
    data.push(v as u8);
}

/// Decodes the varint that starts at `pos`, giving its value and the
/// position after it.
pub fn read_varint(data: &[u8], pos: usize) -> (r: Result<(u32, usize), Error>)
    requires
        pos <= data@.len(),
    ensures
        match varint_at(data@, pos as int) {
            Ok((v, n)) => r == Ok::<(u32, usize), Error>((v as u32, (pos + n) as usize)),
            Err(e) => r == Err::<(u32, usize), Error>(e),
        },
        r matches Ok((v, next)) ==> pos < next <= data@.len(),
{
    let ghost whole = data@.subrange(pos as int, data@.len() as int);
    let mut acc: u32 = 0;
    let mut weight: u32 = 1;
    let mut k: usize = 0;
    let mut i: usize = pos;
    proof {
        assert(data@.subrange(i as int, data@.len() as int) =~= whole);
        lemma_group_values();
    }
    loop
        invariant
            whole == data@.subrange(pos as int, data@.len() as int),
            k <= 4,
            i == pos + k,
            i <= data@.len(),
            weight == group_weight(k as nat),
            acc < group_weight(k as nat),
            group_weight(k as nat) * group_bound(k as nat) == 0x1_0000_0000,
            join_groups(acc as nat, k as nat, parse_varint(data@.subrange(i as int, data@.len() as int), k as nat))
                == parse_varint(whole, 0),
        decreases 4 - k,
    {
        let ghost rem = data@.subrange(i as int, data@.len() as int);
        if i >= data.len() {
            proof {
                assert(rem.len() == 0);
                lemma_parse_bounds(whole, 0);
            }
            return Err(Error::Truncated);
        }
        let b = data[i];
        let w: u32 = (b % 128) as u32;
        proof {
            assert(rem[0] == b);
        }
        if k == 4 && w >= 16 {
            return Err(Error::Overflow);
        }
        proof {
            assert(w < group_bound(k as nat));
            assert(group_weight(k as nat) * w < group_weight(k as nat) * group_bound(k as nat))
                by (nonlinear_arith)
                requires
                    w < group_bound(k as nat),
                    group_weight(k as nat) > 0,
            ;
            assert(acc + group_weight(k as nat) * w < 0x1_0000_0000) by (nonlinear_arith)
                requires
                    acc < group_weight(k as nat),
                    w < group_bound(k as nat),
                    group_weight(k as nat) * group_bound(k as nat) == 0x1_0000_0000,
                    group_weight(k as nat) > 0,
            ;
        }
        let next_acc: u32 = acc + weight * w;
        if b < 128 {
            proof {
                lemma_parse_bounds(whole, 0);
            }
            return Ok((next_acc, i + 1));
        }
        let ghost after = data@.subrange(i + 1, data@.len() as int);
        proof {
            assert(rem.drop_first() =~= after);
        }
        if k == 4 {
            if i + 1 >= data.len() {
                return Err(Error::Truncated);
            }
            return Err(Error::Overflow);
        }
        proof {
            assert(parse_varint(rem, k as nat) == match parse_varint(after, (k + 1) as nat) {
                Ok((v, n)) => Ok((w as nat + 128 * v, n + 1)),
                Err(e) => Err(e),
            });
            if let Ok((v, n)) = parse_varint(after, (k + 1) as nat) {
                lemma_join_step(acc as nat, k as nat, w as nat, v);
            }
            assert(group_weight((k + 1) as nat) == 128 * group_weight(k as nat));
            lemma_group_values();
            assert(next_acc < group_weight((k + 1) as nat)) by (nonlinear_arith)
                requires
                    acc < group_weight(k as nat),
                    w < 128,
                    next_acc == acc + group_weight(k as nat) * w,
                    group_weight((k + 1) as nat) == 128 * group_weight(k as nat),
            ;
        }
        acc = next_acc;
        weight = weight * 128;
        k = k + 1;
        i = i + 1;
    }
}

} // verus!
