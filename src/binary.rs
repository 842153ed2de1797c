//! The reader side of the binary pair: the header and the varint weights of
//! the weight file, then the classification records that sort each weight
//! system into its tier.
use crate::error::Error;
use crate::tiers::{
    Dataset, NonIpPolytopeInfo, NonReflexivePolytopeInfo, ReflexivePolytopeInfo,
    append_weight_system, euler_characteristic, euler_of, fits_i32, h22_of, hodge_number_h22, rows,
    uniform,
};
use crate::varint::{read_varint, varint_at};
use vstd::prelude::*;

verus! {

/// Length of the weight file's header.
pub const HEADER_LEN: usize = 20;

/// The value of `s` read as a big-endian unsigned integer.
pub open spec fn be_value(s: Seq<u8>) -> nat
    decreases s.len(),
{
    if s.len() == 0 {
        0
    } else {
        be_value(s.drop_last()) * 256 + s.last() as nat
    }
}

/// Reads `m` varints from `pos` on, each of which must fit `i32`: the
/// values and the position after the last.
pub open spec fn read_values(b: Seq<u8>, pos: int, m: nat) -> Result<(Seq<i32>, int), Error>
    decreases m,
{
    if m == 0 {
        Ok((Seq::empty(), pos))
    } else if pos < 0 || pos > b.len() {
        Err(Error::Truncated)
    } else {
        match varint_at(b, pos) {
            Err(e) => Err(e),
            Ok((v, n)) => if v > i32::MAX {
                Err(Error::Overflow)
            } else {
                match read_values(b, pos + n, (m - 1) as nat) {
                    Ok((rest, end)) => Ok((seq![v as i32] + rest, end)),
                    Err(e) => Err(e),
                }
            },
        }
    }
}

/// Number of varint fields that follow a classification tag.
pub open spec fn field_count(tag: u8, dimension: nat) -> nat {
    if tag == 1 {
        3
    } else if tag == 2 {
        dimension + 1
    } else {
        0
    }
}

/// The derived quantities of a reflexive record with fields `f` fit `i32`.
pub open spec fn derived_fit(f: Seq<i32>) -> bool {
    &&& fits_i32(h22_of(f[4] as int, f[5] as int, f[6] as int))
    &&& fits_i32(euler_of(f[4] as int, f[5] as int, f[6] as int))
}

/// Reads the classification record at `pos`: its tag and fields, and the
/// position after it.
pub open spec fn read_record(b: Seq<u8>, pos: int, dimension: nat, derived6: bool) -> Result<
    ((u8, Seq<i32>), int),
    Error,
> {
    if pos < 0 || pos >= b.len() {
        Err(Error::Truncated)
    } else if b[pos] > 2 {
        Err(Error::InvalidTag)
    } else {
        match read_values(b, pos + 1, field_count(b[pos], dimension)) {
            Err(e) => Err(e),
            Ok((fields, end)) => if derived6 && b[pos] == 2 && !derived_fit(fields) {
                Err(Error::Overflow)
            } else {
                Ok(((b[pos], fields), end))
            },
        }
    }
}

/// Reads `n` classification records from `pos` on.
pub open spec fn read_records(b: Seq<u8>, pos: int, n: nat, dimension: nat, derived6: bool) -> Result<
    Seq<(u8, Seq<i32>)>,
    Error,
>
    decreases n,
{
    if n == 0 {
        Ok(Seq::empty())
    } else {
        match read_record(b, pos, dimension, derived6) {
            Err(e) => Err(e),
            Ok((rec, end)) => match read_records(b, end, (n - 1) as nat, dimension, derived6) {
                Ok(rest) => Ok(seq![rec] + rest),
                Err(e) => Err(e),
            },
        }
    }
}

/// Positions, in order, of the records of `recs` with tag `t`.
pub open spec fn positions(recs: Seq<(u8, Seq<i32>)>, t: u8) -> Seq<int>
    decreases recs.len(),
{
    if recs.len() == 0 {
        Seq::empty()
    } else {
        let p = positions(recs.drop_last(), t);
        if recs.last().0 == t {
            p.push(recs.len() - 1)
        } else {
            p
        }
    }
}

/// Weight system `p` of the flat weight array `w`.
pub open spec fn chunk(w: Seq<i32>, p: int, d: nat) -> Seq<i32> {
    w.subrange(p * d, p * d + d)
}

/// The tiers hold, in order, the records of `recs` with their weight
/// systems from `w`: tag 0 in the first, tag 1 with its three counts in the
/// second, tag 2 with its fields in the third, where with `derived6` each
/// reflexive record also carries its `h22` and Euler characteristic.
pub open spec fn tiers_hold(
    non_ip: NonIpPolytopeInfo,
    non_reflexive: NonReflexivePolytopeInfo,
    reflexive: ReflexivePolytopeInfo,
    recs: Seq<(u8, Seq<i32>)>,
    w: Seq<i32>,
    d: nat,
    derived6: bool,
) -> bool {
    let tag0_at = positions(recs, 0);
    let tag1_at = positions(recs, 1);
    let tag2_at = positions(recs, 2);
    &&& non_ip.wf() && non_reflexive.wf() && reflexive.wf()
    &&& non_ip.dimension == d && non_reflexive.dimension == d && reflexive.dimension == d
    &&& reflexive.derived() == derived6
    &&& reflexive.derived_consistent()
    &&& non_ip.count() == tag0_at.len()
    &&& non_reflexive.count() == tag1_at.len()
    &&& reflexive.count() == tag2_at.len()
    &&& forall|i: int| 0 <= i < tag0_at.len() ==> #[trigger] non_ip.weight_systems()[i] == chunk(w, tag0_at[i], d)
    &&& forall|i: int|
        0 <= i < tag1_at.len() ==> #[trigger] non_reflexive.weight_systems()[i] == chunk(w, tag1_at[i], d)
            && non_reflexive.aux(i) == recs[tag1_at[i]].1
    &&& forall|i: int|
        0 <= i < tag2_at.len() ==> #[trigger] reflexive.weight_systems()[i] == chunk(w, tag2_at[i], d)
            && reflexive.aux(i) == recs[tag2_at[i]].1
}

/// Reads the big-endian value of the `n` bytes at `pos`.
fn read_be(data: &[u8], pos: usize, n: usize) -> (r: u64)
    requires
        n <= 8,
        pos + n <= data@.len(),
    ensures
        r == be_value(data@.subrange(pos as int, pos + n)),
        r < pow256(n as nat),
{
    let len = data.len();
    let mut acc: u64 = 0;
    let mut i: usize = 0;
    proof {
        assert(data@.subrange(pos as int, pos as int) =~= Seq::<u8>::empty());
    }
    while i < n
        invariant
            n <= 8,
            i <= n,
            pos + n <= data@.len(),
            len == data@.len(),
            acc == be_value(data@.subrange(pos as int, pos + i)),
            acc < pow256(i as nat),
        decreases n - i,
    {
        proof {
            assert(data@.subrange(pos as int, pos + i + 1).drop_last() =~= data@.subrange(
                pos as int,
                pos + i,
            ));
            lemma_pow256_bound(i as nat);
            assert(acc * 256 + data@[pos + i] < pow256((i + 1) as nat)) by (nonlinear_arith)
                requires
                    acc < pow256(i as nat),
                    data@[pos + i] < 256,
                    pow256((i + 1) as nat) == 256 * pow256(i as nat),
            ;
        }
        acc = acc * 256 + data[pos + i] as u64;
        i = i + 1;
    }
    acc
}

/// `256^n`.
pub open spec fn pow256(n: nat) -> nat
    decreases n,
{
    if n == 0 {
        1
    } else {
        256 * pow256((n - 1) as nat)
    }
}

proof fn lemma_pow256_bound(n: nat)
    requires
        n < 8,
    ensures
        pow256(n + 1) == 256 * pow256(n),
        pow256(n + 1) <= 0x1_0000_0000_0000_0000,
{
    reveal_with_fuel(pow256, 9);
}

/// Reads `m` varints from `pos` on into `out`, each as `i32`.
fn read_values_into(data: &[u8], pos: usize, m: u128, out: &mut Vec<i32>) -> (r: Result<
    usize,
    Error,
>)
    requires
        pos <= data@.len(),
    ensures
        match read_values(data@, pos as int, m as nat) {
            Ok((vs, end)) => r == Ok::<usize, Error>(end as usize) && final(out)@ == old(out)@
                + vs && end <= data@.len(),
            Err(e) => r == Err::<usize, Error>(e),
        },
{
    let len = data.len();
    let mut left: u128 = m;
    let mut p: usize = pos;
    let ghost whole = read_values(data@, pos as int, m as nat);
    proof {
        lemma_read_values_end(data@, pos as int, m as nat);
    }
    while left > 0
        invariant
            p <= data@.len(),
            len == data@.len(),
            whole == read_values(data@, pos as int, m as nat),
            whole == match read_values(data@, p as int, left as nat) {
                Ok((vs, end)) => Ok((out@.subrange(old(out)@.len() as int, out@.len() as int) + vs, end)),
                Err(e) => Err(e),
            },
            old(out)@.len() <= out@.len(),
            out@.subrange(0, old(out)@.len() as int) == old(out)@,
            forall|vs: Seq<i32>, end: int|
                read_values(data@, p as int, left as nat) == Ok::<(Seq<i32>, int), Error>((vs, end))
                    ==> end <= data@.len(),
        decreases left,
    {
        let ghost done = out@.subrange(old(out)@.len() as int, out@.len() as int);
        proof {
            crate::varint::lemma_parse_bounds(data@.subrange(p as int, data@.len() as int), 0);
        }
        let (v, next) = match read_varint(data, p) {
            Ok(x) => x,
            Err(e) => {
                return Err(e);
            },
        };
        if v > 0x7fff_ffff {
            return Err(Error::Overflow);
        }
        out.push(v as i32);
        proof {
            assert(out@.subrange(old(out)@.len() as int, out@.len() as int) =~= done.push(v as i32));
            assert(out@.subrange(0, old(out)@.len() as int) =~= old(out)@);
            let ghost vn = (next - p) as nat;
            assert(varint_at(data@, p as int) == Ok::<(nat, nat), Error>((v as nat, vn)));
            assert(read_values(data@, p as int, left as nat) == match read_values(
                data@,
                next as int,
                (left - 1) as nat,
            ) {
                Ok((rest, end)) => Ok((seq![v as i32] + rest, end)),
                Err(e) => Err(e),
            });
            match read_values(data@, next as int, (left - 1) as nat) {
                Ok((vs, end)) => {
                    assert(done.push(v as i32) + vs =~= done + (seq![v as i32] + vs));
                },
                Err(e) => {},
            }
            lemma_read_values_end(data@, next as int, (left - 1) as nat);
        }
        left = left - 1;
        p = next;
    }
    proof {
        assert(out@ =~= old(out)@ + out@.subrange(old(out)@.len() as int, out@.len() as int));
        assert(out@.subrange(old(out)@.len() as int, out@.len() as int) + Seq::<i32>::empty()
            =~= out@.subrange(old(out)@.len() as int, out@.len() as int));
    }
    Ok(p)
}

/// A successful read ends within the input.
proof fn lemma_read_values_end(b: Seq<u8>, pos: int, m: nat)
    requires
        0 <= pos <= b.len(),
    ensures
        forall|vs: Seq<i32>, end: int|
            read_values(b, pos, m) == Ok::<(Seq<i32>, int), Error>((vs, end)) ==> pos <= end
                <= b.len() && vs.len() == m,
    decreases m,
{
    if m > 0 {
        crate::varint::lemma_parse_bounds(b.subrange(pos, b.len() as int), 0);
        if let Ok((v, n)) = varint_at(b, pos) {
            lemma_read_values_end(b, pos + n, (m - 1) as nat);
        }
    }
}

/// What a weight file gives, keeping at most `limit` weight systems: the
/// dimension, the index numerator and denominator, and the flat array of
/// weights.
pub open spec fn weights_value(data: Seq<u8>, limit: nat) -> Result<(nat, nat, nat, Seq<i32>), Error> {
    if data.len() < HEADER_LEN {
        Err(Error::Truncated)
    } else {
        let dimension = be_value(data.subrange(0, 4));
        let count = be_value(data.subrange(12, 20));
        let n = if count < limit {
            count
        } else {
            limit
        };
        match read_values(data, HEADER_LEN as int, n * dimension) {
            Ok((w, end)) => Ok(
                (dimension, be_value(data.subrange(4, 8)), be_value(data.subrange(8, 12)), w),
            ),
            Err(e) => Err(e),
        }
    }
}

/// Reads the header and the weights of a weight file, keeping at most
/// `limit` weight systems: the dimension, the index numerator and
/// denominator, and the flat array of weights in file order.
pub fn read_weights(data: &[u8], limit: usize) -> (r: Result<(usize, u32, u32, Vec<i32>), Error>)
    ensures
        match weights_value(data@, limit as nat) {
            Ok((d, num, den, w)) => r matches Ok((d2, num2, den2, ws)) && d2 == d && num2 == num
                && den2 == den && ws@ == w,
            Err(e) => r == Err::<(usize, u32, u32, Vec<i32>), Error>(e),
        },
{
    if data.len() < HEADER_LEN {
        return Err(Error::Truncated);
    }
    proof {
        lemma_pow256_bound(3);
        lemma_pow256_bound(2);
        lemma_pow256_bound(1);
        lemma_pow256_bound(0);
        reveal_with_fuel(pow256, 5);
        assert(pow256(4) == 0x1_0000_0000);
    }
    let dimension = read_be(data, 0, 4) as usize;
    let numerator = read_be(data, 4, 4) as u32;
    let denominator = read_be(data, 8, 4) as u32;
    let count = read_be(data, 12, 8);
    let ws_count: u64 = if count < limit as u64 {
        count
    } else {
        limit as u64
    };
    let mut weights: Vec<i32> = Vec::new();
    proof {
        assert(ws_count as u128 * dimension as u128 <= 0xffff_ffff_ffff_ffff * 0xffff_ffff)
            by (nonlinear_arith)
            requires
                ws_count <= 0xffff_ffff_ffff_ffffu64,
                dimension <= 0xffff_ffffusize,
        ;
    }
    match read_values_into(data, HEADER_LEN, ws_count as u128 * dimension as u128, &mut weights) {
        Ok(_) => Ok((dimension, numerator, denominator, weights)),
        Err(e) => Err(e),
    }
}

/// Reads the classification record at `pos`: its tag, its fields and the
/// position after it.
fn read_record_at(info: &[u8], pos: usize, dimension: usize, derived6: bool) -> (r: Result<
    (u8, Vec<i32>, usize),
    Error,
>)
    requires
        pos <= info@.len(),
        dimension >= 3,
        derived6 ==> dimension == 6,
    ensures
        match read_record(info@, pos as int, dimension as nat, derived6) {
            Ok(((t, f), end)) => r matches Ok((t2, f2, e2)) && t2 == t && f2@ == f && e2 == end
                && e2 <= info@.len(),
            Err(e) => r == Err::<(u8, Vec<i32>, usize), Error>(e),
        },
        r matches Ok((t, f, e)) ==> f@.len() == field_count(t, dimension as nat),
{
    if pos >= info.len() {
        return Err(Error::Truncated);
    }
    let tag = info[pos];
    if tag > 2 {
        return Err(Error::InvalidTag);
    }
    let count: u128 = if tag == 1 {
        3
    } else if tag == 2 {
        dimension as u128 + 1
    } else {
        0
    };
    let mut fields: Vec<i32> = Vec::new();
    let end = match read_values_into(info, pos + 1, count, &mut fields) {
        Ok(e) => e,
        Err(e) => {
            return Err(e);
        },
    };
    proof {
        lemma_read_values_end(info@, pos + 1, count as nat);
        if let Ok((vs, e)) = read_values(info@, pos + 1, count as nat) {
            assert(Seq::<i32>::empty() + vs =~= vs);
        }
    }
    if derived6 && tag == 2 {
        let h11 = fields[4] as i64;
        let h12 = fields[5] as i64;
        let h13 = fields[6] as i64;
        let h22 = 44 + 4 * h11 + 4 * h13 - 2 * h12;
        let euler = 48 + 6 * (h11 - h12 + h13);
        if h22 < -0x8000_0000 || h22 > 0x7fff_ffff || euler < -0x8000_0000 || euler > 0x7fff_ffff {
            return Err(Error::Overflow);
        }
    }
    Ok((tag, fields, end))
}

/// `positions` grows by the new record's position when its tag matches.
proof fn lemma_positions_push(s: Seq<(u8, Seq<i32>)>, x: (u8, Seq<i32>), t: u8)
    ensures
        positions(s.push(x), t) == if x.0 == t {
            positions(s, t).push(s.len() as int)
        } else {
            positions(s, t)
        },
{
    assert(s.push(x).drop_last() =~= s);
}

/// Every position lies within the records.
proof fn lemma_positions_range(s: Seq<(u8, Seq<i32>)>, t: u8)
    ensures
        forall|i: int|
            0 <= i < positions(s, t).len() ==> 0 <= #[trigger] positions(s, t)[i] < s.len(),
    decreases s.len(),
{
    if s.len() > 0 {
        lemma_positions_range(s.drop_last(), t);
        let p = positions(s.drop_last(), t);
        assert forall|i: int| 0 <= i < positions(s, t).len() implies 0 <= #[trigger] positions(
            s,
            t,
        )[i] < s.len() by {
            if i < p.len() {
                assert(positions(s, t)[i] == p[i]);
            }
        }
    }
}

/// Appending an entry to every column adds one row and keeps the others.
proof fn lemma_rows_append(old: Seq<Vec<i32>>, new: Seq<Vec<i32>>, c: nat, ws: Seq<i32>)
    requires
        old.len() == new.len(),
        new.len() == ws.len(),
        uniform(old, c),
        forall|j: int| 0 <= j < new.len() ==> (#[trigger] new[j]@) == old[j]@.push(ws[j]),
    ensures
        uniform(new, c + 1),
        forall|i: int| 0 <= i < c ==> #[trigger] rows(new, c + 1)[i] == rows(old, c)[i],
        rows(new, c + 1)[c as int] == ws,
{
    assert forall|i: int| 0 <= i < c implies #[trigger] rows(new, c + 1)[i] == rows(old, c)[i] by {
        assert(rows(new, c + 1)[i] =~= rows(old, c)[i]);
    }
    assert(rows(new, c + 1)[c as int] =~= ws);
    assert forall|j: int| 0 <= j < new.len() implies (#[trigger] new[j]@).len() == c + 1 by {
        assert(new[j]@ == old[j]@.push(ws[j]));
    }
}

/// Records keep their positions when one more record comes after them.
proof fn lemma_positions_keep(done: Seq<(u8, Seq<i32>)>, x: (u8, Seq<i32>), t: u8)
    ensures
        forall|i: int|
            0 <= i < positions(done, t).len() ==> done.push(x)[#[trigger] positions(done, t)[i]]
                == done[positions(done, t)[i]],
{
    lemma_positions_range(done, t);
}

/// Adding a record of the first tier keeps the tiers in step with the
/// records.
proof fn lemma_tiers_hold_non_ip(
    ni0: NonIpPolytopeInfo,
    ni: NonIpPolytopeInfo,
    nr: NonReflexivePolytopeInfo,
    rf: ReflexivePolytopeInfo,
    done: Seq<(u8, Seq<i32>)>,
    x: (u8, Seq<i32>),
    w: Seq<i32>,
    d: nat,
    derived6: bool,
)
    requires
        tiers_hold(ni0, nr, rf, done, w, d, derived6),
        x.0 == 0,
        ni.wf(),
        ni.dimension == ni0.dimension,
        ni.count() == ni0.count() + 1,
        forall|i: int|
            0 <= i < ni0.count() ==> #[trigger] ni.weight_systems()[i] == ni0.weight_systems()[i],
        ni.weight_systems()[ni0.count() as int] == chunk(w, done.len() as int, d),
    ensures
        tiers_hold(ni, nr, rf, done.push(x), w, d, derived6),
{
    lemma_positions_range(done, 0);
    lemma_positions_range(done, 1);
    lemma_positions_range(done, 2);
    lemma_positions_push(done, x, 0);
    lemma_positions_push(done, x, 1);
    lemma_positions_push(done, x, 2);
    lemma_positions_keep(done, x, 1);
    lemma_positions_keep(done, x, 2);
    let q1 = positions(done, 1);
    assert forall|i: int| 0 <= i < q1.len() implies #[trigger] nr.weight_systems()[i] == chunk(
        w,
        q1[i],
        d,
    ) && nr.aux(i) == done.push(x)[q1[i]].1 by {
        assert(done.push(x)[q1[i]] == done[q1[i]]);
        assert(nr.weight_systems()[i] == chunk(w, q1[i], d));
    }
    let q2 = positions(done, 2);
    assert forall|i: int| 0 <= i < q2.len() implies #[trigger] rf.weight_systems()[i] == chunk(
        w,
        q2[i],
        d,
    ) && rf.aux(i) == done.push(x)[q2[i]].1 by {
        assert(done.push(x)[q2[i]] == done[q2[i]]);
        assert(rf.weight_systems()[i] == chunk(w, q2[i], d));
    }
    let tag0_at = positions(done.push(x), 0);
    assert forall|i: int| 0 <= i < tag0_at.len() implies #[trigger] ni.weight_systems()[i] == chunk(
        w,
        tag0_at[i],
        d,
    ) by {
        if i < ni0.count() {
            assert(ni0.weight_systems()[i] == chunk(w, positions(done, 0)[i], d));
        } else {
            assert(tag0_at[i] == done.len());
        }
    }
}

/// Adding a record of the second tier keeps the tiers in step with the
/// records.
proof fn lemma_tiers_hold_non_reflexive(
    ni: NonIpPolytopeInfo,
    nr0: NonReflexivePolytopeInfo,
    nr: NonReflexivePolytopeInfo,
    rf: ReflexivePolytopeInfo,
    done: Seq<(u8, Seq<i32>)>,
    x: (u8, Seq<i32>),
    w: Seq<i32>,
    d: nat,
    derived6: bool,
)
    requires
        tiers_hold(ni, nr0, rf, done, w, d, derived6),
        x.0 == 1,
        nr.wf(),
        nr.dimension == nr0.dimension,
        nr.count() == nr0.count() + 1,
        forall|i: int|
            0 <= i < nr0.count() ==> #[trigger] nr.weight_systems()[i] == nr0.weight_systems()[i]
                && nr.aux(i) == nr0.aux(i),
        nr.weight_systems()[nr0.count() as int] == chunk(w, done.len() as int, d),
        nr.aux(nr0.count() as int) == x.1,
    ensures
        tiers_hold(ni, nr, rf, done.push(x), w, d, derived6),
{
    lemma_positions_range(done, 0);
    lemma_positions_range(done, 1);
    lemma_positions_range(done, 2);
    lemma_positions_push(done, x, 0);
    lemma_positions_push(done, x, 1);
    lemma_positions_push(done, x, 2);
    lemma_positions_keep(done, x, 1);
    lemma_positions_keep(done, x, 2);
    let q0 = positions(done, 0);
    assert forall|i: int| 0 <= i < q0.len() implies #[trigger] ni.weight_systems()[i] == chunk(
        w,
        q0[i],
        d,
    ) by {
        assert(done.push(x)[q0[i]] == done[q0[i]]);
        assert(ni.weight_systems()[i] == chunk(w, q0[i], d));
    }
    let q2 = positions(done, 2);
    assert forall|i: int| 0 <= i < q2.len() implies #[trigger] rf.weight_systems()[i] == chunk(
        w,
        q2[i],
        d,
    ) && rf.aux(i) == done.push(x)[q2[i]].1 by {
        assert(done.push(x)[q2[i]] == done[q2[i]]);
        assert(rf.weight_systems()[i] == chunk(w, q2[i], d));
    }
    let tag1_at = positions(done.push(x), 1);
    assert forall|i: int| 0 <= i < tag1_at.len() implies #[trigger] nr.weight_systems()[i] == chunk(
        w,
        tag1_at[i],
        d,
    ) && nr.aux(i) == done.push(x)[tag1_at[i]].1 by {
        if i < nr0.count() {
            assert(nr0.weight_systems()[i] == chunk(w, positions(done, 1)[i], d));
            assert(done.push(x)[tag1_at[i]] == done[tag1_at[i]]);
        } else {
            assert(tag1_at[i] == done.len());
        }
    }
}

/// Adding a record of the third tier keeps the tiers in step with the
/// records.
proof fn lemma_tiers_hold_reflexive(
    ni: NonIpPolytopeInfo,
    nr: NonReflexivePolytopeInfo,
    rf0: ReflexivePolytopeInfo,
    rf: ReflexivePolytopeInfo,
    done: Seq<(u8, Seq<i32>)>,
    x: (u8, Seq<i32>),
    w: Seq<i32>,
    d: nat,
    derived6: bool,
)
    requires
        tiers_hold(ni, nr, rf0, done, w, d, derived6),
        x.0 == 2,
        rf.wf(),
        rf.dimension == rf0.dimension,
        rf.derived() == derived6,
        rf.derived_consistent(),
        rf.count() == rf0.count() + 1,
        forall|i: int|
            0 <= i < rf0.count() ==> #[trigger] rf.weight_systems()[i] == rf0.weight_systems()[i]
                && rf.aux(i) == rf0.aux(i),
        rf.weight_systems()[rf0.count() as int] == chunk(w, done.len() as int, d),
        rf.aux(rf0.count() as int) == x.1,
    ensures
        tiers_hold(ni, nr, rf, done.push(x), w, d, derived6),
{
    lemma_positions_range(done, 0);
    lemma_positions_range(done, 1);
    lemma_positions_range(done, 2);
    lemma_positions_push(done, x, 0);
    lemma_positions_push(done, x, 1);
    lemma_positions_push(done, x, 2);
    lemma_positions_keep(done, x, 1);
    lemma_positions_keep(done, x, 2);
    let q0 = positions(done, 0);
    assert forall|i: int| 0 <= i < q0.len() implies #[trigger] ni.weight_systems()[i] == chunk(
        w,
        q0[i],
        d,
    ) by {
        assert(done.push(x)[q0[i]] == done[q0[i]]);
        assert(ni.weight_systems()[i] == chunk(w, q0[i], d));
    }
    let q1 = positions(done, 1);
    assert forall|i: int| 0 <= i < q1.len() implies #[trigger] nr.weight_systems()[i] == chunk(
        w,
        q1[i],
        d,
    ) && nr.aux(i) == done.push(x)[q1[i]].1 by {
        assert(done.push(x)[q1[i]] == done[q1[i]]);
        assert(nr.weight_systems()[i] == chunk(w, q1[i], d));
    }
    let tag2_at = positions(done.push(x), 2);
    assert forall|i: int| 0 <= i < tag2_at.len() implies #[trigger] rf.weight_systems()[i] == chunk(
        w,
        tag2_at[i],
        d,
    ) && rf.aux(i) == done.push(x)[tag2_at[i]].1 by {
        if i < rf0.count() {
            assert(rf0.weight_systems()[i] == chunk(w, positions(done, 2)[i], d));
            assert(done.push(x)[tag2_at[i]] == done[tag2_at[i]]);
        } else {
            assert(tag2_at[i] == done.len());
        }
    }
}

/// Reads the classification stream `info` for the weight systems of the
/// flat array `weights`, one record per weight system, and sorts the
/// weight systems into the three tiers. In six dimensions with
/// `calculate_derived_quantities`, reflexive records also get their `h22`
/// and Euler characteristic.
pub fn read_polytope_info(
    dimension: usize,
    weights: &[i32],
    calculate_derived_quantities: bool,
    info: &[u8],
) -> (r: Result<(NonIpPolytopeInfo, NonReflexivePolytopeInfo, ReflexivePolytopeInfo), Error>)
    requires
        dimension >= 3,
    ensures
        match read_records(
            info@,
            0,
            weights@.len() / dimension as nat,
            dimension as nat,
            calculate_derived_quantities && dimension == 6,
        ) {
            Ok(recs) => r matches Ok((a, b, c)) && tiers_hold(
                a,
                b,
                c,
                recs,
                weights@,
                dimension as nat,
                calculate_derived_quantities && dimension == 6,
            ),
            Err(e) => r == Err::<
                (NonIpPolytopeInfo, NonReflexivePolytopeInfo, ReflexivePolytopeInfo),
                Error,
            >(e),
        },
{
    let derived6 = calculate_derived_quantities && dimension == 6;
    let wlen = weights.len();
    let n = wlen / dimension;
    let ghost d = dimension as nat;
    let ghost whole = read_records(info@, 0, n as nat, d, derived6);
    let mut non_ip = NonIpPolytopeInfo::new(dimension);
    let mut non_reflexive = NonReflexivePolytopeInfo::new(dimension);
    let mut reflexive = ReflexivePolytopeInfo::new(dimension, calculate_derived_quantities);
    let mut pos: usize = 0;
    let ghost mut done: Seq<(u8, Seq<i32>)> = Seq::empty();
    proof {
        assert(n * dimension <= weights@.len()) by (nonlinear_arith)
            requires
                n == weights@.len() / dimension as nat,
                dimension > 0,
        ;
        assert(whole == match read_records(info@, 0, n as nat, d, derived6) {
            Ok(rest) => Ok(done + rest),
            Err(e) => Err(e),
        }) by {
            if let Ok(rest) = read_records(info@, 0, n as nat, d, derived6) {
                assert(done + rest =~= rest);
            }
        }
    }
    for rec in 0..n
        invariant
            dimension >= 3,
            d == dimension,
            derived6 == (calculate_derived_quantities && dimension == 6),
            n == weights@.len() / dimension as nat,
            n * dimension <= weights@.len(),
            wlen == weights@.len(),
            pos <= info@.len(),
            done.len() == rec,
            whole == read_records(info@, 0, n as nat, d, derived6),
            whole == match read_records(info@, pos as int, (n - rec) as nat, d, derived6) {
                Ok(rest) => Ok(done + rest),
                Err(e) => Err(e),
            },
            tiers_hold(non_ip, non_reflexive, reflexive, done, weights@, d, derived6),
    {
        let (tag, fields, end) = match read_record_at(info, pos, dimension, derived6) {
            Ok(x) => x,
            Err(e) => {
                return Err(e);
            },
        };
        let ghost rec_v = (tag, fields@);
        proof {
            assert(rec * dimension + dimension <= n * dimension) by (nonlinear_arith)
                requires
                    rec < n,
            ;
            match read_records(info@, end as int, (n - rec - 1) as nat, d, derived6) {
                Ok(rest) => {
                    assert(done + (seq![rec_v] + rest) =~= done.push(rec_v) + rest);
                },
                Err(e) => {},
            }
            lemma_positions_push(done, rec_v, 0);
            lemma_positions_push(done, rec_v, 1);
            lemma_positions_push(done, rec_v, 2);
            lemma_positions_range(done, 0);
            lemma_positions_range(done, 1);
            lemma_positions_range(done, 2);
        }
        let start = rec * dimension;
        let ws = &weights[start..start + dimension];
        let ghost ni0 = non_ip;
        let ghost nr0 = non_reflexive;
        let ghost rf0 = reflexive;
        if tag == 0 {
            append_weight_system(&mut non_ip.weight_lists, ws);
            proof {
                assert(non_ip.weight_lists@[0]@ == ni0.weight_lists@[0]@.push(ws@[0]));
                lemma_rows_append(ni0.weight_lists@, non_ip.weight_lists@, ni0.count(), ws@);
                lemma_tiers_hold_non_ip(ni0, non_ip, non_reflexive, reflexive, done, rec_v, weights@, d, derived6);
            }
        } else if tag == 1 {
            append_weight_system(&mut non_reflexive.weight_lists, ws);
            non_reflexive.vertex_count_list.push(fields[0]);
            non_reflexive.facet_count_list.push(fields[1]);
            non_reflexive.point_count_list.push(fields[2]);
            proof {
                lemma_rows_append(nr0.weight_lists@, non_reflexive.weight_lists@, nr0.count(), ws@);
                assert(non_reflexive.aux(nr0.count() as int) =~= fields@);
                assert forall|i: int| 0 <= i < nr0.count() implies non_reflexive.aux(i) == nr0.aux(i) by {
                    assert(non_reflexive.aux(i) =~= nr0.aux(i));
                }
                lemma_tiers_hold_non_reflexive(ni0, nr0, non_reflexive, reflexive, done, rec_v, weights@, d, derived6);
            }
        } else {
            append_weight_system(&mut reflexive.weight_lists, ws);
            reflexive.vertex_count_list.push(fields[0]);
            reflexive.facet_count_list.push(fields[1]);
            reflexive.point_count_list.push(fields[2]);
            reflexive.dual_point_count_list.push(fields[3]);
            let mut hodge: Vec<i32> = Vec::new();
            let stored = dimension - 3;
            for j in 0..stored
                invariant
                    stored == dimension - 3,
                    fields@.len() == dimension + 1,
                    hodge@ == fields@.subrange(4, 4 + j),
            {
                hodge.push(fields[4 + j]);
                proof {
                    assert(hodge@ =~= fields@.subrange(4, 4 + j + 1));
                }
            }
            if derived6 {
                let h22 = hodge_number_h22(fields[4], fields[5], fields[6]);
                let euler = euler_characteristic(fields[4], fields[5], fields[6]);
                hodge.push(h22);
                reflexive.euler_characteristic_list.push(euler);
            }
            let ghost rh = reflexive.hodge_number_lists@;
            append_weight_system(&mut reflexive.hodge_number_lists, hodge.as_slice());
            proof {
                if derived6 {
                    let c = rf0.count() as int;
                    assert(hodge@[0] == fields@[4]);
                    assert(hodge@[1] == fields@[5]);
                    assert(hodge@[2] == fields@[6]);
                    assert forall|i: int| 0 <= i < reflexive.count() implies {
                        let h11 = reflexive.hodge_number_lists@[0]@[i] as int;
                        let h12 = reflexive.hodge_number_lists@[1]@[i] as int;
                        let h13 = reflexive.hodge_number_lists@[2]@[i] as int;
                        &&& #[trigger] reflexive.hodge_number_lists@[3]@[i] == h22_of(h11, h12, h13)
                        &&& reflexive.euler_characteristic_list@[i] == euler_of(h11, h12, h13)
                    } by {
                        assert(reflexive.hodge_number_lists@[0]@ == rh[0]@.push(hodge@[0]));
                        assert(reflexive.hodge_number_lists@[1]@ == rh[1]@.push(hodge@[1]));
                        assert(reflexive.hodge_number_lists@[2]@ == rh[2]@.push(hodge@[2]));
                        assert(reflexive.hodge_number_lists@[3]@ == rh[3]@.push(hodge@[3]));
                        if i < c {
                            assert(rf0.hodge_number_lists@[3]@[i] == rh[3]@[i]);
                        }
                    }
                }
                lemma_rows_append(rf0.weight_lists@, reflexive.weight_lists@, rf0.count(), ws@);
                lemma_rows_append(rf0.hodge_number_lists@, reflexive.hodge_number_lists@, rf0.count(), hodge@);
                assert(reflexive.aux(rf0.count() as int) =~= fields@);
                assert forall|i: int| 0 <= i < rf0.count() implies reflexive.aux(i) == rf0.aux(i) by {
                    assert(reflexive.aux(i) =~= rf0.aux(i));
                }
                lemma_tiers_hold_reflexive(ni0, nr0, rf0, reflexive, done, rec_v, weights@, d, derived6);
            }
        }
        proof {
            done = done.push(rec_v);
        }
        pos = end;
    }
    proof {
        assert(done + Seq::<(u8, Seq<i32>)>::empty() =~= done);
    }
    Ok((non_ip, non_reflexive, reflexive))
}

/// What decoding the binary pair gives: the errors of the weight file, a
/// dimension below 4, or the errors of the classification file; else a
/// data set with the header's dimension and index whose tiers hold the
/// classification records with their weight systems.
pub open spec fn decode_result(
    weights: Seq<u8>,
    info: Seq<u8>,
    limit: nat,
    derived: bool,
    r: Result<Dataset, Error>,
) -> bool {
    match weights_value(weights, limit) {
        Err(e) => r == Err::<Dataset, Error>(e),
        Ok((d, num, den, w)) => if d < 4 {
            r == Err::<Dataset, Error>(Error::MalformedHeader)
        } else {
            match read_records(info, 0, w.len() / d, d, derived && d == 6) {
                Err(e) => r == Err::<Dataset, Error>(e),
                Ok(recs) => r matches Ok(ds) && ds.dimension == d && ds.numerator == num
                    && ds.denominator == den && tiers_hold(
                    ds.non_ip,
                    ds.non_reflexive,
                    ds.reflexive,
                    recs,
                    w,
                    d,
                    derived && d == 6,
                ),
            }
        },
    }
}

/// Decodes the binary pair, the weight file `weights` and the
/// classification file `info`, keeping at most `limit` weight systems. In
/// six dimensions with `include_derived_quantities`, reflexive records also
/// get their `h22` and Euler characteristic.
pub fn decode_binary_pair(
    weights: &[u8],
    info: &[u8],
    limit: usize,
    include_derived_quantities: bool,
) -> (r: Result<Dataset, Error>)
    ensures
        decode_result(weights@, info@, limit as nat, include_derived_quantities, r),
{
    let (dimension, numerator, denominator, flat) = match read_weights(weights, limit) {
        Ok(x) => x,
        Err(e) => {
            return Err(e);
        },
    };
    if dimension < 4 {
        return Err(Error::MalformedHeader);
    }
    match read_polytope_info(dimension, flat.as_slice(), include_derived_quantities, info) {
        Ok((non_ip, non_reflexive, reflexive)) => Ok(
            Dataset { dimension, numerator, denominator, non_ip, non_reflexive, reflexive },
        ),
        Err(e) => Err(e),
    }
}

} // verus!
