//! The binary pair decodes to what was encoded: the weight stream gives back
//! the header fields and the merged weights, the classification stream the
//! records, and the records sort back into the very tiers they came from.
use crate::binary::{
    be_value, chunk, decode_result, derived_fit, field_count, positions, read_record, read_records,
    read_values, tiers_hold, weights_value,
};
use crate::error::Error;
use crate::merge::{
    be_bytes, entry_info, entry_weights, front, full_order, header_bytes, info_stream,
    merge_order, next_tier, varints, weight_stream,
};
use crate::tiers::{Dataset, NonReflexivePolytopeInfo, ReflexivePolytopeInfo};
use crate::varint::{lemma_parse_encoding, varint_at, varint_bytes};
use vstd::prelude::*;

verus! {

proof fn lemma_be_bytes(x: nat, n: nat)
    requires
        x < crate::binary::pow256(n),
    ensures
        be_bytes(x, n).len() == n,
        be_value(be_bytes(x, n)) == x,
    decreases n,
{
    if n > 0 {
        assert(x / 256 < crate::binary::pow256((n - 1) as nat)) by (nonlinear_arith)
            requires
                x < crate::binary::pow256(n),
                crate::binary::pow256(n) == 256 * crate::binary::pow256((n - 1) as nat),
        ;
        lemma_be_bytes(x / 256, (n - 1) as nat);
        assert(be_bytes(x, n).drop_last() =~= be_bytes(x / 256, (n - 1) as nat));
    }
}

/// The varints of a concatenation are the concatenation of the varints.
pub proof fn lemma_varints_concat(xs: Seq<i32>, ys: Seq<i32>)
    ensures
        varints(xs + ys) == varints(xs) + varints(ys),
    decreases ys.len(),
{
    if ys.len() == 0 {
        assert(xs + ys =~= xs);
        assert(varints(xs) + varints(ys) =~= varints(xs));
    } else {
        assert((xs + ys).drop_last() =~= xs + ys.drop_last());
        assert((xs + ys).last() == ys.last());
        lemma_varints_concat(xs, ys.drop_last());
        assert(varints(xs) + varints(ys.drop_last()) + varint_bytes(
            #[verifier::truncate] (ys.last() as u32) as nat,
        ) =~= varints(xs) + varints(ys));
    }
}

/// The weights of the entries of `order`, one after the other.
pub open spec fn merged_weights(
    a: Seq<Seq<i32>>,
    b: Seq<Seq<i32>>,
    c: Seq<Seq<i32>>,
    order: Seq<(u8, int)>,
) -> Seq<i32>
    decreases order.len(),
{
    if order.len() == 0 {
        Seq::empty()
    } else {
        entry_weights(a, b, c, order[0]) + merged_weights(a, b, c, order.drop_first())
    }
}

proof fn lemma_weight_stream(a: Seq<Seq<i32>>, b: Seq<Seq<i32>>, c: Seq<Seq<i32>>, order: Seq<(u8, int)>)
    ensures
        weight_stream(a, b, c, order) == varints(merged_weights(a, b, c, order)),
    decreases order.len(),
{
    if order.len() > 0 {
        lemma_weight_stream(a, b, c, order.drop_first());
        lemma_varints_concat(entry_weights(a, b, c, order[0]), merged_weights(a, b, c, order.drop_first()));
    } else {
        assert(varints(Seq::<i32>::empty()) =~= Seq::<u8>::empty());
    }
}

/// Every entry is a non-negative `i32`.
pub open spec fn nonneg(xs: Seq<i32>) -> bool {
    forall|i: int| 0 <= i < xs.len() ==> #[trigger] xs[i] >= 0
}

/// Reading back the varints of non-negative values gives the values.
proof fn lemma_read_varints(b: Seq<u8>, pos: int, xs: Seq<i32>)
    requires
        nonneg(xs),
        0 <= pos,
        pos + varints(xs).len() <= b.len(),
        b.subrange(pos, pos + varints(xs).len()) == varints(xs),
    ensures
        read_values(b, pos, xs.len()) == Ok::<(Seq<i32>, int), Error>(
            (xs, pos + varints(xs).len()),
        ),
    decreases xs.len(),
{
    if xs.len() > 0 {
        let x = xs[0];
        let rest = xs.drop_first();
        assert(xs =~= seq![x] + rest);
        lemma_varints_concat(seq![x], rest);
        assert(x >= 0);
        assert(seq![x].drop_last() =~= Seq::<i32>::empty());
        assert(varints(Seq::<i32>::empty()) =~= Seq::<u8>::empty());
        assert((#[verifier::truncate] (x as u32)) as nat == x as nat);
        assert(varints(seq![x]) =~= varint_bytes(x as nat));
        let e = varint_bytes(x as nat);
        let tail = b.subrange(pos + e.len(), b.len() as int);
        assert(b.subrange(pos, b.len() as int) =~= e + tail) by {
            assert(b.subrange(pos, pos + varints(xs).len()) == e + varints(rest));
        }
        lemma_parse_encoding(x as nat, 0, tail);
        assert(varint_at(b, pos) == Ok::<(nat, nat), Error>((x as nat, e.len())));
        let whole = b.subrange(pos, pos + varints(xs).len());
        assert(whole == e + varints(rest));
        assert forall|i: int| 0 <= i < varints(rest).len() implies #[trigger] b.subrange(
            pos + e.len(),
            pos + e.len() + varints(rest).len(),
        )[i] == varints(rest)[i] by {
            assert(whole[e.len() + i] == b[pos + e.len() + i]);
            assert((e + varints(rest))[e.len() + i] == varints(rest)[i]);
        }
        assert(b.subrange(pos + e.len(), pos + e.len() + varints(rest).len()) =~= varints(rest));
        assert(nonneg(rest)) by {
            assert forall|i: int| 0 <= i < rest.len() implies #[trigger] rest[i] >= 0 by {
                assert(rest[i] == xs[i + 1]);
            }
        }
        lemma_read_varints(b, pos + e.len(), rest);
        assert(seq![(x as nat) as i32] + rest =~= xs);
        assert(rest.len() == (xs.len() - 1) as nat);
        assert(varints(xs).len() == e.len() + varints(rest).len());
        assert(read_values(b, pos, xs.len()) == match read_values(b, pos + e.len(), (xs.len() - 1) as nat) {
            Ok((r, end)) => Ok((seq![(x as nat) as i32] + r, end)),
            Err(err) => Err(err),
        });
    } else {
        assert(varints(xs) =~= Seq::<u8>::empty());
        assert(xs =~= Seq::<i32>::empty());
    }
}

/// Number of entries with tag `t` among the first `n` of `order`.
pub open spec fn tag_count(order: Seq<(u8, int)>, t: u8, n: int) -> nat
    decreases n,
{
    if n <= 0 {
        0
    } else {
        tag_count(order, t, n - 1) + if order[n - 1].0 == t {
            1nat
        } else {
            0nat
        }
    }
}

/// The position from which the merge takes tier `t`.
pub open spec fn base(t: u8, i: int, j: int, k: int) -> int {
    if t == 0 {
        i
    } else if t == 1 {
        j
    } else {
        k
    }
}

/// The number of weight systems of tier `t`.
pub open spec fn tier_len(a: Seq<Seq<i32>>, b: Seq<Seq<i32>>, c: Seq<Seq<i32>>, t: u8) -> int {
    if t == 0 {
        a.len() as int
    } else if t == 1 {
        b.len() as int
    } else {
        c.len() as int
    }
}

proof fn lemma_tag_count_cons(e: (u8, int), rest: Seq<(u8, int)>, t: u8, p: int)
    requires
        0 <= p <= rest.len(),
    ensures
        tag_count(seq![e] + rest, t, p + 1) == tag_count(rest, t, p) + if e.0 == t {
            1nat
        } else {
            0nat
        },
    decreases p,
{
    if p > 0 {
        lemma_tag_count_cons(e, rest, t, p - 1);
        assert((seq![e] + rest)[p] == rest[p - 1]);
    } else {
        assert((seq![e] + rest)[0] == e);
        assert(tag_count(seq![e] + rest, t, 0) == 0);
        assert(tag_count(rest, t, 0) == 0);
    }
}

/// The merge takes every weight system of every tier exactly once, each
/// tier in its own order.
proof fn lemma_merge_shape(a: Seq<Seq<i32>>, b: Seq<Seq<i32>>, c: Seq<Seq<i32>>, i: int, j: int, k: int)
    requires
        0 <= i <= a.len(),
        0 <= j <= b.len(),
        0 <= k <= c.len(),
    ensures
        ({
            let o = merge_order(a, b, c, i, j, k);
            &&& o.len() == (a.len() - i) + (b.len() - j) + (c.len() - k)
            &&& forall|p: int|
                0 <= p < o.len() ==> (#[trigger] o[p]).0 <= 2 && o[p].1 == base(o[p].0, i, j, k)
                    + tag_count(o, o[p].0, p) && 0 <= o[p].1 < tier_len(a, b, c, o[p].0)
            &&& forall|t: u8|
                t <= 2 ==> #[trigger] tag_count(o, t, o.len() as int) == tier_len(a, b, c, t) - base(
                    t,
                    i,
                    j,
                    k,
                )
        }),
    decreases (a.len() - i) + (b.len() - j) + (c.len() - k),
{
    let o = merge_order(a, b, c, i, j, k);
    if i == a.len() && j == b.len() && k == c.len() {
        assert forall|t: u8| t <= 2 implies #[trigger] tag_count(o, t, o.len() as int) == tier_len(
            a,
            b,
            c,
            t,
        ) - base(t, i, j, k) by {}
    } else {
        crate::merge::lemma_merge_step_public(a, b, c, i, j, k);
        let tn = next_tier(front(a, i), front(b, j), front(c, k));
        let (i2, j2, k2) = if tn == 0 {
            (i + 1, j, k)
        } else if tn == 1 {
            (i, j + 1, k)
        } else {
            (i, j, k + 1)
        };
        lemma_merge_shape(a, b, c, i2, j2, k2);
        let rest = merge_order(a, b, c, i2, j2, k2);
        let e = o[0];
        assert(o == seq![e] + rest);
        assert(e.0 == tn && e.1 == base(tn, i, j, k));
        assert forall|p: int| 0 <= p < o.len() implies (#[trigger] o[p]).0 <= 2 && o[p].1 == base(
            o[p].0,
            i,
            j,
            k,
        ) + tag_count(o, o[p].0, p) && 0 <= o[p].1 < tier_len(a, b, c, o[p].0) by {
            if p > 0 {
                assert(o[p] == rest[p - 1]);
                lemma_tag_count_cons(e, rest, o[p].0, p - 1);
            }
        }
        assert forall|t: u8| t <= 2 implies #[trigger] tag_count(o, t, o.len() as int) == tier_len(
            a,
            b,
            c,
            t,
        ) - base(t, i, j, k) by {
            lemma_tag_count_cons(e, rest, t, rest.len() as int);
        }
    }
}

/// The fields of the classification record of entry `e`.
pub open spec fn entry_fields(
    nr: NonReflexivePolytopeInfo,
    rf: ReflexivePolytopeInfo,
    e: (u8, int),
) -> Seq<i32> {
    if e.0 == 0 {
        Seq::empty()
    } else if e.0 == 1 {
        nr.aux(e.1)
    } else {
        rf.aux(e.1)
    }
}

/// The classification records of the entries of `order`.
pub open spec fn records_of(
    nr: NonReflexivePolytopeInfo,
    rf: ReflexivePolytopeInfo,
    order: Seq<(u8, int)>,
) -> Seq<(u8, Seq<i32>)> {
    order.map_values(|e: (u8, int)| (e.0, entry_fields(nr, rf, e)))
}

/// The positions of tag `t` among records that carry the tags of `order`
/// are its entries, in order.
proof fn lemma_positions_of(s: Seq<(u8, Seq<i32>)>, order: Seq<(u8, int)>, t: u8)
    requires
        s.len() <= order.len(),
        forall|p: int| 0 <= p < s.len() ==> (#[trigger] s[p]).0 == order[p].0,
    ensures
        positions(s, t).len() == tag_count(order, t, s.len() as int),
        forall|m: int|
            0 <= m < positions(s, t).len() ==> {
                let p = #[trigger] positions(s, t)[m];
                &&& 0 <= p < s.len()
                &&& order[p].0 == t
                &&& tag_count(order, t, p) == m
            },
    decreases s.len(),
{
    if s.len() > 0 {
        let s0 = s.drop_last();
        lemma_positions_of(s0, order, t);
        let n = s.len() - 1;
        assert(s.last() == s[n]);
        assert forall|m: int| 0 <= m < positions(s, t).len() implies {
            let p = #[trigger] positions(s, t)[m];
            &&& 0 <= p < s.len()
            &&& order[p].0 == t
            &&& tag_count(order, t, p) == m
        } by {
            if m < positions(s0, t).len() {
                assert(positions(s, t)[m] == positions(s0, t)[m]);
            }
        }
    }
}

/// Every weight system of the merge has `d` weights.
pub open spec fn entries_of_len(
    a: Seq<Seq<i32>>,
    b: Seq<Seq<i32>>,
    c: Seq<Seq<i32>>,
    order: Seq<(u8, int)>,
    d: nat,
) -> bool {
    forall|p: int| 0 <= p < order.len() ==> (#[trigger] entry_weights(a, b, c, order[p])).len() == d
}

/// Weight system `p` of the merged weights is the one of entry `p`.
proof fn lemma_merged_chunk(
    a: Seq<Seq<i32>>,
    b: Seq<Seq<i32>>,
    c: Seq<Seq<i32>>,
    order: Seq<(u8, int)>,
    d: nat,
)
    requires
        entries_of_len(a, b, c, order, d),
    ensures
        merged_weights(a, b, c, order).len() == order.len() * d,
        forall|p: int|
            0 <= p < order.len() ==> #[trigger] chunk(merged_weights(a, b, c, order), p, d)
                == entry_weights(a, b, c, order[p]),
    decreases order.len(),
{
    if order.len() > 0 {
        let rest = order.drop_first();
        assert(entries_of_len(a, b, c, rest, d)) by {
            assert forall|p: int| 0 <= p < rest.len() implies (#[trigger] entry_weights(a, b, c, rest[p])).len() == d by {
                assert(rest[p] == order[p + 1]);
            }
        }
        lemma_merged_chunk(a, b, c, rest, d);
        let first = entry_weights(a, b, c, order[0]);
        let m = merged_weights(a, b, c, rest);
        assert(first.len() == d);
        assert(order.len() * d == d + rest.len() * d) by (nonlinear_arith)
            requires
                order.len() == rest.len() + 1,
        ;
        assert forall|p: int| 0 <= p < order.len() implies #[trigger] chunk(
            merged_weights(a, b, c, order),
            p,
            d,
        ) == entry_weights(a, b, c, order[p]) by {
            let w = merged_weights(a, b, c, order);
            assert(w == first + m);
            if p == 0 {
                assert(chunk(w, 0, d) =~= first);
            } else {
                assert(p * d == d + (p - 1) * d) by (nonlinear_arith);
                assert((p - 1) * d + d <= m.len()) by (nonlinear_arith)
                    requires
                        p - 1 < rest.len(),
                        m.len() == rest.len() * d,
                ;
                assert(0 <= (p - 1) * d) by (nonlinear_arith)
                    requires
                        p >= 1,
                ;
                assert(chunk(w, p, d) =~= chunk(m, p - 1, d));
                assert(rest[p - 1] == order[p]);
            }
        }
    }
}

/// The stored fields of every non-reflexive and reflexive record are
/// non-negative.
pub open spec fn fields_nonneg(nr: NonReflexivePolytopeInfo, rf: ReflexivePolytopeInfo) -> bool {
    &&& forall|i: int| 0 <= i < nr.count() ==> nonneg(#[trigger] nr.aux(i))
    &&& forall|i: int| 0 <= i < rf.count() ==> nonneg(#[trigger] rf.aux(i))
}

/// Every entry names an existing record of the second or third tier, or
/// one of the first.
pub open spec fn entries_valid(
    nr: NonReflexivePolytopeInfo,
    rf: ReflexivePolytopeInfo,
    order: Seq<(u8, int)>,
) -> bool {
    forall|p: int|
        0 <= p < order.len() ==> (#[trigger] order[p]).0 <= 2 && 0 <= order[p].1 && (order[p].0
            == 1 ==> order[p].1 < nr.count()) && (order[p].0 == 2 ==> order[p].1 < rf.count())
}

/// Reading back the classification stream of `order` gives its records.
proof fn lemma_read_info(
    b: Seq<u8>,
    pos: int,
    nr: NonReflexivePolytopeInfo,
    rf: ReflexivePolytopeInfo,
    order: Seq<(u8, int)>,
    d: nat,
    derived6: bool,
)
    requires
        nr.wf(),
        rf.wf(),
        rf.dimension == d,
        entries_valid(nr, rf, order),
        fields_nonneg(nr, rf),
        derived6 ==> rf.derived() && rf.derived_consistent(),
        0 <= pos,
        pos + info_stream(nr, rf, order).len() <= b.len(),
        b.subrange(pos, pos + info_stream(nr, rf, order).len()) == info_stream(nr, rf, order),
    ensures
        read_records(b, pos, order.len(), d, derived6) == Ok::<Seq<(u8, Seq<i32>)>, Error>(
            records_of(nr, rf, order),
        ),
    decreases order.len(),
{
    let recs = records_of(nr, rf, order);
    if order.len() == 0 {
        assert(recs =~= Seq::<(u8, Seq<i32>)>::empty());
    } else {
        let e = order[0];
        let rest = order.drop_first();
        let fields = entry_fields(nr, rf, e);
        let info = info_stream(nr, rf, order);
        let head = entry_info(nr, rf, e);
        assert(info == head + info_stream(nr, rf, rest));
        assert(varints(Seq::<i32>::empty()) =~= Seq::<u8>::empty());
        assert(head =~= seq![e.0] + varints(fields));
        assert(b[pos] == e.0) by {
            assert(b.subrange(pos, pos + info.len())[0] == b[pos]);
        }
        assert(fields.len() == field_count(e.0, d));
        assert(nonneg(fields)) by {
            assert forall|i: int| 0 <= i < fields.len() implies #[trigger] fields[i] >= 0 by {}
        }
        let whole = b.subrange(pos, pos + info.len());
        assert forall|i: int| 0 <= i < varints(fields).len() implies #[trigger] b.subrange(
            pos + 1,
            pos + 1 + varints(fields).len(),
        )[i] == varints(fields)[i] by {
            assert(whole[1 + i] == b[pos + 1 + i]);
            assert((seq![e.0] + varints(fields))[1 + i] == varints(fields)[i]);
            assert(info[1 + i] == head[1 + i]);
        }
        assert(b.subrange(pos + 1, pos + 1 + varints(fields).len()) =~= varints(fields));
        lemma_read_varints(b, pos + 1, fields);
        let end = pos + 1 + varints(fields).len();
        if derived6 && e.0 == 2 {
            let m = e.1;
            assert(rf.hodge_number_lists@[3]@[m] == crate::tiers::h22_of(
                rf.hodge_number_lists@[0]@[m] as int,
                rf.hodge_number_lists@[1]@[m] as int,
                rf.hodge_number_lists@[2]@[m] as int,
            ));
            assert(fields[4] == rf.hodge_number_lists@[0]@[m]);
            assert(fields[5] == rf.hodge_number_lists@[1]@[m]);
            assert(fields[6] == rf.hodge_number_lists@[2]@[m]);
            assert(derived_fit(fields));
        }
        assert(read_record(b, pos, d, derived6) == Ok::<((u8, Seq<i32>), int), Error>(
            ((e.0, fields), end),
        ));
        let tail = info_stream(nr, rf, rest);
        assert forall|i: int| 0 <= i < tail.len() implies #[trigger] b.subrange(end, end + tail.len())[i]
            == tail[i] by {
            assert(whole[head.len() + i] == b[end + i]);
            assert(info[head.len() + i] == tail[i]);
        }
        assert(b.subrange(end, end + tail.len()) =~= tail);
        assert(entries_valid(nr, rf, rest)) by {
            assert forall|p: int| 0 <= p < rest.len() implies (#[trigger] rest[p]).0 <= 2 && 0 <= rest[p].1 && (
            rest[p].0 == 1 ==> rest[p].1 < nr.count()) && (rest[p].0 == 2 ==> rest[p].1 < rf.count()) by {
                assert(rest[p] == order[p + 1]);
            }
        }
        lemma_read_info(b, end, nr, rf, rest, d, derived6);
        assert(recs =~= seq![(e.0, fields)] + records_of(nr, rf, rest));
    }
}

/// The auxiliary fields of the non-reflexive records, in order.
pub open spec fn non_reflexive_fields(ds: Dataset) -> Seq<Seq<i32>> {
    Seq::new(ds.non_reflexive.count(), |i: int| ds.non_reflexive.aux(i))
}

/// The stored fields of the reflexive records, in order.
pub open spec fn reflexive_fields(ds: Dataset) -> Seq<Seq<i32>> {
    Seq::new(ds.reflexive.count(), |i: int| ds.reflexive.aux(i))
}

/// Two data sets hold the same records: dimension, index, weight systems
/// and fields of every tier, and the derived quantities.
pub open spec fn same_records(x: Dataset, y: Dataset) -> bool {
    &&& x.dimension == y.dimension
    &&& x.numerator == y.numerator
    &&& x.denominator == y.denominator
    &&& x.non_ip.weight_systems() == y.non_ip.weight_systems()
    &&& x.non_reflexive.weight_systems() == y.non_reflexive.weight_systems()
    &&& x.reflexive.weight_systems() == y.reflexive.weight_systems()
    &&& non_reflexive_fields(x) == non_reflexive_fields(y)
    &&& reflexive_fields(x) == reflexive_fields(y)
    &&& x.reflexive.derived() == y.reflexive.derived()
    &&& x.reflexive.derived() ==> x.reflexive.hodge_number_lists@[3]@
        == y.reflexive.hodge_number_lists@[3]@ && x.reflexive.euler_characteristic_list@
        == y.reflexive.euler_characteristic_list@
}

/// Tiers that hold the same records with the same weights agree.
proof fn lemma_tiers_hold_unique(
    x: Dataset,
    y: Dataset,
    recs: Seq<(u8, Seq<i32>)>,
    w: Seq<i32>,
    d: nat,
    derived6: bool,
)
    requires
        tiers_hold(x.non_ip, x.non_reflexive, x.reflexive, recs, w, d, derived6),
        tiers_hold(y.non_ip, y.non_reflexive, y.reflexive, recs, w, d, derived6),
        x.dimension == y.dimension,
        x.numerator == y.numerator,
        x.denominator == y.denominator,
    ensures
        same_records(x, y),
{
    let tag0_at = positions(recs, 0);
    let tag1_at = positions(recs, 1);
    let tag2_at = positions(recs, 2);
    assert forall|i: int| 0 <= i < tag0_at.len() implies x.non_ip.weight_systems()[i]
        == y.non_ip.weight_systems()[i] by {
        assert(x.non_ip.weight_systems()[i] == chunk(w, tag0_at[i], d));
        assert(y.non_ip.weight_systems()[i] == chunk(w, tag0_at[i], d));
    }
    assert(x.non_ip.weight_systems() =~= y.non_ip.weight_systems());
    assert forall|i: int| 0 <= i < tag1_at.len() implies x.non_reflexive.weight_systems()[i]
        == y.non_reflexive.weight_systems()[i] && x.non_reflexive.aux(i) == y.non_reflexive.aux(i) by {
        assert(x.non_reflexive.weight_systems()[i] == chunk(w, tag1_at[i], d));
        assert(y.non_reflexive.weight_systems()[i] == chunk(w, tag1_at[i], d));
    }
    assert(x.non_reflexive.weight_systems() =~= y.non_reflexive.weight_systems());
    assert(non_reflexive_fields(x) =~= non_reflexive_fields(y));
    assert forall|i: int| 0 <= i < tag2_at.len() implies x.reflexive.weight_systems()[i]
        == y.reflexive.weight_systems()[i] && x.reflexive.aux(i) == y.reflexive.aux(i) by {
        assert(x.reflexive.weight_systems()[i] == chunk(w, tag2_at[i], d));
        assert(y.reflexive.weight_systems()[i] == chunk(w, tag2_at[i], d));
    }
    assert(x.reflexive.weight_systems() =~= y.reflexive.weight_systems());
    assert(reflexive_fields(x) =~= reflexive_fields(y));
    if x.reflexive.derived() {
        let xr = x.reflexive;
        let yr = y.reflexive;
        assert forall|i: int| 0 <= i < xr.count() implies xr.hodge_number_lists@[3]@[i]
            == yr.hodge_number_lists@[3]@[i] && xr.euler_characteristic_list@[i]
            == yr.euler_characteristic_list@[i] by {
            assert(xr.aux(i) == yr.aux(i));
            assert(xr.aux(i)[4] == xr.hodge_number_lists@[0]@[i]);
            assert(xr.aux(i)[5] == xr.hodge_number_lists@[1]@[i]);
            assert(xr.aux(i)[6] == xr.hodge_number_lists@[2]@[i]);
            assert(yr.aux(i)[4] == yr.hodge_number_lists@[0]@[i]);
            assert(yr.aux(i)[5] == yr.hodge_number_lists@[1]@[i]);
            assert(yr.aux(i)[6] == yr.hodge_number_lists@[2]@[i]);
            assert(xr.hodge_number_lists@[3]@[i] == xr.hodge_number_lists@[3]@[i]);
        }
        assert(xr.hodge_number_lists@[3]@.len() == xr.count());
        assert(yr.hodge_number_lists@[3]@.len() == yr.count());
        assert(xr.hodge_number_lists@[3]@ =~= yr.hodge_number_lists@[3]@);
        assert(xr.euler_characteristic_list@ =~= yr.euler_characteristic_list@);
    }
}

/// Every weight of every weight system of `s` is non-negative.
pub open spec fn systems_nonneg(s: Seq<Seq<i32>>) -> bool {
    forall|m: int| 0 <= m < s.len() ==> nonneg(#[trigger] s[m])
}

proof fn lemma_merged_nonneg(a: Seq<Seq<i32>>, b: Seq<Seq<i32>>, c: Seq<Seq<i32>>, order: Seq<(u8, int)>)
    requires
        systems_nonneg(a),
        systems_nonneg(b),
        systems_nonneg(c),
        forall|p: int|
            0 <= p < order.len() ==> 0 <= (#[trigger] order[p]).1 < tier_len(a, b, c, order[p].0),
    ensures
        nonneg(merged_weights(a, b, c, order)),
    decreases order.len(),
{
    if order.len() > 0 {
        let rest = order.drop_first();
        assert forall|p: int| 0 <= p < rest.len() implies 0 <= (#[trigger] rest[p]).1 < tier_len(a, b, c, rest[p].0) by {
            assert(rest[p] == order[p + 1]);
        }
        lemma_merged_nonneg(a, b, c, rest);
        let first = entry_weights(a, b, c, order[0]);
        assert(nonneg(first));
        let w = merged_weights(a, b, c, order);
        assert(w == first + merged_weights(a, b, c, rest));
        assert forall|i: int| 0 <= i < w.len() implies #[trigger] w[i] >= 0 by {
            if i >= first.len() {
                assert(w[i] == merged_weights(a, b, c, rest)[i - first.len()]);
            }
        }
    }
}

/// The weight file of a data set, as encoding writes it.
pub open spec fn encoded_weights(ds: Dataset) -> Seq<u8> {
    header_bytes(
        ds.dimension as nat,
        ds.numerator as nat,
        ds.denominator as nat,
        ds.non_ip.count() + ds.non_reflexive.count() + ds.reflexive.count(),
    ) + weight_stream(
        ds.non_ip.weight_systems(),
        ds.non_reflexive.weight_systems(),
        ds.reflexive.weight_systems(),
        full_order(ds.non_ip, ds.non_reflexive, ds.reflexive),
    )
}

/// The classification file of a data set, as encoding writes it.
pub open spec fn encoded_info(ds: Dataset) -> Seq<u8> {
    info_stream(ds.non_reflexive, ds.reflexive, full_order(ds.non_ip, ds.non_reflexive, ds.reflexive))
}

/// Decoding the binary pair that a data set encodes to gives back the data
/// set's records: dimension, index, every tier's weight systems and fields,
/// and in six dimensions with derived quantities `h22` and the Euler
/// characteristic. This holds for data sets of dimension at least 4 whose
/// weights and fields are non-negative, read without a limit and with the
/// derived quantities that the data set carries.
pub proof fn lemma_binary_pair_round_trip(ds: Dataset, derived: bool, r: Result<Dataset, Error>)
    requires
        ds.wf(),
        4 <= ds.dimension <= u32::MAX,
        ds.non_ip.count() + ds.non_reflexive.count() + ds.reflexive.count() <= usize::MAX,
        systems_nonneg(ds.non_ip.weight_systems()),
        systems_nonneg(ds.non_reflexive.weight_systems()),
        systems_nonneg(ds.reflexive.weight_systems()),
        fields_nonneg(ds.non_reflexive, ds.reflexive),
        ds.reflexive.derived() == (derived && ds.dimension == 6),
        ds.reflexive.derived_consistent(),
        decode_result(encoded_weights(ds), encoded_info(ds), usize::MAX as nat, derived, r),
    ensures
        r matches Ok(out) && same_records(out, ds),
{
    let d = ds.dimension as nat;
    let derived6 = derived && ds.dimension == 6;
    let a = ds.non_ip.weight_systems();
    let b = ds.non_reflexive.weight_systems();
    let c = ds.reflexive.weight_systems();
    let o = merge_order(a, b, c, 0, 0, 0);
    let count = ds.non_ip.count() + ds.non_reflexive.count() + ds.reflexive.count();
    lemma_merge_shape(a, b, c, 0, 0, 0);
    assert(o.len() == count);
    assert(entries_of_len(a, b, c, o, d)) by {
        assert forall|p: int| 0 <= p < o.len() implies (#[trigger] entry_weights(a, b, c, o[p])).len() == d by {
            assert(o[p].1 < tier_len(a, b, c, o[p].0));
        }
    }
    lemma_merged_chunk(a, b, c, o, d);
    lemma_weight_stream(a, b, c, o);
    lemma_merged_nonneg(a, b, c, o);
    let flat = merged_weights(a, b, c, o);
    // The header.
    reveal_with_fuel(crate::binary::pow256, 9);
    lemma_be_bytes(d, 4);
    lemma_be_bytes(ds.numerator as nat, 4);
    lemma_be_bytes(ds.denominator as nat, 4);
    lemma_be_bytes(count, 8);
    let h1 = be_bytes(d, 4);
    let h2 = be_bytes(ds.numerator as nat, 4);
    let h3 = be_bytes(ds.denominator as nat, 4);
    let h4 = be_bytes(count, 8);
    let ws = encoded_weights(ds);
    let v = varints(flat);
    assert(ws == h1 + h2 + h3 + h4 + v);
    assert(ws.subrange(0, 4) =~= h1);
    assert(ws.subrange(4, 8) =~= h2);
    assert(ws.subrange(8, 12) =~= h3);
    assert(ws.subrange(12, 20) =~= h4);
    assert(ws.subrange(20, 20 + v.len() as int) =~= v);
    assert(flat.len() == count * d);
    lemma_read_varints(ws, 20, flat);
    assert(weights_value(ws, usize::MAX as nat) == Ok::<(nat, nat, nat, Seq<i32>), Error>(
        (d, ds.numerator as nat, ds.denominator as nat, flat),
    ));
    assert(flat.len() / d == count) by (nonlinear_arith)
        requires
            flat.len() == count * d,
            d > 0,
    ;
    // The classification stream.
    let info = encoded_info(ds);
    assert(entries_valid(ds.non_reflexive, ds.reflexive, o)) by {
        assert forall|p: int| 0 <= p < o.len() implies (#[trigger] o[p]).0 <= 2 && 0 <= o[p].1 && (o[p].0
            == 1 ==> o[p].1 < ds.non_reflexive.count()) && (o[p].0 == 2 ==> o[p].1 < ds.reflexive.count()) by {
            assert(o[p].1 < tier_len(a, b, c, o[p].0));
        }
    }
    assert(info.subrange(0, info.len() as int) =~= info);
    lemma_read_info(info, 0, ds.non_reflexive, ds.reflexive, o, d, derived6);
    let recs = records_of(ds.non_reflexive, ds.reflexive, o);
    // The data set itself holds those records.
    lemma_positions_of(recs, o, 0);
    lemma_positions_of(recs, o, 1);
    lemma_positions_of(recs, o, 2);
    assert(tag_count(o, 0, o.len() as int) == a.len());
    assert(tag_count(o, 1, o.len() as int) == b.len());
    assert(tag_count(o, 2, o.len() as int) == c.len());
    let tag0_at = positions(recs, 0);
    let tag1_at = positions(recs, 1);
    let tag2_at = positions(recs, 2);
    assert forall|m: int| 0 <= m < tag0_at.len() implies #[trigger] ds.non_ip.weight_systems()[m] == chunk(
        flat,
        tag0_at[m],
        d,
    ) by {
        let p = tag0_at[m];
        assert(o[p] == (0u8, m));
    }
    assert forall|m: int| 0 <= m < tag1_at.len() implies #[trigger] ds.non_reflexive.weight_systems()[m]
        == chunk(flat, tag1_at[m], d) && ds.non_reflexive.aux(m) == recs[tag1_at[m]].1 by {
        let p = tag1_at[m];
        assert(o[p] == (1u8, m));
    }
    assert forall|m: int| 0 <= m < tag2_at.len() implies #[trigger] ds.reflexive.weight_systems()[m]
        == chunk(flat, tag2_at[m], d) && ds.reflexive.aux(m) == recs[tag2_at[m]].1 by {
        let p = tag2_at[m];
        assert(o[p] == (2u8, m));
    }
    assert(tiers_hold(ds.non_ip, ds.non_reflexive, ds.reflexive, recs, flat, d, derived6));
    let out = r->Ok_0;
    lemma_tiers_hold_unique(out, ds, recs, flat, d, derived6);
}

} // verus!
