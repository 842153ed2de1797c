//! Levels of the two-level list column that holds the vertex coordinates of
//! each record: one outer list per record, one inner list of `dimension`
//! coordinates per vertex.
use crate::error::Error;
use vstd::prelude::*;

verus! {

/// Repetition level of coordinate `k` of a record laid out vertex by
/// vertex with `d` coordinates each: 0 starts the record, 1 starts a
/// vertex, 2 continues one.
pub open spec fn level_at(k: int, d: nat) -> i16 {
    if k == 0 {
        0
    } else if k % (d as int) == 0 {
        1
    } else {
        2
    }
}

/// Repetition levels of a record of `count` vertices; none for a count
/// below 1.
pub open spec fn record_levels(count: i32, d: nat) -> Seq<i16> {
    if count <= 0 {
        Seq::empty()
    } else {
        Seq::new((count as nat) * d, |k: int| level_at(k, d))
    }
}

/// Repetition levels of the records with vertex counts `counts`, in order.
pub open spec fn repetition_levels_spec(counts: Seq<i32>, d: nat) -> Seq<i16>
    decreases counts.len(),
{
    if counts.len() == 0 {
        Seq::empty()
    } else {
        repetition_levels_spec(counts.drop_last(), d) + record_levels(counts.last(), d)
    }
}

proof fn lemma_level(v: nat, d: nat, i: nat)
    requires
        i < d,
    ensures
        level_at((v * d + i) as int, d) == if v == 0 && i == 0 {
            0i16
        } else if i == 0 {
            1i16
        } else {
            2i16
        },
{
    let k = v * d + i;
    assert(k % d == i) by (nonlinear_arith)
        requires
            k == v * d + i,
            i < d,
    ;
    assert(v > 0 ==> k >= d) by (nonlinear_arith)
        requires
            k == v * d + i,
    ;
}

/// Repetition levels of the coordinates of records with the given vertex
/// counts and `dimension` coordinates per vertex.
pub fn repetition_levels(vertex_counts: &[i32], dimension: usize) -> (r: Vec<i16>)
    requires
        dimension > 0,
    ensures
        r@ == repetition_levels_spec(vertex_counts@, dimension as nat),
{
    let mut r: Vec<i16> = Vec::new();
    let n = vertex_counts.len();
    for rec in 0..n
        invariant
            n == vertex_counts@.len(),
            dimension > 0,
            r@ == repetition_levels_spec(vertex_counts@.take(rec as int), dimension as nat),
    {
        let count = vertex_counts[rec];
        let ghost before = r@;
        let mut v: i32 = 0;
        proof {
            assert((v as nat) * (dimension as nat) == 0) by (nonlinear_arith)
                requires
                    v == 0,
            ;
            assert(r@ =~= before + Seq::new(0, |k: int| level_at(k, dimension as nat)));
        }
        while v < count
            invariant
                dimension > 0,
                0 <= v,
                count > 0 ==> v <= count,
                count <= 0 ==> v == 0,
                r@ == before + Seq::new((v as nat) * (dimension as nat), |k: int| level_at(k, dimension as nat)),
            decreases count - v,
        {
            for i in 0..dimension
                invariant
                    dimension > 0,
                    0 <= v < count,
                    r@ == before + Seq::new(
                        (v as nat) * (dimension as nat) + (i as nat),
                        |k: int| level_at(k, dimension as nat),
                    ),
            {
                let level: i16 = if v == 0 && i == 0 {
                    0
                } else if i == 0 {
                    1
                } else {
                    2
                };
                proof {
                    lemma_level(v as nat, dimension as nat, i as nat);
                }
                r.push(level);
                proof {
                    assert(r@ =~= before + Seq::new(
                        (v as nat) * (dimension as nat) + (i as nat) + 1,
                        |k: int| level_at(k, dimension as nat),
                    ));
                }
            }
            proof {
                assert((v as nat) * (dimension as nat) + (dimension as nat) == ((v + 1) as nat) * (
                dimension as nat)) by (nonlinear_arith)
                    requires
                        v >= 0,
                ;
            }
            v = v + 1;
        }
        proof {
            assert(vertex_counts@.take(rec + 1).drop_last() =~= vertex_counts@.take(rec as int));
            assert(vertex_counts@.take(rec + 1).last() == count);
            if count <= 0 {
                assert((v as nat) * (dimension as nat) == 0) by (nonlinear_arith)
                    requires
                        v == 0,
                ;
                assert(r@ =~= before + record_levels(count, dimension as nat));
            } else {
                assert(v == count);
                assert(r@ =~= before + record_levels(count, dimension as nat));
            }
            assert(r@ =~= repetition_levels_spec(vertex_counts@.take(rec + 1), dimension as nat));
        }
    }
    proof {
        assert(vertex_counts@.take(n as int) =~= vertex_counts@);
    }
    r
}

/// Definition levels of `n` coordinates: all fully defined.
pub fn definition_levels(n: usize) -> (r: Vec<i16>)
    ensures
        r@ == Seq::new(n as nat, |k: int| 2i16),
{
    let mut r: Vec<i16> = Vec::new();
    for k in 0..n
        invariant
            r@ == Seq::new(k as nat, |j: int| 2i16),
    {
        r.push(2);
        proof {
            assert(r@ =~= Seq::new((k + 1) as nat, |j: int| 2i16));
        }
    }
    r
}

/// One step of decoding: the coordinate `v` with repetition level `l`
/// starts a record, starts a vertex, or continues the last vertex.
pub open spec fn decode_step(acc: Seq<Seq<Seq<i32>>>, v: i32, l: i16) -> Option<Seq<Seq<Seq<i32>>>> {
    if l == 0 {
        Some(acc.push(seq![seq![v]]))
    } else if acc.len() == 0 {
        None
    } else if l == 1 {
        Some(acc.update(acc.len() - 1, acc.last().push(seq![v])))
    } else if l == 2 {
        let rec = acc.last();
        Some(acc.update(acc.len() - 1, rec.update(rec.len() - 1, rec.last().push(v))))
    } else {
        None
    }
}

/// The records, as lists of vertices, that coordinates `values` with
/// repetition levels `levels` spell; `None` where the levels do not form
/// records.
pub open spec fn decode_levels(values: Seq<i32>, levels: Seq<i16>) -> Option<Seq<Seq<Seq<i32>>>>
    decreases values.len(),
{
    if values.len() == 0 {
        Some(Seq::empty())
    } else {
        match decode_levels(values.drop_last(), levels.take(values.len() - 1)) {
            Some(acc) => decode_step(acc, values.last(), levels[values.len() - 1]),
            None => None,
        }
    }
}

/// Once a prefix does not decode, nothing longer does.
proof fn lemma_decode_none(values: Seq<i32>, levels: Seq<i16>, k: int)
    requires
        0 <= k <= values.len(),
        values.len() <= levels.len(),
        decode_levels(values.take(k), levels.take(k)) is None,
    ensures
        decode_levels(values, levels.take(values.len() as int)) is None,
    decreases values.len(),
{
    if values.len() == k {
        assert(values.take(k) =~= values);
    } else {
        let vs = values.drop_last();
        let ls = levels.take(values.len() - 1);
        assert(vs.take(k) =~= values.take(k));
        assert(ls.take(k) =~= levels.take(k));
        lemma_decode_none(vs, ls, k);
        assert(ls.take(vs.len() as int) =~= ls);
        assert(levels.take(values.len() as int).take(values.len() - 1) =~= ls);
    }
}

/// Every decoded record and vertex is non-empty.
pub open spec fn nonempty_records(acc: Seq<Seq<Seq<i32>>>) -> bool {
    forall|r: int|
        0 <= r < acc.len() ==> (#[trigger] acc[r]).len() > 0 && forall|v: int|
            0 <= v < acc[r].len() ==> (#[trigger] acc[r][v]).len() > 0
}

/// Regroups coordinates into records of vertices by their repetition
/// levels.
pub fn decode_nested(values: &[i32], levels: &[i16]) -> (r: Result<Vec<Vec<Vec<i32>>>, Error>)
    requires
        values@.len() == levels@.len(),
    ensures
        match decode_levels(values@, levels@) {
            Some(recs) => r matches Ok(out) && out@.len() == recs.len() && forall|i: int|
                0 <= i < recs.len() ==> (#[trigger] out@[i])@.map_values(|v: Vec<i32>| v@)
                    == recs[i],
            None => r == Err::<Vec<Vec<Vec<i32>>>, Error>(Error::InvalidLevels),
        },
{
    let mut out: Vec<Vec<Vec<i32>>> = Vec::new();
    let n = values.len();
    let ghost mut acc: Seq<Seq<Seq<i32>>> = Seq::empty();
    for k in 0..n
        invariant
            n == values@.len(),
            n == levels@.len(),
            decode_levels(values@.take(k as int), levels@.take(k as int)) == Some(acc),
            nonempty_records(acc),
            out@.len() == acc.len(),
            forall|i: int|
                0 <= i < acc.len() ==> (#[trigger] out@[i])@.map_values(|v: Vec<i32>| v@) == acc[i],
    {
        let v = values[k];
        let l = levels[k];
        proof {
            assert(values@.take(k + 1).drop_last() =~= values@.take(k as int));
            assert(levels@.take(k + 1).take(k as int) =~= levels@.take(k as int));
            assert(values@.take(k + 1).last() == v);
            assert(levels@.take(k + 1)[k as int] == l);
        }
        if l == 0 {
            let mut vertex: Vec<i32> = Vec::new();
            vertex.push(v);
            let mut rec: Vec<Vec<i32>> = Vec::new();
            rec.push(vertex);
            out.push(rec);
            proof {
                acc = acc.push(seq![seq![v]]);
                assert(out@[out@.len() - 1]@.map_values(|x: Vec<i32>| x@) =~= seq![seq![v]]);
            }
        } else if out.len() == 0 || l > 2 {
            proof {
                if l < 0 {
                    assert(decode_step(acc, v, l) is None);
                }
            }
            proof {
                lemma_decode_none(values@, levels@, k + 1);
                assert(levels@.take(n as int) =~= levels@);
            }
            return Err(Error::InvalidLevels);
        } else if l == 1 {
            let last = out.len() - 1;
            let mut vertex: Vec<i32> = Vec::new();
            vertex.push(v);
            out[last].push(vertex);
            proof {
                acc = acc.update(acc.len() - 1, acc.last().push(seq![v]));
                assert(out@[last as int]@.map_values(|x: Vec<i32>| x@) =~= acc[last as int]);
            }
        } else if l == 2 {
            let last = out.len() - 1;
            let lv = out[last].len() - 1;
            out[last][lv].push(v);
            proof {
                let rec = acc.last();
                acc = acc.update(acc.len() - 1, rec.update(rec.len() - 1, rec.last().push(v)));
                assert(out@[last as int]@.map_values(|x: Vec<i32>| x@) =~= acc[last as int]);
            }
        } else {
            proof {
                lemma_decode_none(values@, levels@, k + 1);
                assert(levels@.take(n as int) =~= levels@);
            }
            return Err(Error::InvalidLevels);
        }
    }
    proof {
        assert(values@.take(n as int) =~= values@);
        assert(levels@.take(n as int) =~= levels@);
    }
    Ok(out)
}

/// Decoding anything non-empty gives at least one record.
proof fn lemma_decode_nonempty(values: Seq<i32>, levels: Seq<i16>)
    requires
        values.len() > 0,
        decode_levels(values, levels) is Some,
    ensures
        decode_levels(values, levels)->Some_0.len() > 0,
    decreases values.len(),
{
    let acc = decode_levels(values.drop_last(), levels.take(values.len() - 1));
    if values.len() > 1 {
        lemma_decode_nonempty(values.drop_last(), levels.take(values.len() - 1));
    }
}

/// Decoding a concatenation whose second part starts a record decodes the
/// parts one after the other.
proof fn lemma_decode_concat(v1: Seq<i32>, l1: Seq<i16>, v2: Seq<i32>, l2: Seq<i16>)
    requires
        v1.len() == l1.len(),
        v2.len() == l2.len(),
        decode_levels(v1, l1) is Some,
        decode_levels(v2, l2) is Some,
        v2.len() > 0 ==> l2[0] == 0,
    ensures
        decode_levels(v1 + v2, l1 + l2) == Some(
            decode_levels(v1, l1)->Some_0 + decode_levels(v2, l2)->Some_0,
        ),
    decreases v2.len(),
{
    let a = decode_levels(v1, l1)->Some_0;
    if v2.len() == 0 {
        assert(v1 + v2 =~= v1);
        assert((l1 + l2).take(v1.len() as int) =~= l1);
        assert(l1.take(v1.len() as int) =~= l1);
        assert(decode_levels(v2, l2)->Some_0 =~= Seq::<Seq<Seq<i32>>>::empty());
        assert(a + Seq::<Seq<Seq<i32>>>::empty() =~= a);
        lemma_decode_take_all(v1, l1 + l2);
        lemma_decode_take_all(v1, l1);
    } else {
        let v2p = v2.drop_last();
        let l2p = l2.take(v2.len() - 1);
        assert(decode_levels(v2p, l2p) is Some);
        if v2p.len() > 0 {
            assert(l2p[0] == l2[0]);
        }
        lemma_decode_concat(v1, l1, v2p, l2p);
        let bp = decode_levels(v2p, l2p)->Some_0;
        let x = v2.last();
        let y = l2[v2.len() - 1];
        assert((v1 + v2).drop_last() =~= v1 + v2p);
        assert((l1 + l2).take((v1 + v2).len() - 1) =~= l1 + l2p);
        assert((v1 + v2).last() == x);
        assert((l1 + l2)[(v1 + v2).len() - 1] == y);
        if y != 0 {
            assert(v2p.len() > 0);
            lemma_decode_nonempty(v2p, l2p);
        }
        let b = decode_levels(v2, l2)->Some_0;
        if y == 0 {
            assert((a + bp).push(seq![seq![x]]) =~= a + bp.push(seq![seq![x]]));
        } else if y == 1 {
            assert((a + bp).update((a + bp).len() - 1, (a + bp).last().push(seq![x])) =~= a
                + bp.update(bp.len() - 1, bp.last().push(seq![x])));
        } else {
            let rec = bp.last();
            assert((a + bp).last() == rec);
            assert((a + bp).update((a + bp).len() - 1, rec.update(rec.len() - 1, rec.last().push(x)))
                =~= a + bp.update(bp.len() - 1, rec.update(rec.len() - 1, rec.last().push(x))));
        }
    }
}

/// Levels beyond the values do not matter.
proof fn lemma_decode_take_all(values: Seq<i32>, levels: Seq<i16>)
    requires
        values.len() <= levels.len(),
    ensures
        decode_levels(values, levels) == decode_levels(values, levels.take(values.len() as int)),
    decreases values.len(),
{
    if values.len() > 0 {
        let n = values.len() as int;
        assert(levels.take(n).take(n - 1) =~= levels.take(n - 1));
        assert(levels.take(n)[n - 1] == levels[n - 1]);
    }
}

/// The entries of `vs`, one list after the other.
pub open spec fn flatten(vs: Seq<Seq<i32>>) -> Seq<i32>
    decreases vs.len(),
{
    if vs.len() == 0 {
        Seq::empty()
    } else {
        flatten(vs.drop_last()) + vs.last()
    }
}

/// The coordinates of the records `rs`, record by record, vertex by vertex.
pub open spec fn flatten_records(rs: Seq<Seq<Seq<i32>>>) -> Seq<i32>
    decreases rs.len(),
{
    if rs.len() == 0 {
        Seq::empty()
    } else {
        flatten_records(rs.drop_last()) + flatten(rs.last())
    }
}

/// The vertex counts of the records `rs`.
pub open spec fn vertex_counts(rs: Seq<Seq<Seq<i32>>>) -> Seq<i32> {
    Seq::new(rs.len(), |r: int| rs[r].len() as i32)
}

/// Records that the two-level column can hold: at least one vertex each,
/// `d` coordinates per vertex, and a vertex count that fits `i32`.
pub open spec fn well_shaped(rs: Seq<Seq<Seq<i32>>>, d: nat) -> bool {
    forall|r: int|
        0 <= r < rs.len() ==> 0 < (#[trigger] rs[r]).len() <= i32::MAX && forall|v: int|
            0 <= v < rs[r].len() ==> (#[trigger] rs[r][v]).len() == d
}

/// `n` continuation levels.
pub open spec fn twos(n: nat) -> Seq<i16> {
    Seq::new(n, |j: int| 2i16)
}

/// Continuation levels append their coordinates to the last vertex.
proof fn lemma_decode_continue(v1: Seq<i32>, l1: Seq<i16>, w: Seq<i32>)
    requires
        v1.len() == l1.len(),
        decode_levels(v1, l1) matches Some(a) && a.len() > 0 && a.last().len() > 0,
    ensures
        decode_levels(v1 + w, l1 + twos(w.len())) == Some(
            {
                let a = decode_levels(v1, l1)->Some_0;
                let rec = a.last();
                a.update(a.len() - 1, rec.update(rec.len() - 1, rec.last() + w))
            },
        ),
    decreases w.len(),
{
    let a = decode_levels(v1, l1)->Some_0;
    let rec = a.last();
    if w.len() == 0 {
        assert(v1 + w =~= v1);
        assert(l1 + twos(0) =~= l1);
        assert(rec.last() + w =~= rec.last());
        lemma_decode_take_all(v1, l1);
        assert(rec.update(rec.len() - 1, rec.last()) =~= rec);
        assert(a.update(a.len() - 1, rec) =~= a);
    } else {
        let wp = w.drop_last();
        lemma_decode_continue(v1, l1, wp);
        assert((v1 + w).drop_last() =~= v1 + wp);
        assert((l1 + twos(w.len())).take((v1 + w).len() - 1) =~= l1 + twos(wp.len()));
        assert((v1 + w).last() == w.last());
        assert((l1 + twos(w.len()))[(v1 + w).len() - 1] == 2);
        let ap = a.update(a.len() - 1, rec.update(rec.len() - 1, rec.last() + wp));
        let recp = ap.last();
        assert(recp == rec.update(rec.len() - 1, rec.last() + wp));
        assert(recp.last() == rec.last() + wp);
        assert((rec.last() + wp).push(w.last()) =~= rec.last() + w);
        assert(recp.update(recp.len() - 1, recp.last().push(w.last())) =~= rec.update(
            rec.len() - 1,
            rec.last() + w,
        ));
        assert(ap.update(ap.len() - 1, recp.update(recp.len() - 1, recp.last().push(w.last())))
            =~= a.update(a.len() - 1, rec.update(rec.len() - 1, rec.last() + w)));
    }
}

/// The levels of vertex `v` of a record with `d` coordinates per vertex.
pub open spec fn vertex_levels(v: nat, d: nat) -> Seq<i16> {
    Seq::new(d, |j: int| level_at(v * d + j, d))
}

/// A record decodes to itself.
proof fn lemma_decode_record(rec: Seq<Seq<i32>>, d: nat, k: nat)
    requires
        1 <= k <= rec.len(),
        d >= 1,
        forall|v: int| 0 <= v < rec.len() ==> (#[trigger] rec[v]).len() == d,
    ensures
        flatten(rec.take(k as int)).len() == k * d,
        decode_levels(flatten(rec.take(k as int)), Seq::new(k * d, |q: int| level_at(q, d)))
            == Some(seq![rec.take(k as int)]),
    decreases k,
{
    let w = rec[k - 1];
    let prefix = rec.take(k - 1);
    assert(rec.take(k as int).drop_last() =~= prefix);
    assert(rec.take(k as int).last() == w);
    let lv: Seq<i16> = Seq::new(k * d, |q: int| level_at(q, d));
    let l0: Seq<i16> = Seq::new(((k - 1) * d) as nat, |q: int| level_at(q, d));
    assert(((k - 1) * d) as nat + d == k * d) by (nonlinear_arith)
        requires
            k >= 1,
    ;
    let vl = Seq::new(d, |j: int| if j == 0 { if k == 1 { 0i16 } else { 1i16 } } else { 2i16 });
    assert(lv =~= l0 + vl) by {
        assert forall|q: int| 0 <= q < lv.len() implies lv[q] == (l0 + vl)[q] by {
            if q >= l0.len() {
                let j = q - l0.len();
                lemma_div_level((k - 1) as nat, d, j as nat);
            }
        }
    }
    let first = seq![w[0]];
    let rest = w.drop_first();
    assert(w =~= first + rest);
    assert(vl =~= seq![vl[0]] + twos((d - 1) as nat));
    if k == 1 {
        assert(prefix =~= Seq::<Seq<i32>>::empty());
        assert(flatten(prefix) =~= Seq::<i32>::empty());
        assert(l0 =~= Seq::<i16>::empty());
        assert(flatten(rec.take(1)) =~= w);
        // the first coordinate starts the record
        assert(decode_levels(first, seq![0i16]) == Some(seq![seq![seq![w[0]]]])) by {
            assert(first.drop_last() =~= Seq::<i32>::empty());
            assert(first.last() == w[0]);
            assert(seq![0i16][0] == 0i16);
            assert(decode_levels(first.drop_last(), seq![0i16].take(0)) == Some(Seq::<Seq<Seq<i32>>>::empty()));
            assert(Seq::<Seq<Seq<i32>>>::empty().push(seq![seq![w[0]]]) =~= seq![seq![seq![w[0]]]]);
        }
        lemma_decode_continue(first, seq![0i16], rest);
        let a = seq![seq![seq![w[0]]]];
        assert(a[0][0] + rest =~= w);
        assert(a[0].update(0, a[0][0] + rest) =~= seq![w]);
        assert(a.update(0, a[0].update(0, a[0][0] + rest)) =~= seq![seq![w]]);
        assert(first + rest =~= w);
        assert(seq![0i16] + twos(rest.len()) =~= vl);
        assert(rec.take(1) =~= seq![w]);
        assert(seq![rec.take(1)] =~= seq![seq![w]]);
    } else {
        lemma_decode_record(rec, d, (k - 1) as nat);
        let v1 = flatten(prefix);
        let a = seq![prefix];
        // the first coordinate of vertex k - 1 starts a vertex
        let v2 = v1 + first;
        let l2 = l0 + seq![1i16];
        assert(v2.drop_last() =~= v1);
        assert(l2.take(v2.len() - 1) =~= l0);
        assert(v2.last() == w[0]);
        assert(l2[v2.len() - 1] == 1);
        let a2 = a.update(0, prefix.push(seq![w[0]]));
        assert(decode_levels(v2, l2) == Some(a2));
        lemma_decode_continue(v2, l2, rest);
        assert(v2 + rest =~= v1 + w);
        assert(l2 + twos(rest.len()) =~= l0 + vl);
        let r2 = a2.last();
        assert(r2 == prefix.push(seq![w[0]]));
        assert(r2.update(r2.len() - 1, r2.last() + rest) =~= rec.take(k as int));
        assert(a2.update(a2.len() - 1, r2.update(r2.len() - 1, r2.last() + rest)) =~= seq![rec.take(k as int)]);
    }
}

proof fn lemma_div_level(v: nat, d: nat, j: nat)
    requires
        j < d,
    ensures
        level_at((v * d + j) as int, d) == if v == 0 && j == 0 {
            0i16
        } else if j == 0 {
            1i16
        } else {
            2i16
        },
{
    lemma_level(v, d, j);
}

/// Coordinates of records with at least one vertex each and `d`
/// coordinates per vertex, given the repetition levels of their vertex
/// counts, decode back to the very records.
pub proof fn lemma_nested_round_trip(rs: Seq<Seq<Seq<i32>>>, d: nat)
    requires
        d >= 1,
        well_shaped(rs, d),
    ensures
        flatten_records(rs).len() == repetition_levels_spec(vertex_counts(rs), d).len(),
        decode_levels(flatten_records(rs), repetition_levels_spec(vertex_counts(rs), d)) == Some(rs),
    decreases rs.len(),
{
    if rs.len() == 0 {
        assert(vertex_counts(rs) =~= Seq::<i32>::empty());
    } else {
        let prev = rs.drop_last();
        let last = rs.last();
        let k = last.len();
        assert(well_shaped(prev, d)) by {
            assert forall|r: int| 0 <= r < prev.len() implies 0 < (#[trigger] prev[r]).len() <= i32::MAX
                && forall|v: int| 0 <= v < prev[r].len() ==> (#[trigger] prev[r][v]).len() == d by {
                assert(prev[r] == rs[r]);
            }
        }
        lemma_nested_round_trip(prev, d);
        assert(vertex_counts(rs).drop_last() =~= vertex_counts(prev));
        assert(vertex_counts(rs).last() == k as i32);
        assert(rs[rs.len() - 1] == last);
        assert(last.take(k as int) =~= last);
        lemma_decode_record(last, d, k);
        let l2 = record_levels(k as i32, d);
        assert(l2 == Seq::new(k * d, |q: int| level_at(q, d)));
        assert(l2[0] == 0) by {
            assert(k * d >= 1) by (nonlinear_arith)
                requires
                    k >= 1,
                    d >= 1,
            ;
        }
        lemma_decode_concat(
            flatten_records(prev),
            repetition_levels_spec(vertex_counts(prev), d),
            flatten(last),
            l2,
        );
        assert(prev + seq![last] =~= rs);
    }
}

} // verus!
