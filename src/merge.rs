//! The writer side of the binary pair: the three sorted tiers are merged
//! into one ascending stream of weight systems, written as varints, with
//! an aligned stream of classification records.
use crate::ordering::{compare_weight_systems, front_lt, front_view, lex_lt};
use crate::tiers::{
    Dataset, NonIpPolytopeInfo, NonReflexivePolytopeInfo, ReflexivePolytopeInfo, row_at, uniform,
};
use crate::varint::{varint_bytes, write_varint};
use std::cmp::Ordering;
use vstd::prelude::*;

verus! {

/// The `n` low bytes of `x`, most significant first.
pub open spec fn be_bytes(x: nat, n: nat) -> Seq<u8>
    decreases n,
{
    if n == 0 {
        Seq::empty()
    } else {
        be_bytes(x / 256, (n - 1) as nat).push((x % 256) as u8)
    }
}

/// Header of the weight file: dimension, index numerator and denominator
/// as big-endian `u32`, then the record count as big-endian `u64`.
pub open spec fn header_bytes(dimension: nat, numerator: nat, denominator: nat, count: nat) -> Seq<
    u8,
> {
    be_bytes(dimension, 4) + be_bytes(numerator, 4) + be_bytes(denominator, 4) + be_bytes(count, 8)
}

/// The varint encodings of the entries of `xs`, each taken as `u32`.
pub open spec fn varints(xs: Seq<i32>) -> Seq<u8>
    decreases xs.len(),
{
    if xs.len() == 0 {
        Seq::empty()
    } else {
        varints(xs.drop_last()) + varint_bytes(#[verifier::truncate] (xs.last() as u32) as nat)
    }
}

/// The tier front at position `i`, absent past the end.
pub open spec fn front(s: Seq<Seq<i32>>, i: int) -> Option<Seq<i32>> {
    if 0 <= i < s.len() {
        Some(s[i])
    } else {
        None
    }
}

/// The tier whose front is emitted next: the smallest front, ties going to
/// the earlier tier.
pub open spec fn next_tier(fa: Option<Seq<i32>>, fb: Option<Seq<i32>>, fc: Option<Seq<i32>>) -> u8 {
    if fa is Some && !front_lt(fb, fa) && !front_lt(fc, fa) {
        0
    } else if fb is Some && !front_lt(fc, fb) {
        1
    } else {
        2
    }
}

/// The order in which the three-way merge emits the records of the tiers
/// `a`, `b` and `c` from positions `i`, `j` and `k` on: each entry is a tier
/// tag and a position in that tier.
pub open spec fn merge_order(
    a: Seq<Seq<i32>>,
    b: Seq<Seq<i32>>,
    c: Seq<Seq<i32>>,
    i: int,
    j: int,
    k: int,
) -> Seq<(u8, int)>
    decreases (a.len() - i) + (b.len() - j) + (c.len() - k),
{
    if i < 0 || j < 0 || k < 0 || i > a.len() || j > b.len() || k > c.len() {
        Seq::empty()
    } else if i == a.len() && j == b.len() && k == c.len() {
        Seq::empty()
    } else {
        let t = next_tier(front(a, i), front(b, j), front(c, k));
        if t == 0 && i < a.len() {
            seq![(0u8, i)] + merge_order(a, b, c, i + 1, j, k)
        } else if t == 1 && j < b.len() {
            seq![(1u8, j)] + merge_order(a, b, c, i, j + 1, k)
        } else if k < c.len() {
            seq![(2u8, k)] + merge_order(a, b, c, i, j, k + 1)
        } else {
            Seq::empty()
        }
    }
}

/// The weight system that the merge entry `e` refers to.
pub open spec fn entry_weights(
    a: Seq<Seq<i32>>,
    b: Seq<Seq<i32>>,
    c: Seq<Seq<i32>>,
    e: (u8, int),
) -> Seq<i32> {
    if e.0 == 0 {
        a[e.1]
    } else if e.0 == 1 {
        b[e.1]
    } else {
        c[e.1]
    }
}

/// The classification record of the merge entry `e`: its tag, then its
/// tier's auxiliary fields as varints.
pub open spec fn entry_info(
    non_reflexive: NonReflexivePolytopeInfo,
    reflexive: ReflexivePolytopeInfo,
    e: (u8, int),
) -> Seq<u8> {
    if e.0 == 0 {
        seq![0u8]
    } else if e.0 == 1 {
        seq![1u8] + varints(non_reflexive.aux(e.1))
    } else {
        seq![2u8] + varints(reflexive.aux(e.1))
    }
}

/// The weight stream of the entries of `order`.
pub open spec fn weight_stream(
    a: Seq<Seq<i32>>,
    b: Seq<Seq<i32>>,
    c: Seq<Seq<i32>>,
    order: Seq<(u8, int)>,
) -> Seq<u8>
    decreases order.len(),
{
    if order.len() == 0 {
        Seq::empty()
    } else {
        varints(entry_weights(a, b, c, order[0])) + weight_stream(a, b, c, order.drop_first())
    }
}

/// The classification stream of the entries of `order`.
pub open spec fn info_stream(
    non_reflexive: NonReflexivePolytopeInfo,
    reflexive: ReflexivePolytopeInfo,
    order: Seq<(u8, int)>,
) -> Seq<u8>
    decreases order.len(),
{
    if order.len() == 0 {
        Seq::empty()
    } else {
        entry_info(non_reflexive, reflexive, order[0]) + info_stream(
            non_reflexive,
            reflexive,
            order.drop_first(),
        )
    }
}

/// The merge order of the whole of the three tiers.
pub open spec fn full_order(
    non_ip: NonIpPolytopeInfo,
    non_reflexive: NonReflexivePolytopeInfo,
    reflexive: ReflexivePolytopeInfo,
) -> Seq<(u8, int)> {
    merge_order(
        non_ip.weight_systems(),
        non_reflexive.weight_systems(),
        reflexive.weight_systems(),
        0,
        0,
        0,
    )
}

/// Appends the `n` low bytes of `x`, most significant first.
fn push_be(buf: &mut Vec<u8>, x: u64, n: usize)
    requires
        n <= 8,
    ensures
        final(buf)@ == old(buf)@ + be_bytes(x as nat, n as nat),
    decreases n,
{
    if n > 0 {
        push_be(buf, x / 256, n - 1);
        buf.push((x % 256) as u8);
        proof {
            assert(buf@ =~= old(buf)@ + be_bytes(x as nat, n as nat));
        }
    } else {
        proof {
            assert(buf@ =~= old(buf)@ + be_bytes(x as nat, n as nat));
        }
    }
}

/// Appends the varints of every entry of `xs`.
fn write_varints(buf: &mut Vec<u8>, xs: &[i32])
    ensures
        final(buf)@ == old(buf)@ + varints(xs@),
{
    let n = xs.len();
    proof {
        assert(xs@.take(0) =~= Seq::<i32>::empty());
        assert(buf@ =~= old(buf)@ + varints(xs@.take(0)));
    }
    for i in 0..n
        invariant
            n == xs@.len(),
            buf@ == old(buf)@ + varints(xs@.take(i as int)),
    {
        proof {
            assert(xs@.take(i + 1).drop_last() =~= xs@.take(i as int));
        }
        write_varint(buf, xs[i] as u32);
        proof {
            assert(buf@ =~= old(buf)@ + varints(xs@.take(i + 1)));
        }
    }
    proof {
        assert(xs@.take(n as int) =~= xs@);
    }
}

/// The merge takes one step from `(i, j, k)`.
proof fn lemma_merge_step(
    a: Seq<Seq<i32>>,
    b: Seq<Seq<i32>>,
    c: Seq<Seq<i32>>,
    i: int,
    j: int,
    k: int,
)
    requires
        0 <= i <= a.len(),
        0 <= j <= b.len(),
        0 <= k <= c.len(),
        i < a.len() || j < b.len() || k < c.len(),
    ensures
        ({
            let t = next_tier(front(a, i), front(b, j), front(c, k));
            &&& t == 0 ==> i < a.len() && merge_order(a, b, c, i, j, k) == seq![(0u8, i)]
                + merge_order(a, b, c, i + 1, j, k)
            &&& t == 1 ==> j < b.len() && merge_order(a, b, c, i, j, k) == seq![(1u8, j)]
                + merge_order(a, b, c, i, j + 1, k)
            &&& t == 2 ==> k < c.len() && merge_order(a, b, c, i, j, k) == seq![(2u8, k)]
                + merge_order(a, b, c, i, j, k + 1)
        }),
{
}

/// The merge takes one step from `(i, j, k)`: it emits the front of the
/// tier that `next_tier` names.
pub proof fn lemma_merge_step_public(
    a: Seq<Seq<i32>>,
    b: Seq<Seq<i32>>,
    c: Seq<Seq<i32>>,
    i: int,
    j: int,
    k: int,
)
    requires
        0 <= i <= a.len(),
        0 <= j <= b.len(),
        0 <= k <= c.len(),
        i < a.len() || j < b.len() || k < c.len(),
    ensures
        ({
            let t = next_tier(front(a, i), front(b, j), front(c, k));
            &&& t == 0 ==> i < a.len() && merge_order(a, b, c, i, j, k) == seq![(0u8, i)]
                + merge_order(a, b, c, i + 1, j, k)
            &&& t == 1 ==> j < b.len() && merge_order(a, b, c, i, j, k) == seq![(1u8, j)]
                + merge_order(a, b, c, i, j + 1, k)
            &&& t == 2 ==> k < c.len() && merge_order(a, b, c, i, j, k) == seq![(2u8, k)]
                + merge_order(a, b, c, i, j, k + 1)
        }),
{
    lemma_merge_step(a, b, c, i, j, k);
}

/// Emitting the first entry of `rest` moves its bytes from the remaining
/// streams to the written ones.
proof fn lemma_emit(
    ws: Seq<u8>,
    pi: Seq<u8>,
    a: Seq<Seq<i32>>,
    b: Seq<Seq<i32>>,
    c: Seq<Seq<i32>>,
    nr: NonReflexivePolytopeInfo,
    rf: ReflexivePolytopeInfo,
    rest: Seq<(u8, int)>,
)
    requires
        rest.len() > 0,
    ensures
        (ws + varints(entry_weights(a, b, c, rest[0]))) + weight_stream(a, b, c, rest.drop_first())
            == ws + weight_stream(a, b, c, rest),
        (pi + entry_info(nr, rf, rest[0])) + info_stream(nr, rf, rest.drop_first()) == pi
            + info_stream(nr, rf, rest),
{
    assert((ws + varints(entry_weights(a, b, c, rest[0]))) + weight_stream(a, b, c, rest.drop_first())
        =~= ws + weight_stream(a, b, c, rest));
    assert((pi + entry_info(nr, rf, rest[0])) + info_stream(nr, rf, rest.drop_first()) =~= pi
        + info_stream(nr, rf, rest));
}

/// Writes the classification record of record `pos` of the non-reflexive
/// tier.
fn write_non_reflexive_info(buf: &mut Vec<u8>, nr: &NonReflexivePolytopeInfo, pos: usize)
    requires
        nr.wf(),
        pos < nr.count(),
    ensures
        final(buf)@ == old(buf)@ + seq![1u8] + varints(nr.aux(pos as int)),
{
    buf.push(1);
    let mut fields: Vec<i32> = Vec::new();
    fields.push(nr.vertex_count_list[pos]);
    fields.push(nr.facet_count_list[pos]);
    fields.push(nr.point_count_list[pos]);
    proof {
        assert(fields@ =~= nr.aux(pos as int));
    }
    write_varints(buf, fields.as_slice());
}

/// Writes the classification record of record `pos` of the reflexive tier.
fn write_reflexive_info(buf: &mut Vec<u8>, rf: &ReflexivePolytopeInfo, pos: usize)
    requires
        rf.wf(),
        pos < rf.count(),
    ensures
        final(buf)@ == old(buf)@ + seq![2u8] + varints(rf.aux(pos as int)),
{
    buf.push(2);
    let mut fields: Vec<i32> = Vec::new();
    fields.push(rf.vertex_count_list[pos]);
    fields.push(rf.facet_count_list[pos]);
    fields.push(rf.point_count_list[pos]);
    fields.push(rf.dual_point_count_list[pos]);
    let stored = rf.dimension - 3;
    for h in 0..stored
        invariant
            rf.wf(),
            pos < rf.count(),
            stored == rf.dimension - 3,
            fields@ == seq![
                rf.vertex_count_list@[pos as int],
                rf.facet_count_list@[pos as int],
                rf.point_count_list@[pos as int],
                rf.dual_point_count_list@[pos as int],
            ] + Seq::new(h as nat, |j: int| rf.hodge_number_lists@[j]@[pos as int]),
    {
        proof {
            assert(rf.hodge_number_lists@[h as int]@.len() == rf.count());
        }
        fields.push(rf.hodge_number_lists[h][pos]);
        proof {
            assert(fields@ =~= seq![
                rf.vertex_count_list@[pos as int],
                rf.facet_count_list@[pos as int],
                rf.point_count_list@[pos as int],
                rf.dual_point_count_list@[pos as int],
            ] + Seq::new((h + 1) as nat, |j: int| rf.hodge_number_lists@[j]@[pos as int]));
        }
    }
    write_varints(buf, fields.as_slice());
}

/// Loads the weight system of record `pos` into `front`, or empties it
/// past the end.
fn load_front(front_ws: &mut Vec<i32>, weight_lists: &Vec<Vec<i32>>, count: usize, pos: usize)
    requires
        uniform(weight_lists@, count as nat),
    ensures
        pos < count ==> final(front_ws)@ == row_at(weight_lists@, pos as int),
{
    front_ws.clear();
    if pos < count {
        collect_weights(front_ws, weight_lists, pos);
    }
}

fn collect_weights(dest: &mut Vec<i32>, weight_lists: &Vec<Vec<i32>>, pos: usize)
    requires
        forall|j: int| 0 <= j < weight_lists@.len() ==> pos < (#[trigger] weight_lists@[j]@).len(),
    ensures
        final(dest)@ == old(dest)@ + row_at(weight_lists@, pos as int),
{
    crate::tiers::collect_weights_into(dest, weight_lists.as_slice(), pos);
}

fn not_greater(o: Ordering) -> (r: bool)
    ensures
        r == (o != Ordering::Greater),
{
    match o {
        Ordering::Greater => false,
        _ => true,
    }
}

/// The optional slice view of a tier front.
fn front_slice(front_ws: &Vec<i32>, present: bool) -> (r: Option<&[i32]>)
    ensures
        front_view(r) == if present {
            Some(front_ws@)
        } else {
            None::<Seq<i32>>
        },
{
    if present {
        Some(front_ws.as_slice())
    } else {
        None
    }
}

/// Merges the three tiers, each sorted ascending, into the weight stream
/// and the aligned classification stream of the binary pair. The weight
/// stream starts with the header; each record's weights follow in the
/// order of `full_order`, and its classification record sits at the same
/// position in the second stream.
pub fn write_weights(
    dimension: usize,
    numerator: u32,
    denominator: u32,
    non_ip: &NonIpPolytopeInfo,
    non_reflexive: &NonReflexivePolytopeInfo,
    reflexive: &ReflexivePolytopeInfo,
) -> (r: (Vec<u8>, Vec<u8>))
    requires
        non_ip.wf(),
        non_reflexive.wf(),
        reflexive.wf(),
        non_ip.dimension == dimension,
        non_reflexive.dimension == dimension,
        reflexive.dimension == dimension,
        dimension <= u32::MAX,
        non_ip.count() + non_reflexive.count() + reflexive.count() <= u64::MAX,
    ensures
        r.0@ == header_bytes(
            dimension as nat,
            numerator as nat,
            denominator as nat,
            non_ip.count() + non_reflexive.count() + reflexive.count(),
        ) + weight_stream(
            non_ip.weight_systems(),
            non_reflexive.weight_systems(),
            reflexive.weight_systems(),
            full_order(*non_ip, *non_reflexive, *reflexive),
        ),
        r.1@ == info_stream(
            *non_reflexive,
            *reflexive,
            full_order(*non_ip, *non_reflexive, *reflexive),
        ),
{
    let ghost a = non_ip.weight_systems();
    let ghost b = non_reflexive.weight_systems();
    let ghost c = reflexive.weight_systems();
    let ghost total = full_order(*non_ip, *non_reflexive, *reflexive);
    let non_ip_count: usize = non_ip.weight_lists[0].len();
    let non_reflexive_count: usize = non_reflexive.vertex_count_list.len();
    let reflexive_count: usize = reflexive.vertex_count_list.len();
    proof {
        assert(non_ip.weight_lists@[0]@.len() == non_ip.count());
    }

    let mut ws_buf: Vec<u8> = Vec::new();
    let mut pi_buf: Vec<u8> = Vec::new();
    push_be(&mut ws_buf, dimension as u64, 4);
    push_be(&mut ws_buf, numerator as u64, 4);
    push_be(&mut ws_buf, denominator as u64, 4);
    push_be(
        &mut ws_buf,
        (non_ip_count as u64 + non_reflexive_count as u64) + reflexive_count as u64,
        8,
    );
    let ghost head = ws_buf@;
    proof {
        assert(head =~= header_bytes(
            dimension as nat,
            numerator as nat,
            denominator as nat,
            non_ip.count() + non_reflexive.count() + reflexive.count(),
        ));
    }

    let mut non_ip_pos: usize = 0;
    let mut non_reflexive_pos: usize = 0;
    let mut reflexive_pos: usize = 0;
    let mut non_ip_weights: Vec<i32> = Vec::new();
    let mut non_reflexive_weights: Vec<i32> = Vec::new();
    let mut reflexive_weights: Vec<i32> = Vec::new();
    load_front(&mut non_ip_weights, &non_ip.weight_lists, non_ip_count, 0);
    load_front(&mut non_reflexive_weights, &non_reflexive.weight_lists, non_reflexive_count, 0);
    load_front(&mut reflexive_weights, &reflexive.weight_lists, reflexive_count, 0);

    while non_ip_pos < non_ip_count || non_reflexive_pos < non_reflexive_count || reflexive_pos
        < reflexive_count
        invariant
            non_ip.wf(),
            non_reflexive.wf(),
            reflexive.wf(),
            a == non_ip.weight_systems(),
            b == non_reflexive.weight_systems(),
            c == reflexive.weight_systems(),
            total == merge_order(a, b, c, 0, 0, 0),
            non_ip_count == a.len(),
            non_reflexive_count == b.len(),
            reflexive_count == c.len(),
            non_ip_pos <= non_ip_count,
            non_reflexive_pos <= non_reflexive_count,
            reflexive_pos <= reflexive_count,
            non_ip_pos < non_ip_count ==> non_ip_weights@ == a[non_ip_pos as int],
            non_reflexive_pos < non_reflexive_count ==> non_reflexive_weights@
                == b[non_reflexive_pos as int],
            reflexive_pos < reflexive_count ==> reflexive_weights@ == c[reflexive_pos as int],
            ws_buf@ + weight_stream(
                a,
                b,
                c,
                merge_order(a, b, c, non_ip_pos as int, non_reflexive_pos as int, reflexive_pos as int),
            ) == head + weight_stream(a, b, c, total),
            pi_buf@ + info_stream(
                *non_reflexive,
                *reflexive,
                merge_order(a, b, c, non_ip_pos as int, non_reflexive_pos as int, reflexive_pos as int),
            ) == info_stream(*non_reflexive, *reflexive, total),
        decreases (non_ip_count - non_ip_pos) + (non_reflexive_count - non_reflexive_pos) + (
        reflexive_count - reflexive_pos),
    {
        let ghost i = non_ip_pos as int;
        let ghost j = non_reflexive_pos as int;
        let ghost k = reflexive_pos as int;
        let ghost rest = merge_order(a, b, c, i, j, k);
        let fa = front_slice(&non_ip_weights, non_ip_pos < non_ip_count);
        let fb = front_slice(&non_reflexive_weights, non_reflexive_pos < non_reflexive_count);
        let fc = front_slice(&reflexive_weights, reflexive_pos < reflexive_count);
        proof {
            assert(front_view(fa) == front(a, i));
            assert(front_view(fb) == front(b, j));
            assert(front_view(fc) == front(c, k));
            lemma_merge_step(a, b, c, i, j, k);
        }
        let pick_a = non_ip_pos < non_ip_count && not_greater(compare_weight_systems(fa, fb))
            && not_greater(compare_weight_systems(fa, fc));
        let pick_b = !pick_a && non_reflexive_pos < non_reflexive_count && not_greater(
            compare_weight_systems(fb, fc),
        );
        let ghost t = next_tier(front(a, i), front(b, j), front(c, k));
        let ghost ws0 = ws_buf@;
        let ghost pi0 = pi_buf@;
        if pick_a {
            write_varints(&mut ws_buf, non_ip_weights.as_slice());
            pi_buf.push(0);
            proof {
                assert(t == 0);
                assert(rest[0] == (0u8, i));
                assert(rest.drop_first() =~= merge_order(a, b, c, i + 1, j, k));
                assert(entry_weights(a, b, c, rest[0]) == non_ip_weights@);
                assert(entry_info(*non_reflexive, *reflexive, rest[0]) == seq![0u8]);
                lemma_emit(ws0, pi0, a, b, c, *non_reflexive, *reflexive, rest);
                assert(pi_buf@ =~= pi0 + seq![0u8]);
            }
            non_ip_pos = non_ip_pos + 1;
            load_front(&mut non_ip_weights, &non_ip.weight_lists, non_ip_count, non_ip_pos);
        } else if pick_b {
            write_varints(&mut ws_buf, non_reflexive_weights.as_slice());
            write_non_reflexive_info(&mut pi_buf, non_reflexive, non_reflexive_pos);
            proof {
                assert(t == 1);
                assert(rest[0] == (1u8, j));
                assert(rest.drop_first() =~= merge_order(a, b, c, i, j + 1, k));
                assert(entry_weights(a, b, c, rest[0]) == non_reflexive_weights@);
                assert(pi_buf@ =~= pi0 + entry_info(*non_reflexive, *reflexive, rest[0]));
                lemma_emit(ws0, pi0, a, b, c, *non_reflexive, *reflexive, rest);
            }
            non_reflexive_pos = non_reflexive_pos + 1;
            load_front(
                &mut non_reflexive_weights,
                &non_reflexive.weight_lists,
                non_reflexive_count,
                non_reflexive_pos,
            );
        } else {
            write_varints(&mut ws_buf, reflexive_weights.as_slice());
            write_reflexive_info(&mut pi_buf, reflexive, reflexive_pos);
            proof {
                assert(t == 2);
                assert(rest[0] == (2u8, k));
                assert(rest.drop_first() =~= merge_order(a, b, c, i, j, k + 1));
                assert(entry_weights(a, b, c, rest[0]) == reflexive_weights@);
                assert(pi_buf@ =~= pi0 + entry_info(*non_reflexive, *reflexive, rest[0]));
                lemma_emit(ws0, pi0, a, b, c, *non_reflexive, *reflexive, rest);
            }
            reflexive_pos = reflexive_pos + 1;
            load_front(&mut reflexive_weights, &reflexive.weight_lists, reflexive_count, reflexive_pos);
        }
    }
    (ws_buf, pi_buf)
}

/// Encodes a data set as the binary pair: the weight file, with its
/// header, and the aligned classification file.
pub fn encode_binary_pair(dataset: &Dataset) -> (r: (Vec<u8>, Vec<u8>))
    requires
        dataset.wf(),
        dataset.dimension <= u32::MAX,
        dataset.non_ip.count() + dataset.non_reflexive.count() + dataset.reflexive.count()
            <= u64::MAX,
    ensures
        r.0@ == header_bytes(
            dataset.dimension as nat,
            dataset.numerator as nat,
            dataset.denominator as nat,
            dataset.non_ip.count() + dataset.non_reflexive.count() + dataset.reflexive.count(),
        ) + weight_stream(
            dataset.non_ip.weight_systems(),
            dataset.non_reflexive.weight_systems(),
            dataset.reflexive.weight_systems(),
            full_order(dataset.non_ip, dataset.non_reflexive, dataset.reflexive),
        ),
        r.1@ == info_stream(
            dataset.non_reflexive,
            dataset.reflexive,
            full_order(dataset.non_ip, dataset.non_reflexive, dataset.reflexive),
        ),
{
    write_weights(
        dataset.dimension,
        dataset.numerator,
        dataset.denominator,
        &dataset.non_ip,
        &dataset.non_reflexive,
        &dataset.reflexive,
    )
}

/// The views of a list of weight systems.
pub open spec fn systems_view(s: Seq<Vec<i32>>) -> Seq<Seq<i32>> {
    s.map_values(|w: Vec<i32>| w@)
}

/// The optional slice of the weight system at `pos`, absent past the end.
fn front_of(s: &Vec<Vec<i32>>, pos: usize) -> (r: Option<&[i32]>)
    ensures
        front_view(r) == front(systems_view(s@), pos as int),
{
    if pos < s.len() {
        Some(s[pos].as_slice())
    } else {
        None
    }
}

/// The order in which the three-way merge takes the weight systems of the
/// three tiers, each given as a list of weight systems: per step the tier
/// tag (0, 1 or 2) and the position in that tier.
pub fn merge_positions(
    non_ip: &Vec<Vec<i32>>,
    non_reflexive: &Vec<Vec<i32>>,
    reflexive: &Vec<Vec<i32>>,
) -> (r: Vec<(u8, usize)>)
    ensures
        r@.len() == merge_order(
            systems_view(non_ip@),
            systems_view(non_reflexive@),
            systems_view(reflexive@),
            0,
            0,
            0,
        ).len(),
        forall|k: int|
            0 <= k < r@.len() ==> (#[trigger] r@[k]).0 == merge_order(
                systems_view(non_ip@),
                systems_view(non_reflexive@),
                systems_view(reflexive@),
                0,
                0,
                0,
            )[k].0 && r@[k].1 == merge_order(
                systems_view(non_ip@),
                systems_view(non_reflexive@),
                systems_view(reflexive@),
                0,
                0,
                0,
            )[k].1,
{
    let ghost a = systems_view(non_ip@);
    let ghost b = systems_view(non_reflexive@);
    let ghost c = systems_view(reflexive@);
    let ghost total = merge_order(a, b, c, 0, 0, 0);
    let mut out: Vec<(u8, usize)> = Vec::new();
    let mut i: usize = 0;
    let mut j: usize = 0;
    let mut k: usize = 0;
    let ghost mut done: Seq<(u8, int)> = Seq::empty();
    let rl = reflexive.len();
    proof {
        assert(done + total =~= total);
    }
    while i < non_ip.len() || j < non_reflexive.len() || k < rl
        invariant
            rl == reflexive@.len(),
            a == systems_view(non_ip@),
            b == systems_view(non_reflexive@),
            c == systems_view(reflexive@),
            total == merge_order(a, b, c, 0, 0, 0),
            i <= non_ip@.len(),
            j <= non_reflexive@.len(),
            k <= reflexive@.len(),
            done + merge_order(a, b, c, i as int, j as int, k as int) == total,
            out@.len() == done.len(),
            forall|m: int|
                0 <= m < done.len() ==> (#[trigger] out@[m]).0 == done[m].0 && out@[m].1 == done[m].1,
        decreases (non_ip@.len() - i) + (non_reflexive@.len() - j) + (reflexive@.len() - k),
    {
        let ghost rest = merge_order(a, b, c, i as int, j as int, k as int);
        let fa = front_of(non_ip, i);
        let fb = front_of(non_reflexive, j);
        let fc = front_of(reflexive, k);
        proof {
            lemma_merge_step(a, b, c, i as int, j as int, k as int);
        }
        let pick_a = i < non_ip.len() && not_greater(compare_weight_systems(fa, fb))
            && not_greater(compare_weight_systems(fa, fc));
        let pick_b = !pick_a && j < non_reflexive.len() && not_greater(
            compare_weight_systems(fb, fc),
        );
        let ghost t = next_tier(front(a, i as int), front(b, j as int), front(c, k as int));
        if pick_a {
            out.push((0, i));
            proof {
                assert(t == 0);
                assert(done.push(rest[0]) + rest.drop_first() =~= done + rest);
                done = done.push(rest[0]);
            }
            i = i + 1;
        } else if pick_b {
            out.push((1, j));
            proof {
                assert(t == 1);
                assert(done.push(rest[0]) + rest.drop_first() =~= done + rest);
                done = done.push(rest[0]);
            }
            j = j + 1;
        } else {
            out.push((2, k));
            proof {
                assert(t == 2);
                assert(done.push(rest[0]) + rest.drop_first() =~= done + rest);
                done = done.push(rest[0]);
            }
            k = k + 1;
        }
    }
    proof {
        assert(done + Seq::<(u8, int)>::empty() =~= done);
    }
    out
}

/// The weight systems of `s` ascend: none comes before a smaller one.
pub open spec fn ascending(s: Seq<Seq<i32>>) -> bool {
    forall|i: int, j: int| 0 <= i < j < s.len() ==> !lex_lt(#[trigger] s[j], #[trigger] s[i])
}

/// The front that the merge emits is not greater than any other front.
proof fn lemma_next_is_least(fa: Option<Seq<i32>>, fb: Option<Seq<i32>>, fc: Option<Seq<i32>>)
    requires
        fa is Some || fb is Some || fc is Some,
    ensures
        ({
            let t = next_tier(fa, fb, fc);
            let ft = if t == 0 {
                fa
            } else if t == 1 {
                fb
            } else {
                fc
            };
            &&& ft is Some
            &&& !front_lt(fa, ft)
            &&& !front_lt(fb, ft)
            &&& !front_lt(fc, ft)
        }),
{
    if let Some(x) = fa {
        crate::ordering::lemma_lex_trichotomy(x, x);
    }
    if let Some(y) = fb {
        crate::ordering::lemma_lex_trichotomy(y, y);
    }
    if let Some(z) = fc {
        crate::ordering::lemma_lex_trichotomy(z, z);
    }
    if let Some(x) = fa {
        if let Some(y) = fb {
            crate::ordering::lemma_lex_trichotomy(x, y);
        }
        if let Some(z) = fc {
            crate::ordering::lemma_lex_trichotomy(x, z);
        }
    }
    if let Some(y) = fb {
        if let Some(z) = fc {
            crate::ordering::lemma_lex_trichotomy(y, z);
        }
    }
    if let (Some(x), Some(y), Some(z)) = (fa, fb, fc) {
        if crate::ordering::lex_lt(y, z) && crate::ordering::lex_lt(z, x) {
            crate::ordering::lemma_lex_transitive(y, z, x);
        }
        if crate::ordering::lex_lt(z, y) && crate::ordering::lex_lt(y, x) {
            crate::ordering::lemma_lex_transitive(z, y, x);
        }
        if crate::ordering::lex_lt(x, z) && crate::ordering::lex_lt(z, y) {
            crate::ordering::lemma_lex_transitive(x, z, y);
        }
        if crate::ordering::lex_lt(z, x) && crate::ordering::lex_lt(x, y) {
            crate::ordering::lemma_lex_transitive(z, x, y);
        }
        if crate::ordering::lex_lt(x, y) && crate::ordering::lex_lt(y, z) {
            crate::ordering::lemma_lex_transitive(x, y, z);
        }
        if crate::ordering::lex_lt(y, x) && crate::ordering::lex_lt(x, z) {
            crate::ordering::lemma_lex_transitive(y, x, z);
        }
    }
}

/// From tiers that each ascend, the merge emits weight systems in
/// ascending order: no weight system it emits is smaller than the one
/// emitted just before it.
pub proof fn lemma_merge_ascending(
    a: Seq<Seq<i32>>,
    b: Seq<Seq<i32>>,
    c: Seq<Seq<i32>>,
    i: int,
    j: int,
    k: int,
)
    requires
        ascending(a),
        ascending(b),
        ascending(c),
        0 <= i <= a.len(),
        0 <= j <= b.len(),
        0 <= k <= c.len(),
    ensures
        forall|p: int|
            0 <= p < merge_order(a, b, c, i, j, k).len() - 1 ==> !lex_lt(
                #[trigger] entry_weights(a, b, c, merge_order(a, b, c, i, j, k)[p + 1]),
                entry_weights(a, b, c, merge_order(a, b, c, i, j, k)[p]),
            ),
    decreases (a.len() - i) + (b.len() - j) + (c.len() - k),
{
    let o = merge_order(a, b, c, i, j, k);
    if i < a.len() || j < b.len() || k < c.len() {
        lemma_merge_step(a, b, c, i, j, k);
        let fa = front(a, i);
        let fb = front(b, j);
        let fc = front(c, k);
        let t = next_tier(fa, fb, fc);
        lemma_next_is_least(fa, fb, fc);
        let (i2, j2, k2) = if t == 0 {
            (i + 1, j, k)
        } else if t == 1 {
            (i, j + 1, k)
        } else {
            (i, j, k + 1)
        };
        lemma_merge_ascending(a, b, c, i2, j2, k2);
        let rest = merge_order(a, b, c, i2, j2, k2);
        let e = o[0];
        assert(o == seq![e] + rest);
        let first = entry_weights(a, b, c, e);
        if rest.len() > 0 {
            lemma_merge_step(a, b, c, i2, j2, k2);
            let ga = front(a, i2);
            let gb = front(b, j2);
            let gc = front(c, k2);
            lemma_next_is_least(ga, gb, gc);
            // every front after the step is at least the emitted one
            assert(!front_lt(ga, Some(first))) by {
                if t == 0 && i2 < a.len() {
                    assert(!lex_lt(a[i2], a[i]));
                }
            }
            assert(!front_lt(gb, Some(first))) by {
                if t == 1 && j2 < b.len() {
                    assert(!lex_lt(b[j2], b[j]));
                }
            }
            assert(!front_lt(gc, Some(first))) by {
                if t == 2 && k2 < c.len() {
                    assert(!lex_lt(c[k2], c[k]));
                }
            }
            assert(!lex_lt(entry_weights(a, b, c, rest[0]), first));
        }
        assert forall|p: int| 0 <= p < o.len() - 1 implies !lex_lt(
            #[trigger] entry_weights(a, b, c, o[p + 1]),
            entry_weights(a, b, c, o[p]),
        ) by {
            if p > 0 {
                assert(o[p] == rest[p - 1]);
                assert(o[p + 1] == rest[p]);
                let q = p - 1;
                assert(0 <= q < rest.len() - 1);
                assert(!lex_lt(entry_weights(a, b, c, rest[q + 1]), entry_weights(a, b, c, rest[q])));
                assert(q + 1 == p);
            } else {
                assert(o[1] == rest[0]);
                assert(o[0] == e);
            }
        }
    }
}

} // verus!
