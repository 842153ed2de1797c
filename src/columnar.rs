//! The columnar layout of a tier: its schema, its columns in schema order,
//! their split into row groups, the file metadata, and the way read
//! columns go back into the tiers.
use crate::error::Error;
use crate::index::{index_value, parse_index};
use crate::text::{dec, parse_integer, parsed_in_range, push_decimal};
use crate::tiers::{
    Dataset, NonIpPolytopeInfo, NonReflexivePolytopeInfo, ReflexivePolytopeInfo, rows, uniform,
};
use vstd::prelude::*;

verus! {

/// The classification tier of a columnar file.
#[derive(Clone, Copy, Debug, PartialEq, Eq, Structural)]
pub enum Tier {
    NotInteriorPoint,
    NonReflexive,
    Reflexive,
}

/// Name of the weight column of position `i`.
pub open spec fn weight_name(i: nat) -> Seq<char> {
    "weight"@ + dec(i)
}

/// Name of the stored Hodge-number column `i`: `h11`, `h12`, ...
pub open spec fn hodge_name(i: nat) -> Seq<char> {
    "h1"@ + dec(i + 1)
}

/// Column names of a tier's file, in order.
pub open spec fn schema_names(d: nat, tier: Tier, derived6: bool) -> Seq<Seq<char>> {
    let weights = Seq::new(d, |i: int| weight_name(i as nat));
    let counts = seq!["vertex_count"@, "facet_count"@, "point_count"@];
    match tier {
        Tier::NotInteriorPoint => weights,
        Tier::NonReflexive => weights + counts,
        Tier::Reflexive => weights + counts + seq!["dual_point_count"@] + Seq::new(
            (d - 3) as nat,
            |i: int| hodge_name(i as nat),
        ) + if derived6 {
            seq!["h22"@, "euler_characteristic"@]
        } else {
            Seq::empty()
        },
    }
}

/// Appends `prefix` followed by the decimal digits of `n`.
fn numbered_name(prefix: &str, n: u32) -> (r: String)
    ensures
        r@ == prefix@ + dec(n as nat),
{
    let mut s = String::from_str(prefix);
    push_decimal(&mut s, n as u64);
    s
}

/// Names of the columns of a tier's file: `weight0` to `weight{d-1}`; for
/// the non-reflexive tier the three counts; for the reflexive tier the
/// three counts, the dual point count, the stored Hodge numbers `h11`, ...
/// and, in six dimensions with derived quantities, `h22` and the Euler
/// characteristic.
pub fn column_names(dimension: usize, tier: Tier, derived: bool) -> (r: Vec<String>)
    requires
        3 <= dimension <= u32::MAX,
    ensures
        r@.len() == schema_names(dimension as nat, tier, derived && dimension == 6).len(),
        forall|i: int|
            0 <= i < r@.len() ==> (#[trigger] r@[i])@ == schema_names(
                dimension as nat,
                tier,
                derived && dimension == 6,
            )[i],
{
    let ghost names = schema_names(dimension as nat, tier, derived && dimension == 6);
    let mut r: Vec<String> = Vec::new();
    for i in 0..dimension
        invariant
            dimension <= u32::MAX,
            r@.len() == i,
            forall|k: int| 0 <= k < i ==> (#[trigger] r@[k])@ == weight_name(k as nat),
    {
        r.push(numbered_name("weight", i as u32));
        proof {
            reveal_strlit("weight");
        }
    }
    match tier {
        Tier::NotInteriorPoint => {},
        _ => {
            r.push(String::from_str("vertex_count"));
            r.push(String::from_str("facet_count"));
            r.push(String::from_str("point_count"));
        },
    }
    match tier {
        Tier::Reflexive => {
            r.push(String::from_str("dual_point_count"));
            let stored = dimension - 3;
            for i in 0..stored
                invariant
                    stored == dimension - 3,
                    dimension <= u32::MAX,
                    r@.len() == dimension + 4 + i,
                    forall|k: int| 0 <= k < dimension ==> (#[trigger] r@[k])@ == weight_name(k as nat),
                    r@[dimension as int]@ == "vertex_count"@,
                    r@[dimension + 1]@ == "facet_count"@,
                    r@[dimension + 2]@ == "point_count"@,
                    r@[dimension + 3]@ == "dual_point_count"@,
                    forall|k: int|
                        dimension + 4 <= k < dimension + 4 + i ==> (#[trigger] r@[k])@ == hodge_name(
                            (k - dimension - 4) as nat,
                        ),
            {
                r.push(numbered_name("h1", (i + 1) as u32));
                proof {
                    reveal_strlit("h1");
                }
            }
            if derived && dimension == 6 {
                r.push(String::from_str("h22"));
                r.push(String::from_str("euler_characteristic"));
            }
        },
        _ => {},
    }
    proof {
        assert(r@.len() == names.len());
        let d = dimension as int;
        let weights = Seq::new(dimension as nat, |i: int| weight_name(i as nat));
        let counts = seq!["vertex_count"@, "facet_count"@, "point_count"@];
        let derived6 = derived && dimension == 6;
        let hodges = Seq::new((d - 3) as nat, |i: int| hodge_name(i as nat));
        let base = weights + counts;
        let s2 = base + seq!["dual_point_count"@];
        let s3 = s2 + hodges;
        let tail: Seq<Seq<char>> = if derived6 {
            seq!["h22"@, "euler_characteristic"@]
        } else {
            Seq::empty()
        };
        assert forall|i: int| 0 <= i < r@.len() implies (#[trigger] r@[i])@ == names[i] by {
            match tier {
                Tier::NotInteriorPoint => {
                    assert(names == weights);
                    assert(weights[i] == weight_name(i as nat));
                },
                Tier::NonReflexive => {
                    assert(names == base);
                    if i < d {
                        assert(base[i] == weights[i]);
                        assert(weights[i] == weight_name(i as nat));
                    } else {
                        assert(base[i] == counts[i - d]);
                    }
                },
                Tier::Reflexive => {
                    assert(names == s3 + tail);
                    if i < s3.len() {
                        assert(names[i] == s3[i]);
                        if i < s2.len() {
                            assert(s3[i] == s2[i]);
                            if i < d {
                                assert(s2[i] == base[i]);
                                assert(base[i] == weights[i]);
                                assert(weights[i] == weight_name(i as nat));
                            } else if i < d + 3 {
                                assert(s2[i] == base[i]);
                                assert(base[i] == counts[i - d]);
                            }
                        } else {
                            assert(s3[i] == hodges[i - d - 4]);
                        }
                    } else {
                        assert(names[i] == tail[i - s3.len()]);
                    }
                },
            }
        }
    }
    r
}

/// A copy of `src`.
fn copy_column(src: &Vec<i32>) -> (r: Vec<i32>)
    ensures
        r@ == src@,
{
    let mut r: Vec<i32> = Vec::new();
    extend_column(&mut r, src);
    proof {
        assert(Seq::<i32>::empty() + src@ =~= src@);
    }
    r
}

/// Appends the entries of `src` to `dst`.
fn extend_column(dst: &mut Vec<i32>, src: &Vec<i32>)
    ensures
        final(dst)@ == old(dst)@ + src@,
{
    let n = src.len();
    for i in 0..n
        invariant
            n == src@.len(),
            dst@ == old(dst)@ + src@.take(i as int),
    {
        dst.push(src[i]);
        proof {
            assert(dst@ =~= old(dst)@ + src@.take(i + 1));
        }
    }
    proof {
        assert(src@.take(n as int) =~= src@);
    }
}

/// Appends copies of the columns of `cols` to `out`.
fn push_columns(out: &mut Vec<Vec<i32>>, cols: &Vec<Vec<i32>>)
    ensures
        final(out)@.len() == old(out)@.len() + cols@.len(),
        forall|j: int| 0 <= j < old(out)@.len() ==> (#[trigger] final(out)@[j])@ == old(out)@[j]@,
        forall|j: int|
            old(out)@.len() <= j < final(out)@.len() ==> (#[trigger] final(out)@[j])@ == cols@[j
                - old(out)@.len()]@,
{
    let n = cols.len();
    for j in 0..n
        invariant
            n == cols@.len(),
            out@.len() == old(out)@.len() + j,
            forall|k: int| 0 <= k < old(out)@.len() ==> (#[trigger] out@[k])@ == old(out)@[k]@,
            forall|k: int|
                old(out)@.len() <= k < out@.len() ==> (#[trigger] out@[k])@ == cols@[k - old(
                    out,
                )@.len()]@,
    {
        out.push(copy_column(&cols[j]));
    }
}

/// The columns of a tier in the order of its schema.
pub open spec fn tier_columns_spec(ds: Dataset, tier: Tier) -> Seq<Seq<i32>> {
    match tier {
        Tier::NotInteriorPoint => ds.non_ip.weight_lists@.map_values(|c: Vec<i32>| c@),
        Tier::NonReflexive => ds.non_reflexive.weight_lists@.map_values(|c: Vec<i32>| c@) + seq![
            ds.non_reflexive.vertex_count_list@,
            ds.non_reflexive.facet_count_list@,
            ds.non_reflexive.point_count_list@,
        ],
        Tier::Reflexive => ds.reflexive.weight_lists@.map_values(|c: Vec<i32>| c@) + seq![
            ds.reflexive.vertex_count_list@,
            ds.reflexive.facet_count_list@,
            ds.reflexive.point_count_list@,
            ds.reflexive.dual_point_count_list@,
        ] + ds.reflexive.hodge_number_lists@.map_values(|c: Vec<i32>| c@) + if ds.reflexive.derived() {
            seq![ds.reflexive.euler_characteristic_list@]
        } else {
            Seq::empty()
        },
    }
}

/// The columns of a tier, copied, in the order of its schema.
pub fn tier_columns(dataset: &Dataset, tier: Tier) -> (r: Vec<Vec<i32>>)
    ensures
        r@.len() == tier_columns_spec(*dataset, tier).len(),
        forall|j: int|
            0 <= j < r@.len() ==> (#[trigger] r@[j])@ == tier_columns_spec(*dataset, tier)[j],
{
    let ghost spec_cols = tier_columns_spec(*dataset, tier);
    let mut r: Vec<Vec<i32>> = Vec::new();
    match tier {
        Tier::NotInteriorPoint => {
            push_columns(&mut r, &dataset.non_ip.weight_lists);
        },
        Tier::NonReflexive => {
            let nr = &dataset.non_reflexive;
            push_columns(&mut r, &nr.weight_lists);
            r.push(copy_column(&nr.vertex_count_list));
            r.push(copy_column(&nr.facet_count_list));
            r.push(copy_column(&nr.point_count_list));
        },
        Tier::Reflexive => {
            let rf = &dataset.reflexive;
            push_columns(&mut r, &rf.weight_lists);
            r.push(copy_column(&rf.vertex_count_list));
            r.push(copy_column(&rf.facet_count_list));
            r.push(copy_column(&rf.point_count_list));
            r.push(copy_column(&rf.dual_point_count_list));
            push_columns(&mut r, &rf.hodge_number_lists);
            if rf.dimension == 6 && rf.hodge_number_lists.len() == 4 {
                r.push(copy_column(&rf.euler_characteristic_list));
            }
        },
    }
    proof {
        assert(r@.len() == spec_cols.len());
        assert forall|j: int| 0 <= j < r@.len() implies (#[trigger] r@[j])@ == spec_cols[j] by {
            match tier {
                Tier::NotInteriorPoint => {},
                Tier::NonReflexive => {
                    let w = dataset.non_reflexive.weight_lists@;
                    if j < w.len() {
                        assert(spec_cols[j] == w[j]@);
                    }
                },
                Tier::Reflexive => {
                    let w = dataset.reflexive.weight_lists@;
                    let h = dataset.reflexive.hodge_number_lists@;
                    if j < w.len() {
                        assert(spec_cols[j] == w[j]@);
                    } else if j < w.len() + 4 {
                    } else if j < w.len() + 4 + h.len() {
                        assert(spec_cols[j] == h[j - w.len() - 4]@);
                    }
                },
            }
        }
    }
    r
}

/// Bounds `[start, end)` of row group `g` of `n` rows in groups of `size`.
pub open spec fn group_bounds(n: nat, size: nat, g: nat) -> (nat, nat) {
    (g * size, if g * size + size < n {
        g * size + size
    } else {
        n
    })
}

/// The row ranges of `row_count` rows split into groups of at most
/// `group_size` rows, in order.
pub fn row_group_bounds(row_count: usize, group_size: usize) -> (r: Vec<(usize, usize)>)
    requires
        group_size > 0,
    ensures
        r@.len() * group_size >= row_count,
        r@.len() == 0 || (r@.len() - 1) * group_size < row_count,
        forall|g: int|
            0 <= g < r@.len() ==> (#[trigger] r@[g]).0 == group_bounds(
                row_count as nat,
                group_size as nat,
                g as nat,
            ).0 && r@[g].1 == group_bounds(row_count as nat, group_size as nat, g as nat).1,
{
    let mut r: Vec<(usize, usize)> = Vec::new();
    let mut start: usize = 0;
    while start < row_count
        invariant
            group_size > 0,
            start == r@.len() * group_size,
            r@.len() == 0 || (r@.len() - 1) * group_size < row_count,
            start <= row_count || r@.len() > 0,
            forall|g: int|
                0 <= g < r@.len() ==> (#[trigger] r@[g]).0 == group_bounds(
                    row_count as nat,
                    group_size as nat,
                    g as nat,
                ).0 && r@[g].1 == group_bounds(row_count as nat, group_size as nat, g as nat).1,
        decreases row_count - start,
    {
        let end: usize = if group_size < row_count - start {
            start + group_size
        } else {
            row_count
        };
        proof {
            assert((r@.len() + 1) * group_size == r@.len() * group_size + group_size)
                by (nonlinear_arith);
        }
        r.push((start, end));
        if end == row_count {
            proof {
                assert(r@.len() * group_size >= row_count) by (nonlinear_arith)
                    requires
                        r@.len() * group_size == start + group_size,
                        row_count - start <= group_size,
                ;
            }
            return r;
        }
        start = end;
    }
    r
}

/// The metadata flags `(ip, reflexive)` of a tier.
pub open spec fn tier_flags(tier: Tier) -> (bool, bool) {
    match tier {
        Tier::NotInteriorPoint => (false, false),
        Tier::NonReflexive => (true, false),
        Tier::Reflexive => (true, true),
    }
}

/// The tier that the metadata flags name.
pub open spec fn flags_tier(ip: bool, reflexive: bool) -> Option<Tier> {
    if !ip && !reflexive {
        Some(Tier::NotInteriorPoint)
    } else if ip && !reflexive {
        Some(Tier::NonReflexive)
    } else if ip && reflexive {
        Some(Tier::Reflexive)
    } else {
        None
    }
}

/// Number of columns read back for a tier: the weights, the three counts
/// for the non-reflexive tier, and for the reflexive tier the four counts
/// and the stored Hodge numbers.
pub open spec fn read_column_count(d: nat, tier: Tier) -> nat {
    match tier {
        Tier::NotInteriorPoint => d,
        Tier::NonReflexive => d + 3,
        Tier::Reflexive => 2 * d + 1,
    }
}

/// The text of a flag.
pub open spec fn bool_text(b: bool) -> Seq<char> {
    if b {
        "true"@
    } else {
        "false"@
    }
}

fn bool_string(b: bool) -> (r: String)
    ensures
        r@ == bool_text(b),
{
    if b {
        String::from_str("true")
    } else {
        String::from_str("false")
    }
}

/// The file metadata of a tier's file: the keys `ip`, `reflexive`,
/// `dimension` and `index` with their values.
pub fn tier_metadata(tier: Tier, dimension: u32, index: &str) -> (r: Vec<(String, String)>)
    ensures
        r@.len() == 4,
        r@[0].0@ == "ip"@ && r@[0].1@ == bool_text(tier_flags(tier).0),
        r@[1].0@ == "reflexive"@ && r@[1].1@ == bool_text(tier_flags(tier).1),
        r@[2].0@ == "dimension"@ && r@[2].1@ == dec(dimension as nat),
        r@[3].0@ == "index"@ && r@[3].1@ == index@,
{
    let (ip, reflexive) = match tier {
        Tier::NotInteriorPoint => (false, false),
        Tier::NonReflexive => (true, false),
        Tier::Reflexive => (true, true),
    };
    let mut dim = String::new();
    push_decimal(&mut dim, dimension as u64);
    proof {
        assert(Seq::<char>::empty() + dec(dimension as nat) =~= dec(dimension as nat));
    }
    let mut r: Vec<(String, String)> = Vec::new();
    r.push((String::from_str("ip"), bool_string(ip)));
    r.push((String::from_str("reflexive"), bool_string(reflexive)));
    r.push((String::from_str("dimension"), dim));
    r.push((String::from_str("index"), String::from_str(index)));
    r
}

/// The value of the last entry of `md` with key `key` and a value.
pub open spec fn last_value(md: Seq<(String, Option<String>)>, key: Seq<char>) -> Option<
    Seq<char>,
>
    decreases md.len(),
{
    if md.len() == 0 {
        None
    } else if md.last().0@ == key && md.last().1 is Some {
        Some(md.last().1->Some_0@)
    } else {
        last_value(md.drop_last(), key)
    }
}

/// The flag that a text spells.
pub open spec fn bool_value(s: Option<Seq<char>>) -> Option<bool> {
    match s {
        Some(t) => if t == "true"@ {
            Some(true)
        } else if t == "false"@ {
            Some(false)
        } else {
            None
        },
        None => None,
    }
}

/// The dimension that a text spells.
pub open spec fn dimension_value(s: Option<Seq<char>>) -> Option<int> {
    match s {
        Some(t) => parsed_in_range(t, 0, i32::MAX as int),
        None => None,
    }
}

/// What the metadata of a file says: the flags, the dimension and the
/// index, each from the last entry with its key.
pub open spec fn metadata_value(md: Seq<(String, Option<String>)>) -> Result<
    (bool, bool, usize, u32, u32),
    Error,
> {
    let ip = bool_value(last_value(md, "ip"@));
    let reflexive = bool_value(last_value(md, "reflexive"@));
    let dimension = dimension_value(last_value(md, "dimension"@));
    let index = last_value(md, "index"@);
    if ip is Some && reflexive is Some && dimension is Some && index is Some {
        match index_value(index->Some_0) {
            Ok((n, d)) => Ok((ip->Some_0, reflexive->Some_0, dimension->Some_0 as usize, n, d)),
            Err(e) => Err(e),
        }
    } else {
        Err(Error::MissingMetadata)
    }
}

/// `a` and `b` hold the same characters.
fn same_text(a: &str, b: &str) -> (r: bool)
    ensures
        r == (a@ == b@),
{
    let x = crate::index::chars_of(a);
    let y = crate::index::chars_of(b);
    if x.len() != y.len() {
        return false;
    }
    let n = x.len();
    for i in 0..n
        invariant
            n == x@.len(),
            x@.len() == y@.len(),
            x@ == a@,
            y@ == b@,
            x@.take(i as int) == y@.take(i as int),
    {
        if x[i] != y[i] {
            return false;
        }
        proof {
            assert(x@.take(i + 1) =~= x@.take(i as int).push(x@[i as int]));
            assert(y@.take(i + 1) =~= y@.take(i as int).push(y@[i as int]));
        }
    }
    proof {
        assert(x@.take(n as int) =~= x@);
        assert(y@.take(n as int) =~= y@);
    }
    true
}

fn parse_bool(s: &str) -> (r: Option<bool>)
    ensures
        r == bool_value(Some(s@)),
{
    if same_text(s, "true") {
        Some(true)
    } else if same_text(s, "false") {
        Some(false)
    } else {
        None
    }
}

fn parse_dimension(s: &str) -> (r: Option<usize>)
    ensures
        r == match dimension_value(Some(s@)) {
            Some(v) => Some(v as usize),
            None => None::<usize>,
        },
{
    let cs = crate::index::chars_of(s);
    proof {
        assert(cs@.subrange(0, cs@.len() as int) =~= s@);
    }
    match parse_integer(cs.as_slice(), 0, cs.len(), 0, 0x7fff_ffff) {
        Some(v) => Some(v as usize),
        None => None,
    }
}

/// Reads the metadata entries of a columnar file: the interior-point and
/// reflexive flags, the dimension, and the index numerator and
/// denominator. Each key counts by its last entry with a value.
pub fn parse_parquet_metadata(metadata: &Vec<(String, Option<String>)>) -> (r: Result<
    (bool, bool, usize, u32, u32),
    Error,
>)
    ensures
        r == metadata_value(metadata@),
{
    let mut ip: Option<bool> = None;
    let mut reflexive: Option<bool> = None;
    let mut dimension: Option<usize> = None;
    let mut index: Option<String> = None;
    let n = metadata.len();
    for i in 0..n
        invariant
            n == metadata@.len(),
            ip == bool_value(last_value(metadata@.take(i as int), "ip"@)),
            reflexive == bool_value(last_value(metadata@.take(i as int), "reflexive"@)),
            dimension == match dimension_value(last_value(metadata@.take(i as int), "dimension"@)) {
                Some(v) => Some(v as usize),
                None => None::<usize>,
            },
            match index {
                Some(s) => last_value(metadata@.take(i as int), "index"@) == Some(s@),
                None => last_value(metadata@.take(i as int), "index"@) is None,
            },
    {
        let (key, value) = &metadata[i];
        proof {
            reveal_strlit("ip");
            reveal_strlit("reflexive");
            reveal_strlit("dimension");
            reveal_strlit("index");
            assert("ip"@.len() != "reflexive"@.len());
            assert("ip"@ != "reflexive"@);
            assert("ip"@ != "dimension"@);
            assert("ip"@.len() != "index"@.len());
            assert("ip"@ != "index"@);
            assert("reflexive"@[0] != "dimension"@[0]);
            assert("reflexive"@ != "dimension"@);
            assert("reflexive"@ != "index"@);
            assert("dimension"@ != "index"@);
            assert(metadata@.take(i + 1).drop_last() =~= metadata@.take(i as int));
            assert(metadata@.take(i + 1).last() == metadata@[i as int]);
        }
        if let Some(v) = value {
            if same_text(key.as_str(), "ip") {
                ip = parse_bool(v.as_str());
            } else if same_text(key.as_str(), "reflexive") {
                reflexive = parse_bool(v.as_str());
            } else if same_text(key.as_str(), "dimension") {
                dimension = parse_dimension(v.as_str());
            } else if same_text(key.as_str(), "index") {
                index = Some(v.clone());
            }
        }
    }
    proof {
        assert(metadata@.take(n as int) =~= metadata@);
    }
    match (ip, reflexive, dimension, index) {
        (Some(ip), Some(reflexive), Some(dimension), Some(index)) => match parse_index(
            index.as_str(),
        ) {
            Ok((numerator, denominator)) => Ok((ip, reflexive, dimension, numerator, denominator)),
            Err(e) => Err(e),
        },
        _ => Err(Error::MissingMetadata),
    }
}

/// How a columnar file is read: its tier, dimension and index, the number
/// of columns to read, the rows to keep, and how many rows to read from
/// each row group, in order.
pub struct ReadPlan {
    pub tier: Tier,
    pub dimension: usize,
    pub numerator: u32,
    pub denominator: u32,
    pub num_columns: usize,
    pub row_count: usize,
    pub group_reads: Vec<usize>,
}

/// Rows to read from the row groups `g` on, `pos` of the `row_count` rows
/// being read already; every group visited must hold `num_columns`
/// columns. Reading stops once `row_count` rows are read.
pub open spec fn plan_reads(
    rows: Seq<usize>,
    cols: Seq<usize>,
    g: int,
    pos: nat,
    row_count: nat,
    num_columns: nat,
) -> Result<Seq<usize>, Error>
    decreases rows.len() - g,
{
    if g < 0 || g >= rows.len() || g >= cols.len() {
        Ok(Seq::empty())
    } else if num_columns > cols[g] {
        Err(Error::ColumnsMissing)
    } else {
        let r: nat = if rows[g] < row_count - pos {
            rows[g] as nat
        } else {
            (row_count - pos) as nat
        };
        if pos + r >= row_count {
            Ok(seq![r as usize])
        } else {
            match plan_reads(rows, cols, g + 1, pos + r, row_count, num_columns) {
                Ok(rest) => Ok(seq![r as usize] + rest),
                Err(e) => Err(e),
            }
        }
    }
}

/// The plan that the metadata and the row groups of a file give.
pub open spec fn plan_value(
    md: Seq<(String, Option<String>)>,
    file_rows: nat,
    rows: Seq<usize>,
    cols: Seq<usize>,
    limit: nat,
) -> Result<(Tier, usize, u32, u32, nat, nat, Seq<usize>), Error> {
    match metadata_value(md) {
        Err(e) => Err(e),
        Ok((ip, reflexive, d, n, den)) => match flags_tier(ip, reflexive) {
            None => Err(Error::InvalidMetadata),
            Some(t) => if d < 4 {
                Err(Error::InvalidMetadata)
            } else {
                let nc = read_column_count(d as nat, t);
                let rc = if file_rows < limit {
                    file_rows
                } else {
                    limit
                };
                match plan_reads(rows, cols, 0, 0, rc, nc) {
                    Err(e) => Err(e),
                    Ok(reads) => Ok((t, d, n, den, nc, rc, reads)),
                }
            },
        },
    }
}

/// Plans the reading of a columnar file from its metadata entries, its
/// row count and the row and column counts of its row groups, keeping at
/// most `limit` rows.
pub fn read_plan(
    metadata: &Vec<(String, Option<String>)>,
    file_rows: usize,
    group_rows: &Vec<usize>,
    group_columns: &Vec<usize>,
    limit: usize,
) -> (r: Result<ReadPlan, Error>)
    ensures
        match plan_value(metadata@, file_rows as nat, group_rows@, group_columns@, limit as nat) {
            Err(e) => r == Err::<ReadPlan, Error>(e),
            Ok((t, d, n, den, nc, rc, reads)) => r matches Ok(p) && p.tier == t && p.dimension == d
                && p.numerator == n && p.denominator == den && p.num_columns == nc && p.row_count
                == rc && p.group_reads@ == reads,
        },
{
    let (ip, reflexive, dimension, numerator, denominator) = match parse_parquet_metadata(metadata) {
        Ok(x) => x,
        Err(e) => {
            return Err(e);
        },
    };
    let tier = if !ip && !reflexive {
        Tier::NotInteriorPoint
    } else if ip && !reflexive {
        Tier::NonReflexive
    } else if ip && reflexive {
        Tier::Reflexive
    } else {
        return Err(Error::InvalidMetadata);
    };
    if dimension < 4 {
        return Err(Error::InvalidMetadata);
    }
    let num_columns: usize = match tier {
        Tier::NotInteriorPoint => dimension,
        Tier::NonReflexive => dimension + 3,
        Tier::Reflexive => 2 * dimension + 1,
    };
    let row_count: usize = if file_rows < limit {
        file_rows
    } else {
        limit
    };
    let ghost whole = plan_reads(group_rows@, group_columns@, 0, 0, row_count as nat, num_columns as nat);
    let ghost planned = plan_value(metadata@, file_rows as nat, group_rows@, group_columns@, limit as nat);
    proof {
        assert(planned == match whole {
            Err(e) => Err(e),
            Ok(reads) => Ok((tier, dimension, numerator, denominator, num_columns as nat, row_count as nat, reads)),
        });
    }
    let mut reads: Vec<usize> = Vec::new();
    let mut pos: usize = 0;
    let mut g: usize = 0;
    let mut stop = false;
    let n = group_rows.len();
    proof {
        if let Ok(rest) = whole {
            assert(reads@ + rest =~= rest);
        }
    }
    while g < n && g < group_columns.len() && !stop
        invariant
            n == group_rows@.len(),
            g <= n,
            pos <= row_count,
            planned == plan_value(metadata@, file_rows as nat, group_rows@, group_columns@, limit as nat),
            whole == plan_reads(group_rows@, group_columns@, 0, 0, row_count as nat, num_columns as nat),
            planned == match whole {
                Err(e) => Err(e),
                Ok(reads) => Ok((tier, dimension, numerator, denominator, num_columns as nat, row_count as nat, reads)),
            },
            stop ==> whole == Ok::<Seq<usize>, Error>(reads@),
            !stop ==> whole == match plan_reads(
                group_rows@,
                group_columns@,
                g as int,
                pos as nat,
                row_count as nat,
                num_columns as nat,
            ) {
                Ok(rest) => Ok(reads@ + rest),
                Err(e) => Err(e),
            },
        decreases n - g,
    {
        if num_columns > group_columns[g] {
            return Err(Error::ColumnsMissing);
        }
        let to_read: usize = if group_rows[g] < row_count - pos {
            group_rows[g]
        } else {
            row_count - pos
        };
        let ghost before = reads@;
        reads.push(to_read);
        proof {
            match plan_reads(
                group_rows@,
                group_columns@,
                g + 1,
                (pos + to_read) as nat,
                row_count as nat,
                num_columns as nat,
            ) {
                Ok(rest) => {
                    assert(before + (seq![to_read] + rest) =~= reads@ + rest);
                },
                Err(e) => {},
            }
            assert(before + seq![to_read] =~= reads@);
        }
        pos = pos + to_read;
        g = g + 1;
        if pos >= row_count {
            stop = true;
        }
    }
    proof {
        if !stop {
            assert(reads@ + Seq::<usize>::empty() =~= reads@);
        }
    }
    Ok(
        ReadPlan {
            tier,
            dimension,
            numerator,
            denominator,
            num_columns,
            row_count,
            group_reads: reads,
        },
    )
}

/// Row `i` of the columns `lo..hi` of `values`.
pub open spec fn field_row(values: Seq<Vec<i32>>, lo: int, hi: int, i: int) -> Seq<i32> {
    Seq::new((hi - lo) as nat, |k: int| values[lo + k]@[i])
}

/// `new` holds the records of `old` followed by the `n` rows of `values`
/// that a file of tier `tier` and dimension `d` gives: the weights from the
/// first `d` columns, the other fields from the columns after them. The
/// other tiers keep their records.
pub open spec fn absorbed(
    old: Dataset,
    new: Dataset,
    tier: Tier,
    d: nat,
    values: Seq<Vec<i32>>,
    n: nat,
) -> bool {
    let added = rows(values.take(d as int), n);
    &&& new.wf()
    &&& new.dimension == d
    &&& !new.reflexive.derived()
    &&& new.non_ip.weight_systems() == old.non_ip.weight_systems() + if tier
        == Tier::NotInteriorPoint {
        added
    } else {
        Seq::empty()
    }
    &&& new.non_reflexive.weight_systems() == old.non_reflexive.weight_systems() + if tier
        == Tier::NonReflexive {
        added
    } else {
        Seq::empty()
    }
    &&& new.reflexive.weight_systems() == old.reflexive.weight_systems() + if tier
        == Tier::Reflexive {
        added
    } else {
        Seq::empty()
    }
    &&& forall|i: int|
        0 <= i < new.non_reflexive.count() ==> #[trigger] new.non_reflexive.aux(i) == if i
            < old.non_reflexive.count() {
            old.non_reflexive.aux(i)
        } else {
            field_row(values, d as int, d + 3int, i - old.non_reflexive.count())
        }
    &&& forall|i: int|
        0 <= i < new.reflexive.count() ==> #[trigger] new.reflexive.aux(i) == if i
            < old.reflexive.count() {
            old.reflexive.aux(i)
        } else {
            field_row(values, d as int, 2 * d + 1int, i - old.reflexive.count())
        }
}

/// An empty data set of dimension `d`, without derived quantities.
pub open spec fn empty_of(d: nat, ds: Dataset) -> bool {
    &&& ds.wf()
    &&& ds.dimension == d
    &&& !ds.reflexive.derived()
    &&& ds.non_ip.count() == 0
    &&& ds.non_reflexive.count() == 0
    &&& ds.reflexive.count() == 0
}

impl Dataset {
    /// A data set with nothing read yet: dimension 0 and no records.
    pub fn empty() -> (r: Dataset)
        ensures
            r.dimension == 0,
    {
        Dataset {
            dimension: 0,
            numerator: 0,
            denominator: 1,
            non_ip: NonIpPolytopeInfo::new(0),
            non_reflexive: NonReflexivePolytopeInfo::new(0),
            reflexive: ReflexivePolytopeInfo {
                dimension: 0,
                weight_lists: Vec::new(),
                vertex_count_list: Vec::new(),
                facet_count_list: Vec::new(),
                point_count_list: Vec::new(),
                dual_point_count_list: Vec::new(),
                hodge_number_lists: Vec::new(),
                euler_characteristic_list: Vec::new(),
            },
        }
    }

    /// An empty data set of the given dimension and index.
    pub fn with_dimension(dimension: usize, numerator: u32, denominator: u32) -> (r: Dataset)
        requires
            dimension >= 3,
        ensures
            empty_of(dimension as nat, r),
            r.numerator == numerator,
            r.denominator == denominator,
    {
        Dataset {
            dimension,
            numerator,
            denominator,
            non_ip: NonIpPolytopeInfo::new(dimension),
            non_reflexive: NonReflexivePolytopeInfo::new(dimension),
            reflexive: ReflexivePolytopeInfo::new(dimension, false),
        }
    }
}

/// Appends column `lo + j` of `values` to column `j` of `cols`.
fn append_columns(cols: &mut Vec<Vec<i32>>, values: &Vec<Vec<i32>>, lo: usize)
    requires
        lo + old(cols)@.len() <= values@.len(),
    ensures
        final(cols)@.len() == old(cols)@.len(),
        forall|j: int|
            0 <= j < old(cols)@.len() ==> (#[trigger] final(cols)@[j])@ == old(cols)@[j]@
                + values@[lo + j]@,
{
    let m = cols.len();
    let vl = values.len();
    for j in 0..m
        invariant
            vl == values@.len(),
            m == old(cols)@.len(),
            cols@.len() == m,
            lo + m <= values@.len(),
            forall|k: int|
                0 <= k < m ==> (#[trigger] cols@[k])@ == if k < j {
                    old(cols)@[k]@ + values@[lo + k]@
                } else {
                    old(cols)@[k]@
                },
    {
        extend_column(&mut cols[j], &values[lo + j]);
    }
}

/// Appending whole columns appends their rows.
proof fn lemma_rows_extend(old: Seq<Vec<i32>>, new: Seq<Vec<i32>>, c: nat, vals: Seq<Vec<i32>>, n: nat)
    requires
        old.len() == new.len(),
        vals.len() == new.len(),
        uniform(old, c),
        uniform(vals, n),
        forall|j: int| 0 <= j < new.len() ==> (#[trigger] new[j]@) == old[j]@ + vals[j]@,
    ensures
        uniform(new, c + n),
        rows(new, c + n) == rows(old, c) + rows(vals, n),
{
    assert forall|j: int| 0 <= j < new.len() implies (#[trigger] new[j]@).len() == c + n by {
        assert(old[j]@.len() == c);
        assert(vals[j]@.len() == n);
    }
    assert forall|i: int| 0 <= i < c + n implies #[trigger] rows(new, c + n)[i] == (rows(old, c)
        + rows(vals, n))[i] by {
        assert forall|j: int| 0 <= j < new.len() implies #[trigger] new[j]@[i] == if i < c {
            old[j]@[i]
        } else {
            vals[j]@[i - c]
        } by {
            assert(new[j]@ == old[j]@ + vals[j]@);
            assert(old[j]@.len() == c);
        }
        if i < c {
            assert(rows(new, c + n)[i] =~= rows(old, c)[i]);
        } else {
            assert(rows(new, c + n)[i] =~= rows(vals, n)[i - c]);
        }
    }
    assert(rows(new, c + n) =~= rows(old, c) + rows(vals, n));
}

/// Adds the rows that a columnar file gave to the data set. A data set with
/// nothing read yet takes the file's dimension; another one must have the
/// same dimension. The index becomes the file's.
pub fn absorb_columns(dataset: &mut Dataset, plan: &ReadPlan, values: &Vec<Vec<i32>>) -> (r: Result<
    (),
    Error,
>)
    requires
        old(dataset).dimension == 0 || (old(dataset).wf() && !old(dataset).reflexive.derived()),
        plan.dimension >= 4,
        plan.num_columns == read_column_count(plan.dimension as nat, plan.tier),
        values@.len() == plan.num_columns,
        uniform(values@, values@[0]@.len()),
    ensures
        old(dataset).dimension != 0 && old(dataset).dimension != plan.dimension ==> r
            == Err::<(), Error>(Error::DimensionMismatch) && *final(dataset) == *old(dataset),
        old(dataset).dimension == 0 || old(dataset).dimension == plan.dimension ==> (r matches Ok(_))
            && final(dataset).numerator == plan.numerator && final(dataset).denominator
            == plan.denominator && exists|base: Dataset|
            {
                &&& (if old(dataset).dimension == 0 {
                    empty_of(plan.dimension as nat, base)
                } else {
                    base == *old(dataset)
                })
                &&& absorbed(
                    base,
                    *final(dataset),
                    plan.tier,
                    plan.dimension as nat,
                    values@,
                    values@[0]@.len(),
                )
            },
{
    let d = plan.dimension;
    if dataset.dimension != 0 && dataset.dimension != d {
        return Err(Error::DimensionMismatch);
    }
    if dataset.dimension == 0 {
        *dataset = Dataset::with_dimension(d, plan.numerator, plan.denominator);
    }
    let ghost base = *dataset;
    let ghost n = values@[0]@.len();
    proof {
        assert forall|j: int| 0 <= j < d implies (#[trigger] values@.take(d as int)[j]@).len() == n by {
            assert(values@[j]@.len() == n);
        }
    }
    match plan.tier {
        Tier::NotInteriorPoint => {
            append_columns(&mut dataset.non_ip.weight_lists, values, 0);
            proof {
                lemma_rows_extend(base.non_ip.weight_lists@, dataset.non_ip.weight_lists@, base.non_ip.count(), values@.take(d as int), n);
                assert(dataset.non_ip.weight_lists@[0]@.len() == base.non_ip.count() + n);
            }
        },
        Tier::NonReflexive => {
            append_columns(&mut dataset.non_reflexive.weight_lists, values, 0);
            extend_column(&mut dataset.non_reflexive.vertex_count_list, &values[d]);
            extend_column(&mut dataset.non_reflexive.facet_count_list, &values[d + 1]);
            extend_column(&mut dataset.non_reflexive.point_count_list, &values[d + 2]);
            proof {
                let nr = dataset.non_reflexive;
                let c = base.non_reflexive.count();
                lemma_rows_extend(base.non_reflexive.weight_lists@, nr.weight_lists@, c, values@.take(d as int), n);
                assert(values@[d as int]@.len() == n);
                assert(values@[d + 1]@.len() == n);
                assert(values@[d + 2]@.len() == n);
                assert forall|i: int| 0 <= i < nr.count() implies #[trigger] nr.aux(i) == if i < c {
                    base.non_reflexive.aux(i)
                } else {
                    field_row(values@, d as int, d + 3, i - c)
                } by {
                    if i < c {
                        assert(nr.aux(i) =~= base.non_reflexive.aux(i));
                    } else {
                        assert(nr.aux(i) =~= field_row(values@, d as int, d + 3, i - c));
                    }
                }
            }
        },
        Tier::Reflexive => {
            append_columns(&mut dataset.reflexive.weight_lists, values, 0);
            extend_column(&mut dataset.reflexive.vertex_count_list, &values[d]);
            extend_column(&mut dataset.reflexive.facet_count_list, &values[d + 1]);
            extend_column(&mut dataset.reflexive.point_count_list, &values[d + 2]);
            extend_column(&mut dataset.reflexive.dual_point_count_list, &values[d + 3]);
            append_columns(&mut dataset.reflexive.hodge_number_lists, values, d + 4);
            proof {
                let rf = dataset.reflexive;
                let c = base.reflexive.count();
                lemma_rows_extend(base.reflexive.weight_lists@, rf.weight_lists@, c, values@.take(d as int), n);
                let hv = values@.subrange(d + 4, 2 * d + 1);
                assert forall|j: int| 0 <= j < hv.len() implies (#[trigger] hv[j]@).len() == n by {
                    assert(values@[d + 4 + j]@.len() == n);
                }
                lemma_rows_extend(base.reflexive.hodge_number_lists@, rf.hodge_number_lists@, c, hv, n);
                assert(values@[d as int]@.len() == n);
                assert(values@[d + 1]@.len() == n);
                assert(values@[d + 2]@.len() == n);
                assert(values@[d + 3]@.len() == n);
                assert forall|i: int| 0 <= i < rf.count() implies #[trigger] rf.aux(i) == if i < c {
                    base.reflexive.aux(i)
                } else {
                    field_row(values@, d as int, 2 * d + 1, i - c)
                } by {
                    assert forall|j: int| 0 <= j < d - 3 implies #[trigger] rf.hodge_number_lists@[j]@[i] == if i < c {
                        base.reflexive.hodge_number_lists@[j]@[i]
                    } else {
                        values@[d + 4 + j]@[i - c]
                    } by {
                        assert(rf.hodge_number_lists@[j]@ == base.reflexive.hodge_number_lists@[j]@ + values@[d + 4 + j]@);
                        assert(base.reflexive.hodge_number_lists@[j]@.len() == c);
                    }
                    if i < c {
                        assert(rf.aux(i) =~= base.reflexive.aux(i));
                    } else {
                        assert(rf.aux(i) =~= field_row(values@, d as int, 2 * d + 1, i - c));
                    }
                }
            }
        },
    }
    dataset.numerator = plan.numerator;
    dataset.denominator = plan.denominator;
    proof {
        assert(absorbed(base, *dataset, plan.tier, d as nat, values@, n));
        assert(if old(dataset).dimension == 0 {
            empty_of(plan.dimension as nat, base)
        } else {
            base == *old(dataset)
        });
    }
    Ok(())
}

/// The metadata entries of a file of tier `tier`, dimension `d` and index
/// text `index`, each with its value.
pub open spec fn metadata_entries(
    md: Seq<(String, Option<String>)>,
    tier: Tier,
    d: nat,
    index: Seq<char>,
) -> bool {
    &&& md.len() == 4
    &&& md[0].0@ == "ip"@
    &&& md[0].1 is Some && md[0].1->Some_0@ == bool_text(tier_flags(tier).0)
    &&& md[1].0@ == "reflexive"@
    &&& md[1].1 is Some && md[1].1->Some_0@ == bool_text(tier_flags(tier).1)
    &&& md[2].0@ == "dimension"@
    &&& md[2].1 is Some && md[2].1->Some_0@ == dec(d)
    &&& md[3].0@ == "index"@
    &&& md[3].1 is Some && md[3].1->Some_0@ == index
}

/// The metadata written for a tier reads back as its flags, dimension and
/// index.
pub proof fn lemma_metadata_round_trip(
    md: Seq<(String, Option<String>)>,
    tier: Tier,
    d: nat,
    numerator: u32,
    denominator: u32,
)
    requires
        d <= i32::MAX,
        metadata_entries(md, tier, d, crate::index::index_text(numerator as nat, denominator as nat)),
    ensures
        metadata_value(md) == Ok::<(bool, bool, usize, u32, u32), Error>(
            (tier_flags(tier).0, tier_flags(tier).1, d as usize, numerator, denominator),
        ),
{
    reveal_strlit("ip");
    reveal_strlit("reflexive");
    reveal_strlit("dimension");
    reveal_strlit("index");
    reveal_strlit("true");
    reveal_strlit("false");
    assert("ip"@.len() != "reflexive"@.len());
    assert("ip"@.len() != "index"@.len());
    assert("ip"@ != "dimension"@);
    assert("reflexive"@[0] != "dimension"@[0]);
    assert("reflexive"@ != "index"@);
    assert("dimension"@ != "index"@);
    assert("true"@.len() != "false"@.len());
    assert(md.drop_last().drop_last().drop_last().drop_last() =~= Seq::<(String, Option<String>)>::empty());
    assert(md.drop_last().last() == md[2]);
    assert(md.drop_last().drop_last().last() == md[1]);
    assert(md.drop_last().drop_last().drop_last().last() == md[0]);
    crate::text::lemma_dec(d);
    let t = dec(d);
    assert(crate::text::is_digit(t[0]));
    assert(t[0] != '-' && t[0] != '+');
    assert(dimension_value(Some(t)) == Some(d as int));
    crate::index::lemma_index_round_trip(numerator, denominator);
    let m3 = md.drop_last();
    let m2 = m3.drop_last();
    let m1 = m2.drop_last();
    let m0 = m1.drop_last();
    assert(md.last() == md[3]);
    assert(last_value(m0, "ip"@) is None);
    assert(last_value(m1, "ip"@) == Some(bool_text(tier_flags(tier).0)));
    assert(m1.last() == md[0]);
    assert(m2.last() == md[1]);
    assert(m3.last() == md[2]);
    assert(last_value(m2, "ip"@) == Some(bool_text(tier_flags(tier).0)));
    assert(last_value(m3, "ip"@) == Some(bool_text(tier_flags(tier).0)));
    assert(last_value(md, "ip"@) == Some(bool_text(tier_flags(tier).0)));
    assert(last_value(m0, "reflexive"@) is None);
    assert(last_value(m1, "reflexive"@) is None);
    assert(last_value(m2, "reflexive"@) == Some(bool_text(tier_flags(tier).1)));
    assert(last_value(m3, "reflexive"@) == Some(bool_text(tier_flags(tier).1)));
    assert(last_value(md, "reflexive"@) == Some(bool_text(tier_flags(tier).1)));
    assert("ip"@ != "dimension"@);
    assert("reflexive"@ != "dimension"@);
    assert(last_value(m0, "dimension"@) is None);
    assert(last_value(m1, "dimension"@) is None);
    assert(last_value(m2, "dimension"@) is None);
    assert(last_value(m3, "dimension"@) == Some(t));
    assert(last_value(md, "dimension"@) == Some(t));
    assert(last_value(m3, "index"@) is None) by {
        assert(last_value(m0, "index"@) is None);
        assert(last_value(m1, "index"@) is None);
        assert(last_value(m2, "index"@) is None);
    }
    assert(last_value(md, "index"@) == Some(crate::index::index_text(numerator as nat, denominator as nat)));
    assert(bool_value(Some(bool_text(tier_flags(tier).0))) == Some(tier_flags(tier).0));
    assert(bool_value(Some(bool_text(tier_flags(tier).1))) == Some(tier_flags(tier).1));
}

/// The columns of a tier, read back into a data set with nothing read yet,
/// give the tier's records: its weight systems and, for the other tiers,
/// their stored fields.
pub proof fn lemma_columns_round_trip(ds: Dataset, tier: Tier, values: Seq<Vec<i32>>, base: Dataset, out: Dataset)
    requires
        ds.wf(),
        ds.dimension >= 4,
        values.len() == read_column_count(ds.dimension as nat, tier),
        forall|j: int| 0 <= j < values.len() ==> (#[trigger] values[j])@ == tier_columns_spec(ds, tier)[j],
        empty_of(ds.dimension as nat, base),
        absorbed(base, out, tier, ds.dimension as nat, values, values[0]@.len()),
    ensures
        tier == Tier::NotInteriorPoint ==> out.non_ip.weight_systems() == ds.non_ip.weight_systems(),
        tier == Tier::NonReflexive ==> out.non_reflexive.weight_systems()
            == ds.non_reflexive.weight_systems() && forall|i: int|
            0 <= i < ds.non_reflexive.count() ==> #[trigger] out.non_reflexive.aux(i)
                == ds.non_reflexive.aux(i),
        tier == Tier::Reflexive ==> out.reflexive.weight_systems() == ds.reflexive.weight_systems()
            && forall|i: int|
            0 <= i < ds.reflexive.count() ==> #[trigger] out.reflexive.aux(i) == ds.reflexive.aux(i),
{
    let d = ds.dimension as nat;
    let cols = tier_columns_spec(ds, tier);
    let n = values[0]@.len();
    let wl = match tier {
        Tier::NotInteriorPoint => ds.non_ip.weight_lists@,
        Tier::NonReflexive => ds.non_reflexive.weight_lists@,
        Tier::Reflexive => ds.reflexive.weight_lists@,
    };
    let cnt = match tier {
        Tier::NotInteriorPoint => ds.non_ip.count(),
        Tier::NonReflexive => ds.non_reflexive.count(),
        Tier::Reflexive => ds.reflexive.count(),
    };
    assert(values[0]@ == wl[0]@);
    assert(n == cnt);
    assert forall|j: int| 0 <= j < d implies (#[trigger] values.take(d as int)[j])@ == wl[j]@ by {
        assert(values[j]@ == cols[j]);
    }
    let added = rows(values.take(d as int), n);
    assert forall|i: int| 0 <= i < n implies #[trigger] added[i] == rows(wl, cnt)[i] by {
        assert(added[i] =~= rows(wl, cnt)[i]);
    }
    assert(added =~= rows(wl, cnt));
    assert(Seq::<Seq<i32>>::empty() + added =~= added);
    match tier {
        Tier::NotInteriorPoint => {},
        Tier::NonReflexive => {
            let nr = ds.non_reflexive;
            assert forall|i: int| 0 <= i < nr.count() implies #[trigger] out.non_reflexive.aux(i) == nr.aux(i) by {
                assert(out.non_reflexive.aux(i) == field_row(values, d as int, d + 3int, i));
                assert(values[d as int]@ == nr.vertex_count_list@);
                assert(values[d + 1int]@ == nr.facet_count_list@);
                assert(values[d + 2int]@ == nr.point_count_list@);
                assert(field_row(values, d as int, d + 3int, i) =~= nr.aux(i));
            }
        },
        Tier::Reflexive => {
            let rf = ds.reflexive;
            assert forall|i: int| 0 <= i < rf.count() implies #[trigger] out.reflexive.aux(i) == rf.aux(i) by {
                assert(out.reflexive.aux(i) == field_row(values, d as int, 2 * d + 1int, i));
                assert(values[d as int]@ == rf.vertex_count_list@);
                assert(values[d + 1int]@ == rf.facet_count_list@);
                assert(values[d + 2int]@ == rf.point_count_list@);
                assert(values[d + 3int]@ == rf.dual_point_count_list@);
                assert forall|k: int| 0 <= k < d - 3 implies #[trigger] values[d + 4int + k]@ == rf.hodge_number_lists@[k]@ by {
                    assert(cols[d + 4int + k] == rf.hodge_number_lists@[k]@);
                }
                assert(field_row(values, d as int, 2 * d + 1int, i) =~= rf.aux(i));
            }
        },
    }
}

/// The first `g` row groups of size `size` of the column `col`, one after
/// the other.
pub open spec fn joined_groups(col: Seq<i32>, size: nat, g: nat) -> Seq<i32>
    decreases g,
{
    if g == 0 {
        Seq::empty()
    } else {
        let (start, end) = group_bounds(col.len(), size, (g - 1) as nat);
        joined_groups(col, size, (g - 1) as nat) + col.subrange(start as int, end as int)
    }
}

/// Splitting a column into row groups and joining them again gives the
/// column back, once the groups cover all its rows.
pub proof fn lemma_row_groups_rejoin(col: Seq<i32>, size: nat, g: nat)
    requires
        size > 0,
        g * size >= col.len(),
        g == 0 || (g - 1) * size < col.len(),
    ensures
        joined_groups(col, size, g) == col,
{
    lemma_joined_prefix(col, size, g);
    assert(col.take(col.len() as int) =~= col);
}

proof fn lemma_joined_prefix(col: Seq<i32>, size: nat, g: nat)
    requires
        size > 0,
        g == 0 || (g - 1) * size < col.len(),
    ensures
        joined_groups(col, size, g) == col.take(if g * size < col.len() { (g * size) as int } else { col.len() as int }),
    decreases g,
{
    if g == 0 {
        assert(col.take(0) =~= Seq::<i32>::empty());
    } else {
        let h = (g - 1) as nat;
        assert(h == 0 || (h - 1) * size < col.len()) by (nonlinear_arith)
            requires
                g == h + 1,
                h * size < col.len(),
                size > 0,
        ;
        lemma_joined_prefix(col, size, h);
        assert(g * size == h * size + size) by (nonlinear_arith)
            requires
                g == h + 1,
        ;
        let (start, end) = group_bounds(col.len(), size, h);
        assert(col.take(start as int) + col.subrange(start as int, end as int) =~= col.take(end as int));
    }
}

} // verus!
