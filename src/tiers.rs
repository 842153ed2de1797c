//! Column-oriented containers for the three classification tiers. Each
//! field is one column; the weight system of a record is split over
//! `dimension` columns, one per position.
use vstd::prelude::*;

verus! {

/// Entry `i` of every column of `cols`, in column order.
pub open spec fn row_at(cols: Seq<Vec<i32>>, i: int) -> Seq<i32> {
    Seq::new(cols.len(), |j: int| cols[j]@[i])
}

/// Every column of `cols` holds `n` entries.
pub open spec fn uniform(cols: Seq<Vec<i32>>, n: nat) -> bool {
    forall|j: int| 0 <= j < cols.len() ==> (#[trigger] cols[j]@).len() == n
}

/// The first `n` rows of `cols`.
pub open spec fn rows(cols: Seq<Vec<i32>>, n: nat) -> Seq<Seq<i32>> {
    Seq::new(n, |i: int| row_at(cols, i))
}

/// `new` is `old` cut or padded with empty columns to `len` columns.
pub open spec fn resized(new: Seq<Vec<i32>>, old: Seq<Vec<i32>>, len: nat) -> bool {
    &&& new.len() == len
    &&& forall|j: int|
        0 <= j < len ==> (#[trigger] new[j]@) == if j < old.len() {
            old[j]@
        } else {
            Seq::<i32>::empty()
        }
}

/// Number of Hodge-number columns of the reflexive tier: `dimension - 3`
/// stored ones, and `h22` besides in six dimensions when derived
/// quantities are kept.
pub open spec fn hodge_column_count(dimension: nat, derived: bool) -> nat {
    if dimension == 6 && derived {
        4
    } else {
        (dimension - 3) as nat
    }
}

/// Euler characteristic of a six-dimensional reflexive record, from its
/// first three Hodge numbers.
pub open spec fn euler_of(h11: int, h12: int, h13: int) -> int {
    48 + 6 * (h11 - h12 + h13)
}

/// The Hodge number `h22` of a six-dimensional reflexive record.
pub open spec fn h22_of(h11: int, h12: int, h13: int) -> int {
    44 + 4 * h11 + 4 * h13 - 2 * h12
}

/// A value representable as `i32`.
pub open spec fn fits_i32(x: int) -> bool {
    i32::MIN <= x <= i32::MAX
}

/// Records whose weight system has no interior point.
pub struct NonIpPolytopeInfo {
    pub dimension: usize,
    pub weight_lists: Vec<Vec<i32>>,
}

/// Records with an interior point whose polytope is not reflexive.
pub struct NonReflexivePolytopeInfo {
    pub dimension: usize,
    pub weight_lists: Vec<Vec<i32>>,
    pub vertex_count_list: Vec<i32>,
    pub facet_count_list: Vec<i32>,
    pub point_count_list: Vec<i32>,
}

/// Records whose polytope is reflexive, with their Hodge numbers.
pub struct ReflexivePolytopeInfo {
    pub dimension: usize,
    pub weight_lists: Vec<Vec<i32>>,
    pub vertex_count_list: Vec<i32>,
    pub facet_count_list: Vec<i32>,
    pub point_count_list: Vec<i32>,
    pub dual_point_count_list: Vec<i32>,
    pub hodge_number_lists: Vec<Vec<i32>>,
    pub euler_characteristic_list: Vec<i32>,
}

/// Replaces `cols` by its first `len` columns, adding empty ones as needed.
fn resize_columns(cols: &mut Vec<Vec<i32>>, len: usize)
    ensures
        resized(final(cols)@, old(cols)@, len as nat),
{
    if len <= cols.len() {
        cols.truncate(len);
    } else {
        while cols.len() < len
            invariant
                old(cols)@.len() <= cols@.len() <= len,
                forall|j: int|
                    0 <= j < cols@.len() ==> (#[trigger] cols@[j]@) == if j < old(cols)@.len() {
                        old(cols)@[j]@
                    } else {
                        Seq::<i32>::empty()
                    },
            decreases len - cols.len(),
        {
            cols.push(Vec::new());
        }
    }
}

impl NonIpPolytopeInfo {
    /// Number of records.
    pub open spec fn count(&self) -> nat {
        if self.weight_lists@.len() > 0 {
            self.weight_lists@[0]@.len()
        } else {
            0
        }
    }

    pub open spec fn wf(&self) -> bool {
        &&& self.weight_lists@.len() == self.dimension
        &&& uniform(self.weight_lists@, self.count())
    }

    /// The weight systems of the records, in order.
    pub open spec fn weight_systems(&self) -> Seq<Seq<i32>> {
        rows(self.weight_lists@, self.count())
    }

    /// An empty tier of the given dimension.
    pub fn new(dimension: usize) -> (r: NonIpPolytopeInfo)
        ensures
            r.wf(),
            r.dimension == dimension,
            r.count() == 0,
    {
        let mut ret = NonIpPolytopeInfo { dimension: 0, weight_lists: Vec::new() };
        ret.resize(dimension);
        ret
    }

    /// Sets the dimension and brings the weight columns to that number.
    pub fn resize(&mut self, dimension: usize)
        ensures
            final(self).dimension == dimension,
            resized(final(self).weight_lists@, old(self).weight_lists@, dimension as nat),
    {
        self.dimension = dimension;
        resize_columns(&mut self.weight_lists, dimension);
    }
}

impl NonReflexivePolytopeInfo {
    /// Number of records.
    pub open spec fn count(&self) -> nat {
        self.vertex_count_list@.len()
    }

    pub open spec fn wf(&self) -> bool {
        &&& self.weight_lists@.len() == self.dimension
        &&& uniform(self.weight_lists@, self.count())
        &&& self.facet_count_list@.len() == self.count()
        &&& self.point_count_list@.len() == self.count()
    }

    pub open spec fn weight_systems(&self) -> Seq<Seq<i32>> {
        rows(self.weight_lists@, self.count())
    }

    /// The auxiliary fields of record `i`: vertex, facet and point count.
    pub open spec fn aux(&self, i: int) -> Seq<i32> {
        seq![self.vertex_count_list@[i], self.facet_count_list@[i], self.point_count_list@[i]]
    }

    /// An empty tier of the given dimension.
    pub fn new(dimension: usize) -> (r: NonReflexivePolytopeInfo)
        ensures
            r.wf(),
            r.dimension == dimension,
            r.count() == 0,
    {
        let mut ret = NonReflexivePolytopeInfo {
            dimension: 0,
            weight_lists: Vec::new(),
            vertex_count_list: Vec::new(),
            facet_count_list: Vec::new(),
            point_count_list: Vec::new(),
        };
        ret.resize(dimension);
        ret
    }

    /// Sets the dimension and brings the weight columns to that number.
    pub fn resize(&mut self, dimension: usize)
        ensures
            final(self).dimension == dimension,
            resized(final(self).weight_lists@, old(self).weight_lists@, dimension as nat),
            final(self).vertex_count_list == old(self).vertex_count_list,
            final(self).facet_count_list == old(self).facet_count_list,
            final(self).point_count_list == old(self).point_count_list,
    {
        self.dimension = dimension;
        resize_columns(&mut self.weight_lists, dimension);
    }
}

impl ReflexivePolytopeInfo {
    /// Number of records.
    pub open spec fn count(&self) -> nat {
        self.vertex_count_list@.len()
    }

    /// Whether the tier carries `h22` and the Euler characteristic.
    pub open spec fn derived(&self) -> bool {
        self.dimension == 6 && self.hodge_number_lists@.len() == 4
    }

    pub open spec fn wf(&self) -> bool {
        &&& self.dimension >= 3
        &&& self.weight_lists@.len() == self.dimension
        &&& uniform(self.weight_lists@, self.count())
        &&& self.facet_count_list@.len() == self.count()
        &&& self.point_count_list@.len() == self.count()
        &&& self.dual_point_count_list@.len() == self.count()
        &&& self.hodge_number_lists@.len() == hodge_column_count(
            self.dimension as nat,
            self.derived(),
        )
        &&& uniform(self.hodge_number_lists@, self.count())
        &&& self.euler_characteristic_list@.len() == if self.derived() {
            self.count()
        } else {
            0
        }
    }

    pub open spec fn weight_systems(&self) -> Seq<Seq<i32>> {
        rows(self.weight_lists@, self.count())
    }

    /// The stored fields of record `i`: vertex, facet, point and dual point
    /// count, then the `dimension - 3` stored Hodge numbers.
    pub open spec fn aux(&self, i: int) -> Seq<i32> {
        seq![
            self.vertex_count_list@[i],
            self.facet_count_list@[i],
            self.point_count_list@[i],
            self.dual_point_count_list@[i],
        ] + Seq::new((self.dimension - 3) as nat, |j: int| self.hodge_number_lists@[j]@[i])
    }

    /// In six dimensions with derived quantities, record `i` holds the
    /// `h22` and Euler characteristic that its first three Hodge numbers
    /// give.
    pub open spec fn derived_consistent(&self) -> bool {
        self.derived() ==> forall|i: int|
            0 <= i < self.count() ==> {
                let h11 = self.hodge_number_lists@[0]@[i] as int;
                let h12 = self.hodge_number_lists@[1]@[i] as int;
                let h13 = self.hodge_number_lists@[2]@[i] as int;
                &&& #[trigger] self.hodge_number_lists@[3]@[i] == h22_of(h11, h12, h13)
                &&& self.euler_characteristic_list@[i] == euler_of(h11, h12, h13)
            }
    }

    /// An empty tier of the given dimension; in six dimensions with
    /// `include_derived_quantities` it has room for `h22`.
    pub fn new(dimension: usize, include_derived_quantities: bool) -> (r: ReflexivePolytopeInfo)
        requires
            dimension >= 3,
        ensures
            r.wf(),
            r.dimension == dimension,
            r.count() == 0,
            r.derived() == (dimension == 6 && include_derived_quantities),
    {
        let mut ret = ReflexivePolytopeInfo {
            dimension: 0,
            weight_lists: Vec::new(),
            vertex_count_list: Vec::new(),
            facet_count_list: Vec::new(),
            point_count_list: Vec::new(),
            dual_point_count_list: Vec::new(),
            hodge_number_lists: Vec::new(),
            euler_characteristic_list: Vec::new(),
        };
        ret.resize(dimension, include_derived_quantities);
        ret
    }

    /// Sets the dimension and brings the weight and Hodge-number columns to
    /// the numbers that it and `include_derived_quantities` ask for.
    pub fn resize(&mut self, dimension: usize, include_derived_quantities: bool)
        requires
            dimension >= 3,
        ensures
            final(self).dimension == dimension,
            resized(final(self).weight_lists@, old(self).weight_lists@, dimension as nat),
            resized(
                final(self).hodge_number_lists@,
                old(self).hodge_number_lists@,
                hodge_column_count(dimension as nat, include_derived_quantities),
            ),
            final(self).vertex_count_list == old(self).vertex_count_list,
            final(self).facet_count_list == old(self).facet_count_list,
            final(self).point_count_list == old(self).point_count_list,
            final(self).dual_point_count_list == old(self).dual_point_count_list,
            final(self).euler_characteristic_list == old(self).euler_characteristic_list,
    {
        // one more in six dimensions, for h22 beside h11, h12 and h13
        let hodge_number_lists_count: usize = if dimension == 6 && include_derived_quantities {
            4
        } else {
            dimension - 3
        };
        self.dimension = dimension;
        resize_columns(&mut self.weight_lists, dimension);
        resize_columns(&mut self.hodge_number_lists, hodge_number_lists_count);
    }
}

/// Euler characteristic `48 + 6 (h11 - h12 + h13)` of a six-dimensional
/// reflexive record.
pub fn euler_characteristic(h11: i32, h12: i32, h13: i32) -> (r: i32)
    requires
        fits_i32(euler_of(h11 as int, h12 as int, h13 as int)),
    ensures
        r == euler_of(h11 as int, h12 as int, h13 as int),
{
    let s: i64 = 48 + 6 * (h11 as i64 - h12 as i64 + h13 as i64);
    s as i32
}

/// The Hodge number `h22 = 44 + 4 h11 + 4 h13 - 2 h12` of a
/// six-dimensional reflexive record.
pub fn hodge_number_h22(h11: i32, h12: i32, h13: i32) -> (r: i32)
    requires
        fits_i32(h22_of(h11 as int, h12 as int, h13 as int)),
    ensures
        r == h22_of(h11 as int, h12 as int, h13 as int),
{
    let s: i64 = 44 + 4 * h11 as i64 + 4 * h13 as i64 - 2 * h12 as i64;
    s as i32
}

/// Appends one weight system to the weight columns: entry `j` goes to
/// column `j`.
pub fn append_weight_system(weight_lists: &mut Vec<Vec<i32>>, weight_system: &[i32])
    requires
        old(weight_lists)@.len() == weight_system@.len(),
    ensures
        final(weight_lists)@.len() == old(weight_lists)@.len(),
        forall|j: int|
            0 <= j < weight_system@.len() ==> (#[trigger] final(weight_lists)@[j]@) == old(
                weight_lists,
            )@[j]@.push(weight_system@[j]),
{
    let n = weight_system.len();
    for i in 0..n
        invariant
            n == weight_system@.len(),
            weight_lists@.len() == old(weight_lists)@.len(),
            old(weight_lists)@.len() == n,
            forall|j: int|
                0 <= j < n ==> (#[trigger] weight_lists@[j]@) == if j < i {
                    old(weight_lists)@[j]@.push(weight_system@[j])
                } else {
                    old(weight_lists)@[j]@
                },
    {
        weight_lists[i].push(weight_system[i]);
    }
}

/// Appends entry `pos` of every column to `dest`: the weight system of
/// record `pos`.
pub fn collect_weights_into(dest: &mut Vec<i32>, weight_lists: &[Vec<i32>], pos: usize)
    requires
        forall|j: int| 0 <= j < weight_lists@.len() ==> pos < (#[trigger] weight_lists@[j]@).len(),
    ensures
        final(dest)@ == old(dest)@ + row_at(weight_lists@, pos as int),
{
    let n = weight_lists.len();
    for j in 0..n
        invariant
            n == weight_lists@.len(),
            forall|k: int| 0 <= k < n ==> pos < (#[trigger] weight_lists@[k]@).len(),
            dest@ == old(dest)@ + row_at(weight_lists@, pos as int).take(j as int),
    {
        proof {
            assert(row_at(weight_lists@, pos as int).take(j + 1) =~= row_at(
                weight_lists@,
                pos as int,
            ).take(j as int).push(weight_lists@[j as int]@[pos as int]));
        }
        dest.push(weight_lists[j][pos]);
    }
    proof {
        assert(row_at(weight_lists@, pos as int).take(n as int) =~= row_at(
            weight_lists@,
            pos as int,
        ));
    }
}

/// A whole data set: its dimension, its index `numerator/denominator` and
/// the records of the three tiers.
pub struct Dataset {
    pub dimension: usize,
    pub numerator: u32,
    pub denominator: u32,
    pub non_ip: NonIpPolytopeInfo,
    pub non_reflexive: NonReflexivePolytopeInfo,
    pub reflexive: ReflexivePolytopeInfo,
}

impl Dataset {
    /// The three tiers are well formed and share the data set's dimension.
    pub open spec fn wf(&self) -> bool {
        &&& self.non_ip.wf()
        &&& self.non_reflexive.wf()
        &&& self.reflexive.wf()
        &&& self.non_ip.dimension == self.dimension
        &&& self.non_reflexive.dimension == self.dimension
        &&& self.reflexive.dimension == self.dimension
    }
}

} // verus!
