//! The PALP text format of reflexive polytopes: per polytope a header line
//! with its counts, Hodge numbers and Euler characteristic, followed by the
//! vertex matrix.
use crate::error::Error;
use crate::index::chars_of;
use crate::text::{dec, parse_integer, parsed_in_range, push_decimal, push_signed_decimal, signed_dec};
use crate::tiers::resized;
use vstd::prelude::*;

verus! {

/// The records of the text format, column by column; coordinates are kept
/// vertex by vertex, `dimension` per vertex.
pub struct PolytopeInfo {
    pub dimension: usize,
    pub coordinate_list: Vec<i32>,
    pub vertex_count_list: Vec<i32>,
    pub facet_count_list: Vec<i32>,
    pub point_count_list: Vec<i32>,
    pub dual_point_count_list: Vec<i32>,
    pub euler_characteristic_list: Vec<i32>,
    pub hodge_number_lists: Vec<Vec<i32>>,
}

/// The fields of a header line.
pub struct PalpHeader {
    pub rows: usize,
    pub columns: usize,
    pub point_count: i32,
    pub dual_point_count: i32,
    pub vertex_count: i32,
    pub facet_count: i32,
    pub hodge_numbers: Vec<i32>,
    pub euler_characteristic: i32,
}

/// Sum of the first `n` entries of `s`.
pub open spec fn prefix_sum(s: Seq<i32>, n: int) -> int
    decreases n,
{
    if n <= 0 {
        0
    } else {
        prefix_sum(s, n - 1) + s[n - 1] as int
    }
}

impl PolytopeInfo {
    /// Number of records.
    pub open spec fn count(&self) -> nat {
        self.vertex_count_list@.len()
    }

    /// Columns align, vertex counts are non-negative, and the coordinate
    /// list holds `dimension` coordinates per vertex.
    pub open spec fn wf(&self) -> bool {
        &&& self.dimension >= 2
        &&& self.facet_count_list@.len() == self.count()
        &&& self.point_count_list@.len() == self.count()
        &&& self.dual_point_count_list@.len() == self.count()
        &&& self.euler_characteristic_list@.len() == self.count()
        &&& self.hodge_number_lists@.len() == self.dimension - 2
        &&& forall|k: int|
            0 <= k < self.hodge_number_lists@.len() ==> (#[trigger] self.hodge_number_lists@[k]@).len()
                == self.count()
        &&& forall|i: int| 0 <= i < self.count() ==> #[trigger] self.vertex_count_list@[i] >= 0
        &&& self.coordinate_list@.len() == self.dimension * prefix_sum(
            self.vertex_count_list@,
            self.count() as int,
        )
    }

    /// Sets the dimension and brings the Hodge-number columns to
    /// `dimension - 2`.
    pub fn resize(&mut self, dimension: usize)
        requires
            dimension >= 2,
        ensures
            final(self).dimension == dimension,
            resized(
                final(self).hodge_number_lists@,
                old(self).hodge_number_lists@,
                (dimension - 2) as nat,
            ),
            final(self).coordinate_list == old(self).coordinate_list,
            final(self).vertex_count_list == old(self).vertex_count_list,
            final(self).facet_count_list == old(self).facet_count_list,
            final(self).point_count_list == old(self).point_count_list,
            final(self).dual_point_count_list == old(self).dual_point_count_list,
            final(self).euler_characteristic_list == old(self).euler_characteristic_list,
    {
        self.dimension = dimension;
        let len = dimension - 2;
        if len <= self.hodge_number_lists.len() {
            self.hodge_number_lists.truncate(len);
        } else {
            while self.hodge_number_lists.len() < len
                invariant
                    old(self).hodge_number_lists@.len() <= self.hodge_number_lists@.len() <= len,
                    forall|j: int|
                        0 <= j < self.hodge_number_lists@.len() ==> (
                        #[trigger] self.hodge_number_lists@[j]@) == if j < old(
                            self,
                        ).hodge_number_lists@.len() {
                            old(self).hodge_number_lists@[j]@
                        } else {
                            Seq::<i32>::empty()
                        },
                    self.coordinate_list == old(self).coordinate_list,
                    self.vertex_count_list == old(self).vertex_count_list,
                    self.facet_count_list == old(self).facet_count_list,
                    self.point_count_list == old(self).point_count_list,
                    self.dual_point_count_list == old(self).dual_point_count_list,
                    self.euler_characteristic_list == old(self).euler_characteristic_list,
                    self.dimension == dimension,
                decreases len - self.hodge_number_lists.len(),
            {
                self.hodge_number_lists.push(Vec::new());
            }
        }
    }
}

/// The pieces of `s` between the separators `sep`, empty ones included.
pub open spec fn split_on(s: Seq<char>, sep: char) -> Seq<Seq<char>>
    decreases s.len(),
{
    if s.len() == 0 {
        seq![Seq::empty()]
    } else {
        let w = split_on(s.drop_last(), sep);
        if s.last() == sep {
            w.push(Seq::empty())
        } else {
            w.update(w.len() - 1, w.last().push(s.last()))
        }
    }
}

/// The non-empty texts of `s`, in order.
pub open spec fn nonempty_pieces(s: Seq<Seq<char>>) -> Seq<Seq<char>>
    decreases s.len(),
{
    if s.len() == 0 {
        s
    } else if s.last().len() > 0 {
        nonempty_pieces(s.drop_last()).push(s.last())
    } else {
        nonempty_pieces(s.drop_last())
    }
}

/// `s`, without its empty texts when `skip_empty`.
pub open spec fn selected(s: Seq<Seq<char>>, skip_empty: bool) -> Seq<Seq<char>> {
    if skip_empty {
        nonempty_pieces(s)
    } else {
        s
    }
}

/// The words of `s`: its non-empty pieces between spaces.
pub open spec fn words(s: Seq<char>) -> Seq<Seq<char>> {
    nonempty_pieces(split_on(s, ' '))
}

/// The `i32` values of all the texts of `ws`, if each spells one.
pub open spec fn parse_all(ws: Seq<Seq<char>>) -> Option<Seq<i32>>
    decreases ws.len(),
{
    if ws.len() == 0 {
        Some(Seq::empty())
    } else {
        match (parse_all(ws.drop_last()), parsed_in_range(ws.last(), i32::MIN as int, i32::MAX as int)) {
            (Some(vs), Some(v)) => Some(vs.push(v as i32)),
            _ => None,
        }
    }
}

/// The pieces of `cs` between the separators `sep`.
fn split_chars(cs: &Vec<char>, sep: char) -> (r: Vec<Vec<char>>)
    ensures
        r@.len() == split_on(cs@, sep).len(),
        forall|i: int| 0 <= i < r@.len() ==> (#[trigger] r@[i])@ == split_on(cs@, sep)[i],
{
    let mut r: Vec<Vec<char>> = Vec::new();
    r.push(Vec::new());
    let n = cs.len();
    proof {
        assert(cs@.take(0) =~= Seq::<char>::empty());
    }
    for i in 0..n
        invariant
            n == cs@.len(),
            r@.len() == split_on(cs@.take(i as int), sep).len(),
            r@.len() > 0,
            forall|k: int| 0 <= k < r@.len() ==> (#[trigger] r@[k])@ == split_on(cs@.take(i as int), sep)[k],
    {
        proof {
            assert(cs@.take(i + 1).drop_last() =~= cs@.take(i as int));
            assert(cs@.take(i + 1).last() == cs@[i as int]);
        }
        let c = cs[i];
        if c == sep {
            r.push(Vec::new());
        } else {
            let last = r.len() - 1;
            r[last].push(c);
        }
        proof {
            let w = split_on(cs@.take(i as int), sep);
            assert forall|k: int| 0 <= k < r@.len() implies (#[trigger] r@[k])@ == split_on(
                cs@.take(i + 1),
                sep,
            )[k] by {}
        }
    }
    proof {
        assert(cs@.take(n as int) =~= cs@);
    }
    r
}

/// Parses the pieces of `pieces` as `i32`, leaving out empty ones when
/// `skip_empty`.
fn parse_pieces(pieces: &Vec<Vec<char>>, skip_empty: bool) -> (r: Option<Vec<i32>>)
    ensures
        match parse_all(selected(pieces@.map_values(|p: Vec<char>| p@), skip_empty)) {
            Some(vs) => r matches Some(v) && v@ == vs,
            None => r is None,
        },
{
    let ghost all = pieces@.map_values(|p: Vec<char>| p@);
    let mut out: Vec<i32> = Vec::new();
    let n = pieces.len();
    proof {
        assert(all.take(0) =~= Seq::<Seq<char>>::empty());
    }
    for i in 0..n
        invariant
            n == pieces@.len(),
            all == pieces@.map_values(|p: Vec<char>| p@),
            parse_all(selected(all.take(i as int), skip_empty)) == Some(out@),
    {
        proof {
            assert(all.take(i + 1).drop_last() =~= all.take(i as int));
            assert(all.take(i + 1).last() == pieces@[i as int]@);
        }
        let p = &pieces[i];
        if skip_empty && p.len() == 0 {
            proof {
                assert(selected(all.take(i + 1), skip_empty) == selected(all.take(i as int), skip_empty));
            }
        } else {
            proof {
                assert(selected(all.take(i + 1), skip_empty) == selected(all.take(i as int), skip_empty).push(p@));
                assert(selected(all.take(i + 1), skip_empty).drop_last() =~= selected(all.take(i as int), skip_empty));
                assert(p@.subrange(0, p@.len() as int) =~= p@);
            }
            match parse_integer(p.as_slice(), 0, p.len(), -0x8000_0000, 0x7fff_ffff) {
                Some(v) => {
                    out.push(v as i32);
                },
                None => {
                    proof {
                        lemma_parse_all_none(all, i + 1, skip_empty);
                    }
                    return None;
                },
            }
        }
    }
    proof {
        assert(all.take(n as int) =~= all);
    }
    Some(out)
}

/// Once a selected prefix fails to parse, the whole does.
proof fn lemma_parse_all_none(all: Seq<Seq<char>>, k: int, skip_empty: bool)
    requires
        0 <= k <= all.len(),
        parse_all(selected(all.take(k), skip_empty)) is None,
    ensures
        parse_all(selected(all, skip_empty)) is None,
    decreases all.len() - k,
{
    if k == all.len() {
        assert(all.take(k) =~= all);
    } else {
        assert(all.take(k + 1).drop_last() =~= all.take(k));
        let a = selected(all.take(k), skip_empty);
        let b = selected(all.take(k + 1), skip_empty);
        if b != a {
            assert(b.drop_last() =~= a);
        }
        lemma_parse_all_none(all, k + 1, skip_empty);
    }
}

/// `l` without a final carriage return.
pub open spec fn strip_cr(l: Seq<char>) -> Seq<char> {
    if l.len() > 0 && l.last() == '\r' {
        l.drop_last()
    } else {
        l
    }
}

/// The lines of `s`: the pieces between line feeds, each without a
/// carriage return right before its line feed, and no empty last line
/// after a final line feed.
pub open spec fn lines_spec(s: Seq<char>) -> Seq<Seq<char>> {
    let parts = split_on(s, '\n');
    let body = parts.drop_last().map_values(|l: Seq<char>| strip_cr(l));
    if parts.last().len() == 0 {
        body
    } else {
        body.push(parts.last())
    }
}

/// Relies on `str::lines`: the text split at each `\n`, a `\r` right
/// before a `\n` removed, and a final line ending optional.
#[verifier::external_body]
fn text_lines(s: &str) -> (r: Vec<String>)
    ensures
        r@.len() == lines_spec(s@).len(),
        forall|i: int| 0 <= i < r@.len() ==> (#[trigger] r@[i])@ == lines_spec(s@)[i],
{
    s.lines().map(|l| l.to_string()).collect()
}

/// Whether `char::is_whitespace` holds of `c`.
pub uninterp spec fn white_char(c: char) -> bool;

/// Whether `char::is_numeric` holds of `c`.
pub uninterp spec fn numeric_char(c: char) -> bool;

/// Relies on `char::is_whitespace`, a property of the character alone.
#[verifier::external_body]
fn is_white(c: char) -> (r: bool)
    ensures
        r == white_char(c),
{
    c.is_whitespace()
}

/// Relies on `char::is_numeric`, a property of the character alone.
#[verifier::external_body]
fn is_numeric(c: char) -> (r: bool)
    ensures
        r == numeric_char(c),
{
    c.is_numeric()
}

/// The first character of `s` that is not white space.
pub open spec fn first_non_white(s: Seq<char>) -> Option<char>
    decreases s.len(),
{
    if s.len() == 0 {
        None
    } else if white_char(s[0]) {
        first_non_white(s.drop_first())
    } else {
        Some(s[0])
    }
}

/// A line whose first character that is not white space is numeric: the
/// header of a polytope.
pub open spec fn starts_numeric(s: Seq<char>) -> bool {
    match first_non_white(s) {
        Some(c) => numeric_char(c),
        None => false,
    }
}

fn line_starts_numeric(line: &str) -> (r: bool)
    ensures
        r == starts_numeric(line@),
{
    let cs = chars_of(line);
    let mut i: usize = 0;
    proof {
        assert(cs@.skip(0) =~= cs@);
    }
    while i < cs.len() && is_white(cs[i])
        invariant
            i <= cs@.len(),
            first_non_white(cs@) == first_non_white(cs@.skip(i as int)),
        decreases cs@.len() - i,
    {
        proof {
            assert(cs@.skip(i as int).drop_first() =~= cs@.skip(i + 1));
        }
        i = i + 1;
    }
    if i < cs.len() {
        is_numeric(cs[i])
    } else {
        false
    }
}

/// The texts that a PALP header line gives for its named fields, in the
/// order rows, columns, point count, vertex count, dual point count,
/// facet count, Hodge numbers and Euler characteristic; `None` where the
/// line does not have the shape of a header.
pub uninterp spec fn header_fields(line: Seq<char>) -> Option<Seq<Seq<char>>>;

/// Relies on `regex::Regex::captures` with the header pattern: the named
/// groups of a match, which depend on the line alone.
#[verifier::external_body]
fn header_captures(line: &str) -> (r: Option<Vec<String>>)
    ensures
        match header_fields(line@) {
            Some(f) => r matches Some(v) && v@.len() == f.len() && forall|i: int|
                0 <= i < f.len() ==> (#[trigger] v@[i])@ == f[i],
            None => r is None,
        },
{
    let re = regex::Regex::new(
        r"(?x)^\s*(?<rows>[0-9]+)\s+(?<columns>[0-9]+)\s+M:(?<point_count>[0-9]+)\s+(?<vertex_count>[0-9]+)\s+N:(?<dual_point_count>[0-9]+)\s+(?<facet_count>[0-9]+)\s+H:(?<hodge_numbers>[0-9]+(,[0-9]+)*)\s+\[(?<euler_characteristic>-?[0-9]+)\]",
    ).unwrap();
    let names = ["rows", "columns", "point_count", "vertex_count", "dual_point_count", "facet_count", "hodge_numbers", "euler_characteristic"];
    re.captures(line).map(|c| names.iter().map(|n| c[*n].to_string()).collect())
}

/// The header that a line gives: its eight fields, where each spells a
/// number of its range (rows and columns of at most 32 bits, the others
/// `i32`, the Hodge numbers separated by commas).
pub open spec fn header_value(line: Seq<char>) -> Option<(nat, nat, i32, i32, i32, i32, Seq<i32>, i32)> {
    match header_fields(line) {
        None => None,
        Some(f) => if f.len() != 8 {
            None
        } else {
            let rows = parsed_in_range(f[0], 0, u32::MAX as int);
            let columns = parsed_in_range(f[1], 0, u32::MAX as int);
            let point_count = parsed_in_range(f[2], i32::MIN as int, i32::MAX as int);
            let vertex_count = parsed_in_range(f[3], i32::MIN as int, i32::MAX as int);
            let dual_point_count = parsed_in_range(f[4], i32::MIN as int, i32::MAX as int);
            let facet_count = parsed_in_range(f[5], i32::MIN as int, i32::MAX as int);
            let hodge = parse_all(split_on(f[6], ','));
            let euler = parsed_in_range(f[7], i32::MIN as int, i32::MAX as int);
            if rows is Some && columns is Some && point_count is Some && vertex_count is Some
                && dual_point_count is Some && facet_count is Some && hodge is Some && euler is Some {
                Some(
                    (
                        rows->Some_0 as nat,
                        columns->Some_0 as nat,
                        point_count->Some_0 as i32,
                        vertex_count->Some_0 as i32,
                        dual_point_count->Some_0 as i32,
                        facet_count->Some_0 as i32,
                        hodge->Some_0,
                        euler->Some_0 as i32,
                    ),
                )
            } else {
                None
            }
        },
    }
}

/// Parses `s` as an integer of `[lo, hi]`.
fn parse_field(s: &String, lo: i64, hi: i64) -> (r: Option<i64>)
    requires
        -0x1_0000_0000 <= lo <= hi <= 0x1_0000_0000,
    ensures
        r == match parsed_in_range(s@, lo as int, hi as int) {
            Some(v) => Some(v as i64),
            None => None::<i64>,
        },
{
    let cs = chars_of(s.as_str());
    proof {
        assert(cs@.subrange(0, cs@.len() as int) =~= s@);
    }
    parse_integer(cs.as_slice(), 0, cs.len(), lo, hi)
}

/// The header of a polytope.
pub fn parse_header(input: &str) -> (r: Result<PalpHeader, Error>)
    ensures
        match header_value(input@) {
            Some((rows, columns, pc, vc, dpc, fc, hs, e)) => r matches Ok(h) && h.rows == rows
                && h.columns == columns && h.point_count == pc && h.vertex_count == vc
                && h.dual_point_count == dpc && h.facet_count == fc && h.hodge_numbers@ == hs
                && h.euler_characteristic == e,
            None => r == Err::<PalpHeader, Error>(Error::InvalidHeader),
        },
{
    let f = match header_captures(input) {
        Some(f) => f,
        None => {
            return Err(Error::InvalidHeader);
        },
    };
    if f.len() != 8 {
        return Err(Error::InvalidHeader);
    }
    let rows = parse_field(&f[0], 0, 0xffff_ffff);
    let columns = parse_field(&f[1], 0, 0xffff_ffff);
    let point_count = parse_field(&f[2], -0x8000_0000, 0x7fff_ffff);
    let vertex_count = parse_field(&f[3], -0x8000_0000, 0x7fff_ffff);
    let dual_point_count = parse_field(&f[4], -0x8000_0000, 0x7fff_ffff);
    let facet_count = parse_field(&f[5], -0x8000_0000, 0x7fff_ffff);
    let hodge_chars = chars_of(f[6].as_str());
    let pieces = split_chars(&hodge_chars, ',');
    proof {
        assert(pieces@.map_values(|p: Vec<char>| p@) =~= split_on(f@[6]@, ','));
    }
    let hodge = parse_pieces(&pieces, false);
    let euler = parse_field(&f[7], -0x8000_0000, 0x7fff_ffff);
    match (rows, columns, point_count, vertex_count, dual_point_count, facet_count, hodge, euler) {
        (Some(rows), Some(columns), Some(pc), Some(vc), Some(dpc), Some(fc), Some(hs), Some(e)) => {
            Ok(
                PalpHeader {
                    rows: rows as usize,
                    columns: columns as usize,
                    point_count: pc as i32,
                    dual_point_count: dpc as i32,
                    vertex_count: vc as i32,
                    facet_count: fc as i32,
                    hodge_numbers: hs,
                    euler_characteristic: e as i32,
                },
            )
        },
        _ => Err(Error::InvalidHeader),
    }
}

/// The coordinate rows that lines `pos` on give for a matrix of `rows`
/// rows and `columns` columns: each line's words as `i32`.
pub open spec fn coordinates_value(
    lines: Seq<Seq<char>>,
    pos: int,
    rows: nat,
    columns: nat,
) -> Result<Seq<Seq<i32>>, Error>
    decreases rows,
{
    if rows == 0 {
        Ok(Seq::empty())
    } else if pos < 0 || pos >= lines.len() {
        Err(Error::IncompleteInput)
    } else {
        match parse_all(words(lines[pos])) {
            None => Err(Error::InvalidNumber),
            Some(v) => if v.len() != columns {
                Err(Error::InvalidCoordinateCount)
            } else {
                match coordinates_value(lines, pos + 1, (rows - 1) as nat, columns) {
                    Ok(rest) => Ok(seq![v] + rest),
                    Err(e) => Err(e),
                }
            },
        }
    }
}

/// The views of a list of strings.
pub open spec fn views(lines: Seq<String>) -> Seq<Seq<char>> {
    lines.map_values(|l: String| l@)
}

/// Reads the `header.rows` coordinate lines of a polytope from line `*pos`
/// on, and moves `*pos` past them.
pub fn parse_coordinates(header: &PalpHeader, lines: &Vec<String>, pos: &mut usize) -> (r: Result<
    Vec<Vec<i32>>,
    Error,
>)
    requires
        *old(pos) <= lines@.len(),
    ensures
        match coordinates_value(views(lines@), *old(pos) as int, header.rows as nat, header.columns as nat) {
            Ok(m) => r matches Ok(v) && v@.len() == m.len() && (forall|i: int|
                0 <= i < m.len() ==> (#[trigger] v@[i])@ == m[i]) && *final(pos) == *old(pos)
                + header.rows,
            Err(e) => r == Err::<Vec<Vec<i32>>, Error>(e),
        },
        *final(pos) <= lines@.len(),
{
    let ghost ls = views(lines@);
    let ghost whole = coordinates_value(ls, *pos as int, header.rows as nat, header.columns as nat);
    let ghost start = *pos;
    let mut ret: Vec<Vec<i32>> = Vec::new();
    let mut k: usize = 0;
    proof {
        if let Ok(m) = whole {
            assert(Seq::<Seq<i32>>::empty() + m =~= m);
        }
    }
    while k < header.rows
        invariant
            ls == views(lines@),
            ls.len() == lines@.len(),
            start == *old(pos),
            k <= header.rows,
            *pos == start + k,
            *pos <= lines@.len(),
            whole == coordinates_value(ls, start as int, header.rows as nat, header.columns as nat),
            whole == match coordinates_value(ls, *pos as int, (header.rows - k) as nat, header.columns as nat) {
                Ok(rest) => Ok(ret@.map_values(|v: Vec<i32>| v@) + rest),
                Err(e) => Err(e),
            },
        decreases header.rows - k,
    {
        if *pos >= lines.len() {
            return Err(Error::IncompleteInput);
        }
        proof {
            assert(ls[*pos as int] == lines@[*pos as int]@);
        }
        let cs = chars_of(lines[*pos].as_str());
        let pieces = split_chars(&cs, ' ');
        proof {
            assert(pieces@.map_values(|p: Vec<char>| p@) =~= split_on(ls[*pos as int], ' '));
        }
        let values = match parse_pieces(&pieces, true) {
            Some(v) => v,
            None => {
                return Err(Error::InvalidNumber);
            },
        };
        if values.len() != header.columns {
            return Err(Error::InvalidCoordinateCount);
        }
        let ghost before = ret@.map_values(|v: Vec<i32>| v@);
        ret.push(values);
        proof {
            assert(ret@.map_values(|v: Vec<i32>| v@) =~= before.push(values@));
            if let Ok(rest) = coordinates_value(ls, *pos + 1, (header.rows - k - 1) as nat, header.columns as nat) {
                assert(before + (seq![values@] + rest) =~= before.push(values@) + rest);
            }
        }
        *pos = *pos + 1;
        k = k + 1;
    }
    proof {
        assert(ret@.map_values(|v: Vec<i32>| v@) + Seq::<Seq<i32>>::empty() =~= ret@.map_values(|v: Vec<i32>| v@));
    }
    Ok(ret)
}

/// A successful read gives `rows` rows of `columns` entries each.
proof fn lemma_coordinates_shape(lines: Seq<Seq<char>>, pos: int, rows: nat, columns: nat)
    ensures
        coordinates_value(lines, pos, rows, columns) matches Ok(m) ==> m.len() == rows && forall|
            i: int,
        | 0 <= i < m.len() ==> (#[trigger] m[i]).len() == columns,
    decreases rows,
{
    if rows > 0 && 0 <= pos < lines.len() {
        lemma_coordinates_shape(lines, pos + 1, (rows - 1) as nat, columns);
        if let Ok(m) = coordinates_value(lines, pos, rows, columns) {
            let v = parse_all(words(lines[pos]))->Some_0;
            let rest = coordinates_value(lines, pos + 1, (rows - 1) as nat, columns)->Ok_0;
            assert(m == seq![v] + rest);
            assert forall|i: int| 0 <= i < m.len() implies (#[trigger] m[i]).len() == columns by {
                if i > 0 {
                    assert(m[i] == rest[i - 1]);
                }
            }
        }
    }
}

/// The vertices of a `rows` by `columns` matrix, vertex by vertex: a
/// matrix with fewer rows than columns holds one vertex per column,
/// another one per row.
pub open spec fn vertices_of(m: Seq<Seq<i32>>, rows: nat, columns: nat) -> Seq<i32> {
    let dim = if rows < columns {
        rows
    } else {
        columns
    };
    let vc = if rows < columns {
        columns
    } else {
        rows
    };
    Seq::new(
        vc * dim,
        |k: int|
            if rows < columns {
                m[k % (dim as int)][k / (dim as int)]
            } else {
                m[k / (dim as int)][k % (dim as int)]
            },
    )
}

proof fn lemma_div_mod(i: nat, d: nat, j: nat)
    requires
        j < d,
    ensures
        ((i * d + j) as int) % (d as int) == j as int,
        ((i * d + j) as int) / (d as int) == i as int,
{
    let k = i * d + j;
    assert(k % d == j && k / d == i) by (nonlinear_arith)
        requires
            k == i * d + j,
            j < d,
    ;
}

/// Appends the vertices of a `rows` by `columns` matrix, vertex by vertex.
fn push_vertices(out: &mut Vec<i32>, coordinates: &Vec<Vec<i32>>, rows: usize, columns: usize)
    requires
        coordinates@.len() == rows,
        forall|i: int| 0 <= i < rows ==> (#[trigger] coordinates@[i])@.len() == columns,
    ensures
        final(out)@ == old(out)@ + vertices_of(
            coordinates@.map_values(|v: Vec<i32>| v@),
            rows as nat,
            columns as nat,
        ),
        rows * columns == vertices_of(
            coordinates@.map_values(|v: Vec<i32>| v@),
            rows as nat,
            columns as nat,
        ).len(),
{
    let ghost m = coordinates@.map_values(|v: Vec<i32>| v@);
    let ghost all = vertices_of(m, rows as nat, columns as nat);
    let dimension = if rows < columns {
        rows
    } else {
        columns
    };
    let vertex_count = if rows < columns {
        columns
    } else {
        rows
    };
    proof {
        assert(0 * dimension == 0) by (nonlinear_arith);
        assert(all.take(0) =~= Seq::<i32>::empty());
        assert(vertex_count * dimension == rows * columns) by (nonlinear_arith)
            requires
                dimension == (if rows < columns { rows } else { columns }),
                vertex_count == (if rows < columns { columns } else { rows }),
        ;
    }
    for i in 0..vertex_count
        invariant
            dimension == (if rows < columns { rows } else { columns }),
            vertex_count == (if rows < columns { columns } else { rows }),
            coordinates@.len() == rows,
            forall|k: int| 0 <= k < rows ==> (#[trigger] coordinates@[k])@.len() == columns,
            m == coordinates@.map_values(|v: Vec<i32>| v@),
            all == vertices_of(m, rows as nat, columns as nat),
            all.len() == vertex_count * dimension,
            out@ == old(out)@ + all.take(i * dimension),
    {
        for j in 0..dimension
            invariant
                dimension == (if rows < columns { rows } else { columns }),
                vertex_count == (if rows < columns { columns } else { rows }),
                i < vertex_count,
                coordinates@.len() == rows,
                forall|k: int| 0 <= k < rows ==> (#[trigger] coordinates@[k])@.len() == columns,
                m == coordinates@.map_values(|v: Vec<i32>| v@),
                all == vertices_of(m, rows as nat, columns as nat),
                all.len() == vertex_count * dimension,
                out@ == old(out)@ + all.take(i * dimension + j),
        {
            proof {
                lemma_div_mod(i as nat, dimension as nat, j as nat);
                assert(i * dimension + j < vertex_count * dimension) by (nonlinear_arith)
                    requires
                        i < vertex_count,
                        j < dimension,
                ;
            }
            let ghost k = i * dimension + j;
            let value = if rows < columns {
                coordinates[j][i]
            } else {
                coordinates[i][j]
            };
            proof {
                assert(all[k as int] == value);
                assert(all.take(k + 1) =~= all.take(k as int).push(value));
            }
            out.push(value);
            proof {
                assert(out@ =~= old(out)@ + all.take(i * dimension + j + 1));
            }
        }
        proof {
            assert(i * dimension + dimension == (i + 1) * dimension) by (nonlinear_arith);
        }
    }
    proof {
        assert(all.take(vertex_count * dimension) =~= all);
    }
}

/// The prefix sums grow by the next entry.
proof fn lemma_prefix_sum_push(s: Seq<i32>, x: i32)
    ensures
        prefix_sum(s.push(x), s.len() + 1int) == prefix_sum(s, s.len() as int) + x,
{
    lemma_prefix_sum_prefix(s, x, s.len() as int);
}

proof fn lemma_prefix_sum_prefix(s: Seq<i32>, x: i32, n: int)
    requires
        0 <= n <= s.len(),
    ensures
        prefix_sum(s.push(x), n) == prefix_sum(s, n),
    decreases n,
{
    if n > 0 {
        lemma_prefix_sum_prefix(s, x, n - 1);
    }
}

/// An empty set of records.
fn empty_info() -> (r: PolytopeInfo)
    ensures
        r.dimension == 0,
        r.count() == 0,
        r.coordinate_list@.len() == 0,
        r.facet_count_list@.len() == 0,
        r.point_count_list@.len() == 0,
        r.dual_point_count_list@.len() == 0,
        r.euler_characteristic_list@.len() == 0,
        r.hodge_number_lists@.len() == 0,
{
    PolytopeInfo {
        dimension: 0,
        coordinate_list: Vec::new(),
        vertex_count_list: Vec::new(),
        facet_count_list: Vec::new(),
        point_count_list: Vec::new(),
        dual_point_count_list: Vec::new(),
        euler_characteristic_list: Vec::new(),
        hodge_number_lists: Vec::new(),
    }
}

/// The fields of a header: rows, columns, point count, vertex count,
/// dual point count, facet count, Hodge numbers, Euler characteristic.
pub type HeaderFields = (nat, nat, i32, i32, i32, i32, Seq<i32>, i32);

/// The smaller side of a matrix: the dimension of its polytope.
pub open spec fn matrix_dimension(rows: nat, columns: nat) -> nat {
    if rows < columns {
        rows
    } else {
        columns
    }
}

/// The larger side of a matrix: the vertex count of its polytope.
pub open spec fn matrix_vertex_count(rows: nat, columns: nat) -> nat {
    if rows < columns {
        columns
    } else {
        rows
    }
}

/// The polytopes that lines `i` on give, each with its header fields and
/// its vertices, where the polytopes read before have dimension `d` (0 for
/// none yet).
pub open spec fn palp_records(ls: Seq<Seq<char>>, i: int, d: nat) -> Result<
    Seq<(HeaderFields, Seq<i32>)>,
    Error,
>
    decreases ls.len() - i,
{
    if i < 0 || i >= ls.len() {
        Ok(Seq::empty())
    } else if !starts_numeric(ls[i]) {
        palp_records(ls, i + 1, d)
    } else {
        match header_value(ls[i]) {
            None => Err(Error::InvalidHeader),
            Some(h) => match coordinates_value(ls, i + 1, h.0, h.1) {
                Err(e) => Err(e),
                Ok(m) => {
                    let dim = matrix_dimension(h.0, h.1);
                    let vc = matrix_vertex_count(h.0, h.1);
                    if dim < 2 {
                        Err(Error::InvalidHeader)
                    } else if d != 0 && d != dim {
                        Err(Error::VaryingDimension)
                    } else if h.6.len() != dim - 2 {
                        Err(Error::InvalidHeader)
                    } else if h.3 < 0 || h.3 as int != vc {
                        Err(Error::InvalidVertexCount)
                    } else if i + 1 + h.0 > ls.len() {
                        Err(Error::IncompleteInput)
                    } else {
                        match palp_records(ls, i + 1 + h.0, dim) {
                            Ok(rest) => Ok(seq![(h, vertices_of(m, h.0, h.1))] + rest),
                            Err(e) => Err(e),
                        }
                    }
                },
            },
        }
    }
}

/// The vertices of all the records, one record after the other.
pub open spec fn all_vertices(recs: Seq<(HeaderFields, Seq<i32>)>) -> Seq<i32>
    decreases recs.len(),
{
    if recs.len() == 0 {
        Seq::empty()
    } else {
        all_vertices(recs.drop_last()) + recs.last().1
    }
}

/// `info` holds the records `recs`: their counts, Hodge numbers, Euler
/// characteristics and vertices.
pub open spec fn info_holds(info: PolytopeInfo, recs: Seq<(HeaderFields, Seq<i32>)>) -> bool {
    &&& info.count() == recs.len()
    &&& forall|i: int|
        0 <= i < recs.len() ==> {
            let h = #[trigger] recs[i].0;
            &&& info.vertex_count_list@[i] == h.3
            &&& info.point_count_list@[i] == h.2
            &&& info.dual_point_count_list@[i] == h.4
            &&& info.facet_count_list@[i] == h.5
            &&& info.euler_characteristic_list@[i] == h.7
            &&& record_hodge(info, i) == h.6
        }
    &&& info.coordinate_list@ == all_vertices(recs)
}

/// Reads a PALP text: every line whose first character that is not white
/// space is numeric is the header of a polytope, and its coordinate lines
/// follow it. All polytopes must share one dimension, the smaller side of
/// their matrix; the larger side is the vertex count.
pub fn parse_palp(input: &str) -> (r: Result<PolytopeInfo, Error>)
    ensures
        match palp_records(lines_spec(input@), 0, 0) {
            Err(e) => r == Err::<PolytopeInfo, Error>(e),
            Ok(recs) => if recs.len() == 0 {
                r == Err::<PolytopeInfo, Error>(Error::NoPolytopes)
            } else {
                r matches Ok(info) && info.wf() && info_holds(info, recs) && info.dimension
                    == matrix_dimension(recs[0].0.0, recs[0].0.1)
            },
        },
{
    let lines = text_lines(input);
    let ghost ls = lines_spec(input@);
    let ghost whole = palp_records(ls, 0, 0);
    let ghost mut done: Seq<(HeaderFields, Seq<i32>)> = Seq::empty();
    let mut ret = empty_info();
    let mut i: usize = 0;
    let n = lines.len();
    proof {
        if let Ok(rest) = whole {
            assert(done + rest =~= rest);
        }
        assert(ret.coordinate_list@ =~= all_vertices(done));
    }
    while i < n
        invariant
            n == lines@.len(),
            n == ls.len(),
            ls == lines_spec(input@),
            forall|k: int| 0 <= k < n ==> (#[trigger] lines@[k])@ == ls[k],
            i <= n,
            whole == palp_records(ls, 0, 0),
            whole == match palp_records(ls, i as int, ret.dimension as nat) {
                Ok(rest) => Ok(done + rest),
                Err(e) => Err(e),
            },
            info_holds(ret, done),
            (ret.dimension == 0) == (done.len() == 0),
            ret.dimension == 0 ==> ret.count() == 0 && ret.coordinate_list@.len() == 0
                && ret.facet_count_list@.len() == 0 && ret.point_count_list@.len() == 0
                && ret.dual_point_count_list@.len() == 0 && ret.euler_characteristic_list@.len()
                == 0 && ret.hodge_number_lists@.len() == 0,
            ret.dimension != 0 ==> ret.wf() && ret.dimension == matrix_dimension(done[0].0.0, done[0].0.1),
        decreases n - i,
    {
        let line = &lines[i];
        let ghost li = i as int;
        i = i + 1;
        if !line_starts_numeric(line.as_str()) {
            continue;
        }
        let header = match parse_header(line.as_str()) {
            Ok(h) => h,
            Err(e) => {
                return Err(e);
            },
        };
        let ghost h = header_value(ls[li])->Some_0;
        let ghost start_i = i;
        let coordinates = match parse_coordinates(&header, &lines, &mut i) {
            Ok(c) => c,
            Err(e) => {
                proof {
                    assert(views(lines@) =~= ls);
                }
                return Err(e);
            },
        };
        proof {
            assert(views(lines@) =~= ls);
            lemma_coordinates_shape(ls, start_i as int, header.rows as nat, header.columns as nat);
        }
        let ghost m = coordinates_value(ls, start_i as int, header.rows as nat, header.columns as nat)->Ok_0;
        proof {
            assert(coordinates@.map_values(|v: Vec<i32>| v@) =~= m);
        }
        let dimension = if header.rows < header.columns {
            header.rows
        } else {
            header.columns
        };
        let vertex_count = if header.rows < header.columns {
            header.columns
        } else {
            header.rows
        };
        if dimension < 2 {
            return Err(Error::InvalidHeader);
        }
        if ret.dimension != 0 && ret.dimension != dimension {
            return Err(Error::VaryingDimension);
        }
        if header.hodge_numbers.len() != dimension - 2 {
            return Err(Error::InvalidHeader);
        }
        if header.vertex_count < 0 || header.vertex_count as usize != vertex_count {
            return Err(Error::InvalidVertexCount);
        }
        if ret.dimension == 0 {
            ret.resize(dimension);
        }
        let ghost rec = (h, vertices_of(m, h.0, h.1));
        let ghost old_ret = ret;
        let ghost old_vc = ret.vertex_count_list@;
        let ghost old_len = ret.coordinate_list@.len();
        ret.vertex_count_list.push(header.vertex_count);
        ret.facet_count_list.push(header.facet_count);
        ret.point_count_list.push(header.point_count);
        ret.dual_point_count_list.push(header.dual_point_count);
        ret.euler_characteristic_list.push(header.euler_characteristic);
        let ghost old_hodge = ret.hodge_number_lists@;
        crate::tiers::append_weight_system(&mut ret.hodge_number_lists, header.hodge_numbers.as_slice());
        push_vertices(&mut ret.coordinate_list, &coordinates, header.rows, header.columns);
        proof {
            lemma_prefix_sum_push(old_vc, header.vertex_count);
            assert(ret.vertex_count_list@ == old_vc.push(header.vertex_count));
            assert(old_vc.len() == ret.count() - 1);
            assert(header.rows * header.columns == dimension * vertex_count) by (nonlinear_arith)
                requires
                    dimension == (if header.rows < header.columns { header.rows } else { header.columns }),
                    vertex_count == (if header.rows < header.columns { header.columns } else { header.rows }),
            ;
            assert(ret.coordinate_list@.len() == dimension * prefix_sum(ret.vertex_count_list@, ret.count() as int)) by (nonlinear_arith)
                requires
                    ret.coordinate_list@.len() == old_len + dimension * vertex_count,
                    old_len == dimension * prefix_sum(old_vc, old_vc.len() as int),
                    prefix_sum(ret.vertex_count_list@, ret.count() as int) == prefix_sum(old_vc, old_vc.len() as int) + vertex_count,
            ;
            assert forall|k: int| 0 <= k < ret.hodge_number_lists@.len() implies (#[trigger] ret.hodge_number_lists@[k]@).len() == ret.count() by {
                assert(ret.hodge_number_lists@[k]@ == old_hodge[k]@.push(header.hodge_numbers@[k]));
                assert(old_hodge[k]@.len() == old_vc.len());
            }
            // the new record
            let nd = done.push(rec);
            assert(nd.drop_last() =~= done);
            assert(ret.coordinate_list@ =~= all_vertices(nd));
            assert forall|q: int| 0 <= q < nd.len() implies {
                let hq = #[trigger] nd[q].0;
                &&& ret.vertex_count_list@[q] == hq.3
                &&& ret.point_count_list@[q] == hq.2
                &&& ret.dual_point_count_list@[q] == hq.4
                &&& ret.facet_count_list@[q] == hq.5
                &&& ret.euler_characteristic_list@[q] == hq.7
                &&& record_hodge(ret, q) == hq.6
            } by {
                if q < done.len() {
                    assert(nd[q] == done[q]);
                    assert(record_hodge(ret, q) =~= record_hodge(old_ret, q)) by {
                        assert forall|k: int| 0 <= k < ret.hodge_number_lists@.len() implies ret.hodge_number_lists@[k]@[q] == old_ret.hodge_number_lists@[k]@[q] by {
                            assert(ret.hodge_number_lists@[k]@ == old_hodge[k]@.push(header.hodge_numbers@[k]));
                        }
                    }
                } else {
                    assert(record_hodge(ret, q) =~= header.hodge_numbers@) by {
                        assert forall|k: int| 0 <= k < ret.hodge_number_lists@.len() implies ret.hodge_number_lists@[k]@[q] == header.hodge_numbers@[k] by {
                            assert(ret.hodge_number_lists@[k]@ == old_hodge[k]@.push(header.hodge_numbers@[k]));
                        }
                    }
                }
            }
            assert(info_holds(ret, nd));
            match palp_records(ls, i as int, dimension as nat) {
                Ok(rest) => {
                    assert(done + (seq![rec] + rest) =~= nd + rest);
                },
                Err(e) => {},
            }
            if done.len() > 0 {
                assert(nd[0] == done[0]);
            }
            done = nd;
        }
    }
    proof {
        assert(done + Seq::<(HeaderFields, Seq<i32>)>::empty() =~= done);
    }
    if ret.dimension == 0 {
        return Err(Error::NoPolytopes);
    }
    Ok(ret)
}

/// `s` right-aligned in a field of five characters.
pub open spec fn pad5(s: Seq<char>) -> Seq<char> {
    if s.len() < 5 {
        Seq::new((5 - s.len()) as nat, |i: int| ' ') + s
    } else {
        s
    }
}

/// The numbers of `hs` joined by commas.
pub open spec fn joined(hs: Seq<i32>) -> Seq<char>
    decreases hs.len(),
{
    if hs.len() == 0 {
        Seq::empty()
    } else if hs.len() == 1 {
        signed_dec(hs[0] as int)
    } else {
        joined(hs.drop_last()) + seq![','] + signed_dec(hs.last() as int)
    }
}

/// The Hodge numbers of record `i`.
pub open spec fn record_hodge(info: PolytopeInfo, i: int) -> Seq<i32> {
    Seq::new(info.hodge_number_lists@.len(), |k: int| info.hodge_number_lists@[k]@[i])
}

/// The header line of record `i`.
pub open spec fn header_text(info: PolytopeInfo, i: int) -> Seq<char> {
    let vc = signed_dec(info.vertex_count_list@[i] as int);
    dec(info.dimension as nat) + " "@ + vc + "  M:"@ + signed_dec(info.point_count_list@[i] as int)
        + " "@ + vc + " N:"@ + signed_dec(info.dual_point_count_list@[i] as int) + " "@
        + signed_dec(info.facet_count_list@[i] as int) + " H:"@ + joined(record_hodge(info, i))
        + " ["@ + signed_dec(info.euler_characteristic_list@[i] as int) + "]\n"@
}

/// The first `m` cells of line `row` of a vertex matrix printed with one
/// line per coordinate.
pub open spec fn cells(coords: Seq<i32>, d: nat, row: nat, m: nat) -> Seq<char>
    decreases m,
{
    if m == 0 {
        Seq::empty()
    } else {
        cells(coords, d, row, (m - 1) as nat) + pad5(signed_dec(coords[(m - 1) * d + row] as int))
    }
}

/// The first `k` coordinate lines of the matrix of `vc` vertices.
pub open spec fn matrix_text(coords: Seq<i32>, d: nat, vc: nat, k: nat) -> Seq<char>
    decreases k,
{
    if k == 0 {
        Seq::empty()
    } else {
        matrix_text(coords, d, vc, (k - 1) as nat) + cells(coords, d, (k - 1) as nat, vc) + "\n"@
    }
}

/// The text of the first `n` records.
pub open spec fn palp_text(info: PolytopeInfo, n: nat) -> Seq<char>
    decreases n,
{
    if n == 0 {
        Seq::empty()
    } else {
        let d = info.dimension as nat;
        let vcs = info.vertex_count_list@;
        palp_text(info, (n - 1) as nat) + header_text(info, n - 1) + matrix_text(
            info.coordinate_list@.subrange(d * prefix_sum(vcs, n - 1), d * prefix_sum(vcs, n as int)),
            d,
            vcs[n - 1] as nat,
            d,
        )
    }
}

/// Appends `x` right-aligned in a field of five characters.
fn push_padded(out: &mut String, x: i32)
    ensures
        final(out)@ == old(out)@ + pad5(signed_dec(x as int)),
{
    let mut t = String::new();
    push_signed_decimal(&mut t, x);
    proof {
        assert(Seq::<char>::empty() + signed_dec(x as int) =~= signed_dec(x as int));
    }
    let len = t.as_str().unicode_len();
    let mut k: usize = len;
    while k < 5
        invariant
            len == t@.len(),
            len <= k <= 5 || (len > 5 && k == len),
            out@ == old(out)@ + Seq::new((k - len) as nat, |i: int| ' '),
        decreases 5 - k,
    {
        proof {
            reveal_strlit(" ");
        }
        out.append(" ");
        proof {
            assert(out@ =~= old(out)@ + Seq::new((k + 1 - len) as nat, |i: int| ' '));
        }
        k = k + 1;
    }
    out.append(t.as_str());
    proof {
        if len < 5 {
            assert(out@ =~= old(out)@ + pad5(signed_dec(x as int)));
        } else {
            assert(Seq::new((k - len) as nat, |i: int| ' ') =~= Seq::<char>::empty());
            assert(out@ =~= old(out)@ + pad5(signed_dec(x as int)));
        }
    }
}

/// Prefix sums of non-negative entries are non-negative.
proof fn lemma_prefix_sum_nonneg(s: Seq<i32>, a: int)
    requires
        0 <= a <= s.len(),
        forall|i: int| 0 <= i < s.len() ==> #[trigger] s[i] >= 0,
    ensures
        prefix_sum(s, a) >= 0,
    decreases a,
{
    if a > 0 {
        lemma_prefix_sum_nonneg(s, a - 1);
    }
}

/// Prefix sums of non-negative entries grow.
proof fn lemma_prefix_sum_mono(s: Seq<i32>, a: int, b: int)
    requires
        0 <= a <= b <= s.len(),
        forall|i: int| 0 <= i < s.len() ==> #[trigger] s[i] >= 0,
    ensures
        prefix_sum(s, a) <= prefix_sum(s, b),
    decreases b - a,
{
    if a < b {
        lemma_prefix_sum_mono(s, a, b - 1);
    }
}

/// Appends the Hodge numbers of record `i`, joined by commas.
fn push_hodge(out: &mut String, info: &PolytopeInfo, i: usize)
    requires
        info.wf(),
        i < info.count(),
    ensures
        final(out)@ == old(out)@ + joined(record_hodge(*info, i as int)),
{
    let ghost hs = record_hodge(*info, i as int);
    let hn = info.hodge_number_lists.len();
    proof {
        assert(hs.take(0) =~= Seq::<i32>::empty());
    }
    for k in 0..hn
        invariant
            info.wf(),
            i < info.count(),
            hn == info.hodge_number_lists@.len(),
            hs == record_hodge(*info, i as int),
            out@ == old(out)@ + joined(hs.take(k as int)),
    {
        proof {
            assert(hs.take(k + 1).drop_last() =~= hs.take(k as int));
            assert(info.hodge_number_lists@[k as int]@.len() == info.count());
            assert(hs.take(k + 1).last() == info.hodge_number_lists@[k as int]@[i as int]);
            reveal_strlit(",");
        }
        if k > 0 {
            out.append(",");
        }
        push_signed_decimal(out, info.hodge_number_lists[k][i]);
        proof {
            if k == 0 {
                assert(hs.take(1)[0] == info.hodge_number_lists@[0]@[i as int]);
            }
            assert(out@ =~= old(out)@ + joined(hs.take(k + 1)));
        }
    }
    proof {
        assert(hs.take(hn as int) =~= hs);
    }
}

/// Appends the header line of record `i`.
fn push_header(out: &mut String, info: &PolytopeInfo, i: usize)
    requires
        info.wf(),
        i < info.count(),
    ensures
        final(out)@ == old(out)@ + header_text(*info, i as int),
{
    proof {
        reveal_strlit(" ");
        reveal_strlit("  M:");
        reveal_strlit(" N:");
        reveal_strlit(" H:");
        reveal_strlit(" [");
        reveal_strlit("]\n");
    }
    push_decimal(out, info.dimension as u64);
    out.append(" ");
    push_signed_decimal(out, info.vertex_count_list[i]);
    out.append("  M:");
    push_signed_decimal(out, info.point_count_list[i]);
    out.append(" ");
    push_signed_decimal(out, info.vertex_count_list[i]);
    out.append(" N:");
    push_signed_decimal(out, info.dual_point_count_list[i]);
    out.append(" ");
    push_signed_decimal(out, info.facet_count_list[i]);
    out.append(" H:");
    push_hodge(out, info, i);
    out.append(" [");
    push_signed_decimal(out, info.euler_characteristic_list[i]);
    out.append("]\n");
    proof {
        assert(out@ =~= old(out)@ + header_text(*info, i as int));
    }
}

/// Appends line `row` of the matrix of the `vc` vertices in `coords`.
fn push_row(out: &mut String, coords: &[i32], d: usize, vc: usize, row: usize)
    requires
        row < d,
        coords@.len() == d * vc,
    ensures
        final(out)@ == old(out)@ + cells(coords@, d as nat, row as nat, vc as nat),
{
    let len = coords.len();
    for j in 0..vc
        invariant
            row < d,
            len == coords@.len(),
            coords@.len() == d * vc,
            out@ == old(out)@ + cells(coords@, d as nat, row as nat, j as nat),
    {
        proof {
            assert(j * d + row < d * vc) by (nonlinear_arith)
                requires
                    j < vc,
                    row < d,
            ;
            assert(j * d <= j * d + row);
        }
        push_padded(out, coords[j * d + row]);
        proof {
            assert(out@ =~= old(out)@ + cells(coords@, d as nat, row as nat, (j + 1) as nat));
        }
    }
}

/// Appends the coordinate lines of the `vc` vertices in `coords`.
fn push_matrix(out: &mut String, coords: &[i32], d: usize, vc: usize)
    requires
        coords@.len() == d * vc,
    ensures
        final(out)@ == old(out)@ + matrix_text(coords@, d as nat, vc as nat, d as nat),
{
    for row in 0..d
        invariant
            coords@.len() == d * vc,
            out@ == old(out)@ + matrix_text(coords@, d as nat, vc as nat, row as nat),
    {
        proof {
            reveal_strlit("\n");
        }
        push_row(out, coords, d, vc, row);
        out.append("\n");
        proof {
            assert(out@ =~= old(out)@ + matrix_text(coords@, d as nat, vc as nat, (row + 1) as nat));
        }
    }
}

/// Writes the records in the PALP text format: per record the header line
/// `d vc  M:points vc N:dual_points facets H:h11,... [euler]`, then one line
/// per coordinate with the vertices' values in fields of five characters.
pub fn format_palp(info: &PolytopeInfo) -> (r: Result<String, Error>)
    requires
        info.wf(),
    ensures
        r matches Ok(s) && s@ == palp_text(*info, info.count()),
{
    let mut ret = String::new();
    let mut coord_index: usize = 0;
    let n = info.vertex_count_list.len();
    let d = info.dimension;
    let total = info.coordinate_list.len();
    let ghost vcs = info.vertex_count_list@;
    for i in 0..n
        invariant
            info.wf(),
            n == info.count(),
            d == info.dimension,
            total == info.coordinate_list@.len(),
            vcs == info.vertex_count_list@,
            coord_index == d * prefix_sum(vcs, i as int),
            ret@ == palp_text(*info, i as nat),
    {
        let vc = info.vertex_count_list[i] as usize;
        proof {
            lemma_prefix_sum_mono(vcs, i + 1, n as int);
            lemma_prefix_sum_nonneg(vcs, i as int);
            assert(prefix_sum(vcs, i + 1) == prefix_sum(vcs, i as int) + vc);
            assert(d * prefix_sum(vcs, i + 1) <= d * prefix_sum(vcs, n as int)) by (nonlinear_arith)
                requires
                    prefix_sum(vcs, i + 1) <= prefix_sum(vcs, n as int),
            ;
            assert(d * prefix_sum(vcs, i + 1) == d * prefix_sum(vcs, i as int) + d * vc)
                by (nonlinear_arith)
                requires
                    prefix_sum(vcs, i + 1) == prefix_sum(vcs, i as int) + vc,
            ;
        }
        push_header(&mut ret, info, i);
        let end = coord_index + d * vc;
        let coords = &info.coordinate_list.as_slice()[coord_index..end];
        push_matrix(&mut ret, coords, d, vc);
        proof {
            assert(ret@ =~= palp_text(*info, (i + 1) as nat));
        }
        coord_index = end;
    }
    Ok(ret)
}

/// Names of the integer columns of a PALP file, after the list-of-lists
/// column of vertices: the four counts, the Hodge numbers `h11` to
/// `h1{dimension - 2}` and the Euler characteristic.
pub open spec fn palp_names(dimension: nat) -> Seq<Seq<char>> {
    seq!["vertex_count"@, "facet_count"@, "point_count"@, "dual_point_count"@] + Seq::new(
        (dimension - 2) as nat,
        |i: int| crate::columnar::hodge_name(i as nat),
    ) + seq!["euler_characteristic"@]
}

/// Names of the integer columns of a PALP file of the given dimension.
pub fn palp_column_names(dimension: usize) -> (r: Vec<String>)
    requires
        2 <= dimension <= u32::MAX,
    ensures
        r@.len() == palp_names(dimension as nat).len(),
        forall|i: int| 0 <= i < r@.len() ==> (#[trigger] r@[i])@ == palp_names(dimension as nat)[i],
{
    let mut r: Vec<String> = Vec::new();
    r.push(String::from_str("vertex_count"));
    r.push(String::from_str("facet_count"));
    r.push(String::from_str("point_count"));
    r.push(String::from_str("dual_point_count"));
    let hodge = dimension - 2;
    for i in 0..hodge
        invariant
            hodge == dimension - 2,
            dimension <= u32::MAX,
            r@.len() == 4 + i,
            r@[0]@ == "vertex_count"@,
            r@[1]@ == "facet_count"@,
            r@[2]@ == "point_count"@,
            r@[3]@ == "dual_point_count"@,
            forall|k: int| 4 <= k < 4 + i ==> (#[trigger] r@[k])@ == crate::columnar::hodge_name((k - 4) as nat),
    {
        let mut name = String::from_str("h1");
        push_decimal(&mut name, (i + 1) as u64);
        proof {
            reveal_strlit("h1");
        }
        r.push(name);
    }
    r.push(String::from_str("euler_characteristic"));
    proof {
        let names = palp_names(dimension as nat);
        let head = seq!["vertex_count"@, "facet_count"@, "point_count"@, "dual_point_count"@];
        let mid = Seq::new((dimension - 2) as nat, |i: int| crate::columnar::hodge_name(i as nat));
        assert forall|i: int| 0 <= i < r@.len() implies (#[trigger] r@[i])@ == names[i] by {
            if i < 4 {
                assert(names[i] == head[i]);
            } else if i < 4 + hodge {
                assert(names[i] == mid[i - 4]);
            } else {
                assert(names[i] == "euler_characteristic"@);
            }
        }
    }
    r
}

} // verus!
