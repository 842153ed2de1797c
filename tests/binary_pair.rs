use ipws_convert::binary::{decode_binary_pair, read_polytope_info, read_weights};
use ipws_convert::error::Error;
use ipws_convert::merge::{encode_binary_pair, merge_positions, write_weights};
use ipws_convert::ordering::compare_weight_systems;
use ipws_convert::tiers::{
    append_weight_system, euler_characteristic, hodge_number_h22, Dataset, NonIpPolytopeInfo,
    NonReflexivePolytopeInfo, ReflexivePolytopeInfo,
};
use std::cmp::Ordering;

fn dataset(
    d: usize,
    derived: bool,
    a: &[Vec<i32>],
    b: &[(Vec<i32>, [i32; 3])],
    c: &[(Vec<i32>, Vec<i32>)],
) -> Dataset {
    let mut non_ip = NonIpPolytopeInfo::new(d);
    for w in a {
        append_weight_system(&mut non_ip.weight_lists, w);
    }
    let mut non_reflexive = NonReflexivePolytopeInfo::new(d);
    for (w, f) in b {
        append_weight_system(&mut non_reflexive.weight_lists, w);
        non_reflexive.vertex_count_list.push(f[0]);
        non_reflexive.facet_count_list.push(f[1]);
        non_reflexive.point_count_list.push(f[2]);
    }
    let mut reflexive = ReflexivePolytopeInfo::new(d, derived);
    for (w, f) in c {
        append_weight_system(&mut reflexive.weight_lists, w);
        reflexive.vertex_count_list.push(f[0]);
        reflexive.facet_count_list.push(f[1]);
        reflexive.point_count_list.push(f[2]);
        reflexive.dual_point_count_list.push(f[3]);
        let mut hodge: Vec<i32> = f[4..].to_vec();
        if derived && d == 6 {
            hodge.push(hodge_number_h22(f[4], f[5], f[6]));
            reflexive.euler_characteristic_list.push(euler_characteristic(f[4], f[5], f[6]));
        }
        append_weight_system(&mut reflexive.hodge_number_lists, &hodge);
    }
    Dataset { dimension: d, numerator: 3, denominator: 4, non_ip, non_reflexive, reflexive }
}

fn assert_same(x: &Dataset, y: &Dataset) {
    assert_eq!(x.dimension, y.dimension);
    assert_eq!(x.numerator, y.numerator);
    assert_eq!(x.denominator, y.denominator);
    assert_eq!(x.non_ip.weight_lists, y.non_ip.weight_lists);
    assert_eq!(x.non_reflexive.weight_lists, y.non_reflexive.weight_lists);
    assert_eq!(x.non_reflexive.vertex_count_list, y.non_reflexive.vertex_count_list);
    assert_eq!(x.non_reflexive.facet_count_list, y.non_reflexive.facet_count_list);
    assert_eq!(x.non_reflexive.point_count_list, y.non_reflexive.point_count_list);
    assert_eq!(x.reflexive.weight_lists, y.reflexive.weight_lists);
    assert_eq!(x.reflexive.vertex_count_list, y.reflexive.vertex_count_list);
    assert_eq!(x.reflexive.facet_count_list, y.reflexive.facet_count_list);
    assert_eq!(x.reflexive.point_count_list, y.reflexive.point_count_list);
    assert_eq!(x.reflexive.dual_point_count_list, y.reflexive.dual_point_count_list);
    assert_eq!(x.reflexive.hodge_number_lists, y.reflexive.hodge_number_lists);
    assert_eq!(x.reflexive.euler_characteristic_list, y.reflexive.euler_characteristic_list);
}

fn sample(d: usize, derived: bool) -> Dataset {
    let w = |first: i32, k: i32| -> Vec<i32> { (0..d as i32).map(|i| if i == 0 { first } else { k + i }).collect() };
    let fields = |base: i32| -> Vec<i32> { (0..(d as i32 + 1)).map(|i| base + i).collect() };
    dataset(
        d,
        derived,
        &[w(1, 5), w(4, 1)],
        &[(w(2, 3), [5, 6, 140]), (w(3, 3), [7, 8, 300])],
        &[(w(1, 9), fields(10)), (w(5, 0), fields(200))],
    )
}

#[test]
fn binary_pair_round_trip_dimensions() {
    for d in [4usize, 5, 6] {
        for derived in [false, true] {
            let ds = sample(d, derived);
            let (ws, info) = encode_binary_pair(&ds);
            let back = decode_binary_pair(&ws, &info, usize::MAX, derived).unwrap();
            assert_same(&ds, &back);
        }
    }
}

#[test]
fn binary_pair_weights_in_merged_order() {
    let ds = sample(4, false);
    let (ws, _) = encode_binary_pair(&ds);
    let (d, n, den, flat) = read_weights(&ws, usize::MAX).unwrap();
    assert_eq!((d, n, den), (4, 3, 4));
    assert_eq!(
        flat,
        vec![1, 6, 7, 8, 1, 10, 11, 12, 2, 4, 5, 6, 3, 4, 5, 6, 4, 2, 3, 4, 5, 1, 2, 3]
    );
    assert_eq!(&ws[..20], &[0, 0, 0, 4, 0, 0, 0, 3, 0, 0, 0, 4, 0, 0, 0, 0, 0, 0, 0, 6]);
}

#[test]
fn binary_pair_limit_keeps_first_records() {
    let ds = sample(4, false);
    let (ws, info) = encode_binary_pair(&ds);
    let back = decode_binary_pair(&ws, &info, 2, false).unwrap();
    assert_eq!(back.non_ip.weight_lists, vec![vec![1], vec![6], vec![7], vec![8]]);
    assert_eq!(back.reflexive.weight_lists, vec![vec![1], vec![10], vec![11], vec![12]]);
    assert_eq!(back.non_reflexive.vertex_count_list, Vec::<i32>::new());
}

#[test]
fn derived_quantities_of_dimension_six() {
    let ds = dataset(6, true, &[], &[], &[(vec![1, 1, 1, 1, 1, 1], vec![6, 6, 7, 7, 1, 0, 1251])]);
    assert_eq!(ds.reflexive.hodge_number_lists[3], vec![5052]);
    assert_eq!(ds.reflexive.euler_characteristic_list, vec![7560]);
    let (ws, info) = encode_binary_pair(&ds);
    let back = decode_binary_pair(&ws, &info, usize::MAX, true).unwrap();
    assert_eq!(back.reflexive.hodge_number_lists, vec![vec![1], vec![0], vec![1251], vec![5052]]);
    assert_eq!(back.reflexive.euler_characteristic_list, vec![7560]);
    let plain = decode_binary_pair(&ws, &info, usize::MAX, false).unwrap();
    assert_eq!(plain.reflexive.hodge_number_lists, vec![vec![1], vec![0], vec![1251]]);
    assert_eq!(plain.reflexive.euler_characteristic_list, Vec::<i32>::new());
}

#[test]
fn derived_quantity_formulas() {
    assert_eq!(euler_characteristic(1, 0, 1251), 7560);
    assert_eq!(hodge_number_h22(1, 0, 1251), 5052);
    assert_eq!(euler_characteristic(2, 86, 10), 48 + 6 * (2 - 86 + 10));
    assert_eq!(euler_characteristic(2, 86, 10), -396);
    assert_eq!(hodge_number_h22(2, 86, 10), 44 + 8 + 40 - 172);
    assert_eq!(hodge_number_h22(2, 86, 10), -80);
}

#[test]
fn invalid_classification_tag() {
    let ds = sample(4, false);
    let (ws, mut info) = encode_binary_pair(&ds);
    info[0] = 3;
    assert_eq!(decode_binary_pair(&ws, &info, usize::MAX, false).err(), Some(Error::InvalidTag));
}

#[test]
fn truncated_files_fail() {
    let ds = sample(4, false);
    let (ws, info) = encode_binary_pair(&ds);
    assert_eq!(decode_binary_pair(&ws[..10], &info, usize::MAX, false).err(), Some(Error::Truncated));
    assert_eq!(decode_binary_pair(&ws[..30], &info, usize::MAX, false).err(), Some(Error::Truncated));
    assert_eq!(decode_binary_pair(&ws, &info[..3], usize::MAX, false).err(), Some(Error::Truncated));
}

#[test]
fn small_dimension_is_a_malformed_header() {
    let ws = vec![0, 0, 0, 3, 0, 0, 0, 1, 0, 0, 0, 1, 0, 0, 0, 0, 0, 0, 0, 0];
    assert_eq!(decode_binary_pair(&ws, &[], usize::MAX, false).err(), Some(Error::MalformedHeader));
}

#[test]
fn weight_beyond_i32_overflows() {
    let mut ws = vec![0, 0, 0, 4, 0, 0, 0, 1, 0, 0, 0, 1, 0, 0, 0, 0, 0, 0, 0, 1];
    ws.extend_from_slice(&[0xff, 0xff, 0xff, 0xff, 0x0f, 1, 1, 1]);
    assert_eq!(read_weights(&ws, usize::MAX).err(), Some(Error::Overflow));
}

#[test]
fn polytope_info_sorts_records_into_tiers() {
    let weights = vec![1, 2, 3, 4, 5, 6, 7, 8, 9, 10, 11, 12];
    let info = vec![1, 5, 6, 7, 0, 2, 1, 2, 3, 4, 9, 8];
    let (a, b, c) = read_polytope_info(4, &weights, false, &info).unwrap();
    assert_eq!(a.weight_lists, vec![vec![5], vec![6], vec![7], vec![8]]);
    assert_eq!(b.weight_lists, vec![vec![1], vec![2], vec![3], vec![4]]);
    assert_eq!((b.vertex_count_list.clone(), b.facet_count_list.clone(), b.point_count_list.clone()), (vec![5], vec![6], vec![7]));
    assert_eq!(c.weight_lists, vec![vec![9], vec![10], vec![11], vec![12]]);
    assert_eq!(c.dual_point_count_list, vec![4]);
    assert_eq!(c.hodge_number_lists, vec![vec![9]]);
}

#[test]
fn merge_order_of_three_tiers() {
    let a = vec![vec![1, 2]];
    let b = vec![vec![1, 3], vec![2, 1]];
    let c = vec![vec![0, 9]];
    assert_eq!(merge_positions(&a, &b, &c), vec![(2, 0), (0, 0), (1, 0), (1, 1)]);
}

#[test]
fn merge_writes_globally_ascending_stream() {
    let ds = dataset(
        3,
        false,
        &[vec![1, 2, 0]],
        &[(vec![1, 3, 0], [1, 2, 3]), (vec![2, 1, 0], [4, 5, 6])],
        &[(vec![0, 9, 0], vec![7, 8, 9, 10])],
    );
    let (ws, info) = write_weights(3, 1, 1, &ds.non_ip, &ds.non_reflexive, &ds.reflexive);
    assert_eq!(&ws[20..], &[0, 9, 0, 1, 2, 0, 1, 3, 0, 2, 1, 0]);
    assert_eq!(info, vec![2, 7, 8, 9, 10, 0, 1, 1, 2, 3, 1, 4, 5, 6]);
}

#[test]
fn absent_weight_system_is_greatest() {
    assert_eq!(compare_weight_systems(None, Some(&[1, 2])), Ordering::Greater);
    assert_eq!(compare_weight_systems(Some(&[1, 2]), None), Ordering::Less);
    assert_eq!(compare_weight_systems(None, None), Ordering::Equal);
    assert_eq!(compare_weight_systems(Some(&[1, 2]), Some(&[1, 3])), Ordering::Less);
    assert_eq!(compare_weight_systems(Some(&[1]), Some(&[1, 0])), Ordering::Less);
    assert_eq!(compare_weight_systems(Some(&[2]), Some(&[1, 9])), Ordering::Greater);
    assert_eq!(compare_weight_systems(Some(&[1, 2]), Some(&[1, 2])), Ordering::Equal);
}
