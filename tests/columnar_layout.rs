use ipws_convert::columnar::{
    absorb_columns, column_names, parse_parquet_metadata, read_plan, row_group_bounds,
    tier_columns, tier_metadata, Tier,
};
use ipws_convert::error::Error;
use ipws_convert::index::format_index;
use ipws_convert::tiers::{
    append_weight_system, Dataset, NonIpPolytopeInfo, NonReflexivePolytopeInfo,
    ReflexivePolytopeInfo,
};

fn metadata(tier: Tier, d: u32, index: &str) -> Vec<(String, Option<String>)> {
    tier_metadata(tier, d, index).into_iter().map(|(k, v)| (k, Some(v))).collect()
}

fn sample() -> Dataset {
    let d = 4;
    let mut non_ip = NonIpPolytopeInfo::new(d);
    let mut non_reflexive = NonReflexivePolytopeInfo::new(d);
    let mut reflexive = ReflexivePolytopeInfo::new(d, false);
    for r in 0..5 {
        append_weight_system(&mut non_ip.weight_lists, &[r, r + 1, r + 2, r + 3]);
        append_weight_system(&mut non_reflexive.weight_lists, &[10 + r, 1, 2, 3]);
        non_reflexive.vertex_count_list.push(5 + r);
        non_reflexive.facet_count_list.push(6 + r);
        non_reflexive.point_count_list.push(7 + r);
        append_weight_system(&mut reflexive.weight_lists, &[20 + r, 1, 2, 3]);
        reflexive.vertex_count_list.push(30 + r);
        reflexive.facet_count_list.push(31 + r);
        reflexive.point_count_list.push(32 + r);
        reflexive.dual_point_count_list.push(33 + r);
        append_weight_system(&mut reflexive.hodge_number_lists, &[34 + r]);
    }
    Dataset { dimension: d, numerator: 3, denominator: 4, non_ip, non_reflexive, reflexive }
}

/// Splits the columns into row groups and reads them back as the file
/// reader does, group by group.
fn through_row_groups(columns: &[Vec<i32>], size: usize, tier: Tier, index: &str, limit: usize) -> (Vec<Vec<i32>>, ipws_convert::columnar::ReadPlan) {
    let rows = columns[0].len();
    let groups = row_group_bounds(rows, size);
    let group_rows: Vec<usize> = groups.iter().map(|(s, e)| e - s).collect();
    let group_columns: Vec<usize> = groups.iter().map(|_| columns.len()).collect();
    let md = metadata(tier, 4, index);
    let plan = read_plan(&md, rows, &group_rows, &group_columns, limit).unwrap();
    let mut values: Vec<Vec<i32>> = vec![Vec::new(); plan.num_columns];
    for (g, &to_read) in plan.group_reads.iter().enumerate() {
        let (start, _) = groups[g];
        for (c, v) in values.iter_mut().enumerate() {
            v.extend_from_slice(&columns[c][start..start + to_read]);
        }
    }
    (values, plan)
}

#[test]
fn row_groups_split_rows() {
    assert_eq!(row_group_bounds(5, 2), vec![(0, 2), (2, 4), (4, 5)]);
    assert_eq!(row_group_bounds(4, 2), vec![(0, 2), (2, 4)]);
    assert_eq!(row_group_bounds(0, 2), vec![]);
    assert_eq!(row_group_bounds(3, 5_000_000), vec![(0, 3)]);
}

#[test]
fn schema_names_per_tier() {
    assert_eq!(column_names(4, Tier::NotInteriorPoint, false), vec!["weight0", "weight1", "weight2", "weight3"]);
    assert_eq!(
        column_names(4, Tier::NonReflexive, true),
        vec!["weight0", "weight1", "weight2", "weight3", "vertex_count", "facet_count", "point_count"]
    );
    assert_eq!(
        column_names(5, Tier::Reflexive, true),
        vec!["weight0", "weight1", "weight2", "weight3", "weight4", "vertex_count", "facet_count", "point_count", "dual_point_count", "h11", "h12"]
    );
    let six = column_names(6, Tier::Reflexive, true);
    assert_eq!(six.len(), 15);
    assert_eq!(&six[9..], &["dual_point_count", "h11", "h12", "h13", "h22", "euler_characteristic"]);
    assert_eq!(column_names(6, Tier::Reflexive, false).len(), 13);
    assert_eq!(column_names(12, Tier::NotInteriorPoint, false)[11], "weight11");
}

#[test]
fn metadata_round_trip() {
    let md = metadata(Tier::Reflexive, 6, &format_index(3, 4));
    assert_eq!(parse_parquet_metadata(&md), Ok((true, true, 6, 3, 4)));
    let md = metadata(Tier::NonReflexive, 5, &format_index(7, 1));
    assert_eq!(parse_parquet_metadata(&md), Ok((true, false, 5, 7, 1)));
    let md = metadata(Tier::NotInteriorPoint, 4, "12");
    assert_eq!(parse_parquet_metadata(&md), Ok((false, false, 4, 12, 1)));
    assert_eq!(md[0], ("ip".to_string(), Some("false".to_string())));
    assert_eq!(md[2], ("dimension".to_string(), Some("4".to_string())));
}

#[test]
fn missing_or_bad_metadata() {
    let mut md = metadata(Tier::Reflexive, 6, "3/4");
    md.remove(1);
    assert_eq!(parse_parquet_metadata(&md), Err(Error::MissingMetadata));
    let mut md = metadata(Tier::Reflexive, 6, "3/4");
    md[0].1 = Some("yes".to_string());
    assert_eq!(parse_parquet_metadata(&md), Err(Error::MissingMetadata));
    let mut md = metadata(Tier::Reflexive, 6, "3/4");
    md[3].1 = None;
    assert_eq!(parse_parquet_metadata(&md), Err(Error::MissingMetadata));
    let md = metadata(Tier::Reflexive, 6, "3/x");
    assert_eq!(parse_parquet_metadata(&md), Err(Error::InvalidIndex));
    let mut md = metadata(Tier::Reflexive, 6, "3/4");
    md.push(("dimension".to_string(), Some("5".to_string())));
    assert_eq!(parse_parquet_metadata(&md), Ok((true, true, 5, 3, 4)));
}

#[test]
fn read_plan_checks_flags_and_columns() {
    let mut md = metadata(Tier::Reflexive, 4, "3/4");
    md[0].1 = Some("false".to_string());
    assert_eq!(read_plan(&md, 2, &vec![2], &vec![9], usize::MAX).err(), Some(Error::InvalidMetadata));
    let md = metadata(Tier::Reflexive, 4, "3/4");
    assert_eq!(read_plan(&md, 2, &vec![2], &vec![8], usize::MAX).err(), Some(Error::ColumnsMissing));
    let plan = read_plan(&md, 2, &vec![2], &vec![9], usize::MAX).unwrap();
    assert_eq!(plan.num_columns, 9);
    let md = metadata(Tier::NonReflexive, 3, "1");
    assert_eq!(read_plan(&md, 2, &vec![2], &vec![6], usize::MAX).err(), Some(Error::InvalidMetadata));
}

#[test]
fn read_plan_applies_limit() {
    let md = metadata(Tier::NotInteriorPoint, 4, "1");
    let plan = read_plan(&md, 5, &vec![2, 2, 1], &vec![4, 4, 4], 3).unwrap();
    assert_eq!(plan.row_count, 3);
    assert_eq!(plan.group_reads, vec![2, 1]);
    let plan = read_plan(&md, 5, &vec![2, 2, 1], &vec![4, 4, 4], usize::MAX).unwrap();
    assert_eq!(plan.group_reads, vec![2, 2, 1]);
}

#[test]
fn columnar_round_trip_across_row_groups() {
    let ds = sample();
    let mut back = Dataset::empty();
    for tier in [Tier::NotInteriorPoint, Tier::NonReflexive, Tier::Reflexive] {
        let columns = tier_columns(&ds, tier);
        let (values, plan) = through_row_groups(&columns, 2, tier, &format_index(3, 4), usize::MAX);
        assert_eq!(values, columns);
        absorb_columns(&mut back, &plan, &values).unwrap();
    }
    assert_eq!(back.dimension, 4);
    assert_eq!((back.numerator, back.denominator), (3, 4));
    assert_eq!(back.non_ip.weight_lists, ds.non_ip.weight_lists);
    assert_eq!(back.non_reflexive.weight_lists, ds.non_reflexive.weight_lists);
    assert_eq!(back.non_reflexive.vertex_count_list, ds.non_reflexive.vertex_count_list);
    assert_eq!(back.non_reflexive.facet_count_list, ds.non_reflexive.facet_count_list);
    assert_eq!(back.non_reflexive.point_count_list, ds.non_reflexive.point_count_list);
    assert_eq!(back.reflexive.weight_lists, ds.reflexive.weight_lists);
    assert_eq!(back.reflexive.dual_point_count_list, ds.reflexive.dual_point_count_list);
    assert_eq!(back.reflexive.hodge_number_lists, ds.reflexive.hodge_number_lists);
}

#[test]
fn shards_accumulate_and_dimension_must_agree() {
    let ds = sample();
    let columns = tier_columns(&ds, Tier::NotInteriorPoint);
    let (values, plan) = through_row_groups(&columns, 2, Tier::NotInteriorPoint, "1", 3);
    let mut back = Dataset::empty();
    absorb_columns(&mut back, &plan, &values).unwrap();
    absorb_columns(&mut back, &plan, &values).unwrap();
    assert_eq!(back.non_ip.weight_lists[0], vec![0, 1, 2, 0, 1, 2]);
    let mut other = plan;
    other.dimension = 5;
    other.num_columns = 5;
    let mut wide = values.clone();
    wide.push(vec![9, 9, 9]);
    assert_eq!(absorb_columns(&mut back, &other, &wide), Err(Error::DimensionMismatch));
    assert_eq!(back.non_ip.weight_lists[0].len(), 6);
}
