use ipws_convert::error::Error;
use ipws_convert::palp::{format_palp, parse_coordinates, parse_header, parse_palp};

const QUINTIC: &str = "4 5  M:126 5 N:6 5 H:1,101 [-200]\n    1    0    0    0   -1\n    0    1    0    0   -1\n    0    0    1    0   -1\n    0    0    0    1   -1\n";

#[test]
fn palp_header_fields() {
    let h = parse_header("4 5  M:126 5 N:6 5 H:1,101 [-200]").unwrap();
    assert_eq!((h.rows, h.columns), (4, 5));
    assert_eq!((h.point_count, h.vertex_count, h.dual_point_count, h.facet_count), (126, 5, 6, 5));
    assert_eq!(h.hodge_numbers, vec![1, 101]);
    assert_eq!(h.euler_characteristic, -200);
    assert_eq!(parse_header("4 5 M:126").err(), Some(Error::InvalidHeader));
}

#[test]
fn palp_parse_transposes_columns() {
    let info = parse_palp(QUINTIC).unwrap();
    assert_eq!(info.dimension, 4);
    assert_eq!(info.vertex_count_list, vec![5]);
    assert_eq!(info.point_count_list, vec![126]);
    assert_eq!(info.dual_point_count_list, vec![6]);
    assert_eq!(info.facet_count_list, vec![5]);
    assert_eq!(info.hodge_number_lists, vec![vec![1], vec![101]]);
    assert_eq!(info.euler_characteristic_list, vec![-200]);
    assert_eq!(
        info.coordinate_list,
        vec![1, 0, 0, 0, 0, 1, 0, 0, 0, 0, 1, 0, 0, 0, 0, 1, -1, -1, -1, -1]
    );
}

#[test]
fn palp_format_round_trip() {
    let info = parse_palp(QUINTIC).unwrap();
    assert_eq!(format_palp(&info).unwrap(), QUINTIC);
    let two = format!("{}{}", QUINTIC, QUINTIC);
    let info = parse_palp(&two).unwrap();
    assert_eq!(info.vertex_count_list, vec![5, 5]);
    assert_eq!(format_palp(&info).unwrap(), two);
}

#[test]
fn palp_vertex_rows() {
    let text = "5 4  M:7 5 N:7 5 H:2,3 [10]\n1 2 3 4\n5 6 7 8\n9 10 11 12\n13 14 15 16\n17 18 19 20\n";
    let info = parse_palp(text).unwrap();
    assert_eq!(info.dimension, 4);
    assert_eq!(info.coordinate_list, (1..=20).collect::<Vec<i32>>());
}

#[test]
fn palp_errors() {
    assert_eq!(parse_palp("").err(), Some(Error::NoPolytopes));
    assert_eq!(parse_palp("comment\n  # nothing\n").err(), Some(Error::NoPolytopes));
    assert_eq!(parse_palp("4 5  M:126 5 N:6 5 H:1,101 [-200]\n1 0 0 0 -1\n").err(), Some(Error::IncompleteInput));
    assert_eq!(
        parse_palp("4 5  M:126 5 N:6 5 H:1,101 [-200]\n1 0 0 0\n0 1 0 0 -1\n0 0 1 0 -1\n0 0 0 1 -1\n").err(),
        Some(Error::InvalidCoordinateCount)
    );
    assert_eq!(
        parse_palp("4 5  M:126 5 N:6 5 H:1,101 [-200]\n1 0 x 0 -1\n0 1 0 0 -1\n0 0 1 0 -1\n0 0 0 1 -1\n").err(),
        Some(Error::InvalidNumber)
    );
    assert_eq!(
        parse_palp("4 5  M:126 6 N:6 5 H:1,101 [-200]\n1 0 0 0 -1\n0 1 0 0 -1\n0 0 1 0 -1\n0 0 0 1 -1\n").err(),
        Some(Error::InvalidVertexCount)
    );
    let mixed = format!("{}3 4  M:5 4 N:5 4 H:1 [0]\n1 0 0 -1\n0 1 0 -1\n0 0 1 -1\n", QUINTIC);
    assert_eq!(parse_palp(&mixed).err(), Some(Error::VaryingDimension));
}

#[test]
fn palp_coordinates_advance_position() {
    let h = parse_header("2 3  M:1 3 N:1 3 H: [0]");
    assert_eq!(h.err(), Some(Error::InvalidHeader));
    let h = parse_header("2 3  M:1 3 N:1 3 H:0 [0]").unwrap();
    let lines = vec!["1 2 3".to_string(), " 4  5 6 ".to_string(), "7".to_string()];
    let mut pos = 0;
    assert_eq!(parse_coordinates(&h, &lines, &mut pos), Ok(vec![vec![1, 2, 3], vec![4, 5, 6]]));
    assert_eq!(pos, 2);
}

#[test]
fn palp_header_after_white_space_and_crlf_lines() {
    let text = QUINTIC.replace('\n', "\r\n");
    let indented = format!("  {}", text);
    let info = parse_palp(&indented).unwrap();
    assert_eq!(info.vertex_count_list, vec![5]);
    assert_eq!(info.coordinate_list.len(), 20);
    assert_eq!(format_palp(&info).unwrap(), QUINTIC);
}
