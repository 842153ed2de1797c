use ipws_convert::error::Error;
use ipws_convert::nested::{decode_nested, definition_levels, repetition_levels};

#[test]
fn nested_list_levels_of_one_record() {
    let levels = repetition_levels(&[3], 2);
    assert_eq!(levels, vec![0, 2, 1, 2, 1, 2]);
    assert_eq!(definition_levels(levels.len()), vec![2; 6]);
    let decoded = decode_nested(&[1, 2, 3, 4, 5, 6], &levels).unwrap();
    assert_eq!(decoded, vec![vec![vec![1, 2], vec![3, 4], vec![5, 6]]]);
}

#[test]
fn nested_list_levels_of_several_records() {
    let levels = repetition_levels(&[2, 0, 1], 3);
    assert_eq!(levels, vec![0, 2, 2, 1, 2, 2, 0, 2, 2]);
    let decoded = decode_nested(&[1, 2, 3, 4, 5, 6, 7, 8, 9], &levels).unwrap();
    assert_eq!(decoded, vec![vec![vec![1, 2, 3], vec![4, 5, 6]], vec![vec![7, 8, 9]]]);
}

#[test]
fn nested_list_bad_levels() {
    assert_eq!(decode_nested(&[1, 2], &[1, 2]), Err(Error::InvalidLevels));
    assert_eq!(decode_nested(&[1, 2], &[0, 3]), Err(Error::InvalidLevels));
    assert_eq!(decode_nested(&[], &[]), Ok(vec![]));
}
