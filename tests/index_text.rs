use ipws_convert::error::Error;
use ipws_convert::index::{format_index, parse_index};

#[test]
fn index_renders_integer_and_fraction() {
    assert_eq!(format_index(7, 1), "7");
    assert_eq!(format_index(3, 4), "3/4");
    assert_eq!(format_index(0, 0), "0/0");
    assert_eq!(format_index(u32::MAX, 10), "4294967295/10");
}

#[test]
fn index_parses_back() {
    assert_eq!(parse_index("7"), Ok((7, 1)));
    assert_eq!(parse_index("3/4"), Ok((3, 4)));
    for (n, d) in [(7u32, 1u32), (3, 4), (0, 5), (123456, 789), (u32::MAX, u32::MAX)] {
        assert_eq!(parse_index(&format_index(n, d)), Ok((n, d)));
    }
}

#[test]
fn index_rejects_malformed_text() {
    assert_eq!(parse_index(""), Err(Error::InvalidIndex));
    assert_eq!(parse_index("3/"), Err(Error::InvalidIndex));
    assert_eq!(parse_index("/4"), Err(Error::InvalidIndex));
    assert_eq!(parse_index("3/4/5"), Err(Error::InvalidIndex));
    assert_eq!(parse_index("x"), Err(Error::InvalidIndex));
    assert_eq!(parse_index("-3"), Err(Error::InvalidIndex));
    assert_eq!(parse_index("4294967296"), Err(Error::InvalidIndex));
    assert_eq!(parse_index("1/4294967296"), Err(Error::InvalidIndex));
    assert_eq!(parse_index("+12"), Ok((12, 1)));
}
