use ipws_convert::error::Error;
use ipws_convert::varint::{read_varint, write_varint};

fn encode(x: u32) -> Vec<u8> {
    let mut v = Vec::new();
    write_varint(&mut v, x);
    v
}

#[test]
fn varint_round_trip_listed_values() {
    for x in [0u32, 1, 127, 128, 16383, 1 << 31, u32::MAX] {
        let bytes = encode(x);
        assert_eq!(read_varint(&bytes, 0), Ok((x, bytes.len())));
    }
}

#[test]
fn varint_known_encodings() {
    assert_eq!(encode(0), vec![0x00]);
    assert_eq!(encode(127), vec![0x7f]);
    assert_eq!(encode(128), vec![0x80, 0x01]);
    assert_eq!(encode(300), vec![0xac, 0x02]);
    assert_eq!(encode(16383), vec![0xff, 0x7f]);
    assert_eq!(encode(u32::MAX), vec![0xff, 0xff, 0xff, 0xff, 0x0f]);
}

#[test]
fn varint_truncated_fails() {
    for x in [128u32, 16383, 1 << 31, u32::MAX] {
        let bytes = encode(x);
        for cut in 0..bytes.len() {
            assert_eq!(read_varint(&bytes[..cut], 0), Err(Error::Truncated));
        }
    }
}

#[test]
fn varint_overflow_fails() {
    assert_eq!(read_varint(&[0xff, 0xff, 0xff, 0xff, 0x10], 0), Err(Error::Overflow));
    assert_eq!(read_varint(&[0x80, 0x80, 0x80, 0x80, 0x80, 0x00], 0), Err(Error::Overflow));
    assert_eq!(read_varint(&[0x80, 0x80, 0x80, 0x80, 0x80], 0), Err(Error::Truncated));
}

#[test]
fn varint_reads_from_position() {
    let mut bytes = vec![0x05];
    write_varint(&mut bytes, 300);
    bytes.push(0x07);
    assert_eq!(read_varint(&bytes, 1), Ok((300, 3)));
    assert_eq!(read_varint(&bytes, 3), Ok((7, 4)));
    assert_eq!(read_varint(&bytes, 4), Err(Error::Truncated));
}
