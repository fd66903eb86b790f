use hidefix::byteorder::{to_native, Order};
use hidefix::errors::Error;
use hidefix::shuffle::{shuffle_sized, unshuffle_sized};

#[test]
fn shuffle_plane_major_layout() {
    // two 4-byte elements: the shuffled image holds all first bytes, then
    // all second bytes, and so on
    let buf: Vec<u8> = vec![1, 2, 3, 4, 5, 6, 7, 8];
    let sh = shuffle_sized(&buf, 4).unwrap();
    assert_eq!(sh, vec![1, 5, 2, 6, 3, 7, 4, 8]);
}

#[test]
fn filter_round_trip() {
    let buf: Vec<u8> = vec![10, 20, 30, 40, 50, 60, 70, 80, 90, 100, 110, 120];
    for ws in [1usize, 2, 3, 4, 6, 12] {
        let sh = shuffle_sized(&buf, ws).unwrap();
        let back = unshuffle_sized(&sh, ws).unwrap();
        assert_eq!(back, buf);
        let un = unshuffle_sized(&buf, ws).unwrap();
        let forth = shuffle_sized(&un, ws).unwrap();
        assert_eq!(forth, buf);
    }
}

#[test]
fn shuffle_rejects_partial_elements() {
    let buf: Vec<u8> = vec![1, 2, 3];
    assert_eq!(unshuffle_sized(&buf, 2), Err(Error::FilterError));
    assert_eq!(shuffle_sized(&buf, 2), Err(Error::FilterError));
    assert_eq!(unshuffle_sized(&buf, 0), Err(Error::FilterError));
}

#[test]
fn byteorder_native_is_noop() {
    let buf: Vec<u8> = vec![1, 2, 3, 4];
    let out = to_native(buf.clone(), Order::LE, 2).unwrap();
    assert_eq!(out, buf);
}

#[test]
fn byteorder_foreign_twice_restores() {
    let buf: Vec<u8> = vec![1, 2, 3, 4, 5, 6, 7, 8];
    let once = to_native(buf.clone(), Order::BE, 4).unwrap();
    assert_eq!(once, vec![4, 3, 2, 1, 8, 7, 6, 5]);
    let twice = to_native(once, Order::BE, 4).unwrap();
    assert_eq!(twice, buf);
}

#[test]
fn byteorder_rejects_partial_elements() {
    let buf: Vec<u8> = vec![1, 2, 3];
    assert_eq!(to_native(buf, Order::BE, 2), Err(Error::FilterError));
}

#[test]
fn error_kinds_have_names() {
    assert_eq!(Error::InvalidRequest.describe(), "invalid request");
    assert_eq!(Error::TypeMismatch.describe(), "type mismatch");
    assert_eq!(Error::IOError.describe(), "i/o error");
    assert_eq!(Error::FilterError.describe(), "filter error");
    assert_eq!(Error::UnsupportedDatatype.describe(), "unsupported datatype");
}
