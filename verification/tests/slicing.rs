use hidefix::byteorder::Order;
use hidefix::errors::Error;
use hidefix::idx::{build, Datatype};

#[test]
fn two_chunk_straddle() {
    // shape [8], chunk [4]: two chunks; the request 2..6 takes the tail of
    // the first chunk and the head of the second
    let ds = build(
        vec![8],
        vec![4],
        Datatype::UInt(1),
        Order::LE,
        false,
        vec![10, 20],
    )
    .unwrap();
    let v = ds
        .chunk_slices(Some(&vec![2]), Some(&vec![4]))
        .unwrap();
    assert_eq!(v.len(), 2);
    assert_eq!(v[0].chunk_idx, 0);
    assert_eq!(v[0].chunk_start, 2);
    assert_eq!(v[0].chunk_end, 4);
    assert_eq!(v[0].dst_start, 0);
    assert_eq!(v[0].dst_end, 2);
    assert_eq!(v[1].chunk_idx, 1);
    assert_eq!(v[1].chunk_start, 0);
    assert_eq!(v[1].chunk_end, 2);
    assert_eq!(v[1].dst_start, 2);
    assert_eq!(v[1].dst_end, 4);
}

#[test]
fn partition_covers_whole_destination() {
    // a 2-D request straddling all four chunks decomposes along both axes
    let ds = build(
        vec![4, 4],
        vec![2, 2],
        Datatype::UInt(1),
        Order::LE,
        false,
        vec![0, 4, 8, 12],
    )
    .unwrap();
    let v = ds
        .chunk_slices(Some(&vec![1, 1]), Some(&vec![2, 2]))
        .unwrap();
    assert_eq!(v.len(), 4);
    // the destination ranges tile 0..4 in order, with no gaps or overlaps
    assert_eq!(v[0].dst_start, 0);
    for t in 0..v.len() {
        assert!(v[t].dst_start < v[t].dst_end);
        if t + 1 < v.len() {
            assert_eq!(v[t].dst_end, v[t + 1].dst_start);
        }
    }
    assert_eq!(v[v.len() - 1].dst_end, 4);
    // one element from each of the four chunks
    let idxs: Vec<usize> = v.iter().map(|s| s.chunk_idx).collect();
    assert_eq!(idxs, vec![0, 1, 2, 3]);
}

#[test]
fn bounds_rejection() {
    let ds = build(
        vec![100],
        vec![10],
        Datatype::UInt(1),
        Order::LE,
        false,
        (0..10).map(|i| i * 10).collect(),
    )
    .unwrap();
    let r = ds.chunk_slices(Some(&vec![95]), Some(&vec![10]));
    assert_eq!(r.err(), Some(Error::InvalidRequest));
}

#[test]
fn build_rejects_unsupported_width() {
    let r = build(
        vec![4],
        vec![2],
        Datatype::UInt(3),
        Order::LE,
        false,
        vec![0, 8],
    );
    assert_eq!(r.err(), Some(Error::UnsupportedDatatype));
}

#[test]
fn build_rejects_duplicate_addresses() {
    let r = build(
        vec![8],
        vec![4],
        Datatype::UInt(1),
        Order::LE,
        false,
        vec![10, 10],
    );
    assert_eq!(r.err(), Some(Error::InvalidRequest));
}

#[test]
fn build_rejects_wrong_chunk_count() {
    let r = build(
        vec![8],
        vec![4],
        Datatype::UInt(1),
        Order::LE,
        false,
        vec![10],
    );
    assert_eq!(r.err(), Some(Error::InvalidRequest));
}

#[test]
fn dataset_accessors() {
    let ds = build(
        vec![8, 6],
        vec![4, 6],
        Datatype::Int(2),
        Order::BE,
        true,
        vec![0, 100],
    )
    .unwrap();
    assert_eq!(ds.shape().clone(), vec![8, 6]);
    assert_eq!(ds.chunk_shape().clone(), vec![4, 6]);
    assert_eq!(ds.dtype(), Datatype::Int(2));
    assert_eq!(ds.size(), 48);
}
