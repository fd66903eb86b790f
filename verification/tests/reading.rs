use hidefix::byteorder::Order;
use hidefix::errors::Error;
use hidefix::idx::{build, Datatype};
use hidefix::reader::DatasetReader;

#[test]
fn read_two_chunk_straddle() {
    // shape [8], chunk [4], one byte per element; chunks at 10 and 20
    let ds = build(
        vec![8],
        vec![4],
        Datatype::UInt(1),
        Order::LE,
        false,
        vec![10, 20],
    )
    .unwrap();
    let mut file = vec![0u8; 24];
    file[10..14].copy_from_slice(&[0, 1, 2, 3]);
    file[20..24].copy_from_slice(&[4, 5, 6, 7]);
    let mut r = DatasetReader::with_dataset(ds, file).unwrap();
    let out = r.read(Some(&vec![2]), Some(&vec![4])).unwrap();
    assert_eq!(out, vec![2, 3, 4, 5]);
}

#[test]
fn cache_transparency() {
    let ds = build(
        vec![8],
        vec![4],
        Datatype::UInt(1),
        Order::LE,
        false,
        vec![10, 20],
    )
    .unwrap();
    let mut file = vec![0u8; 24];
    file[10..14].copy_from_slice(&[0, 1, 2, 3]);
    file[20..24].copy_from_slice(&[4, 5, 6, 7]);
    let mut r = DatasetReader::with_dataset(ds, file).unwrap();
    // the first read populates the cache, the second is served from it;
    // both must hold the logical elements
    let first = r.read(Some(&vec![2]), Some(&vec![4])).unwrap();
    let second = r.read(Some(&vec![2]), Some(&vec![4])).unwrap();
    assert_eq!(first, vec![2, 3, 4, 5]);
    assert_eq!(second, first);
}

#[test]
fn default_extension() {
    // shape [100, 50], chunk [10, 50]: chunk k holds rows 10k..10k+10
    let n_chunks = 10u64;
    let chunk_bytes = 500u64;
    let addrs: Vec<u64> = (0..n_chunks).map(|k| k * chunk_bytes).collect();
    let ds = build(
        vec![100, 50],
        vec![10, 50],
        Datatype::UInt(1),
        Order::LE,
        false,
        addrs.clone(),
    )
    .unwrap();
    let file: Vec<u8> = (0..5000u32).map(|i| (i % 251) as u8).collect();
    let mut r = DatasetReader::with_dataset(ds, file.clone()).unwrap();
    let short = r.read(Some(&vec![0]), Some(&vec![10])).unwrap();
    let full = r.read(Some(&vec![0, 0]), Some(&vec![10, 50])).unwrap();
    assert_eq!(short, full);
    assert_eq!(short, file[0..500].to_vec());
}

#[test]
fn bounds_rejection_on_read() {
    let ds = build(
        vec![100],
        vec![10],
        Datatype::UInt(1),
        Order::LE,
        false,
        (0..10).map(|i| i * 10).collect(),
    )
    .unwrap();
    let mut r = DatasetReader::with_dataset(ds, vec![0u8; 100]).unwrap();
    let out = r.read(Some(&vec![95]), Some(&vec![10]));
    assert_eq!(out.err(), Some(Error::InvalidRequest));
}

#[test]
fn io_error_on_chunk_outside_file() {
    let ds = build(
        vec![8],
        vec![4],
        Datatype::UInt(1),
        Order::LE,
        false,
        vec![1000, 2000],
    )
    .unwrap();
    let mut r = DatasetReader::with_dataset(ds, vec![0u8; 24]).unwrap();
    let out = r.read(None, None);
    assert_eq!(out.err(), Some(Error::IOError));
}

#[test]
fn type_mismatch_on_wrong_width() {
    let ds = build(
        vec![8],
        vec![4],
        Datatype::UInt(1),
        Order::LE,
        false,
        vec![10, 20],
    )
    .unwrap();
    let mut r = DatasetReader::with_dataset(ds, vec![0u8; 24]).unwrap();
    let out = r.values_bytes(4, None, None);
    assert_eq!(out.err(), Some(Error::TypeMismatch));
}

fn shuffled_be_2d() -> (hidefix::idx::Dataset, Vec<u8>) {
    // shape [4, 4], chunk [2, 2], big-endian u16 elements, shuffled
    // chunks; element value at (row, col) is row * 4 + col
    let ds = build(
        vec![4, 4],
        vec![2, 2],
        Datatype::UInt(2),
        Order::BE,
        true,
        vec![0, 8, 16, 24],
    )
    .unwrap();
    let mut file = vec![0u8; 32];
    for gr in 0..2u16 {
        for gc in 0..2u16 {
            let base = ((gr * 2 + gc) * 8) as usize;
            let mut vals = Vec::new();
            for r in 0..2u16 {
                for c in 0..2u16 {
                    vals.push((gr * 2 + r) * 4 + (gc * 2 + c));
                }
            }
            // big-endian bytes, then the byte-shuffle: all high bytes
            // first, then all low bytes
            for (i, v) in vals.iter().enumerate() {
                file[base + i] = (v >> 8) as u8;
                file[base + 4 + i] = (v & 0xff) as u8;
            }
        }
    }
    (ds, file)
}

#[test]
fn values_shuffled_big_endian() {
    let (ds, file) = shuffled_be_2d();
    let mut r = DatasetReader::with_dataset(ds, file).unwrap();
    let out = r.values_bytes(2, None, None).unwrap();
    let mut expected = Vec::new();
    for v in 0..16u16 {
        expected.extend_from_slice(&v.to_le_bytes());
    }
    assert_eq!(out, expected);
}

#[test]
fn cached_and_parallel_agree() {
    let (ds, file) = shuffled_be_2d();
    let mut dst = vec![0u8; 32];
    ds.read_parallel(&file, None, None, &mut dst).unwrap();
    let mut r = DatasetReader::with_dataset(ds, file).unwrap();
    let cached = r.values_bytes(2, None, None).unwrap();
    assert_eq!(dst, cached);
    // a sub-region straddling chunks agrees as well
    let (ds2, file2) = shuffled_be_2d();
    let mut dst2 = vec![0u8; 2 * 2 * 2];
    ds2.read_parallel(&file2, Some(&vec![1, 1]), Some(&vec![2, 2]), &mut dst2)
        .unwrap();
    let mut r2 = DatasetReader::with_dataset(ds2, file2).unwrap();
    let cached2 = r2
        .values_bytes(2, Some(&vec![1, 1]), Some(&vec![2, 2]))
        .unwrap();
    assert_eq!(dst2, cached2);
    let mut expected2 = Vec::new();
    for v in [5u16, 6, 9, 10] {
        expected2.extend_from_slice(&v.to_le_bytes());
    }
    assert_eq!(dst2, expected2);
}

#[test]
fn parallel_rejects_wrong_destination_size() {
    let (ds, file) = shuffled_be_2d();
    let mut dst = vec![0u8; 31];
    let r = ds.read_parallel(&file, None, None, &mut dst);
    assert_eq!(r.err(), Some(Error::InvalidRequest));
}
