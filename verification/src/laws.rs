//! Laws the library's contracts combine into.
//!
//! Each proof function here states a property that relates several of the
//! library's functions, over the same spec functions their own contracts
//! use, so a reader can see the property stated once and proved.

use vstd::prelude::*;
use crate::byteorder::to_native_spec;
use crate::extent::prod;
use crate::idx::Dataset;
use crate::reader::read_spec;
use crate::slicer::{ChunkSlice, slices_seq_ok, slices_wf, slice_in_range};

verus! {

/// Every destination element below the end of slice `n` is covered by a
/// slice at or before `n`.
proof fn lemma_slices_cover(
    ds: Dataset,
    ind: Seq<u64>,
    cnt: Seq<u64>,
    v: Seq<ChunkSlice>,
    n: int,
    p: int,
)
    requires
        slices_seq_ok(ds, ind, cnt, v),
        0 <= n < v.len(),
        0 <= p < v[n].dst_end,
    ensures
        exists|t: int| 0 <= t <= n && (#[trigger] v[t]).dst_start <= p < v[t].dst_end,
    decreases n,
{
    if p >= v[n].dst_start {
        assert(v[n].dst_start <= p < v[n].dst_end);
    } else {
        assert(n > 0) by {
            assert(v[0].dst_start == 0);
        }
        assert(v[n - 1].dst_end == v[n].dst_start);
        lemma_slices_cover(ds, ind, cnt, v, n - 1, p);
    }
}

/// Slices that come earlier end at or before where later slices begin.
proof fn lemma_slices_ordered(
    ds: Dataset,
    ind: Seq<u64>,
    cnt: Seq<u64>,
    v: Seq<ChunkSlice>,
    t1: int,
    t2: int,
)
    requires
        slices_seq_ok(ds, ind, cnt, v),
        0 <= t1 < t2 < v.len(),
    ensures
        v[t1].dst_end <= v[t2].dst_start,
    decreases t2 - t1,
{
    assert(v[t2 - 1].dst_end == v[t2].dst_start);
    if t2 - 1 > t1 {
        lemma_slices_ordered(ds, ind, cnt, v, t1, t2 - 1);
        assert(slice_in_range(ds, cnt, v[t2 - 1]));
    }
}

/// The slicer's partition property: for every valid request, the emitted
/// destination ranges tile `0..prod(cnt)` exactly — every destination
/// element lies in exactly one slice's range, with no gaps and no
/// overlaps.
pub proof fn lemma_slicer_partition(
    ds: Dataset,
    ind: Seq<u64>,
    cnt: Seq<u64>,
    v: Seq<ChunkSlice>,
    p: int,
)
    requires
        slices_wf(ds, ind, cnt, v),
        0 <= p < prod(cnt),
    ensures
        exists|t: int| 0 <= t < v.len() && (#[trigger] v[t]).dst_start <= p < v[t].dst_end,
        forall|t1: int, t2: int|
            0 <= t1 < v.len() && 0 <= t2 < v.len() && (#[trigger] v[t1]).dst_start <= p
                < v[t1].dst_end && (#[trigger] v[t2]).dst_start <= p < v[t2].dst_end ==> t1 == t2,
{
    assert(v.len() > 0);
    assert(p < v[v.len() - 1].dst_end);
    lemma_slices_cover(ds, ind, cnt, v, v.len() - 1, p);
    assert forall|t1: int, t2: int|
        0 <= t1 < v.len() && 0 <= t2 < v.len() && (#[trigger] v[t1]).dst_start <= p < v[t1].dst_end
            && (#[trigger] v[t2]).dst_start <= p < v[t2].dst_end implies t1 == t2 by {
        if t1 < t2 {
            lemma_slices_ordered(ds, ind, cnt, v, t1, t2);
        } else if t2 < t1 {
            lemma_slices_ordered(ds, ind, cnt, v, t2, t1);
        }
    }
}

/// Cache transparency: reading the same hyperslab twice from one reader
/// yields identical bytes, whatever the cache held before either read —
/// each read's contract pins its result to the same function of the file
/// image, the metadata and the request alone.
pub proof fn lemma_cache_transparency(
    file: Seq<u8>,
    ds: Dataset,
    ind: Seq<u64>,
    cnt: Seq<u64>,
    r1: Seq<u8>,
    r2: Seq<u8>,
)
    requires
        r1 == read_spec(file, ds, ind, cnt),
        r2 == read_spec(file, ds, ind, cnt),
    ensures
        r1 == r2,
{
}

/// Cached and parallel equivalence: a typed read through the cached
/// reader and a parallel read of the same request produce the same bytes,
/// byte for byte — both contracts pin their result to the normalized
/// assembly of the same request.
pub proof fn lemma_cached_parallel_equal(
    file: Seq<u8>,
    ds: Dataset,
    ind: Seq<u64>,
    cnt: Seq<u64>,
    cached: Seq<u8>,
    par: Seq<u8>,
)
    requires
        cached == to_native_spec(read_spec(file, ds, ind, cnt), ds.order, ds.dsz()),
        par == to_native_spec(read_spec(file, ds, ind, cnt), ds.order, ds.dsz()),
    ensures
        cached == par,
{
}

} // verus!
