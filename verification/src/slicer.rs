//! The chunk slicer.
//!
//! A hyperslab request is decomposed, in row-major traversal order of the
//! requested region, into an ordered sequence of chunk slices: maximal runs
//! of elements that are contiguous both in the destination buffer and in
//! one chunk's native layout.  The slices tile the destination exactly —
//! no gaps, no overlaps — and each destination element is served from the
//! unique chunk that holds its coordinate.

use vstd::prelude::*;
use crate::errors::Error;
use crate::extent::{prod, rm_index, coords_of, coords_exec, rm_exec, prod_u64, lemma_coords_of,
    lemma_coords_of_step, lemma_prod_pos_all, lemma_rm_bound};
use crate::idx::{Dataset, grid_exec, opt_view};

verus! {

/// One slice of a request: the elements `chunk_start..chunk_end` of the
/// chunk at index `chunk_idx` (element offsets of the chunk's native
/// layout) fill the flat element offsets `dst_start..dst_end` of the
/// destination.
#[derive(Clone, Copy, Debug)]
pub struct ChunkSlice {
    pub chunk_idx: usize,
    pub chunk_start: u64,
    pub chunk_end: u64,
    pub dst_start: u64,
    pub dst_end: u64,
}

/// One slice is a non-empty range of the destination and an equally long
/// range of its chunk, both within bounds.
pub open spec fn slice_in_range(ds: Dataset, cnt: Seq<u64>, s: ChunkSlice) -> bool {
    &&& s.dst_start < s.dst_end <= prod(cnt)
    &&& 0 <= s.chunk_idx < ds.chunks@.len()
    &&& s.chunk_end - s.chunk_start == s.dst_end - s.dst_start
    &&& s.chunk_start <= s.chunk_end <= ds.chunk_elems()
}

/// Every destination element of the slice is served from the chunk holding
/// its coordinate, at its in-chunk offset.
pub open spec fn slice_serves(ds: Dataset, ind: Seq<u64>, cnt: Seq<u64>, s: ChunkSlice) -> bool {
    forall|p: int|
        s.dst_start <= p < s.dst_end ==> (#[trigger] ds.src_chunk(ind, cnt, p)) == s.chunk_idx
            && ds.src_off(ind, cnt, p) == s.chunk_start + (p - s.dst_start)
}

/// The slices are well formed and consecutive: the first starts at zero
/// and each begins where its predecessor ended.
pub open spec fn slices_seq_ok(ds: Dataset, ind: Seq<u64>, cnt: Seq<u64>, v: Seq<ChunkSlice>) -> bool {
    &&& (forall|t: int| 0 <= t < v.len() ==> slice_in_range(ds, cnt, #[trigger] v[t])
        && slice_serves(ds, ind, cnt, v[t]))
    &&& (v.len() > 0 ==> v[0].dst_start == 0)
    &&& (forall|t: int| 0 <= t < v.len() - 1 ==> (#[trigger] v[t].dst_end) == v[t + 1].dst_start)
}

/// The full slicer contract: the slices tile the whole destination,
/// `0..prod(cnt)`, exactly once each.
pub open spec fn slices_wf(ds: Dataset, ind: Seq<u64>, cnt: Seq<u64>, v: Seq<ChunkSlice>) -> bool {
    &&& slices_seq_ok(ds, ind, cnt, v)
    &&& (v.len() == 0 ==> prod(cnt) == 0)
    &&& (v.len() > 0 ==> v[v.len() - 1].dst_end == prod(cnt))
}

/// Decomposes a validated request into its ordered chunk slices.
#[verifier::loop_isolation(false)]
#[verifier::rlimit(60)]
pub fn slice_region(ds: &Dataset, ind: &Vec<u64>, cnt: &Vec<u64>) -> (v: Vec<ChunkSlice>)
    requires
        ds.wf(),
        ds.valid_request(ind@, cnt@),
    ensures
        slices_wf(*ds, ind@, cnt@, v@),
{
    let ndim = ds.shape.len();
    proof {
        ds.lemma_request_prods(ind@, cnt@);
        ds.lemma_chunk_prods();
        assert(cnt@.skip(0) =~= cnt@);
    }
    let total = prod_u64(cnt, 0);
    let grid = grid_exec(&ds.shape, &ds.chunk_shape);
    let mut out: Vec<ChunkSlice> = Vec::new();
    let mut pos: u64 = 0;
    while pos < total
        invariant
            0 <= pos <= total,
            slices_seq_ok(*ds, ind@, cnt@, out@),
            out@.len() == 0 ==> pos == 0,
            out@.len() > 0 ==> out@[out@.len() - 1].dst_end == pos,
        decreases total - pos,
    {
        proof {
            lemma_prod_pos_all(cnt@);
            lemma_coords_of(pos as nat, cnt@);
        }
        let rel = coords_exec(pos, cnt);
        // the absolute coordinate of the current destination element
        let mut abs: Vec<u64> = Vec::new();
        let mut d: usize = 0;
        while d < ndim
            invariant
                0 <= d <= ndim,
                abs@.len() == d,
                forall|m: int| 0 <= m < d ==> abs@[m] == ind@[m] + rel@[m],
            decreases ndim - d,
        {
            abs.push(ind[d] + rel[d]);
            d = d + 1;
        }
        proof {
            assert(abs@ =~= ds.abs_of(ind@, cnt@, pos as int));
            assert forall|m: int| 0 <= m < ndim implies abs@[m] < ds.shape@[m] by {
                assert(rel@[m] < cnt@[m]);
            }
            ds.lemma_chunk_at(abs@);
        }
        // the chunk holding it, by grid arithmetic
        let mut g: Vec<u64> = Vec::new();
        let mut d: usize = 0;
        while d < ndim
            invariant
                0 <= d <= ndim,
                g@.len() == d,
                forall|m: int| 0 <= m < d ==> g@[m] == ds.gcoords(abs@)[m],
            decreases ndim - d,
        {
            g.push(abs[d] / ds.chunk_shape[d]);
            d = d + 1;
        }
        assert(g@ =~= ds.gcoords(abs@));
        let ci64 = rm_exec(&g, &grid);
        let ci = ci64 as usize;
        assert(ci == ds.chunk_idx_of(abs@));
        // the in-chunk coordinate and its flat offset
        let mut w: Vec<u64> = Vec::new();
        let mut d: usize = 0;
        while d < ndim
            invariant
                0 <= d <= ndim,
                w@.len() == d,
                forall|m: int| 0 <= m < d ==> w@[m] == ds.wcoords(abs@)[m],
            decreases ndim - d,
        {
            w.push(abs[d] % ds.chunk_shape[d]);
            d = d + 1;
        }
        assert(w@ =~= ds.wcoords(abs@));
        let off = rm_exec(&w, &ds.chunk_shape);
        assert(off == ds.chunk_off_of(abs@));
        // the contiguous run along the innermost axis
        let crem = ds.chunk_shape[ndim - 1] - w[ndim - 1];
        let rrem = cnt[ndim - 1] - rel[ndim - 1];
        let run = if crem < rrem {
            crem
        } else {
            rrem
        };
        proof {
            assert(run >= 1);
            lemma_rm_bound(rel@, cnt@);
            assert(pos + rrem <= total);
            lemma_rm_bound(w@, ds.chunk_shape@);
            assert(off + crem <= ds.chunk_elems());
            assert(ds.chunk_elems() * ds.dsz() >= ds.chunk_elems()) by (nonlinear_arith)
                requires
                    ds.dsz() >= 1,
                    ds.chunk_elems() >= 0,
            ;
        }
        let s = ChunkSlice {
            chunk_idx: ci,
            chunk_start: off,
            chunk_end: off + run,
            dst_start: pos,
            dst_end: pos + run,
        };
        proof {
            let last = ndim - 1;
            assert forall|p: int| s.dst_start <= p < s.dst_end implies (#[trigger] ds.src_chunk(
                ind@,
                cnt@,
                p,
            )) == s.chunk_idx && ds.src_off(ind@, cnt@, p) == s.chunk_start + (p
                - s.dst_start) by {
                let j = (p - pos) as nat;
                assert(rel@[last as int] + j < cnt@[last as int]);
                lemma_coords_of_step(pos as nat, j, cnt@);
                assert(coords_of(p as nat, cnt@) == rel@.update(
                    last as int,
                    (rel@[last as int] + j) as u64,
                ));
                let abs2 = ds.abs_of(ind@, cnt@, p);
                assert(abs2 =~= abs@.update(last as int, (abs@[last as int] + j) as u64));
                assert(ds.wcoords(abs@)[last as int] + j < ds.chunk_shape@[last as int]);
                assert(abs@[last as int] + j < ds.shape@[last as int]) by {
                    assert(abs@[last as int] == ind@[last as int] + rel@[last as int]);
                    assert(rel@[last as int] + j < cnt@[last as int]);
                    assert(ind@[last as int] + cnt@[last as int] <= ds.shape@[last as int]);
                }
                ds.lemma_chunk_step(abs@, j);
            }
            assert(slice_serves(*ds, ind@, cnt@, s));
            assert(slice_in_range(*ds, cnt@, s));
        }
        let ghost old_out = out@;
        out.push(s);
        proof {
            assert forall|t: int| 0 <= t < out@.len() implies slice_in_range(
                *ds,
                cnt@,
                #[trigger] out@[t],
            ) && slice_serves(*ds, ind@, cnt@, out@[t]) by {
                if t < old_out.len() {
                    assert(out@[t] == old_out[t]);
                } else {
                    assert(out@[t] == s);
                }
            }
        }
        pos = pos + run;
    }
    out
}

impl Dataset {
    /// The ordered chunk slices of a possibly partial request: the request
    /// is extended to every axis, validated against the shape, and
    /// decomposed.
    pub fn chunk_slices(
        &self,
        indices: Option<&Vec<u64>>,
        counts: Option<&Vec<u64>>,
    ) -> (r: Result<Vec<ChunkSlice>, Error>)
        requires
            self.wf(),
        ensures
            match r {
                Ok(v) => {
                    &&& self.request_ok(opt_view(indices), opt_view(counts))
                    &&& slices_wf(
                        *self,
                        self.ext_indices(opt_view(indices)),
                        self.ext_counts(self.ext_indices(opt_view(indices)), opt_view(counts)),
                        v@,
                    )
                },
                Err(e) => e == Error::InvalidRequest && !self.request_ok(
                    opt_view(indices),
                    opt_view(counts),
                ),
            },
    {
        let (ind, cnt) = match self.extend_request(indices, counts) {
            Ok(ic) => ic,
            Err(e) => {
                return Err(e);
            },
        };
        let v = slice_region(self, &ind, &cnt);
        Ok(v)
    }
}

} // verus!
