//! The parallel read path.
//!
//! A parallel read uses no cache: every chunk a request touches is read
//! from the file image, run through the whole filter pipeline — shuffle
//! reversal and byte-order normalization — and written into a
//! caller-supplied destination buffer.  The slicer's partition guarantees
//! that the slices' destination ranges are disjoint, so workers holding
//! their own file handles may process any subset of the slices
//! concurrently without synchronizing on the buffer; here the slices are
//! processed in order and the assembled buffer is normalized in one pass,
//! which lands the same bytes because every slice is element-aligned.

use vstd::prelude::*;
use vstd::arithmetic::div_mod::lemma_mod_multiples_basic;
use vstd::arithmetic::mul::lemma_mul_inequality;
use crate::byteorder::{to_native, to_native_spec};
use crate::errors::Error;
use crate::extent::{prod, prod_u64};
use crate::idx::{Dataset, opt_view};
use crate::reader::{read_spec, request_in_file, chunk_in_file, decoded_chunk, lemma_read_spec_byte,
    zero_vec, sub_vec, copy_into};
use crate::shuffle::unshuffle_sized;
use crate::slicer::{slice_region, slice_in_range, slice_serves};

verus! {

impl Dataset {
    /// Serves a hyperslab request without a cache, writing the decoded,
    /// byte-order-normalized bytes into the caller's destination buffer,
    /// which must hold exactly the requested bytes.  On failure the
    /// buffer's length is kept but its contents are unspecified.
    #[verifier::loop_isolation(false)]
    #[verifier::rlimit(60)]
    pub fn read_parallel(
        &self,
        file: &Vec<u8>,
        indices: Option<&Vec<u64>>,
        counts: Option<&Vec<u64>>,
        dst: &mut Vec<u8>,
    ) -> (r: Result<(), Error>)
        requires
            self.wf(),
        ensures
            final(dst)@.len() == old(dst)@.len(),
            ({
                let ind = self.ext_indices(opt_view(indices));
                let cnt = self.ext_counts(ind, opt_view(counts));
                match r {
                    Ok(_) => {
                        &&& self.request_ok(opt_view(indices), opt_view(counts))
                        &&& old(dst)@.len() == prod(cnt) * self.dsz()
                        &&& request_in_file(file@, *self, ind, cnt)
                        &&& final(dst)@ == to_native_spec(
                            read_spec(file@, *self, ind, cnt),
                            self.order,
                            self.dsz(),
                        )
                    },
                    Err(e) => {
                        ||| (e == Error::InvalidRequest && !(self.request_ok(
                            opt_view(indices),
                            opt_view(counts),
                        ) && old(dst)@.len() == prod(cnt) * self.dsz()))
                        ||| (e == Error::IOError && self.request_ok(
                            opt_view(indices),
                            opt_view(counts),
                        ) && old(dst)@.len() == prod(cnt) * self.dsz() && !request_in_file(
                            file@,
                            *self,
                            ind,
                            cnt,
                        ))
                    },
                }
            }),
    {
        let (ind, cnt) = match self.extend_request(indices, counts) {
            Ok(ic) => ic,
            Err(e) => {
                return Err(e);
            },
        };
        proof {
            self.lemma_request_prods(ind@, cnt@);
            assert(cnt@.skip(0) =~= cnt@);
            lemma_mul_inequality(prod(cnt@) as int, prod(self.shape@) as int, self.dsz() as int);
            assert(prod(cnt@) * self.dsz() <= usize::MAX);
        }
        let dsz = self.dtype.size();
        let te = prod_u64(&cnt, 0);
        let vsz = (te * (dsz as u64)) as usize;
        if dst.len() != vsz {
            return Err(Error::InvalidRequest);
        }
        let slices = slice_region(self, &ind, &cnt);
        let mut buf = zero_vec(vsz);
        let ghost ds0 = *self;
        let ghost inds = ind@;
        let ghost cnts = cnt@;
        let ghost file0 = file@;
        let nslices = slices.len();
        let mut t: usize = 0;
        while t < nslices
            invariant
                0 <= t <= nslices,
                buf@.len() == vsz,
                dst@.len() == old(dst)@.len(),
                ({
                    let done: int = if t == 0 {
                        0
                    } else {
                        slices@[t - 1].dst_end as int
                    };
                    &&& (forall|b: int|
                        0 <= b < done * (dsz as int) ==> buf@[b] == read_spec(
                            file0,
                            ds0,
                            inds,
                            cnts,
                        )[b])
                    &&& (forall|p: int|
                        0 <= p < done ==> chunk_in_file(
                            file0,
                            ds0,
                            #[trigger] ds0.src_chunk(inds, cnts, p),
                        ))
                }),
            decreases nslices - t,
        {
            let ghost done: int = if t == 0 {
                0
            } else {
                slices@[t - 1].dst_end as int
            };
            let s = slices[t];
            proof {
                assert(slice_in_range(ds0, cnts, slices@[t as int]));
                assert(slice_serves(ds0, inds, cnts, slices@[t as int]));
                if t > 0 {
                    assert(slices@[t - 1].dst_end == slices@[t as int].dst_start);
                }
                assert(s.dst_start == done);
                lemma_mul_inequality(s.dst_end as int, prod(cnts) as int, dsz as int);
                lemma_mul_inequality(s.chunk_end as int, ds0.chunk_elems() as int, dsz as int);
                assert(ds0.chunk_elems() * ds0.dsz() <= usize::MAX);
                lemma_mul_inequality(s.dst_start as int, prod(cnts) as int, dsz as int);
                lemma_mul_inequality(s.chunk_start as int, ds0.chunk_elems() as int, dsz as int);
                assert(s.dst_start * (dsz as int) + (s.dst_end - s.dst_start) * (dsz as int)
                    == s.dst_end * (dsz as int)) by (nonlinear_arith);
                assert(s.chunk_start * (dsz as int) + (s.dst_end - s.dst_start) * (dsz as int)
                    == s.chunk_end * (dsz as int)) by (nonlinear_arith)
                    requires
                        s.chunk_end - s.chunk_start == s.dst_end - s.dst_start,
                ;
                assert((s.dst_end - s.dst_start) * (dsz as int) <= s.dst_end * (dsz as int))
                    by (nonlinear_arith)
                    requires
                        dsz >= 1,
                ;
            }
            let run_bytes = ((s.dst_end - s.dst_start) * (dsz as u64)) as usize;
            let dst_off = (s.dst_start * (dsz as u64)) as usize;
            let src_off = (s.chunk_start * (dsz as u64)) as usize;
            let addr = self.chunks[s.chunk_idx].addr;
            let csize = self.chunks[s.chunk_idx].size;
            let ghost ci = s.chunk_idx as int;
            if addr > file.len() as u64 || csize > file.len() as u64 - addr {
                proof {
                    assert(!chunk_in_file(file0, ds0, ci));
                    assert(ds0.src_chunk(inds, cnts, s.dst_start as int) == ci);
                    assert(s.dst_start < prod(cnts));
                    assert(!request_in_file(file0, ds0, inds, cnts));
                }
                return Err(Error::IOError);
            }
            let raw = sub_vec(file, addr as usize, (addr + csize) as usize);
            let decoded = if self.shuffle {
                proof {
                    assert(raw@.len() == ds0.chunk_elems() * ds0.dsz());
                    lemma_mod_multiples_basic(ds0.chunk_elems() as int, ds0.dsz() as int);
                }
                match unshuffle_sized(&raw, dsz) {
                    Ok(v) => v,
                    Err(_) => {
                        proof {
                            assert(false);
                        }
                        return Err(Error::FilterError);
                    },
                }
            } else {
                raw
            };
            assert(decoded@ == decoded_chunk(file0, ds0, ci));
            assert(decoded@.len() == ds0.chunks@[ci].size);
            copy_into(&mut buf, dst_off, &decoded, src_off, run_bytes);
            proof {
                let sl = slices@[t as int];
                assert forall|b: int|
                    0 <= b < sl.dst_end * (dsz as int) implies buf@[b] == read_spec(
                    file0,
                    ds0,
                    inds,
                    cnts,
                )[b] by {
                    if b < done * (dsz as int) {
                        assert(!(dst_off <= b < dst_off + run_bytes)) by (nonlinear_arith)
                            requires
                                b < done * (dsz as int),
                                dst_off == sl.dst_start * (dsz as int),
                                done == sl.dst_start,
                        ;
                    } else {
                        let t2 = b - sl.dst_start * (dsz as int);
                        assert(0 <= t2 < (sl.dst_end - sl.dst_start) * (dsz as int))
                            by (nonlinear_arith)
                            requires
                                sl.dst_start * (dsz as int) <= b < sl.dst_end * (dsz as int),
                                t2 == b - sl.dst_start * (dsz as int),
                        ;
                        lemma_read_spec_byte(file0, ds0, inds, cnts, sl, t2);
                        assert(buf@[dst_off + t2] == decoded_chunk(file0, ds0, ci)[src_off + t2]);
                        assert(src_off + t2 == sl.chunk_start * (dsz as int) + t2);
                    }
                }
                assert forall|p: int| 0 <= p < sl.dst_end implies chunk_in_file(
                    file0,
                    ds0,
                    #[trigger] ds0.src_chunk(inds, cnts, p),
                ) by {
                    if p >= sl.dst_start {
                        assert(ds0.src_chunk(inds, cnts, p) == ci);
                    }
                }
            }
            t = t + 1;
        }
        proof {
            let done: int = if nslices == 0 {
                0
            } else {
                slices@[nslices - 1].dst_end as int
            };
            assert(done == prod(cnts));
            assert(buf@ =~= read_spec(file0, ds0, inds, cnts));
            lemma_mod_multiples_basic(prod(cnts) as int, ds0.dsz() as int);
        }
        let nat_buf = match to_native(buf, self.order, dsz) {
            Ok(v) => v,
            Err(_) => {
                proof {
                    assert(false);
                }
                return Err(Error::FilterError);
            },
        };
        copy_into(dst, 0, &nat_buf, 0, vsz);
        proof {
            assert forall|b: int| 0 <= b < vsz implies dst@[b] == nat_buf@[b] by {
                assert(dst@[0 + b] == nat_buf@[0 + b]);
            }
            assert(dst@ =~= to_native_spec(
                read_spec(file0, ds0, inds, cnts),
                ds0.order,
                ds0.dsz(),
            ));
        }
        Ok(())
    }
}

} // verus!
