//! The cached reader.
//!
//! A reader owns one dataset's metadata, the file image its chunks are
//! stored in, and a bounded recency cache of decoded chunks.  A hyperslab
//! request is served by walking the slicer's output in order, copying each
//! slice's bytes out of the cached decoding of its chunk — decoding and
//! caching the chunk first when it is not yet cached — so the result is a
//! pure function of the file image, the metadata and the request, whatever
//! the cache held.

use vstd::prelude::*;
use vstd::arithmetic::div_mod::{lemma_fundamental_div_mod, lemma_fundamental_div_mod_converse,
    lemma_mod_pos_bound, lemma_mod_multiples_basic, lemma_multiply_divide_lt};
use vstd::arithmetic::mul::lemma_mul_inequality;
use lru::LruCache;
use crate::byteorder::{to_native, to_native_spec};
use crate::errors::Error;
use crate::extent::{prod, prod_u64, lemma_prod_all_pos};
use crate::idx::{Dataset, opt_view};
use crate::shuffle::{unshuffle_sized, unshuffle_spec};
use crate::slicer::{slice_region, slice_in_range, slice_serves, ChunkSlice};

verus! {

#[verifier::external_type_specification]
#[verifier::external_body]
#[verifier::reject_recursive_types(K)]
#[verifier::reject_recursive_types(V)]
#[verifier::reject_recursive_types(S)]
pub struct ExLruCache<K, V, S>(LruCache<K, V, S>);

/// The key-to-value map a recency cache holds.
pub uninterp spec fn lru_contents(c: LruCache<u64, Vec<u8>>) -> Map<u64, Seq<u8>>;

/// The entry bound a recency cache was created with.
pub uninterp spec fn lru_cap(c: LruCache<u64, Vec<u8>>) -> nat;

/// Relies on lru::LruCache::new: a cache created empty, bounded at `cap`
/// entries.
#[verifier::external_body]
fn lru_new(cap: usize) -> (c: LruCache<u64, Vec<u8>>)
    requires
        cap >= 1,
    ensures
        forall|k: u64| !lru_contents(c).contains_key(k),
        lru_cap(c) == cap,
{
    LruCache::new(cap)
}

/// Relies on lru::LruCache::get: the value stored for the key, if any; a
/// hit refreshes the key's recency but the contents stay as they were.
#[verifier::external_body]
fn lru_get(c: &mut LruCache<u64, Vec<u8>>, k: u64) -> (r: Option<Vec<u8>>)
    ensures
        lru_contents(*final(c)) == lru_contents(*old(c)),
        lru_cap(*final(c)) == lru_cap(*old(c)),
        match r {
            Option::Some(v) => lru_contents(*old(c)).contains_key(k) && v@ == lru_contents(
                *old(c),
            )[k],
            Option::None => !lru_contents(*old(c)).contains_key(k),
        },
{
    c.get(&k).cloned()
}

/// Relies on lru::LruCache::put: inserts the pair, updating the key's
/// value if it is present; when a new key exceeds the bound, the least
/// recently used other entry leaves; no other entry changes.
#[verifier::external_body]
fn lru_put(c: &mut LruCache<u64, Vec<u8>>, k: u64, v: Vec<u8>)
    requires
        lru_cap(*old(c)) >= 1,
    ensures
        lru_cap(*final(c)) == lru_cap(*old(c)),
        lru_contents(*final(c)).contains_key(k),
        lru_contents(*final(c))[k] == v@,
        forall|k2: u64|
            (#[trigger] lru_contents(*final(c)).contains_key(k2)) && k2 != k ==> lru_contents(
                *old(c),
            ).contains_key(k2) && lru_contents(*final(c))[k2] == lru_contents(*old(c))[k2],
{
    c.put(k, v);
}

/// The bytes of chunk `ci` as stored in the file image.
pub open spec fn raw_chunk(file: Seq<u8>, ds: Dataset, ci: int) -> Seq<u8> {
    file.subrange(
        ds.chunks@[ci].addr as int,
        ds.chunks@[ci].addr + ds.chunks@[ci].size,
    )
}

/// The chunk's ready-to-slice bytes: unshuffled when the dataset stores
/// shuffled chunks, as stored otherwise.
pub open spec fn decoded_chunk(file: Seq<u8>, ds: Dataset, ci: int) -> Seq<u8> {
    if ds.shuffle {
        unshuffle_spec(raw_chunk(file, ds, ci), ds.dsz())
    } else {
        raw_chunk(file, ds, ci)
    }
}

/// Chunk `ci`'s stored byte range lies inside the file image.
pub open spec fn chunk_in_file(file: Seq<u8>, ds: Dataset, ci: int) -> bool {
    ds.chunks@[ci].addr + ds.chunks@[ci].size <= file.len()
}

/// Every chunk the request touches lies inside the file image.
pub open spec fn request_in_file(file: Seq<u8>, ds: Dataset, ind: Seq<u64>, cnt: Seq<u64>) -> bool {
    forall|p: int|
        0 <= p < prod(cnt) ==> chunk_in_file(file, ds, #[trigger] ds.src_chunk(ind, cnt, p))
}

/// The assembled bytes of a request: destination element `p` holds the
/// `dsz` bytes of its source element, read from the decoded bytes of the
/// chunk holding its coordinate.
pub open spec fn read_spec(file: Seq<u8>, ds: Dataset, ind: Seq<u64>, cnt: Seq<u64>) -> Seq<u8> {
    Seq::new(
        (prod(cnt) * ds.dsz()) as nat,
        |b: int|
            {
                let p = b / (ds.dsz() as int);
                let r = b % (ds.dsz() as int);
                decoded_chunk(file, ds, ds.src_chunk(ind, cnt, p))[ds.src_off(ind, cnt, p) * (
                ds.dsz() as int) + r]
            },
    )
}

/// Byte `t2` of a slice's destination range is byte `t2` of the slice's
/// chunk range in the chunk's decoded bytes.
pub proof fn lemma_read_spec_byte(
    file: Seq<u8>,
    ds: Dataset,
    ind: Seq<u64>,
    cnt: Seq<u64>,
    s: ChunkSlice,
    t2: int,
)
    requires
        ds.dsz() >= 1,
        slice_in_range(ds, cnt, s),
        slice_serves(ds, ind, cnt, s),
        0 <= t2 < (s.dst_end - s.dst_start) * ds.dsz(),
    ensures
        0 <= s.dst_start * ds.dsz() + t2 < prod(cnt) * ds.dsz(),
        read_spec(file, ds, ind, cnt)[s.dst_start * ds.dsz() + t2] == decoded_chunk(
            file,
            ds,
            s.chunk_idx as int,
        )[s.chunk_start * ds.dsz() + t2],
{
    let w = ds.dsz() as int;
    let run = s.dst_end - s.dst_start;
    let b = s.dst_start * w + t2;
    let q = t2 / w;
    let r = t2 % w;
    lemma_fundamental_div_mod(t2, w);
    lemma_mod_pos_bound(t2, w);
    assert(t2 < w * run) by (nonlinear_arith)
        requires
            t2 < run * w,
    ;
    lemma_multiply_divide_lt(t2, w, run);
    assert(0 <= q < run);
    assert(b == (s.dst_start + q) * w + r) by (nonlinear_arith)
        requires
            t2 == w * q + r,
            b == s.dst_start * w + t2,
    ;
    lemma_fundamental_div_mod_converse(b, w, s.dst_start + q, r);
    let p = s.dst_start + q;
    assert(s.dst_start <= p < s.dst_end);
    assert(ds.src_chunk(ind, cnt, p) == s.chunk_idx);
    assert(ds.src_off(ind, cnt, p) == s.chunk_start + (p - s.dst_start));
    assert(b < s.dst_end * w) by (nonlinear_arith)
        requires
            b == (s.dst_start + q) * w + r,
            s.dst_start + q < s.dst_end,
            0 <= r < w,
    ;
    assert(b < prod(cnt) * w) by (nonlinear_arith)
        requires
            b < s.dst_end * w,
            s.dst_end <= prod(cnt),
            w >= 1,
    ;
    assert(read_spec(file, ds, ind, cnt)[b] == decoded_chunk(file, ds, s.chunk_idx as int)[
        ds.src_off(ind, cnt, p) * w + r]);
    assert(ds.src_off(ind, cnt, p) * w + r == s.chunk_start * w + t2) by (nonlinear_arith)
        requires
            ds.src_off(ind, cnt, p) == s.chunk_start + q,
            t2 == w * q + r,
    ;
}

/// A zero-filled buffer of `n` bytes.
#[verifier::loop_isolation(false)]
pub fn zero_vec(n: usize) -> (v: Vec<u8>)
    ensures
        v@.len() == n,
{
    let mut v: Vec<u8> = Vec::new();
    let mut i: usize = 0;
    while i < n
        invariant
            v@.len() == i,
            0 <= i <= n,
        decreases n - i,
    {
        v.push(0);
        i = i + 1;
    }
    v
}

/// A copy of the bytes `start..end` of `src`.
#[verifier::loop_isolation(false)]
pub(crate) fn sub_vec(src: &Vec<u8>, start: usize, end: usize) -> (v: Vec<u8>)
    requires
        start <= end <= src.len(),
    ensures
        v@ == src@.subrange(start as int, end as int),
{
    let mut v: Vec<u8> = Vec::new();
    let mut i: usize = start;
    while i < end
        invariant
            start <= i <= end,
            v@.len() == i - start,
            forall|b: int| 0 <= b < i - start ==> v@[b] == src@[start + b],
        decreases end - i,
    {
        v.push(src[i]);
        i = i + 1;
    }
    assert(v@ =~= src@.subrange(start as int, end as int));
    v
}

/// Copies `n` bytes of `src` starting at `src_off` over the bytes of `dst`
/// starting at `dst_off`.
#[verifier::loop_isolation(false)]
pub(crate) fn copy_into(dst: &mut Vec<u8>, dst_off: usize, src: &Vec<u8>, src_off: usize, n: usize)
    requires
        dst_off + n <= old(dst).len(),
        src_off + n <= src.len(),
    ensures
        final(dst)@.len() == old(dst)@.len(),
        forall|b: int| 0 <= b < n ==> (#[trigger] final(dst)@[dst_off + b]) == src@[src_off + b],
        forall|b: int|
            0 <= b < old(dst)@.len() && !(dst_off <= b < dst_off + n) ==> final(dst)@[b] == old(
                dst,
            )@[b],
{
    let mut i: usize = 0;
    while i < n
        invariant
            0 <= i <= n,
            dst@.len() == old(dst)@.len(),
            forall|b: int| 0 <= b < i ==> (#[trigger] dst@[dst_off + b]) == src@[src_off + b],
            forall|b: int|
                0 <= b < old(dst)@.len() && !(dst_off <= b < dst_off + i) ==> dst@[b] == old(
                    dst,
                )@[b],
        decreases n - i,
    {
        dst.set(dst_off + i, src[src_off + i]);
        i = i + 1;
    }
}

/// The cache byte budget of one reader.
pub const CACHE_SZ: u64 = 32 * 1024 * 1024;

/// A single-file, single-cache reader of one dataset.
pub struct DatasetReader {
    pub ds: Dataset,
    pub file: Vec<u8>,
    pub cache: LruCache<u64, Vec<u8>>,
}

impl DatasetReader {
    /// Well-formed reader: the metadata is well formed, the cache bound is
    /// positive, and every cached entry is the decoded bytes of the chunk
    /// stored at its key's address.
    pub open spec fn wf(self) -> bool {
        &&& self.ds.wf()
        &&& lru_cap(self.cache) >= 1
        &&& (forall|k: u64|
            #[trigger] lru_contents(self.cache).contains_key(k) ==> exists|ci: int|
                0 <= ci < self.ds.chunks@.len() && (#[trigger] self.ds.chunks@[ci]).addr == k
                    && chunk_in_file(self.file@, self.ds, ci) && lru_contents(self.cache)[k]
                    == decoded_chunk(self.file@, self.ds, ci))
    }

    /// A reader over one dataset's metadata and the image of the file its
    /// chunks are stored in, with an empty cache whose entry bound is a
    /// fixed byte budget divided by the chunk byte size, at least one.
    pub fn with_dataset(ds: Dataset, file: Vec<u8>) -> (r: Result<DatasetReader, Error>)
        requires
            ds.wf(),
        ensures
            match r {
                Ok(rd) => {
                    &&& rd.wf()
                    &&& rd.ds == ds
                    &&& rd.file == file
                    &&& (forall|k: u64| !lru_contents(rd.cache).contains_key(k))
                    &&& lru_cap(rd.cache) == if (CACHE_SZ as nat) / (ds.chunk_elems() * ds.dsz())
                        == 0 {
                        1nat
                    } else {
                        (CACHE_SZ as nat) / (ds.chunk_elems() * ds.dsz())
                    }
                },
                Err(_) => false,
            },
    {
        proof {
            ds.lemma_chunk_prods();
            assert(ds.chunk_shape@.skip(0) =~= ds.chunk_shape@);
            lemma_prod_all_pos(ds.chunk_shape@);
            assert(ds.chunk_elems() * ds.dsz() >= 1) by (nonlinear_arith)
                requires
                    ds.chunk_elems() >= 1,
                    ds.dsz() >= 1,
            ;
        }
        let ce = prod_u64(&ds.chunk_shape, 0);
        let cb = ce * (ds.dtype.size() as u64);
        let budget = CACHE_SZ / cb;
        let cap: usize = if budget == 0 {
            1
        } else {
            budget as usize
        };
        let cache = lru_new(cap);
        Ok(DatasetReader { ds, file, cache })
    }

    /// Serves a hyperslab request: the slicer's output is walked in order,
    /// each slice's bytes are copied out of the decoded bytes of its chunk
    /// — from the cache when present, read from the file image, unshuffled
    /// and cached otherwise — into a tightly packed buffer.  The result is
    /// the same whatever the cache held.
    #[verifier::loop_isolation(false)]
    #[verifier::rlimit(60)]
    pub fn read(
        &mut self,
        indices: Option<&Vec<u64>>,
        counts: Option<&Vec<u64>>,
    ) -> (r: Result<Vec<u8>, Error>)
        requires
            old(self).wf(),
        ensures
            final(self).wf(),
            final(self).ds == old(self).ds,
            final(self).file == old(self).file,
            ({
                let ds = old(self).ds;
                let file = old(self).file@;
                let ind = ds.ext_indices(opt_view(indices));
                let cnt = ds.ext_counts(ind, opt_view(counts));
                match r {
                    Ok(buf) => {
                        &&& ds.request_ok(opt_view(indices), opt_view(counts))
                        &&& request_in_file(file, ds, ind, cnt)
                        &&& buf@ == read_spec(file, ds, ind, cnt)
                    },
                    Err(e) => {
                        ||| (e == Error::InvalidRequest && !ds.request_ok(
                            opt_view(indices),
                            opt_view(counts),
                        ))
                        ||| (e == Error::IOError && ds.request_ok(
                            opt_view(indices),
                            opt_view(counts),
                        ) && !request_in_file(file, ds, ind, cnt))
                    },
                }
            }),
    {
        let ghost ds0 = self.ds;
        let ghost fv0 = self.file;
        let ghost file0 = self.file@;
        let (ind, cnt) = match self.ds.extend_request(indices, counts) {
            Ok(ic) => ic,
            Err(e) => {
                return Err(e);
            },
        };
        proof {
            self.ds.lemma_request_prods(ind@, cnt@);
            assert(cnt@.skip(0) =~= cnt@);
            lemma_mul_inequality(prod(cnt@) as int, prod(self.ds.shape@) as int,
                self.ds.dsz() as int);
            assert(prod(cnt@) * self.ds.dsz() <= usize::MAX);
        }
        let slices = slice_region(&self.ds, &ind, &cnt);
        let dsz = self.ds.dtype.size();
        let te = prod_u64(&cnt, 0);
        let vsz = (te * (dsz as u64)) as usize;
        let mut buf = zero_vec(vsz);
        let ghost inds = ind@;
        let ghost cnts = cnt@;
        let nslices = slices.len();
        let mut t: usize = 0;
        while t < nslices
            invariant
                0 <= t <= nslices,
                self.wf(),
                self.ds == ds0,
                self.file == fv0,
                buf@.len() == vsz,
                ({
                    let done: int = if t == 0 {
                        0
                    } else {
                        slices@[t - 1].dst_end as int
                    };
                    &&& (forall|b: int|
                        0 <= b < done * (dsz as int) ==> buf@[b] == read_spec(
                            file0,
                            ds0,
                            inds,
                            cnts,
                        )[b])
                    &&& (forall|p: int|
                        0 <= p < done ==> chunk_in_file(
                            file0,
                            ds0,
                            #[trigger] ds0.src_chunk(inds, cnts, p),
                        ))
                }),
            decreases nslices - t,
        {
            let ghost done: int = if t == 0 {
                0
            } else {
                slices@[t - 1].dst_end as int
            };
            let s = slices[t];
            proof {
                assert(slice_in_range(ds0, cnts, slices@[t as int]));
                assert(slice_serves(ds0, inds, cnts, slices@[t as int]));
                if t > 0 {
                    assert(slices@[t - 1].dst_end == slices@[t as int].dst_start);
                }
                assert(s.dst_start == done);
                lemma_mul_inequality(s.dst_end as int, prod(cnts) as int, dsz as int);
                lemma_mul_inequality(s.chunk_end as int, ds0.chunk_elems() as int, dsz as int);
                assert(ds0.chunk_elems() * ds0.dsz() <= usize::MAX);
                lemma_mul_inequality(s.dst_start as int, prod(cnts) as int, dsz as int);
                lemma_mul_inequality(s.chunk_start as int, ds0.chunk_elems() as int, dsz as int);
                assert(s.dst_start * (dsz as int) + (s.dst_end - s.dst_start) * (dsz as int)
                    == s.dst_end * (dsz as int)) by (nonlinear_arith);
                assert(s.chunk_start * (dsz as int) + (s.dst_end - s.dst_start) * (dsz as int)
                    == s.chunk_end * (dsz as int)) by (nonlinear_arith)
                    requires
                        s.chunk_end - s.chunk_start == s.dst_end - s.dst_start,
                ;
                assert((s.dst_end - s.dst_start) * (dsz as int) <= s.dst_end * (dsz as int))
                    by (nonlinear_arith)
                    requires
                        dsz >= 1,
                ;
            }
            let run_bytes = ((s.dst_end - s.dst_start) * (dsz as u64)) as usize;
            let dst_off = (s.dst_start * (dsz as u64)) as usize;
            let src_off = (s.chunk_start * (dsz as u64)) as usize;
            let addr = self.ds.chunks[s.chunk_idx].addr;
            let csize = self.ds.chunks[s.chunk_idx].size;
            let ghost entry_cache = self.cache;
            let cached = lru_get(&mut self.cache, addr);
            let ghost ci = s.chunk_idx as int;
            match cached {
                Option::Some(v) => {
                    proof {
                        let ci2 = choose|c2: int|
                            0 <= c2 < ds0.chunks@.len() && (#[trigger] ds0.chunks@[c2]).addr
                                == addr && chunk_in_file(file0, ds0, c2) && lru_contents(
                                self.cache,
                            )[addr] == decoded_chunk(file0, ds0, c2);
                        assert(ci2 == ci) by {
                            if ci2 < ci {
                                assert(ds0.chunks@[ci2].addr != ds0.chunks@[ci].addr);
                            } else if ci < ci2 {
                                assert(ds0.chunks@[ci].addr != ds0.chunks@[ci2].addr);
                            }
                        }
                        assert(v@ == decoded_chunk(file0, ds0, ci));
                        assert(chunk_in_file(file0, ds0, ci));
                        assert(v@.len() == ds0.chunks@[ci].size);
                    }
                    copy_into(&mut buf, dst_off, &v, src_off, run_bytes);
                },
                Option::None => {
                    if addr > self.file.len() as u64 || csize > self.file.len() as u64 - addr {
                        proof {
                            assert(!chunk_in_file(file0, ds0, ci));
                            assert(ds0.src_chunk(inds, cnts, s.dst_start as int) == ci);
                            assert(s.dst_start < prod(cnts));
                            assert(!request_in_file(file0, ds0, inds, cnts));
                        }
                        return Err(Error::IOError);
                    }
                    let raw = sub_vec(&self.file, addr as usize, (addr + csize) as usize);
                    let decoded = if self.ds.shuffle {
                        proof {
                            assert(raw@.len() == ds0.chunk_elems() * ds0.dsz());
                            lemma_mod_multiples_basic(ds0.chunk_elems() as int, ds0.dsz() as int);
                        }
                        match unshuffle_sized(&raw, dsz) {
                            Ok(v) => v,
                            Err(_) => {
                                proof {
                                    assert(false);
                                }
                                return Err(Error::FilterError);
                            },
                        }
                    } else {
                        raw
                    };
                    assert(decoded@ == decoded_chunk(file0, ds0, ci));
                    assert(decoded@.len() == ds0.chunks@[ci].size);
                    copy_into(&mut buf, dst_off, &decoded, src_off, run_bytes);
                    lru_put(&mut self.cache, addr, decoded);
                    proof {
                        assert forall|k: u64|
                            #[trigger] lru_contents(self.cache).contains_key(k) implies exists|
                            c2: int,
                        |
                            0 <= c2 < self.ds.chunks@.len() && (#[trigger] self.ds.chunks@[c2]).addr
                                == k && chunk_in_file(self.file@, self.ds, c2) && lru_contents(
                                self.cache,
                            )[k] == decoded_chunk(self.file@, self.ds, c2) by {
                            if k == addr {
                                assert(0 <= ci < self.ds.chunks@.len() && (
                                self.ds.chunks@[ci]).addr == k && chunk_in_file(
                                    self.file@,
                                    self.ds,
                                    ci,
                                ) && lru_contents(self.cache)[k] == decoded_chunk(
                                    self.file@,
                                    self.ds,
                                    ci,
                                ));
                            } else {
                                assert(lru_contents(entry_cache).contains_key(k));
                                let c2 = choose|c2: int|
                                    0 <= c2 < ds0.chunks@.len() && (
                                    #[trigger] ds0.chunks@[c2]).addr == k && chunk_in_file(
                                        file0,
                                        ds0,
                                        c2,
                                    ) && lru_contents(entry_cache)[k] == decoded_chunk(
                                        file0,
                                        ds0,
                                        c2,
                                    );
                                assert(0 <= c2 < self.ds.chunks@.len() && (
                                self.ds.chunks@[c2]).addr == k && chunk_in_file(
                                    self.file@,
                                    self.ds,
                                    c2,
                                ) && lru_contents(self.cache)[k] == decoded_chunk(
                                    self.file@,
                                    self.ds,
                                    c2,
                                ));
                            }
                        }
                    }
                },
            }
            proof {
                let sl = slices@[t as int];
                assert forall|b: int|
                    0 <= b < sl.dst_end * (dsz as int) implies buf@[b] == read_spec(
                    file0,
                    ds0,
                    inds,
                    cnts,
                )[b] by {
                    if b < done * (dsz as int) {
                        assert(!(dst_off <= b < dst_off + run_bytes)) by (nonlinear_arith)
                            requires
                                b < done * (dsz as int),
                                dst_off == sl.dst_start * (dsz as int),
                                done == sl.dst_start,
                        ;
                    } else {
                        let t2 = b - sl.dst_start * (dsz as int);
                        assert(0 <= t2 < (sl.dst_end - sl.dst_start) * (dsz as int))
                            by (nonlinear_arith)
                            requires
                                sl.dst_start * (dsz as int) <= b < sl.dst_end * (dsz as int),
                                t2 == b - sl.dst_start * (dsz as int),
                        ;
                        lemma_read_spec_byte(file0, ds0, inds, cnts, sl, t2);
                        assert(buf@[dst_off + t2] == decoded_chunk(file0, ds0, ci)[src_off + t2]);
                        assert(src_off + t2 == sl.chunk_start * (dsz as int) + t2);
                    }
                }
                assert forall|p: int| 0 <= p < sl.dst_end implies chunk_in_file(
                    file0,
                    ds0,
                    #[trigger] ds0.src_chunk(inds, cnts, p),
                ) by {
                    if p >= sl.dst_start {
                        assert(ds0.src_chunk(inds, cnts, p) == ci);
                    }
                }
            }
            t = t + 1;
        }
        proof {
            let done: int = if nslices == 0 {
                0
            } else {
                slices@[nslices - 1].dst_end as int
            };
            assert(done == prod(cnts));
            assert(buf@ =~= read_spec(file0, ds0, inds, cnts));
        }
        Ok(buf)
    }

    /// Serves a typed read as bytes: checks the caller's element width
    /// against the dataset's, reads the request, and normalizes the whole
    /// buffer to the host's native byte order in one pass.
    pub fn values_bytes(
        &mut self,
        expected_size: usize,
        indices: Option<&Vec<u64>>,
        counts: Option<&Vec<u64>>,
    ) -> (r: Result<Vec<u8>, Error>)
        requires
            old(self).wf(),
        ensures
            final(self).wf(),
            final(self).ds == old(self).ds,
            final(self).file == old(self).file,
            ({
                let ds = old(self).ds;
                let file = old(self).file@;
                let ind = ds.ext_indices(opt_view(indices));
                let cnt = ds.ext_counts(ind, opt_view(counts));
                match r {
                    Ok(buf) => {
                        &&& expected_size == ds.dtype.size_spec()
                        &&& ds.request_ok(opt_view(indices), opt_view(counts))
                        &&& request_in_file(file, ds, ind, cnt)
                        &&& buf@ == to_native_spec(
                            read_spec(file, ds, ind, cnt),
                            ds.order,
                            ds.dsz(),
                        )
                    },
                    Err(e) => {
                        ||| (e == Error::TypeMismatch && expected_size != ds.dtype.size_spec())
                        ||| (e == Error::InvalidRequest && expected_size == ds.dtype.size_spec()
                            && !ds.request_ok(opt_view(indices), opt_view(counts)))
                        ||| (e == Error::IOError && expected_size == ds.dtype.size_spec()
                            && ds.request_ok(opt_view(indices), opt_view(counts))
                            && !request_in_file(file, ds, ind, cnt))
                    },
                }
            }),
    {
        if expected_size != self.ds.dtype.size() {
            return Err(Error::TypeMismatch);
        }
        let buf = match self.read(indices, counts) {
            Ok(b) => b,
            Err(e) => {
                return Err(e);
            },
        };
        proof {
            lemma_mod_multiples_basic(
                prod(old(self).ds.ext_counts(
                    old(self).ds.ext_indices(opt_view(indices)),
                    opt_view(counts),
                )) as int,
                old(self).ds.dsz() as int,
            );
        }
        match to_native(buf, self.ds.order, expected_size) {
            Ok(v) => Ok(v),
            Err(_) => {
                proof {
                    assert(false);
                }
                Err(Error::FilterError)
            },
        }
    }
}

} // verus!
