//! The immutable chunk table of a dataset.
//!
//! A dataset's metadata names its shape, chunk shape, element type, stored
//! byte order, shuffle flag, and one chunk descriptor per block of the
//! chunk grid, in row-major grid order.  Well-formed metadata partitions
//! the logical array into axis-aligned blocks: every element lies in
//! exactly one chunk, and the chunk holding a coordinate is found by plain
//! index arithmetic.

use vstd::prelude::*;
use vstd::arithmetic::div_mod::*;
use vstd::arithmetic::mul::*;
use crate::byteorder::Order;
use crate::errors::Error;
use crate::extent::{
    prod, rm_index, coords_of, coords_exec, lemma_coords_of, lemma_prod_pointwise_le,
    lemma_prod_pos_all, lemma_prod_skip_le, lemma_rm_bound, lemma_rm_coords_inverse,
    lemma_rm_update_last, lemma_div_in_block,
};

verus! {

/// The element type of a dataset: an integer, unsigned integer or floating
/// point element of the given width in bytes.
#[derive(Clone, Copy, Debug, PartialEq, Eq, Structural)]
pub enum Datatype {
    Int(usize),
    UInt(usize),
    Float(usize),
}

impl Datatype {
    /// The width of one element in bytes.
    pub open spec fn size_spec(self) -> usize {
        match self {
            Datatype::Int(n) => n,
            Datatype::UInt(n) => n,
            Datatype::Float(n) => n,
        }
    }

    /// The width of one element in bytes.
    pub fn size(&self) -> (s: usize)
        ensures
            s == self.size_spec(),
    {
        match self {
            Datatype::Int(n) => *n,
            Datatype::UInt(n) => *n,
            Datatype::Float(n) => *n,
        }
    }
}

/// The element widths the library has typed-read handlers for.
pub open spec fn size_supported(dtype: Datatype) -> bool {
    dtype.size_spec() == 1 || dtype.size_spec() == 2 || dtype.size_spec() == 4
        || dtype.size_spec() == 8
}

/// One stored chunk: its byte address and stored length in the file, and
/// the logical coordinate of its origin.
#[derive(Debug)]
pub struct Chunk {
    pub addr: u64,
    pub size: u64,
    pub offset: Vec<u64>,
}

/// The per-axis block count of the chunk grid: the shape divided by the
/// chunk shape, rounded up.
pub open spec fn grid_of(shape: Seq<u64>, chunk_shape: Seq<u64>) -> Seq<u64> {
    Seq::new(shape.len(), |d: int| (((shape[d] + chunk_shape[d] - 1) as int) / (
    chunk_shape[d] as int)) as u64)
}

/// Immutable metadata of one dataset.
#[derive(Debug)]
pub struct Dataset {
    pub shape: Vec<u64>,
    pub chunk_shape: Vec<u64>,
    pub dtype: Datatype,
    pub order: Order,
    pub shuffle: bool,
    pub chunks: Vec<Chunk>,
}

impl Dataset {
    /// The number of axes.
    pub open spec fn ndim(self) -> int {
        self.shape@.len() as int
    }

    /// The width of one element in bytes.
    pub open spec fn dsz(self) -> nat {
        self.dtype.size_spec() as nat
    }

    /// The number of elements of one (full) chunk.
    pub open spec fn chunk_elems(self) -> nat {
        prod(self.chunk_shape@)
    }

    /// The per-axis block count of the chunk grid.
    pub open spec fn grid(self) -> Seq<u64> {
        grid_of(self.shape@, self.chunk_shape@)
    }

    /// Well-formed metadata: positive extents, bounded products, and one
    /// full-sized chunk per grid block, in row-major grid order, at
    /// pairwise distinct addresses.
    pub open spec fn wf(self) -> bool {
        &&& self.shape@.len() >= 1
        &&& self.chunk_shape@.len() == self.shape@.len()
        &&& (forall|d: int| 0 <= d < self.ndim() ==> self.shape@[d] >= 1)
        &&& (forall|d: int| 0 <= d < self.ndim() ==> self.chunk_shape@[d] >= 1)
        &&& 1 <= self.dsz()
        &&& prod(self.shape@) * self.dsz() <= usize::MAX
        &&& self.chunk_elems() * self.dsz() <= usize::MAX
        &&& self.chunks@.len() == prod(self.grid())
        &&& self.chunks@.len() <= usize::MAX
        &&& (forall|i: int| 0 <= i < self.chunks@.len() ==> (#[trigger] self.chunks@[i]).offset@
            == self.chunk_origin(i))
        &&& (forall|i: int| 0 <= i < self.chunks@.len() ==> (#[trigger] self.chunks@[i]).size
            == self.chunk_elems() * self.dsz())
        &&& (forall|i: int| 0 <= i < self.chunks@.len() ==> (#[trigger] self.chunks@[i]).addr
            + self.chunks@[i].size <= u64::MAX)
        &&& (forall|i: int, j: int| 0 <= i < j < self.chunks@.len() ==> self.chunks@[i].addr
            != self.chunks@[j].addr)
    }

    /// The logical origin of the chunk at row-major grid index `i`.
    pub open spec fn chunk_origin(self, i: int) -> Seq<u64> {
        Seq::new(
            self.shape@.len(),
            |d: int| ((coords_of(i as nat, self.grid())[d] as nat) * (
            self.chunk_shape@[d] as nat)) as u64,
        )
    }

    /// A request names, per axis, a start index and a count that stay
    /// inside the shape.
    pub open spec fn valid_request(self, ind: Seq<u64>, cnt: Seq<u64>) -> bool {
        &&& ind.len() == self.ndim()
        &&& cnt.len() == self.ndim()
        &&& (forall|d: int| 0 <= d < self.ndim() ==> ind[d] + cnt[d] <= self.shape@[d])
    }

    /// Start indices extended to every axis: missing trailing axes start
    /// at zero.
    pub open spec fn ext_indices(self, ind: Seq<u64>) -> Seq<u64> {
        Seq::new(
            self.shape@.len(),
            |d: int|
                if d < ind.len() {
                    ind[d]
                } else {
                    0u64
                },
        )
    }

    /// Counts extended to every axis: a missing trailing axis covers the
    /// full remaining extent of its dimension.
    pub open spec fn ext_counts(self, ind_e: Seq<u64>, cnt: Seq<u64>) -> Seq<u64> {
        Seq::new(
            self.shape@.len(),
            |d: int|
                if d < cnt.len() {
                    cnt[d]
                } else {
                    (self.shape@[d] - ind_e[d]) as u64
                },
        )
    }

    /// A possibly partial request is acceptable when it has no more axes
    /// than the dataset and its extension stays inside the shape.
    pub open spec fn request_ok(self, ind: Seq<u64>, cnt: Seq<u64>) -> bool {
        &&& ind.len() <= self.ndim()
        &&& cnt.len() <= self.ndim()
        &&& self.valid_request(
            self.ext_indices(ind),
            self.ext_counts(self.ext_indices(ind), cnt),
        )
    }

    /// The grid coordinates of the chunk holding the absolute coordinate
    /// `abs`.
    pub open spec fn gcoords(self, abs: Seq<u64>) -> Seq<u64> {
        Seq::new(
            self.shape@.len(),
            |d: int| (((abs[d] as nat) / (self.chunk_shape@[d] as nat)) as u64),
        )
    }

    /// The in-chunk coordinates of the absolute coordinate `abs`.
    pub open spec fn wcoords(self, abs: Seq<u64>) -> Seq<u64> {
        Seq::new(
            self.shape@.len(),
            |d: int| (((abs[d] as nat) % (self.chunk_shape@[d] as nat)) as u64),
        )
    }

    /// The row-major grid index of the chunk holding `abs`.
    pub open spec fn chunk_idx_of(self, abs: Seq<u64>) -> int {
        rm_index(self.gcoords(abs), self.grid()) as int
    }

    /// The row-major element offset of `abs` inside its chunk's native
    /// layout.
    pub open spec fn chunk_off_of(self, abs: Seq<u64>) -> nat {
        rm_index(self.wcoords(abs), self.chunk_shape@)
    }

    /// The absolute coordinate of the point with flat index `p` of the
    /// requested region.
    pub open spec fn abs_of(self, ind: Seq<u64>, cnt: Seq<u64>, p: int) -> Seq<u64> {
        Seq::new(self.shape@.len(), |d: int| ((ind[d] + coords_of(p as nat, cnt)[d]) as u64))
    }

    /// The chunk that destination element `p` of the request is read from.
    pub open spec fn src_chunk(self, ind: Seq<u64>, cnt: Seq<u64>, p: int) -> int {
        self.chunk_idx_of(self.abs_of(ind, cnt, p))
    }

    /// The element offset inside that chunk that destination element `p`
    /// of the request is read from.
    pub open spec fn src_off(self, ind: Seq<u64>, cnt: Seq<u64>, p: int) -> nat {
        self.chunk_off_of(self.abs_of(ind, cnt, p))
    }
}

/// The sequence a request option stands for: the named axes, or none.
pub open spec fn opt_view(o: Option<&Vec<u64>>) -> Seq<u64> {
    match o {
        Option::Some(v) => v@,
        Option::None => Seq::empty(),
    }
}

/// Per-axis facts about the grid: the grid covers the shape and nothing
/// below it, and every in-bounds coordinate falls in a grid block.
pub proof fn lemma_grid_axis(a: u64, c: u64)
    requires
        a >= 1,
        c >= 1,
    ensures
        ((a + c - 1) as int) / (c as int) >= 1,
        ((a + c - 1) as int) / (c as int) <= a,
        a <= (((a + c - 1) as int) / (c as int)) * (c as int),
        (c as int) * ((((a + c - 1) as int) / (c as int)) - 1) < a,
{
    let s = (a + c - 1) as int;
    let g = s / (c as int);
    lemma_fundamental_div_mod(s, c as int);
    lemma_mod_pos_bound(s, c as int);
    assert(s == (c as int) * g + s % (c as int));
    assert(g >= 1) by {
        if g <= 0 {
            assert((c as int) * g <= 0) by (nonlinear_arith)
                requires
                    g <= 0,
                    c >= 1,
            ;
        }
    }
    assert(a <= g * (c as int)) by {
        assert((c as int) * g == s - s % (c as int));
        assert(s % (c as int) <= c - 1);
        assert((c as int) * g == g * (c as int)) by (nonlinear_arith);
    }
    assert((c as int) * (g - 1) < a) by {
        assert((c as int) * (g - 1) == (c as int) * g - (c as int)) by (nonlinear_arith);
    }
    assert(g <= a) by {
        if g > a {
            assert(g * (c as int) >= (a + 1) * (c as int)) by (nonlinear_arith)
                requires
                    g >= a + 1,
                    c >= 1,
            ;
            assert((a + 1) * (c as int) >= a + c) by (nonlinear_arith)
                requires
                    a >= 1,
                    c >= 1,
            ;
            assert((c as int) * g == g * (c as int)) by (nonlinear_arith);
            assert((c as int) * g <= s);
        }
    }
}

/// An in-bounds coordinate's grid coordinate is an in-bounds grid index.
pub proof fn lemma_gcoord_lt(x: u64, a: u64, c: u64)
    requires
        c >= 1,
        a >= 1,
        x < a,
    ensures
        ((x as int) / (c as int)) < ((a + c - 1) as int) / (c as int),
{
    let g = ((a + c - 1) as int) / (c as int);
    lemma_grid_axis(a, c);
    assert(x < g * (c as int));
    assert(x < (c as int) * g) by (nonlinear_arith)
        requires
            (x as int) < g * (c as int),
    ;
    lemma_multiply_divide_lt(x as int, c as int, g);
}

impl Dataset {
    /// The chunk found for an in-bounds coordinate exists, starts at or
    /// before the coordinate on every axis, and holds it strictly inside
    /// its extent.
    pub proof fn lemma_chunk_at(self, abs: Seq<u64>)
        requires
            self.wf(),
            abs.len() == self.ndim(),
            forall|d: int| 0 <= d < self.ndim() ==> abs[d] < self.shape@[d],
        ensures
            0 <= self.chunk_idx_of(abs) < self.chunks@.len(),
            forall|d: int| 0 <= d < self.ndim() ==> (#[trigger] self.gcoords(abs)[d])
                < self.grid()[d],
            forall|d: int| 0 <= d < self.ndim() ==> (#[trigger] self.wcoords(abs)[d])
                < self.chunk_shape@[d],
            forall|d: int| 0 <= d < self.ndim()
                ==> (#[trigger] self.chunks@[self.chunk_idx_of(abs)].offset@[d]) + self.wcoords(
                abs,
            )[d] == abs[d],
            self.chunk_off_of(abs) < self.chunk_elems(),
    {
        let g = self.gcoords(abs);
        let w = self.wcoords(abs);
        let gr = self.grid();
        assert forall|d: int| 0 <= d < self.ndim() implies #[trigger] g[d] < gr[d] by {
            lemma_gcoord_lt(abs[d], self.shape@[d], self.chunk_shape@[d]);
            lemma_grid_axis(self.shape@[d], self.chunk_shape@[d]);
            lemma_div_nonincreasing(abs[d] as int, self.chunk_shape@[d] as int);
        }
        assert forall|d: int| 0 <= d < self.ndim() implies (#[trigger] w[d] < self.chunk_shape@[d])
            && (g[d] as nat) * (self.chunk_shape@[d] as nat) + w[d] == abs[d] by {
            let c = self.chunk_shape@[d] as int;
            lemma_fundamental_div_mod(abs[d] as int, c);
            lemma_mod_pos_bound(abs[d] as int, c);
            assert((c as int) * ((abs[d] as int) / c) == ((abs[d] as int) / c) * c)
                by (nonlinear_arith);
        }
        lemma_rm_bound(g, gr);
        let ci = self.chunk_idx_of(abs);
        assert(0 <= ci < prod(gr));
        lemma_rm_coords_inverse(g, gr);
        assert(coords_of(ci as nat, gr) == g);
        assert forall|d: int| 0 <= d < self.ndim() implies (#[trigger] self.chunks@[ci].offset@[d])
            + w[d] == abs[d] by {
            assert(self.chunks@[ci].offset@ == self.chunk_origin(ci));
            assert(self.chunk_origin(ci)[d] == ((coords_of(ci as nat, gr)[d] as nat) * (
            self.chunk_shape@[d] as nat)) as u64);
        }
        lemma_rm_bound(w, self.chunk_shape@);
    }

    /// Within one row of one chunk, stepping the innermost coordinate
    /// keeps the chunk and advances the in-chunk offset in step.
    pub proof fn lemma_chunk_step(self, abs: Seq<u64>, j: nat)
        requires
            self.wf(),
            abs.len() == self.ndim(),
            forall|d: int| 0 <= d < self.ndim() ==> abs[d] < self.shape@[d],
            self.wcoords(abs)[self.ndim() - 1] + j < self.chunk_shape@[self.ndim() - 1],
            abs[self.ndim() - 1] + j < self.shape@[self.ndim() - 1],
        ensures
            self.chunk_idx_of(abs.update(self.ndim() - 1, (abs[self.ndim() - 1] + j) as u64))
                == self.chunk_idx_of(abs),
            self.chunk_off_of(abs.update(self.ndim() - 1, (abs[self.ndim() - 1] + j) as u64))
                == self.chunk_off_of(abs) + j,
    {
        let last = self.ndim() - 1;
        let abs2 = abs.update(last, (abs[last] + j) as u64);
        let c = self.chunk_shape@[last] as nat;
        self.lemma_chunk_at(abs);
        lemma_div_in_block(abs[last] as nat, j, c);
        assert(self.gcoords(abs2) =~= self.gcoords(abs));
        assert(self.wcoords(abs2) =~= self.wcoords(abs).update(
            last,
            (self.wcoords(abs)[last] + j) as u64,
        ));
        assert forall|d: int| 0 <= d < self.ndim() implies #[trigger] self.wcoords(abs)[d]
            < self.chunk_shape@[d] by {}
        lemma_rm_update_last(self.wcoords(abs), self.chunk_shape@, j);
    }

    /// A valid request's per-axis counts never exceed the shape, so all
    /// its suffix products fit the machine.
    pub proof fn lemma_request_prods(self, ind: Seq<u64>, cnt: Seq<u64>)
        requires
            self.wf(),
            self.valid_request(ind, cnt),
        ensures
            prod(cnt) <= prod(self.shape@),
            forall|k: int| 0 <= k <= cnt.len() ==> prod(#[trigger] cnt.skip(k)) <= u64::MAX,
    {
        assert forall|d: int| 0 <= d < cnt.len() implies cnt[d] <= self.shape@[d] by {}
        lemma_prod_pointwise_le(cnt, self.shape@);
        assert(self.dsz() >= 1);
        assert(prod(self.shape@) * self.dsz() >= prod(self.shape@)) by (nonlinear_arith)
            requires
                self.dsz() >= 1,
                prod(self.shape@) >= 0,
        ;
        assert(prod(self.shape@) <= usize::MAX);
        assert forall|k: int| 0 <= k <= cnt.len() implies prod(#[trigger] cnt.skip(k))
            <= u64::MAX by {
            assert forall|m: int| 0 <= m < cnt.skip(k).len() implies #[trigger] cnt.skip(k)[m]
                <= self.shape@.skip(k)[m] by {
                assert(cnt.skip(k)[m] == cnt[m + k]);
                assert(self.shape@.skip(k)[m] == self.shape@[m + k]);
            }
            lemma_prod_pointwise_le(cnt.skip(k), self.shape@.skip(k));
            lemma_prod_skip_le(self.shape@, k);
        }
    }

    /// All suffix products of the chunk shape fit the machine.
    pub proof fn lemma_chunk_prods(self)
        requires
            self.wf(),
        ensures
            forall|k: int| 0 <= k <= self.chunk_shape@.len() ==> prod(
                #[trigger] self.chunk_shape@.skip(k),
            ) <= u64::MAX,
            forall|k: int| 0 <= k <= self.grid().len() ==> prod(#[trigger] self.grid().skip(k))
                <= u64::MAX,
    {
        assert(self.chunk_elems() * self.dsz() >= self.chunk_elems()) by (nonlinear_arith)
            requires
                self.dsz() >= 1,
                self.chunk_elems() >= 0,
        ;
        assert forall|k: int| 0 <= k <= self.chunk_shape@.len() implies prod(
            #[trigger] self.chunk_shape@.skip(k),
        ) <= u64::MAX by {
            lemma_prod_skip_le(self.chunk_shape@, k);
        }
        let gr = self.grid();
        assert forall|d: int| 0 <= d < gr.len() implies gr[d] >= 1 by {
            lemma_grid_axis(self.shape@[d], self.chunk_shape@[d]);
            assert(((self.shape@[d] + self.chunk_shape@[d] - 1) as int) / (
            self.chunk_shape@[d] as int) <= self.shape@[d]);
        }
        assert forall|k: int| 0 <= k <= gr.len() implies prod(#[trigger] gr.skip(k))
            <= u64::MAX by {
            assert forall|d: int| 0 <= d < gr.skip(k).len() implies #[trigger] gr.skip(k)[d]
                >= 1 by {
                assert(gr.skip(k)[d] == gr[d + k]);
            }
            lemma_prod_skip_le(gr, k);
            assert(prod(gr) == self.chunks@.len());
        }
    }
}

/// A product stays within `m` exactly when one factor stays within `m`
/// divided by the other.
pub proof fn lemma_div_mul_bound(a: nat, b: nat, m: nat)
    requires
        a >= 1,
    ensures
        (b <= m / a) <==> (a * b <= m),
{
    lemma_fundamental_div_mod(m as int, a as int);
    lemma_mod_pos_bound(m as int, a as int);
    if b <= m / a {
        lemma_mul_inequality(b as int, (m / a) as int, a as int);
        assert(b * a <= (m / a) * a);
        assert((m / a) * a == (a as int) * ((m as int) / (a as int))) by (nonlinear_arith);
        assert((a as int) * ((m as int) / (a as int)) <= m);
        assert(a * b == b * a) by (nonlinear_arith);
    }
    if a * b <= m {
        lemma_div_multiples_vanish(b as int, a as int);
        assert(((a as int) * (b as int)) / (a as int) == b);
        lemma_div_is_ordered((a * b) as int, m as int, a as int);
    }
}

/// The product of positive extents, or nothing when it exceeds the
/// machine's range.
#[verifier::loop_isolation(false)]
pub fn checked_prod(dims: &Vec<u64>) -> (r: Option<u64>)
    requires
        forall|d: int| 0 <= d < dims@.len() ==> dims@[d] >= 1,
    ensures
        match r {
            Option::Some(p) => p == prod(dims@),
            Option::None => prod(dims@) > u64::MAX,
        },
{
    let mut k: usize = dims.len();
    let mut acc: u64 = 1;
    assert(dims@.skip(k as int) =~= Seq::<u64>::empty());
    while k > 0
        invariant
            0 <= k <= dims.len(),
            acc == prod(dims@.skip(k as int)),
        decreases k,
    {
        let a = dims[k - 1];
        proof {
            assert(dims@.skip(k as int - 1).skip(1) =~= dims@.skip(k as int));
            assert(dims@.skip(k as int - 1)[0] == dims@[k as int - 1]);
            assert(prod(dims@.skip(k as int - 1)) == (a as nat) * prod(dims@.skip(k as int)));
            lemma_div_mul_bound(a as nat, acc as nat, u64::MAX as nat);
        }
        if acc > u64::MAX / a {
            proof {
                assert(prod(dims@.skip(k as int - 1)) > u64::MAX);
                assert forall|d: int| 0 <= d < dims@.skip(k as int - 1).len() implies
                    #[trigger] dims@.skip(k as int - 1)[d] >= 1 by {
                    assert(dims@.skip(k as int - 1)[d] == dims@[d + k - 1]);
                }
                lemma_prod_skip_le(dims@, k as int - 1);
            }
            return Option::None;
        }
        acc = a * acc;
        k = k - 1;
    }
    assert(dims@.skip(0) =~= dims@);
    Option::Some(acc)
}

/// Acceptable construction inputs: positive extents whose products fit the
/// machine, and one address per grid block, pairwise distinct, each chunk's
/// stored bytes ending within the addressable range.
pub open spec fn structure_ok(
    shape: Seq<u64>,
    chunk_shape: Seq<u64>,
    dsz: nat,
    addrs: Seq<u64>,
) -> bool {
    &&& shape.len() >= 1
    &&& chunk_shape.len() == shape.len()
    &&& (forall|d: int| 0 <= d < shape.len() ==> shape[d] >= 1)
    &&& (forall|d: int| 0 <= d < shape.len() ==> chunk_shape[d] >= 1)
    &&& prod(shape) * dsz <= usize::MAX
    &&& prod(chunk_shape) * dsz <= usize::MAX
    &&& addrs.len() == prod(grid_of(shape, chunk_shape))
    &&& (forall|i: int, j: int| 0 <= i < j < addrs.len() ==> addrs[i] != addrs[j])
    &&& (forall|i: int| 0 <= i < addrs.len() ==> #[trigger] addrs[i] + prod(chunk_shape) * dsz
        <= u64::MAX)
}

/// The closed form of a rounded-up division.
proof fn lemma_ceil_div_form(a: u64, c: u64)
    requires
        a >= 1,
        c >= 1,
    ensures
        ((a + c - 1) as int) / (c as int) == (a as int) / (c as int) + if (a as int) % (c as int)
            != 0 {
            1int
        } else {
            0int
        },
{
    let q = (a as int) / (c as int);
    let r = (a as int) % (c as int);
    lemma_fundamental_div_mod(a as int, c as int);
    lemma_mod_pos_bound(a as int, c as int);
    if r == 0 {
        assert(a + c - 1 == q * (c as int) + (c - 1)) by {
            assert((c as int) * q == q * (c as int)) by (nonlinear_arith);
        }
        lemma_fundamental_div_mod_converse((a + c - 1) as int, c as int, q, (c - 1) as int);
    } else {
        assert(a + c - 1 == (q + 1) * (c as int) + (r - 1)) by {
            assert((q + 1) * (c as int) == q * (c as int) + (c as int)) by (nonlinear_arith);
            assert((c as int) * q == q * (c as int)) by (nonlinear_arith);
        }
        lemma_fundamental_div_mod_converse((a + c - 1) as int, c as int, q + 1, r - 1);
    }
}

/// The per-axis block counts of the chunk grid, as machine integers.
#[verifier::loop_isolation(false)]
pub fn grid_exec(shape: &Vec<u64>, chunk_shape: &Vec<u64>) -> (g: Vec<u64>)
    requires
        shape.len() == chunk_shape.len(),
        forall|d: int| 0 <= d < shape@.len() ==> shape@[d] >= 1,
        forall|d: int| 0 <= d < shape@.len() ==> chunk_shape@[d] >= 1,
    ensures
        g@ == grid_of(shape@, chunk_shape@),
{
    let ndim = shape.len();
    let mut grid: Vec<u64> = Vec::new();
    let mut d: usize = 0;
    while d < ndim
        invariant
            0 <= d <= ndim,
            grid@.len() == d,
            forall|m: int| 0 <= m < d ==> grid@[m] == grid_of(shape@, chunk_shape@)[m],
        decreases ndim - d,
    {
        let q = shape[d] / chunk_shape[d];
        let rm = shape[d] % chunk_shape[d];
        proof {
            lemma_ceil_div_form(shape[d as int], chunk_shape[d as int]);
            lemma_grid_axis(shape[d as int], chunk_shape[d as int]);
            lemma_div_nonincreasing(shape[d as int] as int, chunk_shape[d as int] as int);
        }
        let g = if rm != 0 {
            q + 1
        } else {
            q
        };
        grid.push(g);
        d = d + 1;
    }
    assert(grid@ =~= grid_of(shape@, chunk_shape@));
    grid
}

/// Builds the immutable metadata of one dataset from its extents, element
/// type, stored order, shuffle flag, and the per-chunk stored addresses in
/// row-major grid order; every chunk is full-sized.  The grid origins and
/// stored sizes are derived here, so a successful result is well formed.
#[verifier::loop_isolation(false)]
#[verifier::rlimit(30)]
pub fn build(
    shape: Vec<u64>,
    chunk_shape: Vec<u64>,
    dtype: Datatype,
    order: Order,
    shuffle: bool,
    addrs: Vec<u64>,
) -> (r: Result<Dataset, Error>)
    ensures
        match r {
            Ok(ds) => {
                &&& size_supported(dtype)
                &&& structure_ok(shape@, chunk_shape@, dtype.size_spec() as nat, addrs@)
                &&& ds.wf()
                &&& ds.shape@ == shape@
                &&& ds.chunk_shape@ == chunk_shape@
                &&& ds.dtype == dtype
                &&& ds.order == order
                &&& ds.shuffle == shuffle
                &&& ds.chunks@.len() == addrs@.len()
                &&& (forall|i: int| 0 <= i < addrs@.len() ==> (#[trigger] ds.chunks@[i]).addr
                    == addrs@[i])
            },
            Err(e) => {
                &&& !(size_supported(dtype) && structure_ok(
                    shape@,
                    chunk_shape@,
                    dtype.size_spec() as nat,
                    addrs@,
                ))
                &&& (e == Error::UnsupportedDatatype <==> !size_supported(dtype))
                &&& (size_supported(dtype) ==> e == Error::InvalidRequest)
            },
        },
{
    let dsz = dtype.size();
    if !(dsz == 1 || dsz == 2 || dsz == 4 || dsz == 8) {
        return Err(Error::UnsupportedDatatype);
    }
    if shape.len() == 0 || chunk_shape.len() != shape.len() {
        return Err(Error::InvalidRequest);
    }
    let ndim = shape.len();
    let mut d: usize = 0;
    while d < ndim
        invariant
            0 <= d <= ndim,
            forall|m: int| 0 <= m < d ==> shape@[m] >= 1 && chunk_shape@[m] >= 1,
        decreases ndim - d,
    {
        if shape[d] == 0 || chunk_shape[d] == 0 {
            return Err(Error::InvalidRequest);
        }
        d = d + 1;
    }
    // total element count and bytes
    let total = match checked_prod(&shape) {
        Option::Some(p) => p,
        Option::None => {
            proof {
                assert(prod(shape@) * (dsz as nat) >= prod(shape@)) by (nonlinear_arith)
                    requires
                        dsz >= 1,
                        prod(shape@) >= 0,
                ;
            }
            return Err(Error::InvalidRequest);
        },
    };
    if total > usize::MAX as u64 / (dsz as u64) {
        proof {
            lemma_div_mul_bound(dsz as nat, total as nat, usize::MAX as nat);
            assert((dsz as nat) * (total as nat) == prod(shape@) * (dsz as nat))
                by (nonlinear_arith)
                requires
                    total == prod(shape@),
            ;
        }
        return Err(Error::InvalidRequest);
    }
    proof {
        lemma_div_mul_bound(dsz as nat, total as nat, usize::MAX as nat);
        assert((dsz as nat) * (total as nat) == prod(shape@) * (dsz as nat)) by (nonlinear_arith)
            requires
                total == prod(shape@),
        ;
    }
    // chunk element count and bytes
    let ce = match checked_prod(&chunk_shape) {
        Option::Some(p) => p,
        Option::None => {
            proof {
                assert(prod(chunk_shape@) * (dsz as nat) >= prod(chunk_shape@))
                    by (nonlinear_arith)
                    requires
                        dsz >= 1,
                        prod(chunk_shape@) >= 0,
                ;
            }
            return Err(Error::InvalidRequest);
        },
    };
    if ce > usize::MAX as u64 / (dsz as u64) {
        proof {
            lemma_div_mul_bound(dsz as nat, ce as nat, usize::MAX as nat);
            assert((dsz as nat) * (ce as nat) == prod(chunk_shape@) * (dsz as nat))
                by (nonlinear_arith)
                requires
                    ce == prod(chunk_shape@),
            ;
        }
        return Err(Error::InvalidRequest);
    }
    proof {
        lemma_div_mul_bound(dsz as nat, ce as nat, usize::MAX as nat);
        assert((dsz as nat) * (ce as nat) == prod(chunk_shape@) * (dsz as nat)) by (nonlinear_arith)
            requires
                ce == prod(chunk_shape@),
        ;
        assert((ce as nat) * (dsz as nat) == (dsz as nat) * (ce as nat)) by (nonlinear_arith);
    }
    let cb = ce * (dsz as u64);
    // the chunk grid, one rounded-up quotient per axis
    let mut grid: Vec<u64> = Vec::new();
    let mut d: usize = 0;
    while d < ndim
        invariant
            0 <= d <= ndim,
            grid@.len() == d,
            forall|m: int| 0 <= m < d ==> grid@[m] == grid_of(shape@, chunk_shape@)[m],
            forall|m: int| 0 <= m < d ==> grid@[m] >= 1,
        decreases ndim - d,
    {
        let q = shape[d] / chunk_shape[d];
        let rm = shape[d] % chunk_shape[d];
        proof {
            lemma_ceil_div_form(shape[d as int], chunk_shape[d as int]);
            lemma_grid_axis(shape[d as int], chunk_shape[d as int]);
            lemma_div_nonincreasing(shape[d as int] as int, chunk_shape[d as int] as int);
        }
        let g = if rm != 0 {
            q + 1
        } else {
            q
        };
        grid.push(g);
        d = d + 1;
    }
    assert(grid@ =~= grid_of(shape@, chunk_shape@));
    let n = addrs.len();
    let ngrid = match checked_prod(&grid) {
        Option::Some(p) => p,
        Option::None => {
            assert(addrs@.len() <= usize::MAX);
            return Err(Error::InvalidRequest);
        },
    };
    if n as u64 != ngrid {
        return Err(Error::InvalidRequest);
    }
    // pairwise distinct addresses, each chunk ending within range
    let mut i: usize = 0;
    while i < n
        invariant
            0 <= i <= n,
            forall|x: int, y: int| 0 <= x < y < i ==> addrs@[x] != addrs@[y],
            forall|x: int| 0 <= x < i ==> #[trigger] addrs@[x] + cb <= u64::MAX,
        decreases n - i,
    {
        if addrs[i] > u64::MAX - cb {
            return Err(Error::InvalidRequest);
        }
        let mut j: usize = 0;
        while j < i
            invariant
                0 <= j <= i < n,
                forall|y: int| 0 <= y < j ==> addrs@[y] != addrs@[i as int],
            decreases i - j,
        {
            if addrs[j] == addrs[i] {
                return Err(Error::InvalidRequest);
            }
            j = j + 1;
        }
        i = i + 1;
    }
    // one full-sized chunk per grid block, origins from the grid coordinates
    let mut chunks: Vec<Chunk> = Vec::new();
    let mut i: usize = 0;
    while i < n
        invariant
            0 <= i <= n,
            chunks@.len() == i,
            forall|x: int| 0 <= x < i ==> (#[trigger] chunks@[x]).addr == addrs@[x],
            forall|x: int| 0 <= x < i ==> (#[trigger] chunks@[x]).size == cb,
            forall|x: int| 0 <= x < i ==> (#[trigger] chunks@[x]).offset@ == Seq::new(
                shape@.len(),
                |dd: int| ((coords_of(x as nat, grid_of(shape@, chunk_shape@))[dd] as nat) * (
                chunk_shape@[dd] as nat)) as u64,
            ),
        decreases n - i,
    {
        proof {
            assert forall|k: int| 0 <= k <= grid@.len() implies prod(#[trigger] grid@.skip(k))
                <= u64::MAX by {
                lemma_prod_skip_le(grid@, k);
            }
            lemma_coords_of(i as nat, grid@);
        }
        let gc = coords_exec(i as u64, &grid);
        let mut org: Vec<u64> = Vec::new();
        let mut dd: usize = 0;
        while dd < ndim
            invariant
                0 <= dd <= ndim,
                org@.len() == dd,
                forall|m: int| 0 <= m < dd ==> org@[m] == ((gc@[m] as nat) * (
                chunk_shape@[m] as nat)) as u64,
            decreases ndim - dd,
        {
            proof {
                lemma_grid_axis(shape[dd as int], chunk_shape[dd as int]);
                assert(gc@[dd as int] < grid@[dd as int]);
                lemma_mul_inequality(
                    gc@[dd as int] as int,
                    grid@[dd as int] - 1,
                    chunk_shape@[dd as int] as int,
                );
                assert((grid@[dd as int] - 1) * (chunk_shape@[dd as int] as int) == (
                chunk_shape@[dd as int] as int) * (grid@[dd as int] - 1)) by (nonlinear_arith);
            }
            org.push(gc[dd] * chunk_shape[dd]);
            dd = dd + 1;
        }
        chunks.push(Chunk { addr: addrs[i], size: cb, offset: org });
        proof {
            assert(chunks@[i as int].offset@ =~= Seq::new(
                shape@.len(),
                |m: int| ((coords_of(i as nat, grid_of(shape@, chunk_shape@))[m] as nat) * (
                chunk_shape@[m] as nat)) as u64,
            ));
        }
        i = i + 1;
    }
    let ds = Dataset { shape, chunk_shape, dtype, order, shuffle, chunks };
    proof {
        assert forall|x: int| 0 <= x < ds.chunks@.len() implies (#[trigger] ds.chunks@[x]).offset@
            == ds.chunk_origin(x) by {
            assert(ds.chunks@[x].offset@ =~= ds.chunk_origin(x));
        }
        assert(ds.wf());
    }
    Ok(ds)
}

impl Dataset {
    /// The per-axis extent of the dataset.
    pub fn shape(&self) -> (s: &Vec<u64>)
        ensures
            s@ == self.shape@,
    {
        &self.shape
    }

    /// The per-axis extent of one chunk.
    pub fn chunk_shape(&self) -> (s: &Vec<u64>)
        ensures
            s@ == self.chunk_shape@,
    {
        &self.chunk_shape
    }

    /// The element type.
    pub fn dtype(&self) -> (d: Datatype)
        ensures
            d == self.dtype,
    {
        self.dtype
    }

    /// The number of elements of the dataset.
    pub fn size(&self) -> (n: usize)
        requires
            self.wf(),
        ensures
            n == prod(self.shape@),
    {
        proof {
            assert(self.shape@.skip(0) =~= self.shape@);
            assert forall|k: int| 0 <= k <= self.shape@.len() implies prod(
                #[trigger] self.shape@.skip(k),
            ) <= u64::MAX by {
                lemma_prod_skip_le(self.shape@, k);
                assert(prod(self.shape@) * self.dsz() >= prod(self.shape@)) by (nonlinear_arith)
                    requires
                        self.dsz() >= 1,
                        prod(self.shape@) >= 0,
                ;
            }
        }
        let n = crate::extent::prod_u64(&self.shape, 0);
        proof {
            assert(prod(self.shape@) * self.dsz() >= prod(self.shape@)) by (nonlinear_arith)
                requires
                    self.dsz() >= 1,
                    prod(self.shape@) >= 0,
            ;
        }
        n as usize
    }

    /// Extends a possibly partial request to every axis — missing start
    /// indices become zero, missing counts cover the full remaining extent
    /// — and validates it against the shape.
    #[verifier::loop_isolation(false)]
    pub fn extend_request(
        &self,
        indices: Option<&Vec<u64>>,
        counts: Option<&Vec<u64>>,
    ) -> (r: Result<(Vec<u64>, Vec<u64>), Error>)
        requires
            self.wf(),
        ensures
            match r {
                Ok(ic) => {
                    &&& self.request_ok(opt_view(indices), opt_view(counts))
                    &&& ic.0@ == self.ext_indices(opt_view(indices))
                    &&& ic.1@ == self.ext_counts(ic.0@, opt_view(counts))
                    &&& self.valid_request(ic.0@, ic.1@)
                },
                Err(e) => e == Error::InvalidRequest && !self.request_ok(
                    opt_view(indices),
                    opt_view(counts),
                ),
            },
    {
        let ndim = self.shape.len();
        let ghost gi = opt_view(indices);
        let ghost gc = opt_view(counts);
        let ilen = match indices {
            Option::Some(v) => v.len(),
            Option::None => 0,
        };
        let clen = match counts {
            Option::Some(v) => v.len(),
            Option::None => 0,
        };
        if ilen > ndim || clen > ndim {
            return Err(Error::InvalidRequest);
        }
        let mut ind: Vec<u64> = Vec::new();
        let mut d: usize = 0;
        while d < ndim
            invariant
                0 <= d <= ndim,
                ind@.len() == d,
                forall|m: int| 0 <= m < d ==> ind@[m] == self.ext_indices(gi)[m],
            decreases ndim - d,
        {
            let v = match indices {
                Option::Some(iv) => {
                    if d < iv.len() {
                        iv[d]
                    } else {
                        0
                    }
                },
                Option::None => 0,
            };
            ind.push(v);
            d = d + 1;
        }
        assert(ind@ =~= self.ext_indices(gi));
        let mut cnt: Vec<u64> = Vec::new();
        let mut d: usize = 0;
        while d < ndim
            invariant
                0 <= d <= ndim,
                cnt@.len() == d,
                ind@ == self.ext_indices(gi),
                forall|m: int| 0 <= m < d ==> cnt@[m] == self.ext_counts(ind@, gc)[m],
                forall|m: int| 0 <= m < d ==> ind@[m] + cnt@[m] <= self.shape@[m],
            decreases ndim - d,
        {
            let given = match counts {
                Option::Some(cv) => {
                    if d < cv.len() {
                        Option::Some(cv[d])
                    } else {
                        Option::None
                    }
                },
                Option::None => Option::None,
            };
            match given {
                Option::Some(c) => {
                    if ind[d] > self.shape[d] || c > self.shape[d] - ind[d] {
                        proof {
                            assert(self.ext_counts(ind@, gc)[d as int] == c);
                            assert(!self.valid_request(
                                self.ext_indices(gi),
                                self.ext_counts(self.ext_indices(gi), gc),
                            ));
                        }
                        return Err(Error::InvalidRequest);
                    }
                    cnt.push(c);
                },
                Option::None => {
                    if ind[d] > self.shape[d] {
                        proof {
                            assert(self.ext_counts(ind@, gc)[d as int] == ((self.shape@[d as int]
                                - ind@[d as int]) as u64));
                            assert(!self.valid_request(
                                self.ext_indices(gi),
                                self.ext_counts(self.ext_indices(gi), gc),
                            ));
                        }
                        return Err(Error::InvalidRequest);
                    }
                    cnt.push(self.shape[d] - ind[d]);
                },
            }
            d = d + 1;
        }
        assert(cnt@ =~= self.ext_counts(ind@, gc));
        Ok((ind, cnt))
    }
}

} // verus!
