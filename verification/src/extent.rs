//! Row-major index arithmetic over multi-dimensional extents.
//!
//! A point in a D-dimensional region is identified either by its per-axis
//! coordinates or by its flat row-major index; `rm_index` and `coords_of`
//! convert between the two, and the lemmas here establish that they are
//! inverse bijections on the region.

use vstd::prelude::*;
use vstd::arithmetic::div_mod::*;
use vstd::arithmetic::mul::*;

verus! {

/// The number of points in a region whose per-axis lengths are `dims`.
pub open spec fn prod(dims: Seq<u64>) -> nat
    decreases dims.len(),
{
    if dims.len() == 0 {
        1
    } else {
        (dims[0] as nat) * prod(dims.skip(1))
    }
}

/// The flat row-major index of the point `coords` in a region of per-axis
/// lengths `dims`.
pub open spec fn rm_index(coords: Seq<u64>, dims: Seq<u64>) -> nat
    decreases coords.len(),
{
    if coords.len() == 0 {
        0
    } else {
        (coords[0] as nat) * prod(dims.skip(1)) + rm_index(coords.skip(1), dims.skip(1))
    }
}

/// The per-axis coordinates of the point with flat row-major index `i` in a
/// region of per-axis lengths `dims`.
pub open spec fn coords_of(i: nat, dims: Seq<u64>) -> Seq<u64>
    decreases dims.len(),
{
    if dims.len() == 0 {
        Seq::empty()
    } else {
        seq![(i / prod(dims.skip(1))) as u64] + coords_of(i % prod(dims.skip(1)), dims.skip(1))
    }
}

/// Axes of positive length make a region with at least one point.
pub proof fn lemma_prod_all_pos(dims: Seq<u64>)
    requires
        forall|k: int| 0 <= k < dims.len() ==> dims[k] > 0,
    ensures
        prod(dims) > 0,
    decreases dims.len(),
{
    if dims.len() == 0 {
    } else {
        assert forall|k: int| 0 <= k < dims.skip(1).len() implies dims.skip(1)[k] > 0 by {
            assert(dims.skip(1)[k] == dims[k + 1]);
        }
        lemma_prod_all_pos(dims.skip(1));
        assert((dims[0] as nat) * prod(dims.skip(1)) > 0) by (nonlinear_arith)
            requires
                dims[0] > 0,
                prod(dims.skip(1)) > 0,
        ;
    }
}

/// A region with a point has only axes of positive length.
pub proof fn lemma_prod_pos_all(dims: Seq<u64>)
    requires
        prod(dims) > 0,
    ensures
        forall|k: int| 0 <= k < dims.len() ==> dims[k] > 0,
    decreases dims.len(),
{
    if dims.len() == 0 {
    } else {
        assert(dims[0] > 0 && prod(dims.skip(1)) > 0) by (nonlinear_arith)
            requires
                (dims[0] as nat) * prod(dims.skip(1)) > 0,
        ;
        lemma_prod_pos_all(dims.skip(1));
        assert forall|k: int| 0 <= k < dims.len() implies dims[k] > 0 by {
            if k > 0 {
                assert(dims.skip(1)[k - 1] == dims[k]);
            }
        }
    }
}

/// Dropping leading axes of positive length can only shrink the point count.
pub proof fn lemma_prod_skip_le(dims: Seq<u64>, k: int)
    requires
        0 <= k <= dims.len(),
        forall|j: int| 0 <= j < dims.len() ==> dims[j] >= 1,
    ensures
        prod(dims.skip(k)) <= prod(dims),
    decreases k,
{
    if k == 0 {
        assert(dims.skip(0) =~= dims);
    } else {
        lemma_prod_skip_le(dims, k - 1);
        assert(dims.skip(k - 1).skip(1) =~= dims.skip(k));
        assert(dims.skip(k - 1)[0] == dims[k - 1]);
        assert(prod(dims.skip(k - 1)) == (dims[k - 1] as nat) * prod(dims.skip(k)));
        assert((dims[k - 1] as nat) * prod(dims.skip(k)) >= prod(dims.skip(k))) by (nonlinear_arith)
            requires
                dims[k - 1] >= 1,
        ;
    }
}

/// A pointwise bound on the axis lengths bounds the point count.
pub proof fn lemma_prod_pointwise_le(a: Seq<u64>, b: Seq<u64>)
    requires
        a.len() == b.len(),
        forall|k: int| 0 <= k < a.len() ==> a[k] <= b[k],
    ensures
        prod(a) <= prod(b),
    decreases a.len(),
{
    if a.len() == 0 {
    } else {
        assert forall|k: int| 0 <= k < a.skip(1).len() implies a.skip(1)[k] <= b.skip(1)[k] by {
            assert(a.skip(1)[k] == a[k + 1]);
            assert(b.skip(1)[k] == b[k + 1]);
        }
        lemma_prod_pointwise_le(a.skip(1), b.skip(1));
        assert((a[0] as nat) * prod(a.skip(1)) <= (b[0] as nat) * prod(b.skip(1)))
            by (nonlinear_arith)
            requires
                0 <= a[0] <= b[0],
                0 <= prod(a.skip(1)) <= prod(b.skip(1)),
        ;
    }
}

/// An in-bounds point's row-major index lies below the point count; the
/// points that follow it on its own row fit below the count as well.
pub proof fn lemma_rm_bound(coords: Seq<u64>, dims: Seq<u64>)
    requires
        coords.len() == dims.len(),
        forall|k: int| 0 <= k < coords.len() ==> coords[k] < dims[k],
    ensures
        rm_index(coords, dims) < prod(dims),
        coords.len() > 0 ==> rm_index(coords, dims) + (dims[dims.len() - 1] - coords[coords.len()
            - 1]) <= prod(dims),
    decreases coords.len(),
{
    if coords.len() == 0 {
    } else {
        let c0 = coords[0] as nat;
        let d0 = dims[0] as nat;
        let p = prod(dims.skip(1));
        assert forall|k: int| 0 <= k < coords.skip(1).len() implies coords.skip(1)[k] < dims.skip(
            1,
        )[k] by {
            assert(coords.skip(1)[k] == coords[k + 1]);
            assert(dims.skip(1)[k] == dims[k + 1]);
        }
        lemma_rm_bound(coords.skip(1), dims.skip(1));
        let r = rm_index(coords.skip(1), dims.skip(1));
        if coords.len() == 1 {
            assert(r == 0 && p == 1);
            assert(rm_index(coords, dims) == c0 * 1);
            assert(c0 * 1 == c0) by (nonlinear_arith);
            assert(d0 * 1 == d0) by (nonlinear_arith);
            assert(prod(dims) == d0 * 1);
        } else {
            assert(dims.skip(1)[dims.skip(1).len() - 1] == dims[dims.len() - 1]);
            assert(coords.skip(1)[coords.skip(1).len() - 1] == coords[coords.len() - 1]);
            assert(r + (dims[dims.len() - 1] - coords[coords.len() - 1]) <= p);
            assert(c0 * p + p <= d0 * p) by (nonlinear_arith)
                requires
                    c0 < d0,
                    p >= 0,
            ;
            assert(prod(dims) == d0 * p);
        }
    }
}

/// For an index below the point count, `coords_of` yields in-bounds
/// coordinates and `rm_index` takes them back to the index.
pub proof fn lemma_coords_of(i: nat, dims: Seq<u64>)
    requires
        i < prod(dims),
    ensures
        coords_of(i, dims).len() == dims.len(),
        forall|k: int| 0 <= k < dims.len() ==> coords_of(i, dims)[k] < dims[k],
        rm_index(coords_of(i, dims), dims) == i,
    decreases dims.len(),
{
    if dims.len() == 0 {
    } else {
        let p = prod(dims.skip(1));
        lemma_prod_pos_all(dims);
        assert forall|k: int| 0 <= k < dims.skip(1).len() implies dims.skip(1)[k] > 0 by {
            assert(dims.skip(1)[k] == dims[k + 1]);
        }
        lemma_prod_all_pos(dims.skip(1));
        assert(p > 0);
        let q = i / p;
        let r = i % p;
        lemma_fundamental_div_mod(i as int, p as int);
        lemma_mod_pos_bound(i as int, p as int);
        assert(i < (dims[0] as nat) * p);
        lemma_multiply_divide_lt(i as int, p as int, dims[0] as int);
        assert((i as int) / (p as int) < dims[0]);
        assert(q < dims[0]);
        lemma_coords_of(r, dims.skip(1));
        let c = coords_of(i, dims);
        let t = coords_of(r, dims.skip(1));
        assert(c == seq![q as u64] + t);
        assert(c.len() == dims.len());
        assert(c[0] == q as u64);
        assert(c.skip(1) =~= t);
        assert forall|k: int| 0 <= k < dims.len() implies c[k] < dims[k] by {
            if k > 0 {
                assert(c[k] == t[k - 1]);
                assert(t[k - 1] < dims.skip(1)[k - 1]);
                assert(dims.skip(1)[k - 1] == dims[k]);
            }
        }
        assert(rm_index(c, dims) == (c[0] as nat) * p + rm_index(c.skip(1), dims.skip(1)));
        assert(rm_index(c.skip(1), dims.skip(1)) == r);
        assert(rm_index(c, dims) == q * p + r);
        assert(q * p == p * q) by (nonlinear_arith);
        assert(i == p * q + r);
    }
}

/// In-bounds coordinates are recovered from their row-major index.
pub proof fn lemma_rm_coords_inverse(coords: Seq<u64>, dims: Seq<u64>)
    requires
        coords.len() == dims.len(),
        forall|k: int| 0 <= k < coords.len() ==> coords[k] < dims[k],
    ensures
        coords_of(rm_index(coords, dims), dims) == coords,
    decreases coords.len(),
{
    if coords.len() == 0 {
        assert(coords_of(rm_index(coords, dims), dims) =~= coords);
    } else {
        let c0 = coords[0] as nat;
        let p = prod(dims.skip(1));
        assert forall|k: int| 0 <= k < coords.skip(1).len() implies coords.skip(1)[k] < dims.skip(
            1,
        )[k] by {
            assert(coords.skip(1)[k] == coords[k + 1]);
            assert(dims.skip(1)[k] == dims[k + 1]);
        }
        lemma_rm_bound(coords.skip(1), dims.skip(1));
        let r = rm_index(coords.skip(1), dims.skip(1));
        assert(r < p);
        let i = rm_index(coords, dims);
        assert(i == c0 * p + r);
        lemma_fundamental_div_mod_converse(i as int, p as int, c0 as int, r as int);
        assert(i % p == r) by {
            assert((i as int) % (p as int) == r);
        }
        assert(i / p == c0) by {
            assert((i as int) / (p as int) == c0);
        }
        lemma_rm_coords_inverse(coords.skip(1), dims.skip(1));
        assert(coords_of(i, dims) == seq![(i / p) as u64] + coords_of(i % p, dims.skip(1)));
        assert(coords_of(i % p, dims.skip(1)) == coords.skip(1));
        assert(coords_of(i, dims) =~= coords);
    }
}

/// Moving `j` places along the innermost axis moves the row-major index by
/// `j`.
pub proof fn lemma_rm_update_last(coords: Seq<u64>, dims: Seq<u64>, j: nat)
    requires
        coords.len() == dims.len(),
        coords.len() > 0,
        forall|k: int| 0 <= k < coords.len() ==> coords[k] < dims[k],
        coords[coords.len() - 1] + j < dims[dims.len() - 1],
    ensures
        rm_index(coords.update(coords.len() - 1, (coords[coords.len() - 1] + j) as u64), dims)
            == rm_index(coords, dims) + j,
    decreases coords.len(),
{
    let last = coords.len() - 1;
    let v = (coords[last] + j) as u64;
    let u = coords.update(last, v);
    if coords.len() == 1 {
        assert(u[0] == v);
        assert(u.skip(1) =~= coords.skip(1));
        assert(prod(dims.skip(1)) == 1);
        assert(rm_index(u, dims) == (v as nat) * 1);
        assert(rm_index(coords, dims) == (coords[0] as nat) * 1);
        assert((v as nat) * 1 == v as nat) by (nonlinear_arith);
        assert((coords[0] as nat) * 1 == coords[0] as nat) by (nonlinear_arith);
    } else {
        assert(u[0] == coords[0]);
        assert(u.skip(1) =~= coords.skip(1).update(coords.skip(1).len() - 1, v));
        assert forall|k: int| 0 <= k < coords.skip(1).len() implies coords.skip(1)[k] < dims.skip(
            1,
        )[k] by {
            assert(coords.skip(1)[k] == coords[k + 1]);
            assert(dims.skip(1)[k] == dims[k + 1]);
        }
        assert(coords.skip(1)[coords.skip(1).len() - 1] == coords[last]);
        assert(dims.skip(1)[dims.skip(1).len() - 1] == dims[dims.len() - 1]);
        lemma_rm_update_last(coords.skip(1), dims.skip(1), j);
    }
}

/// Advancing the flat index by `j` within a row advances only the innermost
/// coordinate.
pub proof fn lemma_coords_of_step(i: nat, j: nat, dims: Seq<u64>)
    requires
        dims.len() > 0,
        i < prod(dims),
        coords_of(i, dims)[dims.len() - 1] + j < dims[dims.len() - 1],
    ensures
        i + j < prod(dims),
        coords_of((i + j) as nat, dims) == coords_of(i, dims).update(
            dims.len() - 1,
            (coords_of(i, dims)[dims.len() - 1] + j) as u64,
        ),
{
    let c = coords_of(i, dims);
    lemma_coords_of(i, dims);
    lemma_rm_update_last(c, dims, j);
    let u = c.update(c.len() - 1, (c[c.len() - 1] + j) as u64);
    assert forall|k: int| 0 <= k < u.len() implies u[k] < dims[k] by {
        if k < u.len() - 1 {
            assert(u[k] == c[k]);
        }
    }
    lemma_rm_bound(u, dims);
    assert(rm_index(u, dims) == i + j);
    lemma_rm_coords_inverse(u, dims);
}

/// Staying within one aligned block of width `c` leaves quotient and
/// remainder in step.
pub proof fn lemma_div_in_block(base: nat, j: nat, c: nat)
    requires
        c > 0,
        base % c + j < c,
    ensures
        (base + j) / c == base / c,
        (base + j) % c == base % c + j,
{
    lemma_fundamental_div_mod(base as int, c as int);
    lemma_mod_pos_bound(base as int, c as int);
    assert(base + j == ((base / c) as int) * (c as int) + ((base % c + j) as int)) by {
        assert(base as int == (c as int) * ((base as int) / (c as int)) + (base as int) % (
        c as int));
        assert((c as int) * ((base / c) as int) == ((base / c) as int) * (c as int))
            by (nonlinear_arith);
    }
    lemma_fundamental_div_mod_converse(
        (base + j) as int,
        c as int,
        (base / c) as int,
        (base % c + j) as int,
    );
}

/// The product of the axis lengths from `from` on, as a machine integer.
#[verifier::loop_isolation(false)]
pub fn prod_u64(dims: &Vec<u64>, from: usize) -> (r: u64)
    requires
        from <= dims.len(),
        forall|k: int| from <= k <= dims@.len() ==> prod(dims@.skip(k)) <= u64::MAX,
    ensures
        r == prod(dims@.skip(from as int)),
{
    let mut k: usize = dims.len();
    let mut r: u64 = 1;
    assert(dims@.skip(k as int) =~= Seq::<u64>::empty());
    while k > from
        invariant
            from <= k <= dims.len(),
            r == prod(dims@.skip(k as int)),
        decreases k,
    {
        k = k - 1;
        proof {
            assert(dims@.skip(k as int).skip(1) =~= dims@.skip(k as int + 1));
            assert(dims@.skip(k as int)[0] == dims@[k as int]);
            assert(prod(dims@.skip(k as int)) == (dims@[k as int] as nat) * prod(
                dims@.skip(k as int + 1),
            ));
        }
        r = dims[k] * r;
    }
    r
}

/// The per-axis coordinates of the point with flat index `i`, as machine
/// integers.
#[verifier::loop_isolation(false)]
pub fn coords_exec(i: u64, dims: &Vec<u64>) -> (c: Vec<u64>)
    requires
        i < prod(dims@),
        forall|k: int| 0 <= k <= dims@.len() ==> prod(dims@.skip(k)) <= u64::MAX,
    ensures
        c@ == coords_of(i as nat, dims@),
{
    let ghost d = dims@;
    let ghost cf = coords_of(i as nat, d);
    let mut out: Vec<u64> = Vec::new();
    let mut rem: u64 = i;
    let mut k: usize = 0;
    proof {
        lemma_prod_pos_all(d);
        assert(d.skip(0) =~= d);
        lemma_coords_of(i as nat, d);
    }
    while k < dims.len()
        invariant
            0 <= k <= d.len(),
            rem < prod(d.skip(k as int)),
            coords_of(rem as nat, d.skip(k as int)) == cf.skip(k as int),
            out@ == cf.take(k as int),
        decreases d.len() - k,
    {
        let ghost dk = d.skip(k as int);
        let p = prod_u64(dims, k + 1);
        proof {
            assert(dk.skip(1) =~= d.skip(k as int + 1));
            assert(dk[0] == d[k as int]);
            assert forall|m: int| 0 <= m < d.skip(k as int + 1).len() implies #[trigger] d.skip(
                k as int + 1,
            )[m] > 0 by {
                assert(d.skip(k as int + 1)[m] == d[m + k + 1]);
            }
            lemma_prod_all_pos(d.skip(k as int + 1));
            assert(p > 0);
            lemma_mod_pos_bound(rem as int, p as int);
            assert(coords_of(rem as nat, dk) == seq![(((rem as nat) / (p as nat)) as u64)]
                + coords_of((rem as nat) % (p as nat), dk.skip(1)));
        }
        let q = rem / p;
        let r2 = rem % p;
        proof {
            assert(cf.skip(k as int)[0] == cf[k as int]);
            assert(cf[k as int] == q);
            assert(cf.skip(k as int).skip(1) =~= cf.skip(k as int + 1));
            assert(coords_of(r2 as nat, d.skip(k as int + 1)) =~= cf.skip(k as int + 1));
            assert(cf.take(k as int).push(q) =~= cf.take(k as int + 1));
            assert((rem as nat) % (p as nat) < p);
        }
        out.push(q);
        rem = r2;
        k = k + 1;
    }
    assert(out@ =~= cf);
    out
}

/// The flat row-major index of in-bounds coordinates, as a machine integer.
#[verifier::loop_isolation(false)]
pub fn rm_exec(coords: &Vec<u64>, dims: &Vec<u64>) -> (r: u64)
    requires
        coords.len() == dims.len(),
        forall|k: int| 0 <= k < coords@.len() ==> coords@[k] < dims@[k],
        forall|k: int| 0 <= k <= dims@.len() ==> prod(dims@.skip(k)) <= u64::MAX,
    ensures
        r == rm_index(coords@, dims@),
        r < prod(dims@),
{
    let ghost c = coords@;
    let ghost d = dims@;
    let mut k: usize = dims.len();
    let mut idx: u64 = 0;
    let mut stride: u64 = 1;
    assert(d.skip(k as int) =~= Seq::<u64>::empty());
    assert(c.skip(k as int) =~= Seq::<u64>::empty());
    while k > 0
        invariant
            0 <= k <= d.len(),
            stride == prod(d.skip(k as int)),
            idx == rm_index(c.skip(k as int), d.skip(k as int)),
        decreases k,
    {
        k = k - 1;
        proof {
            assert(d.skip(k as int).skip(1) =~= d.skip(k as int + 1));
            assert(c.skip(k as int).skip(1) =~= c.skip(k as int + 1));
            assert(d.skip(k as int)[0] == d[k as int]);
            assert(c.skip(k as int)[0] == c[k as int]);
            assert forall|m: int| 0 <= m < c.skip(k as int).len() implies #[trigger] c.skip(
                k as int,
            )[m] < d.skip(k as int)[m] by {
                assert(c.skip(k as int)[m] == c[m + k]);
                assert(d.skip(k as int)[m] == d[m + k]);
            }
            lemma_rm_bound(c.skip(k as int), d.skip(k as int));
            assert(rm_index(c.skip(k as int), d.skip(k as int)) == (c[k as int] as nat) * prod(
                d.skip(k as int + 1),
            ) + rm_index(c.skip(k as int + 1), d.skip(k as int + 1)));
            assert(prod(d.skip(k as int)) == (d[k as int] as nat) * prod(d.skip(k as int + 1)));
        }
        idx = coords[k] * stride + idx;
        stride = dims[k] * stride;
    }
    proof {
        assert(c.skip(0) =~= c);
        assert(d.skip(0) =~= d);
        lemma_rm_bound(c, d);
    }
    idx
}

} // verus!
