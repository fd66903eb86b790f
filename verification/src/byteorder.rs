//! Byte-order normalization.
//!
//! Stored elements may carry their bytes big- or little-endian.  The
//! normalization stage swaps the bytes of every `wordsize`-wide element when
//! the stored order differs from the host's native order.  The supported
//! hosts are little-endian.

use vstd::prelude::*;
use vstd::arithmetic::div_mod::*;
use crate::errors::Error;

verus! {

/// The byte order of the stored elements of a dataset.
#[derive(Clone, Copy, Debug, PartialEq, Eq, Structural)]
pub enum Order {
    BE,
    LE,
}

/// The byte order of the host the library runs on.
pub open spec fn native() -> Order {
    Order::LE
}

/// The image of `s` with the bytes of every `ws`-wide element reversed.
pub open spec fn swapped_spec(s: Seq<u8>, ws: nat) -> Seq<u8> {
    Seq::new(s.len(), |k: int| s[(k / (ws as int)) * (ws as int) + ((ws as int) - 1 - k % (
    ws as int))])
}

/// The image of `s` normalized from stored order `order` to the host's
/// native order: unchanged when already native, byte-swapped per element
/// otherwise.
pub open spec fn to_native_spec(s: Seq<u8>, order: Order, ws: nat) -> Seq<u8> {
    if order == native() {
        s
    } else {
        swapped_spec(s, ws)
    }
}

/// Swapping every element's bytes twice gives the buffer back.
pub proof fn lemma_swapped_involutive(s: Seq<u8>, ws: nat)
    requires
        ws >= 1,
        s.len() % ws == 0,
    ensures
        swapped_spec(swapped_spec(s, ws), ws) == s,
{
    let len = s.len();
    let n = len / ws;
    lemma_fundamental_div_mod(len as int, ws as int);
    assert(len == ws * n);
    let w1 = swapped_spec(s, ws);
    let w2 = swapped_spec(w1, ws);
    assert forall|k: int| 0 <= k < len implies w2[k] == s[k] by {
        let q = k / (ws as int);
        let r = k % (ws as int);
        lemma_fundamental_div_mod(k, ws as int);
        lemma_mod_pos_bound(k, ws as int);
        assert(k < (ws as int) * (n as int));
        lemma_multiply_divide_lt(k, ws as int, n as int);
        assert(0 <= q < n);
        assert(0 <= r < ws);
        let m = q * (ws as int) + ((ws as int) - 1 - r);
        assert(0 <= q * (ws as int) + ((ws as int) - 1 - r) < len) by (nonlinear_arith)
            requires
                0 <= q < n,
                0 <= r < ws,
                len == ws * n,
        ;
        assert(0 <= m < len);
        assert(w2[k] == w1[m]);
        lemma_fundamental_div_mod_converse(m, ws as int, q, (ws as int) - 1 - r);
        assert(m / (ws as int) == q);
        assert(m % (ws as int) == (ws as int) - 1 - r);
        assert(w1[m] == s[q * (ws as int) + r]);
        assert(s[q * (ws as int) + r] == s[k]);
    }
    assert(w2 =~= s);
}

/// Normalizing a buffer that is already in the host's native order is a
/// no-op.
pub proof fn lemma_to_native_noop(s: Seq<u8>, ws: nat)
    ensures
        to_native_spec(s, native(), ws) == s,
{
}

/// Normalizing twice from the same foreign order gives the buffer back.
pub proof fn lemma_to_native_foreign_twice(s: Seq<u8>, order: Order, ws: nat)
    requires
        ws >= 1,
        s.len() % ws == 0,
        order != native(),
    ensures
        to_native_spec(to_native_spec(s, order, ws), order, ws) == s,
{
    lemma_swapped_involutive(s, ws);
}

/// Normalizes a buffer of `wordsize`-wide elements from stored order
/// `order` to the host's native order.
#[verifier::loop_isolation(false)]
pub fn to_native(data: Vec<u8>, order: Order, wordsize: usize) -> (r: Result<Vec<u8>, Error>)
    ensures
        match r {
            Ok(v) => wordsize >= 1 && data@.len() % (wordsize as nat) == 0 && v@ == to_native_spec(
                data@,
                order,
                wordsize as nat,
            ),
            Err(e) => e == Error::FilterError && (wordsize == 0 || data@.len() % (
            wordsize as nat) != 0),
        },
{
    if wordsize == 0 || data.len() % wordsize != 0 {
        return Err(Error::FilterError);
    }
    if matches!(order, Order::LE) {
        assert(order == native());
        return Ok(data);
    }
    let len = data.len();
    let n = len / wordsize;
    proof {
        lemma_fundamental_div_mod(len as int, wordsize as int);
        assert(len == wordsize * n);
    }
    let mut out: Vec<u8> = Vec::new();
    let mut k: usize = 0;
    while k < len
        invariant
            0 <= k <= len,
            out@.len() == k,
            forall|m: int| 0 <= m < k ==> out@[m] == swapped_spec(data@, wordsize as nat)[m],
        decreases len - k,
    {
        let q = k / wordsize;
        let r = k % wordsize;
        proof {
            lemma_fundamental_div_mod(k as int, wordsize as int);
            lemma_mod_pos_bound(k as int, wordsize as int);
            assert(k < (wordsize as int) * (n as int));
            lemma_multiply_divide_lt(k as int, wordsize as int, n as int);
            assert(0 <= q < n);
            assert(q * wordsize + (wordsize - 1 - r) < len) by (nonlinear_arith)
                requires
                    0 <= (q as int) < (n as int),
                    0 <= (r as int) < (wordsize as int),
                    (len as int) == (wordsize as int) * (n as int),
            ;
        }
        let src = q * wordsize + (wordsize - 1 - r);
        out.push(data[src]);
        k = k + 1;
    }
    assert(out@ =~= swapped_spec(data@, wordsize as nat));
    Ok(out)
}

} // verus!
