//! The byte-shuffle filter and its exact reversal.
//!
//! A shuffled buffer stores its bytes byte-plane major: first the initial
//! byte of every element, then the second byte of every element, and so on,
//! with `wordsize` bytes per element.  `unshuffle_sized` regroups such a
//! buffer back to element-major order; `shuffle_sized` is its inverse.

use vstd::prelude::*;
use vstd::arithmetic::div_mod::*;
use crate::errors::Error;

verus! {

/// The byte-plane-major image of `s` with `ws` bytes per element.
pub open spec fn shuffle_spec(s: Seq<u8>, ws: nat) -> Seq<u8> {
    let n = (s.len() / ws) as int;
    Seq::new(s.len(), |k: int| s[(k % n) * (ws as int) + k / n])
}

/// The element-major image of a byte-plane-major buffer `s` with `ws` bytes
/// per element.
pub open spec fn unshuffle_spec(s: Seq<u8>, ws: nat) -> Seq<u8> {
    let n = (s.len() / ws) as int;
    Seq::new(s.len(), |k: int| s[(k % (ws as int)) * n + k / (ws as int)])
}

/// Unshuffling a shuffled buffer gives the buffer back.
pub proof fn lemma_unshuffle_shuffle(s: Seq<u8>, ws: nat)
    requires
        ws >= 1,
        s.len() % ws == 0,
    ensures
        unshuffle_spec(shuffle_spec(s, ws), ws) == s,
{
    let n = s.len() / ws;
    let len = s.len();
    lemma_fundamental_div_mod(len as int, ws as int);
    assert(len == ws * n);
    let sh = shuffle_spec(s, ws);
    let u = unshuffle_spec(sh, ws);
    assert(sh.len() == len);
    assert(u.len() == len);
    assert forall|k: int| 0 <= k < len implies u[k] == s[k] by {
        let i = k / (ws as int);
        let j = k % (ws as int);
        lemma_fundamental_div_mod(k, ws as int);
        lemma_mod_pos_bound(k, ws as int);
        assert(k < (ws as int) * (n as int));
        lemma_multiply_divide_lt(k, ws as int, n as int);
        assert(0 <= i < n);
        assert(0 <= j < ws);
        let m = j * (n as int) + i;
        assert(0 <= j * (n as int) + i < len) by (nonlinear_arith)
            requires
                0 <= i < n,
                0 <= j < ws,
                len == ws * n,
        ;
        assert(0 <= m < len);
        assert(u[k] == sh[m]);
        lemma_fundamental_div_mod_converse(m, n as int, j, i);
        assert(m / (n as int) == j);
        assert(m % (n as int) == i);
        assert(sh[m] == s[i * (ws as int) + j]);
        assert(i * (ws as int) == (ws as int) * i) by (nonlinear_arith);
        assert(s[i * (ws as int) + j] == s[k]);
    }
    assert(u =~= s);
}

/// Shuffling an unshuffled buffer gives the buffer back.
pub proof fn lemma_shuffle_unshuffle(s: Seq<u8>, ws: nat)
    requires
        ws >= 1,
        s.len() % ws == 0,
    ensures
        shuffle_spec(unshuffle_spec(s, ws), ws) == s,
{
    let n = s.len() / ws;
    let len = s.len();
    lemma_fundamental_div_mod(len as int, ws as int);
    assert(len == ws * n);
    let u = unshuffle_spec(s, ws);
    let sh = shuffle_spec(u, ws);
    assert(u.len() == len);
    assert(sh.len() == len);
    if len == 0 {
        assert(sh =~= s);
    } else {
        assert(n > 0) by (nonlinear_arith)
            requires
                len == ws * n,
                len > 0,
                n >= 0,
        ;
        assert forall|k: int| 0 <= k < len implies sh[k] == s[k] by {
            let i = k % (n as int);
            let j = k / (n as int);
            lemma_fundamental_div_mod(k, n as int);
            lemma_mod_pos_bound(k, n as int);
            assert(k < (n as int) * (ws as int)) by (nonlinear_arith)
                requires
                    k < len,
                    len == ws * n,
            ;
            lemma_multiply_divide_lt(k, n as int, ws as int);
            assert(0 <= i < n);
            assert(0 <= j < ws);
            let m = i * (ws as int) + j;
            assert(0 <= i * (ws as int) + j < len) by (nonlinear_arith)
                requires
                    0 <= i < n,
                    0 <= j < ws,
                    len == ws * n,
            ;
            assert(0 <= m < len);
            assert(sh[k] == u[m]);
            lemma_fundamental_div_mod_converse(m, ws as int, i, j);
            assert(m / (ws as int) == i);
            assert(m % (ws as int) == j);
            assert(u[m] == s[j * (n as int) + i]);
            assert(j * (n as int) == (n as int) * j) by (nonlinear_arith);
            assert(s[j * (n as int) + i] == s[k]);
        }
        assert(sh =~= s);
    }
}

/// Reverses the byte-shuffle filter: regroups a byte-plane-major buffer to
/// element-major order, `wordsize` bytes per element.
#[verifier::loop_isolation(false)]
pub fn unshuffle_sized(data: &Vec<u8>, wordsize: usize) -> (r: Result<Vec<u8>, Error>)
    ensures
        match r {
            Ok(v) => wordsize >= 1 && data@.len() % (wordsize as nat) == 0 && v@
                == unshuffle_spec(data@, wordsize as nat),
            Err(e) => e == Error::FilterError && (wordsize == 0 || data@.len() % (
            wordsize as nat) != 0),
        },
{
    if wordsize == 0 || data.len() % wordsize != 0 {
        return Err(Error::FilterError);
    }
    let len = data.len();
    let n = len / wordsize;
    proof {
        lemma_fundamental_div_mod(len as int, wordsize as int);
        assert(len == wordsize * n);
    }
    let mut out: Vec<u8> = Vec::new();
    let mut k: usize = 0;
    while k < len
        invariant
            0 <= k <= len,
            out@.len() == k,
            forall|m: int| 0 <= m < k ==> out@[m] == unshuffle_spec(data@, wordsize as nat)[m],
        decreases len - k,
    {
        let i = k / wordsize;
        let j = k % wordsize;
        proof {
            lemma_fundamental_div_mod(k as int, wordsize as int);
            lemma_mod_pos_bound(k as int, wordsize as int);
            assert(k < (wordsize as int) * (n as int));
            lemma_multiply_divide_lt(k as int, wordsize as int, n as int);
            assert(0 <= i < n);
            assert(j * n + i < len) by (nonlinear_arith)
                requires
                    0 <= (i as int) < (n as int),
                    0 <= (j as int) < (wordsize as int),
                    (len as int) == (wordsize as int) * (n as int),
            ;
        }
        let src = j * n + i;
        out.push(data[src]);
        k = k + 1;
    }
    assert(out@ =~= unshuffle_spec(data@, wordsize as nat));
    Ok(out)
}

/// Applies the byte-shuffle filter: regroups an element-major buffer to
/// byte-plane-major order, `wordsize` bytes per element.
#[verifier::loop_isolation(false)]
pub fn shuffle_sized(data: &Vec<u8>, wordsize: usize) -> (r: Result<Vec<u8>, Error>)
    ensures
        match r {
            Ok(v) => wordsize >= 1 && data@.len() % (wordsize as nat) == 0 && v@ == shuffle_spec(
                data@,
                wordsize as nat,
            ),
            Err(e) => e == Error::FilterError && (wordsize == 0 || data@.len() % (
            wordsize as nat) != 0),
        },
{
    if wordsize == 0 || data.len() % wordsize != 0 {
        return Err(Error::FilterError);
    }
    let len = data.len();
    let n = len / wordsize;
    proof {
        lemma_fundamental_div_mod(len as int, wordsize as int);
        assert(len == wordsize * n);
        if len > 0 {
            assert(n > 0) by (nonlinear_arith)
                requires
                    (len as int) == (wordsize as int) * (n as int),
                    len > 0,
                    n >= 0,
            ;
        }
    }
    let mut out: Vec<u8> = Vec::new();
    let mut k: usize = 0;
    while k < len
        invariant
            0 <= k <= len,
            out@.len() == k,
            forall|m: int| 0 <= m < k ==> out@[m] == shuffle_spec(data@, wordsize as nat)[m],
        decreases len - k,
    {
        assert(n > 0);
        let i = k % n;
        let j = k / n;
        proof {
            lemma_fundamental_div_mod(k as int, n as int);
            lemma_mod_pos_bound(k as int, n as int);
            assert(k < (n as int) * (wordsize as int)) by (nonlinear_arith)
                requires
                    (k as int) < (len as int),
                    (len as int) == (wordsize as int) * (n as int),
            ;
            lemma_multiply_divide_lt(k as int, n as int, wordsize as int);
            assert(0 <= j < wordsize);
            assert(i * wordsize + j < len) by (nonlinear_arith)
                requires
                    0 <= (i as int) < (n as int),
                    0 <= (j as int) < (wordsize as int),
                    (len as int) == (wordsize as int) * (n as int),
            ;
        }
        let src = i * wordsize + j;
        out.push(data[src]);
        k = k + 1;
    }
    assert(out@ =~= shuffle_spec(data@, wordsize as nat));
    Ok(out)
}

} // verus!
