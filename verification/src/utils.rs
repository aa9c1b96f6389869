//! Helpers for the search: the thin trusted layer over the uniform-random
//! source, and verified integer square-root and logarithm routines used by
//! the fixed-point selection formula.
use vstd::prelude::*;

use crate::board::Action;
use crate::sets::{action_set_get_index, action_set_len, index_set_elems};

verus! {

/// The sum of a sequence of weights.
pub open spec fn seq_sum_u64(s: Seq<u64>) -> int
    decreases s.len(),
{
    if s.len() == 0 {
        0
    } else {
        seq_sum_u64(s.drop_last()) + s.last()
    }
}

/// Relies on `rand::Rng::gen_range` on the thread-local generator: a
/// uniformly random value below `n`.
#[verifier::external_body]
fn random_below(n: usize) -> (r: usize)
    requires
        n > 0,
    ensures
        r < n,
{
    rand::Rng::gen_range(&mut rand::thread_rng(), 0..n)
}

/// Picks a uniformly random action from the legal set.
pub fn get_random_action(legal_moves: &indexmap::IndexSet<Action>) -> (r: Action)
    requires
        index_set_elems(legal_moves).len() > 0,
    ensures
        index_set_elems(legal_moves).contains(r),
{
    let n = action_set_len(legal_moves);
    let random_index = random_below(n);
    let got = action_set_get_index(legal_moves, random_index);
    let a = got.unwrap();
    proof {
        assert(index_set_elems(legal_moves)[random_index as int] == a);
    }
    a
}

/// Relies on `rand::distributions::WeightedIndex`: an index drawn with
/// probability proportional to its weight. Its source never returns an
/// index whose weight is zero, and `new` only fails on an empty or all-zero
/// weight list (a `u64` weight cannot be negative); summing the weights must
/// not overflow.
#[verifier::external_body]
pub fn sample_from_weights(weights: &Vec<u64>) -> (r: usize)
    requires
        exists|i: int| 0 <= i < weights@.len() && weights@[i] > 0,
        seq_sum_u64(weights@) <= u64::MAX,
    ensures
        r < weights@.len(),
        weights@[r as int] > 0,
{
    let dist = rand::distributions::WeightedIndex::new(weights.iter()).unwrap();
    rand::distributions::Distribution::sample(&dist, &mut rand::thread_rng())
}

/// Whether `r` is the integer square root of `x`.
pub open spec fn is_sqrt_floor(x: int, r: int) -> bool {
    r >= 0 && r * r <= x && x < (r + 1) * (r + 1)
}

/// The integer square root: the unique `r` with
/// `r * r <= x < (r + 1) * (r + 1)`.
pub open spec fn sqrt_floor(x: int) -> int {
    choose|r: int| is_sqrt_floor(x, r)
}

/// Any value placed between consecutive squares is the integer square root.
pub proof fn lemma_sqrt_floor_unique(x: int, r: int)
    requires
        r >= 0,
        r * r <= x,
        x < (r + 1) * (r + 1),
    ensures
        sqrt_floor(x) == r,
{
    assert(is_sqrt_floor(x, r));
    let w = choose|w: int| is_sqrt_floor(x, w);
    assert(is_sqrt_floor(x, w));
    assert(w == r) by (nonlinear_arith)
        requires
            r >= 0,
            r * r <= x,
            x < (r + 1) * (r + 1),
            w >= 0,
            w * w <= x,
            x < (w + 1) * (w + 1),
    ;
}

/// Computes the integer square root by bisection.
pub fn isqrt(x: u128) -> (r: u128)
    requires
        x < 0x4000_0000_0000_0000_0000_0000_0000_0000,
    ensures
        r * r <= x < (r + 1) * (r + 1),
        r == sqrt_floor(x as int),
{
    let mut lo: u128 = 0;
    let mut hi: u128 = 0x8000_0000_0000_0000;
    proof {
        assert(hi * hi > x) by (nonlinear_arith)
            requires
                hi == 0x8000_0000_0000_0000,
                x < 0x4000_0000_0000_0000_0000_0000_0000_0000,
        ;
    }
    while hi - lo > 1
        invariant
            lo < hi,
            hi <= 0x8000_0000_0000_0000,
            lo * lo <= x,
            x < hi * hi,
        decreases hi - lo,
    {
        let mid = lo + (hi - lo) / 2;
        proof {
            assert(mid * mid <= 0x8000_0000_0000_0000 * 0x8000_0000_0000_0000) by (nonlinear_arith)
                requires
                    mid <= 0x8000_0000_0000_0000,
            ;
        }
        if mid * mid <= x {
            lo = mid;
        } else {
            hi = mid;
        }
    }
    proof {
        lemma_sqrt_floor_unique(x as int, lo as int);
    }
    lo
}

/// The floor of the base-two logarithm, taking values below 2 to 0.
pub open spec fn log2_floor(x: int) -> int
    decreases x,
{
    if x < 2 {
        0
    } else {
        1 + log2_floor(x / 2)
    }
}

/// The floor logarithm never decreases.
pub proof fn lemma_log2_floor_mono(a: int, b: int)
    requires
        a <= b,
    ensures
        log2_floor(a) <= log2_floor(b),
    decreases b,
{
    if b < 2 {
    } else if a < 2 {
        assert(log2_floor(a) == 0);
        assert(log2_floor(b) >= 0) by {
            lemma_log2_floor_nonneg(b);
        }
    } else {
        lemma_log2_floor_mono(a / 2, b / 2);
    }
}

/// The floor logarithm is never negative.
pub proof fn lemma_log2_floor_nonneg(x: int)
    ensures
        log2_floor(x) >= 0,
    decreases x,
{
    if x >= 2 {
        lemma_log2_floor_nonneg(x / 2);
    }
}

/// The floor logarithm of a 64-bit value is below 64.
pub proof fn lemma_log2_floor_bound(x: int)
    requires
        x < 0x1_0000_0000_0000_0000,
    ensures
        log2_floor(x) <= 63,
{
    vstd::arithmetic::power2::lemma2_to64();
    assert(vstd::arithmetic::power2::pow2(64) == 0x10000000000000000);
    lemma_log2_floor_bound_rec(x, 63);
}

proof fn lemma_log2_floor_bound_rec(x: int, e: nat)
    requires
        x < vstd::arithmetic::power2::pow2((e + 1) as nat),
    ensures
        log2_floor(x) <= e,
    decreases e,
{
    vstd::arithmetic::power2::lemma_pow2_unfold((e + 1) as nat);
    if x < 2 {
        lemma_log2_floor_nonneg(x);
    } else {
        if e == 0 {
            assert(vstd::arithmetic::power2::pow2(0) == 1) by {
                vstd::arithmetic::power2::lemma2_to64();
            }
            assert(false);
        }
        lemma_log2_floor_bound_rec(x / 2, (e - 1) as nat);
    }
}

/// Computes the floor of the base-two logarithm by repeated halving.
pub fn ilog2(x: u64) -> (r: u32)
    ensures
        r == log2_floor(x as int),
        r <= 63,
{
    let mut v: u64 = x;
    let mut r: u32 = 0;
    proof {
        lemma_log2_floor_nonneg(x as int);
        lemma_log2_floor_bound(x as int);
    }
    while v >= 2
        invariant
            log2_floor(x as int) == r + log2_floor(v as int),
            r <= 63,
        decreases v,
    {
        proof {
            lemma_log2_floor_nonneg(v as int / 2);
            lemma_log2_floor_bound(x as int);
        }
        v = v / 2;
        r = r + 1;
    }
    r
}

} // verus!
