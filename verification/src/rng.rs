//! The pseudo-random numbers that place the worms and make them turn.

use vstd::arithmetic::div_mod::{
    lemma_add_mod_noop_right, lemma_fundamental_div_mod, lemma_mod_add_multiples_vanish,
    lemma_mod_multiples_basic, lemma_mod_pos_bound, lemma_small_mod,
};
use vstd::prelude::*;

verus! {

/// The seed of a run whose clock stands before the Unix epoch.
pub const FALLBACK_SEED: u64 = 0xDEAD_BEEF_1337_CAFE;

/// The generator's state after `s`: a linear congruential step modulo 2^64.
pub open spec fn lcg(s: u64) -> u64 {
    ((s * 6364136223846793005 + 1442695040888963407) % 0x1_0000_0000_0000_0000) as u64
}

/// The number that the generator hands out when it arrives in state `s`: the upper 47 bits.
pub open spec fn output(s: u64) -> u64 {
    s / 0x2_0000
}

/// The seed for a run that starts `nanos` nanoseconds after the Unix epoch.
pub open spec fn seed(nanos: Option<u128>) -> u64 {
    match nanos {
        Some(n) => (n % 0x1_0000_0000_0000_0000) as u64,
        None => FALLBACK_SEED,
    }
}

/// Wrapping a product and then its sum with `c` is the same as wrapping the whole sum once.
proof fn lemma_wrapped_sum(product: int, c: int)
    requires
        0 <= product,
        0 <= c < 0x1_0000_0000_0000_0000,
    ensures
        ({
            let m = 0x1_0000_0000_0000_0000int;
            let sum = product % m + c;
            (product + c) % m == if sum >= m {
                sum - m
            } else {
                sum
            }
        }),
{
    let m = 0x1_0000_0000_0000_0000int;
    let sum = product % m + c;
    lemma_mod_pos_bound(product, m);
    lemma_add_mod_noop_right(c, product, m);
    if sum >= m {
        lemma_mod_add_multiples_vanish(sum - m, m);
        lemma_small_mod((sum - m) as nat, m as nat);
    } else {
        lemma_small_mod(sum as nat, m as nat);
    }
}

/// Advances the generator by one step and returns the next number.
pub fn rng_next(s: &mut u64) -> (r: u64)
    ensures
        *final(s) == lcg(*old(s)),
        r == output(lcg(*old(s))),
{
    proof {
        lemma_wrapped_sum(*s * 6364136223846793005, 1442695040888963407);
    }
    *s = s.wrapping_mul(6364136223846793005).wrapping_add(1442695040888963407);
    let next: u64 = *s;
    assert(next >> 17 == next / 0x2_0000) by (bit_vector);
    next >> 17
}

/// Turns the wall clock into a seed: the low 64 bits of the nanoseconds since the Unix epoch, or
/// a constant where the clock gives none.
pub fn seed_from_clock(nanos: Option<u128>) -> (r: u64)
    ensures
        r == seed(nanos),
{
    match nanos {
        Some(n) => {
            assert(n as u64 == n % 0x1_0000_0000_0000_0000) by (bit_vector);
            n as u64
        },
        None => FALLBACK_SEED,
    }
}

/// Every number handed out is below 2^47.
pub proof fn lemma_output_bound(s: u64)
    ensures
        output(lcg(s)) < 0x8000_0000_0000,
{
}

/// The generator is a straight line around the circle of 64-bit numbers: it starts at a fixed
/// number, and states that are `d` apart lead to states that are `d` times a fixed factor apart.
pub proof fn lemma_generator_is_affine(s: u64, d: u64)
    requires
        s + d <= u64::MAX,
    ensures
        lcg(0) == 1442695040888963407,
        (lcg((s + d) as u64) - lcg(s) - d * 6364136223846793005) % 0x1_0000_0000_0000_0000 == 0,
{
    let m = 0x1_0000_0000_0000_0000int;
    let a = s * 6364136223846793005 + 1442695040888963407;
    let b = (s + d) * 6364136223846793005 + 1442695040888963407;
    assert(b - a == d * 6364136223846793005);
    lemma_fundamental_div_mod(a, m);
    lemma_fundamental_div_mod(b, m);
    let gap = b % m - a % m - (b - a);
    assert(gap == (a / m - b / m) * m) by (nonlinear_arith)
        requires
            a == m * (a / m) + a % m,
            b == m * (b / m) + b % m,
            gap == b % m - a % m - (b - a),
    ;
    lemma_mod_multiples_basic(a / m - b / m, m);
    lemma_mod_pos_bound(a, m);
    lemma_mod_pos_bound(b, m);
}

/// Numbers are handed out without the lowest 17 bits of the state, which are the least random.
pub proof fn lemma_output_drops_low_bits(s: u64)
    ensures
        output(s) * 131072 <= s < (output(s) + 1) * 131072,
{
}

/// The clock is the seed, around the circle of 64-bit numbers.
pub proof fn lemma_seed_follows_clock(n: u128)
    ensures
        n <= u64::MAX ==> seed(Some(n)) == n,
        n + 0x1_0000_0000_0000_0000 <= u128::MAX ==> seed(
            Some((n + 0x1_0000_0000_0000_0000) as u128),
        ) == seed(Some(n)),
        seed(None) == 0xDEAD_BEEF_1337_CAFE,
{
}

} // verus!
