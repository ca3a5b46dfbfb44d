//! Powers of two and integer logarithms.

use vstd::prelude::*;
#[allow(unused_imports)]
use vstd::arithmetic::power2;
#[allow(unused_imports)]
use crate::netlist;

verus! {

/// `2^n` as a machine word.
pub fn two_to(n: u32) -> (r: u64)
    requires
        n < 64,
    ensures
        r == power2::pow2(n as nat),
{
    proof {
        vstd::bits::lemma_u64_pow2_no_overflow(n as nat);
        vstd::bits::lemma_u64_shl_is_mul(1, n as u64);
    }
    1u64 << (n as u64)
}

/// `2^a <= 2^b` for `a <= b`, strictly where the exponents differ.
pub proof fn lemma_pow2_monotone(a: nat, b: nat)
    ensures
        a <= b ==> power2::pow2(a) <= power2::pow2(b),
        a < b ==> power2::pow2(a) < power2::pow2(b),
        power2::pow2(a) >= 1,
{
    power2::lemma_pow2_pos(a);
    if a < b {
        power2::lemma_pow2_strictly_increases(a, b);
    }
}

/// The powers of two the pin limits of the component types need.
pub proof fn lemma_small_powers()
    ensures
        power2::pow2(0) == 1,
        power2::pow2(1) == 2,
        power2::pow2(2) == 4,
        power2::pow2(3) == 8,
        power2::pow2(16) == 65536,
        power2::pow2(24) == 16777216,
        power2::pow2(32) == 4294967296,
{
    power2::lemma2_to64();
}

/// The rounded-up logarithm of a number is unique.
pub proof fn lemma_ceil_log2_unique(n: nat, j: nat, k: nat)
    requires
        netlist::is_ceil_log2(n, j),
        netlist::is_ceil_log2(n, k),
    ensures
        j == k,
{
    if j < k {
        lemma_pow2_monotone(j, (k - 1) as nat);
    }
    if k < j {
        lemma_pow2_monotone(k, (j - 1) as nat);
    }
}

/// `ceil(log2(n))`, and 0 for `n <= 1`.
pub fn ceil_log2(n: u32) -> (k: u32)
    ensures
        netlist::is_ceil_log2(n as nat, k as nat),
        k <= 32,
{
    proof {
        lemma_small_powers();
    }
    let mut k: u32 = 0;
    let mut p: u64 = 1;
    while p < n as u64
        invariant
            p == power2::pow2(k as nat),
            k > 0 ==> power2::pow2((k - 1) as nat) < n,
            k <= 32,
        decreases 33 - k,
    {
        proof {
            lemma_small_powers();
            lemma_pow2_monotone(32, k as nat);
            power2::lemma_pow2_unfold((k + 1) as nat);
        }
        p = p * 2;
        k = k + 1;
    }
    k
}

} // verus!
