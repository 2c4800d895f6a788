use vstd::prelude::*;
use vstd::arithmetic::power2::pow2;

verus! {

/// The number of one bits in the binary representation of `n`.
pub open spec fn count_ones(n: nat) -> nat
    decreases n,
{
    if n == 0 {
        0
    } else {
        n % 2 + count_ones(n / 2)
    }
}

/// A value below `pow2(k)` has at most `k` one bits.
proof fn lemma_count_ones_bound(n: nat, k: nat)
    requires
        n < pow2(k),
    ensures
        count_ones(n) <= k,
    decreases k,
{
    if k == 0 {
        assert(pow2(0) == 1) by {
            vstd::arithmetic::power2::lemma2_to64();
        }
    } else {
        vstd::arithmetic::power2::lemma_pow2_unfold(k);
        lemma_count_ones_bound(n / 2, (k - 1) as nat);
    }
}

pub fn one_bits_u128(arg: u128) -> (r: usize)
    ensures
        r == count_ones(arg as nat),
{
    proof {
        vstd::arithmetic::power2::lemma2_to64();
        vstd::arithmetic::power2::lemma_pow2_adds(64, 64);
        lemma_count_ones_bound(arg as nat, 128);
    }
    let mut x = arg;
    let mut sum: usize = 0;
    while x > 0
        invariant
            sum + count_ones(x as nat) == count_ones(arg as nat),
            count_ones(arg as nat) <= 128,
        decreases x,
    {
        sum = sum + (x % 2) as usize;
        x = x / 2;
    }
    sum
}

pub fn one_bits_u8(arg: u8) -> (r: usize)
    ensures
        r == count_ones(arg as nat),
{
    one_bits_u128(arg as u128)
}

pub fn one_bits_u16(arg: u16) -> (r: usize)
    ensures
        r == count_ones(arg as nat),
{
    one_bits_u128(arg as u128)
}

pub fn one_bits_u32(arg: u32) -> (r: usize)
    ensures
        r == count_ones(arg as nat),
{
    one_bits_u128(arg as u128)
}

pub fn one_bits_u64(arg: u64) -> (r: usize)
    ensures
        r == count_ones(arg as nat),
{
    one_bits_u128(arg as u128)
}

} // verus!
