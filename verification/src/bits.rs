//! Hamming distance between 64-bit hashes.

use vstd::prelude::*;

verus! {

/// Number of one bits.
pub open spec fn popcount(x: u64) -> nat
    decreases x,
{
    if x == 0 {
        0
    } else {
        (x % 2) as nat + popcount(x / 2)
    }
}

/// Number of bit positions in which two hashes differ.
pub open spec fn hamming_spec(a: u64, b: u64) -> nat {
    popcount(a ^ b)
}

proof fn lemma_popcount_unfold(x: u64)
    ensures
        popcount(x) == (x % 2) as nat + popcount(x / 2),
{
}

proof fn lemma_xor_halves(a: u64, b: u64)
    ensures
        (a ^ b) / 2 == (a / 2) ^ (b / 2),
        (a ^ b) % 2 == (if a % 2 == b % 2 { 0u64 } else { 1u64 }),
{
    assert((a ^ b) / 2 == (a / 2) ^ (b / 2)) by (bit_vector);
    assert((a ^ b) % 2 == (if a % 2 == b % 2 { 0u64 } else { 1u64 })) by (bit_vector);
}

/// Law: the Hamming distance satisfies the triangle inequality.
pub proof fn law_hamming_triangle(a: u64, b: u64, c: u64)
    ensures
        hamming_spec(a, c) <= hamming_spec(a, b) + hamming_spec(b, c),
    decreases a as int + b as int + c as int,
{
    lemma_xor_halves(a, c);
    lemma_xor_halves(a, b);
    lemma_xor_halves(b, c);
    lemma_popcount_unfold(a ^ c);
    lemma_popcount_unfold(a ^ b);
    lemma_popcount_unfold(b ^ c);
    if a == 0 && b == 0 && c == 0 {
        assert(a ^ c == 0) by (bit_vector)
            requires
                a == 0 && c == 0,
        ;
    } else {
        law_hamming_triangle(a / 2, b / 2, c / 2);
    }
}

/// Law: the Hamming distance is symmetric, and zero exactly between equal hashes.
pub proof fn law_hamming_metric(a: u64, b: u64)
    ensures
        hamming_spec(a, b) == hamming_spec(b, a),
        hamming_spec(a, b) == 0 <==> a == b,
{
    assert(a ^ b == b ^ a) by (bit_vector);
    assert((a ^ b == 0) <==> a == b) by (bit_vector);
    lemma_popcount_zero(a ^ b);
}

proof fn lemma_popcount_zero(x: u64)
    ensures
        popcount(x) == 0 <==> x == 0,
{
    if x != 0 {
        if x % 2 == 0 {
            assert(x / 2 != 0);
            lemma_popcount_pos(x / 2);
        }
    }
}

proof fn lemma_popcount_pos(x: u64)
    requires
        x != 0,
    ensures
        popcount(x) > 0,
    decreases x,
{
    if x % 2 == 0 {
        lemma_popcount_pos(x / 2);
    }
}

proof fn lemma_popcount_bound(x: u64, k: nat)
    requires
        (x as int) < vstd::arithmetic::power2::pow2(k),
    ensures
        popcount(x) <= k,
    decreases k,
{
    if x != 0 {
        if k == 0 {
            vstd::arithmetic::power2::lemma2_to64();
        } else {
            vstd::arithmetic::power2::lemma_pow2_unfold(k);
            lemma_popcount_bound(x / 2, (k - 1) as nat);
        }
    }
}

/// A 64-bit hash has at most 64 one bits.
pub proof fn lemma_popcount_le_64(x: u64)
    ensures
        popcount(x) <= 64,
{
    vstd::arithmetic::power2::lemma2_to64();
    assert(x < 0x1_0000_0000_0000_0000);
    lemma_popcount_bound(x, 64);
}

/// Hamming distance between two 64-bit hashes.
pub fn hamming(a: u64, b: u64) -> (r: u32)
    ensures
        r as nat == hamming_spec(a, b),
        r <= 64,
{
    let mut x = a ^ b;
    let mut count: u32 = 0;
    proof {
        lemma_popcount_le_64(a ^ b);
    }
    while x != 0
        invariant
            count as nat + popcount(x) == popcount(a ^ b),
            popcount(a ^ b) <= 64,
        decreases x,
    {
        let bit = x & 1;
        proof {
            assert(x & 1 == x % 2) by (bit_vector);
            assert(x >> 1 == x / 2) by (bit_vector);
            lemma_popcount_unfold(x);
        }
        count = count + (bit as u32);
        x = x >> 1;
    }
    count
}

} // verus!
