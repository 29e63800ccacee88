//! The per-residue valuation sum.
use vstd::arithmetic::power2::{lemma2_to64, lemma_pow2_pos, lemma_pow2_strictly_increases, lemma_pow2_unfold, pow2};
use vstd::bits::lemma_u64_shl_is_mul;
use vstd::prelude::*;

verus! {

/// Smallest accepted modulus exponent.
pub const MIN_K: u32 = 2;

/// Largest accepted modulus exponent.
pub const MAX_K: u32 = 28;

/// The exponents and depths the certificate engine accepts.
pub open spec fn valid_params(k: u32, l: u32) -> bool {
    MIN_K <= k <= MAX_K && l >= 1
}

/// Number of odd residues modulo `2^k`, i.e. the length of a table.
pub open spec fn table_len(k: nat) -> nat {
    pow2((k - 1) as nat)
}

/// Number of factors of two in `t` (zero for `t == 0`).
pub open spec fn valuation(t: nat) -> nat
    decreases t,
{
    if t == 0 || t % 2 == 1 {
        0
    } else {
        1 + valuation(t / 2)
    }
}

/// `t` with every factor of two removed.
pub open spec fn odd_part(t: nat) -> nat
    decreases t,
{
    if t == 0 || t % 2 == 1 {
        t
    } else {
        odd_part(t / 2)
    }
}

/// Sum of the valuations met in `steps` iterations from residue `m`, where
/// each iteration reduces `m` modulo `2^k`, forms `t = 3m + 1`, adds the
/// valuation of `t`, and continues from the odd part of `t`.
pub open spec fn orbit_sum(k: nat, m: nat, steps: nat) -> nat
    decreases steps,
{
    if steps == 0 {
        0
    } else {
        let t = 3 * (m % pow2(k)) + 1;
        valuation(t) + orbit_sum(k, odd_part(t) % pow2(k), (steps - 1) as nat)
    }
}

/// `s` clamped to the range of `u32`.
pub open spec fn saturate_u32(s: nat) -> u32 {
    if s > u32::MAX {
        u32::MAX
    } else {
        s as u32
    }
}

/// The table entry of residue `2 * index + 1`.
pub open spec fn kernel_value(k: nat, l: nat, index: nat) -> u32 {
    saturate_u32(orbit_sum(k, 2 * index + 1, l))
}

/// Splits a positive `t` into its valuation and its odd part.
fn strip_twos(t: u64) -> (r: (u64, u64))
    requires
        t > 0,
    ensures
        r.0 == valuation(t as nat),
        r.1 == odd_part(t as nat),
        r.0 < 64,
{
    let mut o: u64 = t;
    let mut e: u64 = 0;
    proof {
        lemma2_to64();
    }
    while o % 2 == 0
        invariant
            o > 0,
            e < 64,
            o * pow2(e as nat) == t,
            valuation(t as nat) == e + valuation(o as nat),
            odd_part(t as nat) == odd_part(o as nat),
        decreases o,
    {
        proof {
            lemma_pow2_unfold((e + 1) as nat);
            let h = (o / 2) as int;
            assert(o == 2 * h);
            assert(h * pow2((e + 1) as nat) == t) by (nonlinear_arith)
                requires
                    o == 2 * h,
                    pow2((e + 1) as nat) == 2 * pow2(e as nat),
                    o * pow2(e as nat) == t,
            ;
            assert(pow2((e + 1) as nat) <= t) by (nonlinear_arith)
                requires
                    h * pow2((e + 1) as nat) == t,
                    h >= 1,
            ;
            lemma2_to64();
            if e + 1 >= 64 {
                if e + 1 > 64 {
                    lemma_pow2_strictly_increases(64, (e + 1) as nat);
                }
            }
        }
        o = o / 2;
        e = e + 1;
    }
    (e, o)
}

/// The valuation sum of residue `2 * index + 1` after `l` iterations modulo
/// `2^k`, clamped to `u32`.
pub fn compute(k: u32, l: u32, index: u64) -> (r: u32)
    requires
        MIN_K <= k <= MAX_K,
        index < table_len(k as nat),
    ensures
        r == kernel_value(k as nat, l as nat, index as nat),
{
    proof {
        lemma2_to64();
        if k < 28 {
            lemma_pow2_strictly_increases(k as nat, 28);
        }
        lemma_pow2_pos(k as nat);
        lemma_pow2_unfold(k as nat);
        lemma_u64_shl_is_mul(1, k as u64);
    }
    let modulus: u64 = 1u64 << k as u64;
    let mut m: u64 = 2 * index + 1;
    let mut s: u64 = 0;
    let mut i: u32 = 0;
    while i < l
        invariant
            i <= l,
            modulus == pow2(k as nat),
            0 < modulus <= 0x1000_0000,
            s <= 64 * i,
            s + orbit_sum(k as nat, m as nat, (l - i) as nat) == orbit_sum(
                k as nat,
                2 * index as nat + 1,
                l as nat,
            ),
        decreases l - i,
    {
        let t: u64 = 3 * (m % modulus) + 1;
        let (e, odd) = strip_twos(t);
        s = s + e;
        m = odd % modulus;
        i = i + 1;
    }
    if s > u32::MAX as u64 {
        u32::MAX
    } else {
        s as u32
    }
}

} // verus!
