//! The pass threshold `floor(l * log2(3)) + 1`, computed exactly.
//!
//! `floor(l * log2(3))` is the largest `n` with `2^n <= 3^l`, that is, the
//! base-two logarithm of `3^l` rounded down. It is computed on a
//! multi-limb integer, so no rounding enters the decision.
use vstd::arithmetic::power2::{lemma2_to64, lemma_pow2_adds, lemma_pow2_pos, lemma_pow2_unfold, pow2};
use vstd::prelude::*;

verus! {

/// `3^e`.
pub open spec fn pow3(e: nat) -> nat
    decreases e,
{
    if e == 0 {
        1
    } else {
        3 * pow3((e - 1) as nat)
    }
}

/// The base-two logarithm of `x`, rounded down (zero for `x < 2`).
pub open spec fn floor_log2(x: nat) -> nat
    decreases x,
{
    if x < 2 {
        0
    } else {
        1 + floor_log2(x / 2)
    }
}

/// `floor(l * log2(3)) + 1`.
pub open spec fn threshold_spec(l: nat) -> nat {
    floor_log2(pow3(l)) + 1
}

/// The number that little-endian base-`2^32` limbs `s` stand for.
pub open spec fn limbs_value(s: Seq<u32>) -> nat
    decreases s.len(),
{
    if s.len() == 0 {
        0
    } else {
        limbs_value(s.drop_last()) + (s.last() as nat) * pow2((32 * (s.len() - 1)) as nat)
    }
}

/// `floor_log2(x)` is the `n` with `2^n <= x < 2^(n+1)`.
pub proof fn lemma_floor_log2_bounds(x: nat)
    requires
        x >= 1,
    ensures
        pow2(floor_log2(x)) <= x < pow2(floor_log2(x) + 1),
    decreases x,
{
    lemma_pow2_unfold(floor_log2(x) + 1);
    if x >= 2 {
        lemma_floor_log2_bounds(x / 2);
        lemma_pow2_unfold(floor_log2(x / 2) + 1);
    } else {
        lemma2_to64();
    }
}

/// Only `floor_log2(x)` lies between those powers.
pub proof fn lemma_floor_log2_unique(x: nat, n: nat)
    requires
        pow2(n) <= x < pow2(n + 1),
    ensures
        floor_log2(x) == n,
    decreases n,
{
    lemma_pow2_unfold(n + 1);
    if n == 0 {
        lemma2_to64();
    } else {
        lemma_pow2_unfold(n);
        lemma_floor_log2_unique(x / 2, (n - 1) as nat);
    }
}

/// `floor_log2` is non-decreasing.
pub proof fn lemma_floor_log2_monotone(x: nat, y: nat)
    requires
        x <= y,
    ensures
        floor_log2(x) <= floor_log2(y),
    decreases y,
{
    if x >= 2 {
        lemma_floor_log2_monotone(x / 2, y / 2);
    }
}

/// `3^e` is non-decreasing in `e`.
pub proof fn lemma_pow3_monotone(a: nat, b: nat)
    requires
        a <= b,
    ensures
        1 <= pow3(a) <= pow3(b),
    decreases b,
{
    if b > 0 {
        if a == b {
            lemma_pow3_monotone((b - 1) as nat, (b - 1) as nat);
        } else {
            lemma_pow3_monotone(a, (b - 1) as nat);
        }
    }
}

/// `3^(a + b) == 3^a * 3^b`.
pub proof fn lemma_pow3_adds(a: nat, b: nat)
    ensures
        pow3(a + b) == pow3(a) * pow3(b),
    decreases b,
{
    if b > 0 {
        let c = (b - 1) as nat;
        lemma_pow3_adds(a, c);
        assert(pow3(a + c) == pow3(a) * pow3(c));
        assert(a + b == (a + c) + 1);
        assert(pow3(a + b) == 3 * pow3(a + c));
        assert(pow3(a) * pow3(b) == 3 * (pow3(a) * pow3((b - 1) as nat))) by (nonlinear_arith)
            requires
                pow3(b) == 3 * pow3((b - 1) as nat),
        ;
    } else {
        assert(a + b == a);
        assert(pow3(b) == 1);
    }
}

/// The threshold is non-decreasing in the depth.
pub proof fn lemma_threshold_monotone(l1: nat, l2: nat)
    requires
        l1 <= l2,
    ensures
        threshold_spec(l1) <= threshold_spec(l2),
{
    lemma_pow3_monotone(l1, l2);
    lemma_floor_log2_monotone(pow3(l1), pow3(l2));
}

/// `threshold_spec(l) - 1` is the largest `n` with `2^n <= 3^l`, that is,
/// `floor(l * log2(3))`.
pub proof fn lemma_threshold_characterized(l: nat)
    ensures
        pow2((threshold_spec(l) - 1) as nat) <= pow3(l) < pow2(threshold_spec(l)),
{
    lemma_pow3_monotone(0, l);
    lemma_floor_log2_bounds(pow3(l));
}

/// The threshold stays below `2l + 2`, so it fits a `u64`.
pub proof fn lemma_threshold_bound(l: nat)
    ensures
        threshold_spec(l) <= 2 * l + 1,
{
    lemma_pow3_monotone(0, l);
    lemma_floor_log2_bounds(pow3(l));
    lemma_pow3_below_pow2(l);
    if floor_log2(pow3(l)) > 2 * l {
        if floor_log2(pow3(l)) > 2 * l + 1 {
            vstd::arithmetic::power2::lemma_pow2_strictly_increases(2 * l + 1, floor_log2(pow3(l)));
        }
    }
}

proof fn lemma_limb_pow(i: nat)
    ensures
        pow2(32 * (i + 1)) == pow2(32 * i) * 0x1_0000_0000,
        pow2(32 * i) > 0,
{
    lemma_pow2_adds(32 * i, 32);
    lemma2_to64();
    lemma_pow2_pos(32 * i);
}

/// Limbs are worth less than the next power of the base.
proof fn lemma_limbs_value_bound(s: Seq<u32>)
    ensures
        limbs_value(s) < pow2((32 * s.len()) as nat),
    decreases s.len(),
{
    if s.len() == 0 {
        lemma2_to64();
    } else {
        let n = (s.len() - 1) as nat;
        lemma_limbs_value_bound(s.drop_last());
        lemma_limb_pow(n);
        let p = pow2(32 * n);
        assert(limbs_value(s.drop_last()) + s.last() * p < p * 0x1_0000_0000) by (nonlinear_arith)
            requires
                limbs_value(s.drop_last()) < p,
                s.last() <= 0xffff_ffff,
        ;
    }
}

/// `3^e < 2^(2e + 1)`.
proof fn lemma_pow3_below_pow2(e: nat)
    ensures
        pow3(e) < pow2(2 * e + 1),
    decreases e,
{
    lemma_pow2_unfold(2 * e + 1);
    if e == 0 {
        lemma2_to64();
    } else {
        lemma_pow3_below_pow2((e - 1) as nat);
        lemma_pow2_unfold(2 * e);
        assert((2 * (e - 1) + 1) as nat == (2 * e - 1) as nat);
    }
}

/// Limbs with a non-zero top limb are worth at least the top limb's weight.
proof fn lemma_limbs_value_lower(s: Seq<u32>)
    requires
        s.len() >= 1,
        s.last() != 0,
    ensures
        pow2((32 * (s.len() - 1)) as nat) <= limbs_value(s),
{
    let p = pow2((32 * (s.len() - 1)) as nat);
    assert(p <= s.last() * p) by (nonlinear_arith)
        requires
            s.last() >= 1,
    ;
}

/// Limbs holding `3^e` are few: `32 * (len - 1) < 2 * e + 1`.
proof fn lemma_limbs_length_bound(s: Seq<u32>, e: nat)
    requires
        s.len() >= 1,
        s.last() != 0,
        limbs_value(s) == pow3(e),
    ensures
        32 * (s.len() - 1) < 2 * e + 1,
{
    lemma_limbs_value_lower(s);
    lemma_pow3_below_pow2(e);
    if 32 * (s.len() - 1) >= 2 * e + 1 {
        if 32 * (s.len() - 1) > 2 * e + 1 {
            vstd::arithmetic::power2::lemma_pow2_strictly_increases(2 * e + 1, (32 * (s.len() - 1)) as nat);
        }
    }
}

/// Multiplies a number held in limbs by a small factor.
fn times_small(x: &Vec<u32>, f: u32) -> (r: Vec<u32>)
    requires
        f >= 1,
        x@.len() >= 1,
        x@.last() != 0,
        x@.len() < usize::MAX,
    ensures
        limbs_value(r@) == f * limbs_value(x@),
        r@.len() >= 1,
        r@.last() != 0,
        r@.len() <= x@.len() + 1,
{
    let mut out: Vec<u32> = Vec::new();
    let mut carry: u64 = 0;
    let mut i: usize = 0;
    assert(x@.subrange(0, 0) =~= Seq::<u32>::empty());
    assert(limbs_value(Seq::<u32>::empty()) == 0);
    while i < x.len()
        invariant
            i <= x@.len(),
            out@.len() == i,
            f >= 1,
            carry < f,
            limbs_value(out@) + carry * pow2(32 * i as nat) == f * limbs_value(x@.subrange(0, i as int)),
            i > 0 && x@[i - 1] != 0 ==> (out@[i - 1] != 0 || carry > 0),
        decreases x@.len() - i,
    {
        let xi = x[i];
        assert(f as u64 * xi as u64 + carry < 0x1_0000_0000_0000_0000) by (nonlinear_arith)
            requires
                f <= 0xffff_ffff,
                xi <= 0xffff_ffff,
                carry < f,
        ;
        let t: u64 = f as u64 * xi as u64 + carry;
        let lo: u64 = t % 0x1_0000_0000;
        let hi: u64 = t / 0x1_0000_0000;
        proof {
            lemma_limb_pow(i as nat);
            let p = pow2(32 * i as nat);
            let q = pow2(32 * (i + 1) as nat);
            assert(x@.subrange(0, i + 1).drop_last() =~= x@.subrange(0, i as int));
            assert(limbs_value(x@.subrange(0, i + 1)) == limbs_value(x@.subrange(0, i as int)) + xi * p);
            assert(out@.push(lo as u32).drop_last() =~= out@);
            assert(lo * p + hi * q == t * p) by (nonlinear_arith)
                requires
                    q == p * 0x1_0000_0000,
                    t == hi * 0x1_0000_0000 + lo,
            ;
            assert(f * limbs_value(x@.subrange(0, i + 1)) == f * limbs_value(x@.subrange(0, i as int)) + f * xi * p) by (nonlinear_arith)
                requires
                    limbs_value(x@.subrange(0, i + 1)) == limbs_value(x@.subrange(0, i as int)) + xi * p,
            ;
            assert(t * p == f * xi * p + carry * p) by (nonlinear_arith)
                requires
                    t == f * xi + carry,
            ;
            assert(hi < f) by (nonlinear_arith)
                requires
                    t == f * xi + carry,
                    carry < f,
                    xi < 0x1_0000_0000,
                    hi == t / 0x1_0000_0000,
            ;
            if xi != 0 && hi == 0 {
                assert(t >= 1) by (nonlinear_arith)
                    requires
                        t == f * xi + carry,
                        f >= 1,
                        xi >= 1,
                ;
            }
        }
        out.push(lo as u32);
        carry = hi;
        i = i + 1;
    }
    assert(x@.subrange(0, x@.len() as int) =~= x@);
    if carry > 0 {
        proof {
            lemma_limb_pow(i as nat);
            assert(out@.push(carry as u32).drop_last() =~= out@);
        }
        out.push(carry as u32);
    }
    out
}

/// The base-two logarithm of a non-zero `u32`, rounded down.
fn floor_log2_u32(x: u32) -> (r: u64)
    requires
        x >= 1,
    ensures
        r == floor_log2(x as nat),
        r < 32,
{
    let mut cur: u32 = x;
    let mut cnt: u64 = 0;
    proof {
        lemma2_to64();
    }
    while cur >= 2
        invariant
            cur >= 1,
            cnt < 32,
            cnt + floor_log2(cur as nat) == floor_log2(x as nat),
            pow2(cnt as nat) * cur <= x,
        decreases cur,
    {
        proof {
            lemma_pow2_unfold((cnt + 1) as nat);
            assert(pow2((cnt + 1) as nat) * (cur / 2) <= pow2(cnt as nat) * cur) by (nonlinear_arith)
                requires
                    pow2((cnt + 1) as nat) == 2 * pow2(cnt as nat),
                    cur >= 2,
            ;
            assert(pow2((cnt + 1) as nat) <= pow2((cnt + 1) as nat) * (cur / 2)) by (nonlinear_arith)
                requires
                    cur >= 2,
            ;
            lemma2_to64();
            if cnt + 1 >= 32 {
                if cnt + 1 > 32 {
                    vstd::arithmetic::power2::lemma_pow2_strictly_increases(32, (cnt + 1) as nat);
                }
            }
        }
        cur = cur / 2;
        cnt = cnt + 1;
    }
    proof {
        lemma2_to64();
        if cnt >= 32 {
            vstd::arithmetic::power2::lemma_pow2_strictly_increases(31, cnt as nat);
        }
    }
    cnt
}

/// The base-two logarithm, rounded down, of a number held in limbs whose
/// top limb is non-zero.
fn floor_log2_limbs(x: &Vec<u32>) -> (r: u64)
    requires
        x@.len() >= 1,
        x@.last() != 0,
        x@.len() <= 0x1_0000_0001,
    ensures
        r == floor_log2(limbs_value(x@)),
        r < 32 * x@.len(),
{
    let n: usize = x.len() - 1;
    let top = x[n];
    let b = floor_log2_u32(top);
    proof {
        let p = pow2(32 * n as nat);
        lemma_limbs_value_bound(x@.drop_last());
        lemma_floor_log2_bounds(top as nat);
        lemma_pow2_adds(32 * n as nat, b as nat);
        lemma_pow2_adds(32 * n as nat, (b + 1) as nat);
        let v = limbs_value(x@);
        assert(v == limbs_value(x@.drop_last()) + top * p);
        assert(pow2(b as nat) * p <= v) by (nonlinear_arith)
            requires
                pow2(b as nat) <= top,
                v == limbs_value(x@.drop_last()) + top * p,
        ;
        assert(v < pow2((b + 1) as nat) * p) by (nonlinear_arith)
            requires
                top + 1 <= pow2((b + 1) as nat),
                limbs_value(x@.drop_last()) < p,
                v == limbs_value(x@.drop_last()) + top * p,
        ;
        let m = (32 * n + b) as nat;
        assert(m + 1 == 32 * n as nat + (b + 1) as nat);
        assert(pow2(m) == pow2(32 * n as nat) * pow2(b as nat));
        assert(pow2(m + 1) == pow2(32 * n as nat) * pow2((b + 1) as nat));
        assert(pow2(m) <= v) by (nonlinear_arith)
            requires
                pow2(m) == p * pow2(b as nat),
                pow2(b as nat) * p <= v,
        ;
        assert(v < pow2(m + 1)) by (nonlinear_arith)
            requires
                pow2(m + 1) == p * pow2((b + 1) as nat),
                v < pow2((b + 1) as nat) * p,
        ;
        lemma_floor_log2_unique(v, m);
    }
    32 * n as u64 + b
}

/// Multiplier used for whole runs of twenty steps: `3^20`, which fits a limb.
const POW3_20: u32 = 3486784401;

/// `floor(l * log2(3)) + 1`, the least valuation sum that counts as a pass.
pub fn threshold(l: u32) -> (r: u64)
    ensures
        r == threshold_spec(l as nat),
{
    let mut x: Vec<u32> = Vec::new();
    x.push(1);
    let mut i: u32 = 0;
    proof {
        lemma2_to64();
        assert(x@.drop_last() =~= Seq::<u32>::empty());
        assert(limbs_value(Seq::<u32>::empty()) == 0);
        assert(limbs_value(x@) == 1);
    }
    proof {
        reveal_with_fuel(pow3, 21);
    }
    while i < l
        invariant
            i <= l,
            x@.len() >= 1,
            x@.last() != 0,
            32 * (x@.len() - 1) < 2 * i + 1,
            limbs_value(x@) == pow3(i as nat),
            pow3(20) == 3486784401,
        decreases l - i,
    {
        if l - i >= 20 {
            x = times_small(&x, POW3_20);
            proof {
                lemma_pow3_adds(i as nat, 20);
            }
            i = i + 20;
            proof {
                lemma_limbs_length_bound(x@, i as nat);
            }
        } else {
            x = times_small(&x, 3);
            proof {
                lemma_pow3_adds(i as nat, 1);
                reveal_with_fuel(pow3, 2);
            }
            i = i + 1;
            proof {
                lemma_limbs_length_bound(x@, i as nat);
            }
        }
    }
    floor_log2_limbs(&x) + 1
}

} // verus!
