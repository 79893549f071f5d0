//! Fixed-point binary logarithm, the arithmetic core of the Shannon-entropy
//! bookkeeping.
//!
//! Entropies only steer which cell is collapsed next, but they must be
//! computed deterministically and without floating point.  `log2_fixed`
//! returns `log2(w)` in 16.16 fixed point: the integer part is the position
//! of the highest set bit, and sixteen fraction bits are produced by the
//! classic repeated-squaring method on the mantissa.  Its specification is
//! that very recurrence.

use vstd::arithmetic::div_mod::{lemma_div_is_ordered, lemma_fundamental_div_mod};
use vstd::arithmetic::power2::{lemma2_to64, lemma_pow2_strictly_increases, pow2};
use vstd::prelude::*;

verus! {

/// The fixed-point scale: values carry sixteen fraction bits.
pub const LOG2_SCALE: u64 = 65536;

/// The integer part of `log2(w)`, for `w >= 1`.
pub open spec fn floor_log2(w: nat) -> nat
    decreases w,
{
    if w < 2 {
        0
    } else {
        1 + floor_log2((w / 2) as nat)
    }
}

/// The mantissa of `w` with 32 fraction bits, in `[2^32, 2^33)` for `w >= 1`.
pub open spec fn mantissa(w: nat) -> int {
    (w * 0x1_0000_0000) as int / pow2(floor_log2(w)) as int
}

/// `i` fraction bits of `log2(m / 2^32)` for a mantissa `m` in `[2^32, 2^33)`,
/// by repeated squaring: square the mantissa; if it reaches 2 the next bit is
/// one and the mantissa is halved.
pub open spec fn frac_part(m: int, i: nat) -> int
    decreases i,
{
    if i == 0 {
        0
    } else {
        let sq = (m * m) / 0x1_0000_0000;
        if sq >= 0x2_0000_0000 {
            pow2((i - 1) as nat) as int + frac_part(sq / 2, (i - 1) as nat)
        } else {
            frac_part(sq, (i - 1) as nat)
        }
    }
}

/// `log2(w)` in 16.16 fixed point, for `w >= 1`.
pub open spec fn log2_fixed_spec(w: nat) -> int {
    floor_log2(w) * LOG2_SCALE + frac_part(mantissa(w), 16)
}

/// `pow2(k) <= w < pow2(k + 1)` for the integer part `k` of `log2(w)`.
pub proof fn lemma_floor_log2_bounds(w: nat)
    requires
        w >= 1,
    ensures
        pow2(floor_log2(w)) <= w < pow2((floor_log2(w) + 1) as nat),
    decreases w,
{
    vstd::arithmetic::power2::lemma_pow2_unfold((floor_log2(w) + 1) as nat);
    if w < 2 {
        assert(pow2(0) == 1 && pow2(1) == 2) by {
            lemma2_to64();
        }
    } else {
        lemma_floor_log2_bounds((w / 2) as nat);
        vstd::arithmetic::power2::lemma_pow2_unfold(floor_log2(w));
        assert(pow2((floor_log2((w / 2) as nat) + 1) as nat) == pow2(
            floor_log2((w / 2) as nat),
        ) * 2) by {
            vstd::arithmetic::power2::lemma_pow2_unfold((floor_log2((w / 2) as nat) + 1) as nat);
        }
    }
}

/// A value below `pow2(n)` has integer log below `n`.
pub proof fn lemma_floor_log2_lt(w: nat, n: nat)
    requires
        1 <= w,
        w < pow2(n),
    ensures
        floor_log2(w) < n,
{
    lemma_floor_log2_bounds(w);
    if floor_log2(w) >= n {
        if floor_log2(w) > n {
            lemma_pow2_strictly_increases(n, floor_log2(w));
        }
        assert(pow2(n) <= pow2(floor_log2(w)));
    }
}

/// Fraction bits are a nonnegative value below `pow2(i)`.
pub proof fn lemma_frac_part_bounds(m: int, i: nat)
    ensures
        0 <= frac_part(m, i) < pow2(i),
    decreases i,
{
    vstd::arithmetic::power2::lemma_pow2_pos(i);
    if i == 0 {
        assert(pow2(0) == 1) by {
            lemma2_to64();
        }
    } else {
        let sq = (m * m) / 0x1_0000_0000;
        lemma_frac_part_bounds(sq / 2, (i - 1) as nat);
        lemma_frac_part_bounds(sq, (i - 1) as nat);
        vstd::arithmetic::power2::lemma_pow2_unfold(i);
    }
}

/// The fixed-point logarithm of a 64-bit value stays below `64 * 2^16`.
pub proof fn lemma_log2_fixed_spec_bound(w: nat)
    requires
        1 <= w <= u64::MAX,
    ensures
        0 <= log2_fixed_spec(w) < 64 * LOG2_SCALE,
        floor_log2(w) <= 63,
{
    lemma2_to64();
    vstd::arithmetic::power2::lemma2_to64_rest();
    lemma_floor_log2_lt(w, 64);
    lemma_frac_part_bounds(mantissa(w), 16);
    assert(pow2(16) == 65536);
}

/// `log2(w)` in 16.16 fixed point.  The specification pins the exact value:
/// the integer part is the highest set bit's position, the fraction comes
/// from sixteen repeated-squaring steps.
pub fn log2_fixed(w: u64) -> (r: u64)
    requires
        1 <= w,
    ensures
        r == log2_fixed_spec(w as nat),
        r < 64 * LOG2_SCALE,
{
    proof {
        lemma_log2_fixed_spec_bound(w as nat);
    }
    // Integer part: divide down to one.
    let mut k: u64 = 0;
    let mut x: u64 = w;
    while x >= 2
        invariant
            1 <= x,
            floor_log2(w as nat) == k + floor_log2(x as nat),
            k <= floor_log2(w as nat),
            floor_log2(w as nat) <= 63,
        decreases x,
    {
        x = x / 2;
        k = k + 1;
    }
    proof {
        assert(floor_log2(x as nat) == 0);
        assert(k == floor_log2(w as nat));
        lemma_log2_fixed_spec_bound(w as nat);
    }
    // pow2(k), exactly, in 128 bits.
    proof {
        lemma2_to64();
        vstd::arithmetic::power2::lemma2_to64_rest();
    }
    let mut p: u128 = 1;
    let mut j: u64 = 0;
    while j < k
        invariant
            j <= k,
            k <= 63,
            p == pow2(j as nat),
            p <= pow2(k as nat),
        decreases k - j,
    {
        proof {
            vstd::arithmetic::power2::lemma_pow2_unfold((j + 1) as nat);
            if j + 1 <= k && j + 1 < k {
                lemma_pow2_strictly_increases((j + 1) as nat, k as nat);
            }
            lemma2_to64();
            vstd::arithmetic::power2::lemma2_to64_rest();
            assert(pow2(63) == 0x8000000000000000);
        }
        p = p * 2;
        j = j + 1;
    }
    proof {
        lemma2_to64();
        vstd::arithmetic::power2::lemma2_to64_rest();
        assert(p <= 0x8000000000000000);
        vstd::arithmetic::power2::lemma_pow2_pos(k as nat);
    }
    // Mantissa in [2^32, 2^33), with 32 fraction bits.
    let mut m: u128 = ((w as u128) * 0x1_0000_0000) / p;
    proof {
        lemma_floor_log2_bounds(w as nat);
        let pk = pow2(k as nat) as int;
        let num = (w as nat * 0x1_0000_0000) as int;
        lemma_fundamental_div_mod(num, pk);
        assert(num >= pk * 0x1_0000_0000) by (nonlinear_arith)
            requires
                pk <= w as int,
                num == (w as int) * 0x1_0000_0000,
                pk >= 1,
        ;
        assert(num / pk >= 0x1_0000_0000) by {
            lemma_div_is_ordered(pk * 0x1_0000_0000, num, pk);
            vstd::arithmetic::div_mod::lemma_div_by_multiple(0x1_0000_0000, pk);
        }
        assert(num < pk * 0x2_0000_0000) by (nonlinear_arith)
            requires
                (w as int) < 2 * pk,
                num == (w as int) * 0x1_0000_0000,
                pk >= 1,
        ;
        assert(num / pk < 0x2_0000_0000) by {
            if num / pk >= 0x2_0000_0000 {
                lemma_fundamental_div_mod(num, pk);
                assert(num >= pk * (num / pk)) by (nonlinear_arith)
                    requires
                        num == pk * (num / pk) + num % pk,
                        num % pk >= 0,
                ;
                assert(pk * (num / pk) >= pk * 0x2_0000_0000) by (nonlinear_arith)
                    requires
                        num / pk >= 0x2_0000_0000,
                        pk >= 1,
                ;
            }
        }
        assert(m == mantissa(w as nat));
    }
    // Sixteen fraction bits by repeated squaring.
    proof {
        lemma2_to64();
    }
    let ghost m0: int = m as int;
    let mut f: u64 = 0;
    let mut i: u64 = 0;
    while i < 16
        invariant
            i <= 16,
            0x1_0000_0000 <= m < 0x2_0000_0000,
            0 <= f < pow2(i as nat),
            frac_part(m0, 16) == f * pow2((16 - i) as nat) + frac_part(m as int, (16 - i) as nat),
        decreases 16 - i,
    {
        proof {
            lemma2_to64();
            vstd::arithmetic::power2::lemma2_to64_rest();
            assert((m as int) * (m as int) < 0x4_0000_0000_0000_0000) by (nonlinear_arith)
                requires
                    0 <= (m as int) < 0x2_0000_0000,
            ;
            assert((m as int) * (m as int) >= 0x1_0000_0000_0000_0000) by (nonlinear_arith)
                requires
                    (m as int) >= 0x1_0000_0000,
            ;
        }
        let sq: u128 = (m * m) / 0x1_0000_0000;
        proof {
            let mm = (m as int) * (m as int);
            lemma_div_is_ordered(0x1_0000_0000_0000_0000, mm, 0x1_0000_0000);
            assert(0x1_0000_0000_0000_0000int / 0x1_0000_0000 == 0x1_0000_0000);
            assert(sq >= 0x1_0000_0000);
            if sq >= 0x4_0000_0000 {
                lemma_fundamental_div_mod(mm, 0x1_0000_0000);
                assert(mm >= 0x1_0000_0000 * (mm / 0x1_0000_0000)) by (nonlinear_arith)
                    requires
                        mm == 0x1_0000_0000 * (mm / 0x1_0000_0000) + mm % 0x1_0000_0000,
                        mm % 0x1_0000_0000 >= 0,
                ;
                assert(0x1_0000_0000 * (mm / 0x1_0000_0000) >= 0x1_0000_0000 * 0x4_0000_0000)
                    by (nonlinear_arith)
                    requires
                        mm / 0x1_0000_0000 >= 0x4_0000_0000,
                ;
            }
            assert(sq < 0x4_0000_0000);
        }
        let ghost pre_m: int = m as int;
        let ghost pre_f: u64 = f;
        if sq >= 0x2_0000_0000 {
            m = sq / 2;
            f = 2 * f + 1;
        } else {
            m = sq;
            f = 2 * f;
        }
        proof {
            vstd::arithmetic::power2::lemma_pow2_unfold((i + 1) as nat);
            vstd::arithmetic::power2::lemma_pow2_unfold((16 - i) as nat);
            assert(frac_part(pre_m, (16 - i) as nat) == {
                let s = (pre_m * pre_m) / 0x1_0000_0000;
                if s >= 0x2_0000_0000 {
                    pow2((16 - i - 1) as nat) as int + frac_part(s / 2, (16 - i - 1) as nat)
                } else {
                    frac_part(s, (16 - i - 1) as nat)
                }
            });
            assert((pre_m * pre_m) / 0x1_0000_0000 == sq as int);
            assert(frac_part(m0, 16) == f * pow2((16 - (i + 1)) as nat) + frac_part(
                m as int,
                (16 - (i + 1)) as nat,
            )) by (nonlinear_arith)
                requires
                    frac_part(m0, 16) == pre_f * pow2((16 - i) as nat) + frac_part(
                        pre_m,
                        (16 - i) as nat,
                    ),
                    pow2((16 - i) as nat) == 2 * pow2((16 - i - 1) as nat),
                    ((sq as int) >= 0x2_0000_0000 ==> f == 2 * pre_f + 1 && frac_part(
                        pre_m,
                        (16 - i) as nat,
                    ) == pow2((16 - i - 1) as nat) + frac_part(m as int, (16 - i - 1) as nat)),
                    ((sq as int) < 0x2_0000_0000 ==> f == 2 * pre_f && frac_part(
                        pre_m,
                        (16 - i) as nat,
                    ) == frac_part(m as int, (16 - i - 1) as nat)),
                    16 - (i + 1) == 16 - i - 1,
            ;
        }
        i = i + 1;
    }
    proof {
        assert(i == 16);
        assert((16 - i) as nat == 0);
        assert(frac_part(m as int, 0) == 0);
        assert(pow2(0) == 1) by {
            lemma2_to64();
        }
        assert(frac_part(m0, 16) == f * pow2(0) + frac_part(m as int, 0));
        assert(f * pow2(0) == f) by (nonlinear_arith)
            requires
                pow2(0) == 1,
        ;
        assert(f == frac_part(m0, 16));
        lemma_frac_part_bounds(m0, 16);
        assert(pow2(16) == 65536) by {
            lemma2_to64();
        }
    }
    k * LOG2_SCALE + f
}

} // verus!
