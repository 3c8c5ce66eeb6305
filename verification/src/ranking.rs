//! Okapi BM25 ranking arithmetic in milli units (thousandths), entirely over
//! integers: a fixed-point natural logarithm for the inverse document
//! frequency, and the saturated term-frequency normalization.

use vstd::prelude::*;
use vstd::arithmetic::div_mod::{lemma_div_by_multiple, lemma_div_is_ordered};
use vstd::arithmetic::power2::{
    lemma2_to64, lemma_pow2_adds, lemma_pow2_pos, lemma_pow2_strictly_increases,
    lemma_pow2_unfold, pow2,
};

verus! {

/// Binary scale of the fixed-point logarithm.
pub const LOG_SCALE: u128 = 1048576;

/// The natural logarithm of two at `LOG_SCALE`, rounded down.
pub const LN2_SCALED: u128 = 726817;

/// Largest numerator or denominator the logarithm accepts: two to the
/// eightieth power.
pub const LOG_ARG_MAX: u128 = 0x100000000000000000000;

/// How often `den` doubles before exceeding half of `num`.
pub open spec fn norm_shift(num: int, den: int) -> nat
    decreases num - den
        when 1 <= den <= num
{
    if num < 2 * den {
        0
    } else {
        (1 + norm_shift(num, 2 * den)) as nat
    }
}

/// The scaled logarithm of `num/den` for `num >= den >= 1`: the ratio is
/// normalized into the interval from one to two, whose logarithm comes from
/// a three-term series in `z = (m - 1)/(m + 1)`.
pub open spec fn ln_scaled_nonneg(num: int, den: int) -> int
    recommends
        1 <= den <= num,
{
    let k = norm_shift(num, den);
    let d = den * pow2(k);
    let sc = LOG_SCALE as int;
    let z = (num - d) * sc / (num + d);
    let z2 = z * z / sc;
    let t3 = z * z2 / sc;
    let t5 = t3 * z2 / sc;
    k * (LN2_SCALED as int) + 2 * (z + t3 / 3 + t5 / 5)
}

/// The natural logarithm of `num/den` in milli units.
pub open spec fn ln_milli(num: int, den: int) -> int
    recommends
        1 <= num,
        1 <= den,
{
    if num >= den {
        ln_scaled_nonneg(num, den) * 1000 / (LOG_SCALE as int)
    } else {
        -(ln_scaled_nonneg(den, num) * 1000 / (LOG_SCALE as int))
    }
}

/// Doubling the denominator at most `b` times reaches half of `num` when
/// `num` fits under `den * pow2(b)`.
proof fn lemma_norm_shift_le(num: int, den: int, b: nat)
    requires
        1 <= den <= num,
        num <= den * pow2(b),
    ensures
        norm_shift(num, den) <= b,
    decreases b,
{
    if num < 2 * den {
    } else {
        if b == 0 {
            assert(pow2(0) == 1) by {
                lemma2_to64();
            }
        } else {
            lemma_pow2_unfold(b);
            assert(num <= (2 * den) * pow2((b - 1) as nat)) by (nonlinear_arith)
                requires
                    num <= den * pow2(b),
                    pow2(b) == 2 * pow2((b - 1) as nat),
            {}
            lemma_norm_shift_le(num, 2 * den, (b - 1) as nat);
        }
    }
}

/// Computes `ln_scaled_nonneg(num, den) * 1000 / LOG_SCALE` exactly.
fn ln_milli_nonneg(num: u128, den: u128) -> (r: u64)
    requires
        1 <= den <= num,
        num <= LOG_ARG_MAX,
    ensures
        r == ln_scaled_nonneg(num as int, den as int) * 1000 / (LOG_SCALE as int),
        r <= 67108864,
{
    let mut d: u128 = den;
    let mut k: u32 = 0;
    proof {
        assert(pow2(0) == 1) by {
            lemma2_to64();
        }
    }
    while num / 2 >= d
        invariant
            1 <= den <= d <= num <= LOG_ARG_MAX,
            d == den * pow2(k as nat),
            pow2(k as nat) <= num,
            k <= 80,
            norm_shift(num as int, den as int) == k + norm_shift(num as int, d as int),
        decreases num - d,
    {
        proof {
            assert(num >= 2 * d);
            assert(norm_shift(num as int, d as int) == 1 + norm_shift(num as int, 2 * d as int));
            lemma_pow2_unfold((k + 1) as nat);
            lemma_pow2_pos(k as nat);
            assert(2 * d == den * pow2((k + 1) as nat)) by (nonlinear_arith)
                requires
                    d == den * pow2(k as nat),
                    pow2((k + 1) as nat) == 2 * pow2(k as nat),
            {}
            assert(pow2(k as nat) <= d) by (nonlinear_arith)
                requires
                    d == den * pow2(k as nat),
                    den >= 1,
                    pow2(k as nat) >= 0,
            {}
            assert(pow2((k + 1) as nat) <= 2 * d) by (nonlinear_arith)
                requires
                    pow2((k + 1) as nat) == 2 * pow2(k as nat),
                    pow2(k as nat) <= d,
            {}
            // the shift count stays small because pow2 of it stays under num
            if k + 1 > 80 {
                lemma_pow2_adds(64, 16);
                lemma2_to64();
                assert(pow2(80) == 0x100000000000000000000);
                if k + 1 > 81 {
                    lemma_pow2_strictly_increases(81, (k + 1) as nat);
                }
                lemma_pow2_unfold(81);
                assert(false);
            }
        }
        d = d * 2;
        k = k + 1;
    }
    proof {
        assert(num < 2 * d);
        assert(norm_shift(num as int, d as int) == 0);
        assert(norm_shift(num as int, den as int) == k);
    }
    let sc = LOG_SCALE;
    let z: u128 = (num - d) * sc / (num + d);
    proof {
        assert((num - d) * sc <= (num + d) * sc) by (nonlinear_arith)
            requires
                0 <= num - d,
                d >= 1,
                sc >= 1,
        {}
        lemma_div_is_ordered(((num - d) * sc) as int, ((num + d) * sc) as int, (num + d) as int);
        lemma_div_by_multiple(sc as int, (num + d) as int);
        assert(z <= sc);
    }
    proof {
        assert(z * z <= sc * sc) by (nonlinear_arith)
            requires
                0 <= z <= sc,
        {}
    }
    let z2: u128 = z * z / sc;
    proof {
        lemma_div_is_ordered((z * z) as int, (sc * sc) as int, sc as int);
        lemma_div_by_multiple(sc as int, sc as int);
        assert(z2 <= sc);
        assert(z * z2 <= sc * sc) by (nonlinear_arith)
            requires
                0 <= z <= sc,
                0 <= z2 <= sc,
        {}
    }
    let t3: u128 = z * z2 / sc;
    proof {
        lemma_div_is_ordered((z * z2) as int, (sc * sc) as int, sc as int);
        assert(t3 <= sc);
        assert(t3 * z2 <= sc * sc) by (nonlinear_arith)
            requires
                0 <= t3 <= sc,
                0 <= z2 <= sc,
        {}
    }
    let t5: u128 = t3 * z2 / sc;
    proof {
        lemma_div_is_ordered((t3 * z2) as int, (sc * sc) as int, sc as int);
        assert(t5 <= sc);
    }
    let series: u128 = 2 * (z + t3 / 3 + t5 / 5);
    let fp: u128 = (k as u128) * LN2_SCALED + series;
    proof {
        lemma_div_is_ordered(t3 as int, sc as int, 3);
        lemma_div_is_ordered(t5 as int, sc as int, 5);
        assert((k as u128) * LN2_SCALED <= 80 * 726817) by (nonlinear_arith)
            requires
                0 <= k <= 80,
        {}
        assert(fp <= 64436816);
        lemma_div_is_ordered((fp * 1000) as int, 64436816000, sc as int);
    }
    let r128: u128 = fp * 1000 / sc;
    r128 as u64
}

/// Computes the natural logarithm of the ratio `num/den` in milli units,
/// the exact value of `ln_milli`.
pub fn ln_ratio_milli(num: u128, den: u128) -> (r: i64)
    requires
        1 <= num && num <= LOG_ARG_MAX,
        1 <= den && den <= LOG_ARG_MAX,
    ensures
        r == ln_milli(num as int, den as int),
        -67108864 <= r <= 67108864,
{
    if num >= den {
        let m = ln_milli_nonneg(num, den);
        m as i64
    } else {
        let m = ln_milli_nonneg(den, num);
        let r: i64 = -(m as i64);
        r
    }
}

/// Saturates a count at the largest 32-bit value.
pub open spec fn clamp32(x: int) -> int {
    if x > 0xffffffff {
        0xffffffff
    } else {
        x
    }
}

/// The BM25 term-frequency normalization in milli units, computed over a
/// common denominator so that only one division rounds: with saturated
/// term frequency `f` and document length `l`, it is
/// `f * (k1 + 1000) * 1000000 * total / (f * 1000000 * total
///  + k1 * (1000 - b) * total + k1 * b * l * count)`,
/// every factor of the textbook formula scaled by one thousand.
pub open spec fn tf_norm_milli(tf: int, len: int, total: int, count: int, k1m: int, bm: int) -> int
    recommends
        0 <= tf,
        0 <= len,
        0 <= total,
        0 <= count,
        0 <= k1m,
        0 <= bm <= 1000,
{
    let f = clamp32(tf);
    let l = clamp32(len);
    let n = f * (k1m + 1000) * 1000000 * total;
    let dsum = f * 1000000 * total + k1m * (1000 - bm) * total + k1m * bm * l * count;
    if dsum <= 0 {
        0
    } else {
        n / dsum
    }
}

/// Computes `tf_norm_milli` exactly.
pub fn tf_norm_milli_exec(tf: usize, len: usize, total: u64, count: usize, k1m: u64, bm: u64) -> (r:
    u64)
    requires
        1 <= tf,
        total <= 0xffffffffffffff,
        k1m <= 131072,
        bm <= 1000,
    ensures
        r == tf_norm_milli(tf as int, len as int, total as int, count as int, k1m as int, bm as int),
        r <= 1000 * (k1m + 1000),
{
    let f: u128 = if tf as u128 > 0xffffffff {
        0xffffffff
    } else {
        tf as u128
    };
    let l: u128 = if len as u128 > 0xffffffff {
        0xffffffff
    } else {
        len as u128
    };
    let t: u128 = total as u128;
    let c: u128 = count as u128;
    let km: u128 = k1m as u128;
    let bmm: u128 = bm as u128;
    proof {
        assert(f * (km + 1000) <= 0xffffffff * 132072) by (nonlinear_arith)
            requires
                0 <= f <= 0xffffffff,
                0 <= km <= 131072,
        {}
        assert(f * (km + 1000) * 1000000 <= 0xffffffff * 132072 * 1000000) by (nonlinear_arith)
            requires
                0 <= f * (km + 1000) <= 0xffffffff * 132072,
        {}
        assert(f * (km + 1000) * 1000000 * t <= 0xffffffff * 132072 * 1000000
            * 0xffffffffffffff) by (nonlinear_arith)
            requires
                0 <= f * (km + 1000) * 1000000 <= 0xffffffff * 132072 * 1000000,
                0 <= t <= 0xffffffffffffff,
        {}
        assert(f * 1000000 * t <= 0xffffffff * 1000000 * 0xffffffffffffff) by (nonlinear_arith)
            requires
                0 <= f <= 0xffffffff,
                0 <= t <= 0xffffffffffffff,
        {}
        assert(km * (1000 - bmm) <= 131072 * 1000) by (nonlinear_arith)
            requires
                0 <= km <= 131072,
                0 <= bmm <= 1000,
        {}
        assert(km * (1000 - bmm) * t <= 131072 * 1000 * 0xffffffffffffff) by (nonlinear_arith)
            requires
                0 <= km <= 131072,
                0 <= bmm <= 1000,
                0 <= t <= 0xffffffffffffff,
        {}
        assert(km * bmm <= 131072 * 1000) by (nonlinear_arith)
            requires
                0 <= km <= 131072,
                0 <= bmm <= 1000,
        {}
        assert(km * bmm * l <= 131072 * 1000 * 0xffffffff) by (nonlinear_arith)
            requires
                0 <= km <= 131072,
                0 <= bmm <= 1000,
                0 <= l <= 0xffffffff,
        {}
        assert(km * bmm * l * c <= 131072 * 1000 * 0xffffffff * 0xffffffffffffffff)
            by (nonlinear_arith)
            requires
                0 <= km <= 131072,
                0 <= bmm <= 1000,
                0 <= l <= 0xffffffff,
                0 <= c <= 0xffffffffffffffff,
        {}
    }
    let n: u128 = f * (km + 1000) * 1000000 * t;
    let dsum: u128 = f * 1000000 * t + km * (1000 - bmm) * t + km * bmm * l * c;
    if dsum == 0 {
        proof {
            assert(tf_norm_milli(
                tf as int,
                len as int,
                total as int,
                count as int,
                k1m as int,
                bm as int,
            ) == 0);
        }
        return 0;
    }
    let r128: u128 = n / dsum;
    proof {
        // the result is at most 1000 * (k1m + 1000): the denominator holds
        // the numerator's whole `f * 1000 * t` block
        assert(n == (km + 1000) * (f * 1000000 * t)) by (nonlinear_arith)
            requires
                n == f * (km + 1000) * 1000000 * t,
        {}
        assert(n <= (km + 1000) * dsum) by (nonlinear_arith)
            requires
                n == (km + 1000) * (f * 1000000 * t),
                f * 1000000 * t <= dsum,
                0 <= km,
        {}
        lemma_div_is_ordered(n as int, ((km + 1000) * dsum) as int, dsum as int);
        lemma_div_by_multiple((km + 1000) as int, dsum as int);
        assert(r128 <= km + 1000);
        assert(r128 <= 1000 * (k1m + 1000));
    }
    r128 as u64
}

/// The inverse document frequency in milli units for a collection of `c`
/// documents of which `nt` contain the term:
/// `ln((c - nt + 1/2) / (nt + 1/2))`, both sides doubled to stay integral.
pub open spec fn idf_milli(c: int, nt: int) -> int
    recommends
        1 <= nt <= c,
{
    ln_milli(2 * c - 2 * nt + 1, 2 * nt + 1)
}

/// Computes `idf_milli` exactly.
pub fn idf_milli_exec(c: usize, nt: usize) -> (r: i64)
    requires
        1 <= nt <= c,
    ensures
        r == idf_milli(c as int, nt as int),
        -67108864 <= r <= 67108864,
{
    let num: u128 = 2 * (c as u128) - 2 * (nt as u128) + 1;
    let den: u128 = 2 * (nt as u128) + 1;
    proof {
        assert(num <= LOG_ARG_MAX);
        assert(den <= LOG_ARG_MAX);
    }
    ln_ratio_milli(num, den)
}

/// Truncating division by 1000, rounding toward zero as machine division
/// does.
pub open spec fn div1000_trunc(x: int) -> int {
    if x >= 0 {
        x / 1000
    } else {
        -((-x) / 1000)
    }
}

/// Saturates into the 64-bit signed range.
pub open spec fn clamp_i64(x: int) -> int {
    if x > i64::MAX {
        i64::MAX as int
    } else if x < i64::MIN {
        i64::MIN as int
    } else {
        x
    }
}

/// One BM25 term contribution: the product of the signed inverse document
/// frequency and the nonnegative normalized term frequency, divided by 1000
/// rounding toward zero.
pub fn contribution_scaled(idf: i64, tfn: u64) -> (c: i128)
    requires
        -67108864 <= idf <= 67108864,
        tfn <= 132072000,
    ensures
        c == div1000_trunc((idf as int) * (tfn as int)),
        -17592186044416 <= c <= 17592186044416,
{
    if idf >= 0 {
        proof {
            assert((idf as int) * (tfn as int) <= 67108864 * 132072000) by (nonlinear_arith)
                requires
                    0 <= idf <= 67108864,
                    0 <= tfn <= 132072000,
            {}
            assert((idf as int) * (tfn as int) >= 0) by (nonlinear_arith)
                requires
                    0 <= idf,
                    0 <= tfn,
            {}
        }
        let mag: u128 = (idf as u128) * (tfn as u128);
        let q: u128 = mag / 1000;
        proof {
            lemma_div_is_ordered(mag as int, 67108864int * 132072000, 1000);
        }
        q as i128
    } else {
        let neg: i128 = -(idf as i128);
        proof {
            assert((neg as int) * (tfn as int) <= 67108864 * 132072000) by (nonlinear_arith)
                requires
                    0 <= neg <= 67108864,
                    0 <= tfn <= 132072000,
            {}
            assert((idf as int) * (tfn as int) == -((neg as int) * (tfn as int)))
                by (nonlinear_arith)
                requires
                    neg == -(idf as int),
            {}
        }
        let mag: u128 = (neg as u128) * (tfn as u128);
        let q: u128 = mag / 1000;
        proof {
            lemma_div_is_ordered(mag as int, 67108864int * 132072000, 1000);
        }
        -(q as i128)
    }
}

} // verus!
