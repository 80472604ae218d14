//! Quantiles of sorted samples, with exact ranks.
//!
//! A level `q` between zero and one stands for the rank `q * (len - 1)`.
//! The rank is computed without rounding: a double is a whole number of
//! units of two to the power -1074, so the rank is a whole number of such
//! units too.

use crate::double::{lemma_order_is_value_order, lemma_total_order_refines, unit, Double};
use crate::stats::samples::{all_finite, sorted};
use vstd::arithmetic::div_mod::{
    lemma_div_by_multiple, lemma_fundamental_div_mod, lemma_fundamental_div_mod_converse_div,
    lemma_fundamental_div_mod_converse_mod, lemma_mod_bound,
};
use vstd::arithmetic::power2::{
    lemma2_to64, lemma2_to64_rest, lemma_pow2_adds, lemma_pow2_pos, lemma_pow2_strictly_increases,
    pow2,
};
use vstd::bits::{lemma_u64_pow2_no_overflow, lemma_u64_shl_is_mul};
use vstd::prelude::*;

verus! {

/// The answer to a quantile query.
#[derive(Clone, Copy, Debug, PartialEq, Eq, Structural)]
pub enum Quantile {
    /// There is no such quantile: no samples, or a level that is no number.
    Undefined,
    /// The quantile is this sample.
    Exact(Double),
    /// The quantile lies between two samples that stand side by side,
    /// `below` at the index `rank` and `above` behind it. It is
    /// `below + (above - below) * numerator / 2^shift`, and the fraction
    /// `numerator / 2^shift` lies strictly between 0 and 1.
    Between { rank: usize, below: Double, above: Double, numerator: u128, shift: u32 },
}

/// Whether a level lies strictly between zero and one.
pub open spec fn is_inner_level(q: Double) -> bool {
    Double::zero().lt(q) && q.lt(Double::one())
}

/// The quantile at the level `q` of samples that ascend.
///
/// A level at or below zero gives the first sample, a level at or above one
/// the last. A level in between gives the rank `q * (len - 1)`: a whole rank
/// is the sample at that index, a broken one lies between the sample at the
/// rank rounded down and the next, at the fraction that was rounded off.
pub open spec fn quantile_of(data: Seq<Double>, q: Double) -> Quantile {
    if data.len() == 0 || q.is_nan() {
        Quantile::Undefined
    } else if q.le(Double::zero()) {
        Quantile::Exact(data[0])
    } else if Double::one().le(q) {
        Quantile::Exact(data[data.len() - 1])
    } else {
        let scaled_rank = q.scaled() * (data.len() - 1);
        let rank = scaled_rank / unit();
        let part = scaled_rank % unit();
        let shift = -q.spec_exponent();
        if part == 0 {
            Quantile::Exact(data[rank])
        } else {
            Quantile::Between {
                rank: rank as usize,
                below: data[rank],
                above: data[rank + 1],
                numerator: (part / (pow2((1074 - shift) as nat) as int)) as u128,
                shift: shift as u32,
            }
        }
    }
}

/// The value that the answer to a quantile query stands for, times the
/// square of `unit()`: an integer.
pub open spec fn quantile_scaled(quantile: Quantile) -> int {
    match quantile {
        Quantile::Undefined => 0,
        Quantile::Exact(sample) => sample.scaled() * unit(),
        Quantile::Between { below, above, numerator, shift, .. } => below.scaled() * unit() + (
        above.scaled() - below.scaled()) * (numerator * pow2((1074 - shift) as nat)),
    }
}

/// The rank of an inner level among `steps + 1` samples: the whole part, the
/// numerator of the rest, and the power of two under it.
pub(crate) fn level_rank(q: Double, steps: usize) -> (r: (usize, u128, u32))
    requires
        is_inner_level(q),
    ensures
        r.0 == (q.scaled() * steps) / unit(),
        r.1 == ((q.scaled() * steps) % unit()) / (pow2((1074 - r.2) as nat) as int),
        r.1 == 0 <==> (q.scaled() * steps) % unit() == 0,
        r.2 == -q.spec_exponent(),
        r.0 <= steps,
        r.1 != 0 ==> r.0 < steps,
{
    // The level is `m / 2^shift` with `m` below 2^53 and `shift` at least
    // 53, so the rank is `m * steps / 2^shift`.
    let m: u64 = q.significand();
    let e: i32 = q.exponent();
    let shift: u32 = (-e) as u32;
    proof {
        assert(m * steps < 0x20_0000_0000_0000 * 0x1_0000_0000_0000_0000) by (nonlinear_arith)
            requires
                0 <= m < 0x20_0000_0000_0000,
                0 <= steps < 0x1_0000_0000_0000_0000,
        ;
    }
    let product: u128 = (m as u128) * (steps as u128);
    let ghost whole = pow2(shift as nat) as int;
    let ghost rest = pow2((1074 - shift) as nat) as int;
    proof {
        lemma2_to64();
        lemma2_to64_rest();
        lemma_pow2_adds(53, 64);
        lemma_pow2_adds(shift as nat, (1074 - shift) as nat);
        lemma_pow2_pos(shift as nat);
        lemma_pow2_pos((1074 - shift) as nat);
    }
    let (floor, numerator): (u128, u128) = if shift >= 117 {
        // The product lies below 2^117: nothing of it is whole.
        proof {
            if shift > 117 {
                lemma_pow2_strictly_increases(117, shift as nat);
            }
        }
        (0, product)
    } else {
        // The divisor 2^shift is put together from 2^53 and a power of two
        // that fits in 64 bits.
        let low: u64 = 1u64 << ((shift - 53) as u64);
        proof {
            lemma_u64_pow2_no_overflow((shift - 53) as nat);
            lemma_u64_shl_is_mul(1, (shift - 53) as u64);
            lemma_pow2_adds(53, (shift - 53) as nat);
            assert(0x20_0000_0000_0000 * low < 0x20_0000_0000_0000 * 0x1_0000_0000_0000_0000)
                by (nonlinear_arith)
                requires
                    0 < low < 0x1_0000_0000_0000_0000,
            ;
        }
        let divisor: u128 = 0x20_0000_0000_0000u128 * (low as u128);
        proof {
            lemma_fundamental_div_mod(product as int, whole);
            lemma_mod_bound(product as int, whole);
            assert(product == (product / divisor) * whole + product % divisor) by (nonlinear_arith)
                requires
                    product == whole * (product as int / whole) + (product as int % whole),
                    divisor == whole,
            ;
        }
        (product / divisor, product % divisor)
    };
    proof {
        // In units of 2^-1074 the rank is the product times `rest`, and
        // `unit()` is `whole` times `rest`.
        lemma_rank_parts(product as int, floor as int, numerator as int, whole, rest);
        assert(q.scaled() * steps == product * rest) by (nonlinear_arith)
            requires
                q.scaled() == m * rest,
                product == m * steps,
        ;
        assert(floor <= steps && (numerator != 0 ==> floor < steps)) by (nonlinear_arith)
            requires
                product == floor * whole + numerator,
                0 <= numerator < whole,
                product == m * steps,
                0 <= m < whole,
                0 <= steps,
                0 <= floor,
        ;
    }
    (floor as usize, numerator, shift)
}

/// A quotient and a rest stay what they are when the number and its divisor
/// grow by the same factor; the rest grows with them.
proof fn lemma_rank_parts(product: int, floor: int, numerator: int, whole: int, rest: int)
    requires
        product == floor * whole + numerator,
        0 <= numerator < whole,
        0 < rest,
    ensures
        (product * rest) / (whole * rest) == floor,
        (product * rest) % (whole * rest) == numerator * rest,
        (numerator * rest) / rest == numerator,
        numerator == 0 <==> numerator * rest == 0,
{
    assert(product * rest == floor * (whole * rest) + numerator * rest) by (nonlinear_arith)
        requires
            product == floor * whole + numerator,
    ;
    assert(0 <= numerator * rest < whole * rest) by (nonlinear_arith)
        requires
            0 <= numerator < whole,
            0 < rest,
    ;
    lemma_fundamental_div_mod_converse_div(product * rest, whole * rest, floor, numerator * rest);
    lemma_fundamental_div_mod_converse_mod(product * rest, whole * rest, floor, numerator * rest);
    lemma_div_by_multiple(numerator, rest);
    assert(numerator == 0 <==> numerator * rest == 0) by (nonlinear_arith)
        requires
            0 <= numerator,
            0 < rest,
    ;
}

/// Samples that ascend in the total order ascend in value.
pub proof fn lemma_sorted_values(data: Seq<Double>, i: int, j: int)
    requires
        sorted(data),
        all_finite(data),
        0 <= i <= j < data.len(),
    ensures
        data[i].scaled() <= data[j].scaled(),
{
    lemma_total_order_refines(data[i], data[j]);
    lemma_order_is_value_order(data[i], data[j]);
}

/// What an inner level gives, in terms of its rank times `unit()`.
pub proof fn lemma_inner_quantile(data: Seq<Double>, q: Double)
    requires
        0 < data.len() <= usize::MAX,
        is_inner_level(q),
    ensures
        ({
            let x = q.scaled() * (data.len() - 1);
            let rank = x / unit();
            let part = x % unit();
            &&& 0 < q.scaled() < unit()
            &&& 0 <= rank < data.len()
            &&& 0 <= part < unit()
            &&& x == rank * unit() + part
            &&& part > 0 ==> rank + 1 < data.len()
            &&& quantile_scaled(quantile_of(data, q)) == data[rank].scaled() * unit() + if part
                > 0 {
                (data[rank + 1].scaled() - data[rank].scaled()) * part
            } else {
                0
            }
        }),
{
    let steps = data.len() - 1;
    let one = Double::one();
    let shift = -q.spec_exponent();
    let m = q.spec_significand();
    let whole = pow2(shift as nat) as int;
    let rest = pow2((1074 - shift) as nat) as int;
    lemma2_to64();
    lemma2_to64_rest();
    lemma_pow2_adds(52, 1022);
    lemma_pow2_adds(shift as nat, (1074 - shift) as nat);
    lemma_pow2_pos(shift as nat);
    lemma_pow2_pos((1074 - shift) as nat);
    lemma_pow2_pos(1074);
    lemma_order_is_value_order(q, one);
    lemma_order_is_value_order(Double::zero(), q);
    let x = q.scaled() * steps;
    let product = m * steps;
    assert(0 <= product) by (nonlinear_arith)
        requires
            product == m * steps,
            0 <= m,
            0 <= steps,
    ;
    lemma_fundamental_div_mod(product, whole);
    lemma_mod_bound(product, whole);
    let floor = product / whole;
    let numerator = product % whole;
    assert(product == floor * whole + numerator) by (nonlinear_arith)
        requires
            product == whole * floor + numerator,
    ;
    lemma_rank_parts(product, floor, numerator, whole, rest);
    assert(x == product * rest) by (nonlinear_arith)
        requires
            x == q.scaled() * steps,
            q.scaled() == m * rest,
            product == m * steps,
    ;
    let rank = x / unit();
    let part = x % unit();
    lemma_fundamental_div_mod(x, unit());
    lemma_mod_bound(x, unit());
    assert(x == rank * unit() + part) by (nonlinear_arith)
        requires
            x == unit() * rank + part,
    ;
    assert(0 <= rank <= steps && (part > 0 ==> rank < steps)) by (nonlinear_arith)
        requires
            x == rank * unit() + part,
            0 <= part < unit(),
            x == q.scaled() * steps,
            0 < q.scaled() < unit(),
            0 <= steps,
    ;
    if part > 0 {
        assert(numerator < 0x20_0000_0000_0000 * 0x1_0000_0000_0000_0000) by (nonlinear_arith)
            requires
                0 <= numerator <= product,
                product == m * steps,
                0 <= m < 0x20_0000_0000_0000,
                0 <= steps < 0x1_0000_0000_0000_0000,
        ;
    }
}

/// The value of every answer lies between the least sample and the
/// greatest.
pub proof fn lemma_quantile_within(data: Seq<Double>, q: Double)
    requires
        sorted(data),
        all_finite(data),
        0 < data.len() <= usize::MAX,
        !q.is_nan(),
    ensures
        data[0].scaled() * unit() <= quantile_scaled(quantile_of(data, q)) <= data[data.len()
            - 1].scaled() * unit(),
{
    let d = unit();
    let last = data.len() - 1;
    lemma_pow2_pos(1074);
    lemma_sorted_values(data, 0, last);
    assert(data[0].scaled() * d <= data[last].scaled() * d) by (nonlinear_arith)
        requires
            data[0].scaled() <= data[last].scaled(),
            0 < d,
    ;
    if !q.le(Double::zero()) && !Double::one().le(q) {
        // An inner level gives a value between two samples side by side.
        lemma_inner_quantile(data, q);
        let x = q.scaled() * last;
        let (rank, part) = (x / d, x % d);
        let next = if part > 0 {
            rank + 1
        } else {
            rank
        };
        lemma_sorted_values(data, 0, rank);
        lemma_sorted_values(data, rank, next);
        lemma_sorted_values(data, next, last);
        let (least, a, b, most) = (
            data[0].scaled(),
            data[rank].scaled(),
            data[next].scaled(),
            data[last].scaled(),
        );
        let v = quantile_scaled(quantile_of(data, q));
        assert(least * d <= v <= most * d) by (nonlinear_arith)
            requires
                v == a * d + if part > 0 {
                    (b - a) * part
                } else {
                    0
                },
                least <= a <= b <= most,
                0 <= part < d,
        ;
    }
}

} // verus!
