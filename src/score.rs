//! The quality score of an area and the attachment index of a node to an
//! area, both computed exactly as fractions of integers.
use vstd::prelude::*;
use vstd::arithmetic::div_mod::lemma_fundamental_div_mod;

verus! {

/// Minimum size (supply) of an area.
pub const MIN_SIZE: u64 = 3500;

/// Target size (supply) of an area.
pub const TARGET_SIZE: u64 = 25000;

/// Minimum self-containment, in thousandths (0.667).
pub const MIN_CONTAINMENT_PERMILLE: u64 = 667;

/// Target self-containment, in thousandths (0.75).
pub const TARGET_CONTAINMENT_PERMILLE: u64 = 750;

/// Denominator of the size/containment trade-off slope:
/// `TRADEOFF = (MIN_CONTAINMENT - TARGET_CONTAINMENT) / (TARGET_SIZE - MIN_SIZE)`
/// is `-(TARGET_CONTAINMENT_PERMILLE - MIN_CONTAINMENT_PERMILLE) / TRADEOFF_DEN`.
pub const TRADEOFF_DEN: u64 = 21500000;

/// Numerator, over `TRADEOFF_DEN`, of
/// `INTERCEPT = TARGET_CONTAINMENT - TRADEOFF * MIN_SIZE`.
pub const INTERCEPT_NUM: u64 = 16415500;

/// `2^128`, the weight of the high half of a 256-bit number.
pub open spec fn two_128() -> int {
    (0x1_0000_0000_0000_0000 * 0x1_0000_0000_0000_0000) as int
}

/// A fraction `(numerator, denominator)` with a positive denominator.
pub open spec fn frac_ok(x: (int, int)) -> bool {
    x.1 > 0
}

/// `x < y` for fractions with positive denominators.
pub open spec fn frac_lt(x: (int, int), y: (int, int)) -> bool {
    x.0 * y.1 < y.0 * x.1
}

/// `x == y` as rational numbers.
pub open spec fn frac_eq(x: (int, int), y: (int, int)) -> bool {
    x.0 * y.1 == y.0 * x.1
}

/// Self-containment is taken as `s / min(demand, supply)`, the larger of the
/// demand-side and supply-side fractions; `0 / 1` when the minimum is zero.
pub open spec fn containment_den(demand: int, supply: int) -> int {
    let lo = if demand < supply {
        demand
    } else {
        supply
    };
    if lo > 0 {
        lo
    } else {
        1
    }
}

/// The quality score `x` of an area with the given demand, supply (its size)
/// and self-containment, as a fraction.
///
/// - size >= TARGET_SIZE and containment >= TARGET: `1/12`;
/// - containment >= TARGET: `TRADEOFF * (MIN_SIZE - size)`;
/// - size >= TARGET_SIZE: `containment - MIN_CONTAINMENT`;
/// - otherwise: `containment - TRADEOFF * size - INTERCEPT`.
pub open spec fn score(demand: int, supply: int, s: int) -> (int, int) {
    let d = containment_den(demand, supply);
    let contained = 1000 * s >= TARGET_CONTAINMENT_PERMILLE * d;
    let large = supply >= TARGET_SIZE;
    let slope = TARGET_CONTAINMENT_PERMILLE - MIN_CONTAINMENT_PERMILLE;
    if large && contained {
        (1, 12)
    } else if contained {
        (slope * (supply - MIN_SIZE), TRADEOFF_DEN as int)
    } else if large {
        (1000 * s - MIN_CONTAINMENT_PERMILLE * d, 1000 * d)
    } else {
        (TRADEOFF_DEN * s + slope * supply * d - INTERCEPT_NUM * d, TRADEOFF_DEN * d)
    }
}

/// One term of the attachment index: `f/a * f/b`, or zero when a divisor is zero.
pub open spec fn attach_term(f: int, a: int, b: int) -> (int, int) {
    if a * b > 0 {
        (f * f, a * b)
    } else {
        (0, 1)
    }
}

/// The attachment index `tij2` of a node to an area, as a fraction:
/// `f_out/out_degree * f_out/area_demand + f_in/area_supply * f_in/in_degree`,
/// where `f_out` is the node's flow into the area and `f_in` the area's flow
/// into the node.
pub open spec fn attachment(
    f_out: int,
    out_degree: int,
    area_demand: int,
    f_in: int,
    area_supply: int,
    in_degree: int,
) -> (int, int) {
    let t1 = attach_term(f_out, out_degree, area_demand);
    let t2 = attach_term(f_in, area_supply, in_degree);
    (t1.0 * t2.1 + t2.0 * t1.1, t1.1 * t2.1)
}

/// Bound on the aggregates the scores are computed from.
pub open spec fn flow_bound() -> int {
    0x8000_0000
}

/// Range of a score's numerator and denominator.
pub open spec fn score_bounded(x: (int, int)) -> bool {
    -0x40_0000_0000_0000_0000 < x.0 < 0x40_0000_0000_0000_0000 && 0 < x.1
        < 0x100_0000_0000_0000
}

/// Range of an attachment index's numerator and denominator.
pub open spec fn attachment_bounded(x: (int, int)) -> bool {
    0 <= x.0 < 0x4000_0000_0000_0000_0000_0000_0000_0000 && 0 < x.1
        < 0x4000_0000_0000_0000_0000_0000_0000_0000
}

/// The order of fractions with positive denominators is transitive, and
/// strict below equal stays strict.
pub proof fn lemma_frac_order(x: (int, int), y: (int, int), z: (int, int))
    requires
        frac_ok(x),
        frac_ok(y),
        frac_ok(z),
    ensures
        frac_lt(x, y) && frac_lt(y, z) ==> frac_lt(x, z),
        frac_lt(x, y) && frac_eq(y, z) ==> frac_lt(x, z),
        frac_eq(x, y) && frac_lt(y, z) ==> frac_lt(x, z),
        frac_eq(x, y) && frac_eq(y, z) ==> frac_eq(x, z),
        !(frac_lt(x, y) && frac_lt(y, x)),
        !(frac_lt(x, y) && frac_eq(x, y)),
        frac_lt(x, y) || frac_eq(x, y) || frac_lt(y, x),
{
    let (a, b) = x;
    let (c, d) = y;
    let (e, f) = z;
    assert(a * d < c * b && c * f < e * d ==> a * f < e * b) by (nonlinear_arith)
        requires
            b > 0,
            d > 0,
            f > 0,
    ;
    assert(a * d < c * b && c * f == e * d ==> a * f < e * b) by (nonlinear_arith)
        requires
            b > 0,
            d > 0,
            f > 0,
    ;
    assert(a * d == c * b && c * f < e * d ==> a * f < e * b) by (nonlinear_arith)
        requires
            b > 0,
            d > 0,
            f > 0,
    ;
    assert(a * d == c * b && c * f == e * d ==> a * f == e * b) by (nonlinear_arith)
        requires
            b > 0,
            d > 0,
            f > 0,
    ;
}

proof fn lemma_mul_bound(a: int, b: int, ba: int, bb: int)
    requires
        0 <= a <= ba,
        0 <= b <= bb,
    ensures
        0 <= a * b <= ba * bb,
{
    assert(0 <= a * b <= ba * bb) by (nonlinear_arith)
        requires
            0 <= a <= ba,
            0 <= b <= bb,
    ;
}

proof fn lemma_mul_signed_bound(a: int, b: int, ba: int, bb: int)
    requires
        -ba < a < ba,
        0 < b < bb,
    ensures
        -(ba * bb) < a * b < ba * bb,
{
    assert(-(ba * bb) < a * b < ba * bb) by (nonlinear_arith)
        requires
            -ba < a < ba,
            0 < b < bb,
    ;
}

/// The quality score of an area, computed exactly.
pub fn x_score(demand: u64, supply: u64, s: u64) -> (r: (i128, i128))
    requires
        demand < flow_bound(),
        supply < flow_bound(),
        s <= demand,
        s <= supply,
    ensures
        (r.0 as int, r.1 as int) == score(demand as int, supply as int, s as int),
        score_bounded((r.0 as int, r.1 as int)),
{
    let lo = if demand < supply {
        demand
    } else {
        supply
    };
    let d: i128 = if lo > 0 {
        lo as i128
    } else {
        1
    };
    let s = s as i128;
    let supply_i = supply as i128;
    let contained = 1000 * s >= TARGET_CONTAINMENT_PERMILLE as i128 * d;
    let large = supply >= TARGET_SIZE;
    let slope = (TARGET_CONTAINMENT_PERMILLE - MIN_CONTAINMENT_PERMILLE) as i128;
    if large && contained {
        (1, 12)
    } else if contained {
        (slope * (supply_i - MIN_SIZE as i128), TRADEOFF_DEN as i128)
    } else if large {
        (1000 * s - MIN_CONTAINMENT_PERMILLE as i128 * d, 1000 * d)
    } else {
        proof {
            lemma_mul_bound(supply as int, d as int, flow_bound(), flow_bound());
            lemma_mul_bound(83, supply as int * d as int, 83, flow_bound() * flow_bound());
            lemma_mul_bound(TRADEOFF_DEN as int, s as int, TRADEOFF_DEN as int, flow_bound());
            lemma_mul_bound(INTERCEPT_NUM as int, d as int, INTERCEPT_NUM as int, flow_bound());
            lemma_mul_bound(TRADEOFF_DEN as int, d as int, TRADEOFF_DEN as int, flow_bound());
            assert(slope * supply_i * d == slope * (supply_i * d)) by (nonlinear_arith);
        }
        (
            TRADEOFF_DEN as i128 * s + slope * supply_i * d - INTERCEPT_NUM as i128 * d,
            TRADEOFF_DEN as i128 * d,
        )
    }
}

/// Whether score `x` is below score `y`.
pub fn score_lt(x: (i128, i128), y: (i128, i128)) -> (r: bool)
    requires
        score_bounded((x.0 as int, x.1 as int)),
        score_bounded((y.0 as int, y.1 as int)),
    ensures
        r == frac_lt((x.0 as int, x.1 as int), (y.0 as int, y.1 as int)),
{
    proof {
        let big: int = 0x40_0000_0000_0000_0000;
        let small: int = 0x100_0000_0000_0000;
        lemma_mul_signed_bound(x.0 as int, y.1 as int, big, small);
        lemma_mul_signed_bound(y.0 as int, x.1 as int, big, small);
        assert(big * small == 0x4000_0000_0000_0000_0000_0000_0000_0000);
    }
    x.0 * y.1 < y.0 * x.1
}

fn attach_term_exec(f: u64, a: u64, b: u64) -> (r: (u128, u128))
    requires
        f < flow_bound(),
        a < flow_bound(),
        b < flow_bound(),
    ensures
        (r.0 as int, r.1 as int) == attach_term(f as int, a as int, b as int),
        r.0 < 0x4000_0000_0000_0000,
        0 < r.1 < 0x4000_0000_0000_0000,
{
    proof {
        lemma_mul_bound(f as int, f as int, 0x7FFF_FFFF, 0x7FFF_FFFF);
        lemma_mul_bound(a as int, b as int, 0x7FFF_FFFF, 0x7FFF_FFFF);
    }
    if a > 0 && b > 0 {
        proof {
            lemma_mul_bound(1, 1, a as int, b as int);
        }
        ((f as u128) * (f as u128), (a as u128) * (b as u128))
    } else {
        proof {
            assert(a * b == 0) by (nonlinear_arith)
                requires
                    a == 0 || b == 0,
            ;
        }
        (0, 1)
    }
}

/// The attachment index of a node to an area, computed exactly.
pub fn attachment_index(
    f_out: u64,
    out_degree: u64,
    area_demand: u64,
    f_in: u64,
    area_supply: u64,
    in_degree: u64,
) -> (r: (u128, u128))
    requires
        f_out < flow_bound(),
        out_degree < flow_bound(),
        area_demand < flow_bound(),
        f_in < flow_bound(),
        area_supply < flow_bound(),
        in_degree < flow_bound(),
    ensures
        (r.0 as int, r.1 as int) == attachment(
            f_out as int,
            out_degree as int,
            area_demand as int,
            f_in as int,
            area_supply as int,
            in_degree as int,
        ),
        attachment_bounded((r.0 as int, r.1 as int)),
{
    let t1 = attach_term_exec(f_out, out_degree, area_demand);
    let t2 = attach_term_exec(f_in, area_supply, in_degree);
    proof {
        let b: int = 0x4000_0000_0000_0000;
        lemma_mul_bound(t1.0 as int, t2.1 as int, b, b);
        lemma_mul_bound(t2.0 as int, t1.1 as int, b, b);
        lemma_mul_bound(t1.1 as int, t2.1 as int, b, b);
        lemma_mul_bound(1, 1, t1.1 as int, t2.1 as int);
    }
    (t1.0 * t2.1 + t2.0 * t1.1, t1.1 * t2.1)
}

/// The value of a 256-bit number given as two halves.
pub open spec fn wide(hi: u128, lo: u128) -> int {
    hi * two_128() + lo
}

proof fn lemma_four_products(a1: int, a0: int, b1: int, b0: int, bb: int)
    ensures
        (a1 * bb + a0) * (b1 * bb + b0) == (a1 * b1) * (bb * bb) + (a0 * b1 + a1 * b0) * bb + a0
            * b0,
{
    let x = a1 * bb;
    let y = b1 * bb;
    assert((x + a0) * (y + b0) == x * y + x * b0 + a0 * y + a0 * b0) by (nonlinear_arith);
    assert(x * y == (a1 * b1) * (bb * bb)) by (nonlinear_arith)
        requires
            x == a1 * bb,
            y == b1 * bb,
    ;
    assert(x * b0 == (a1 * b0) * bb) by (nonlinear_arith)
        requires
            x == a1 * bb,
    ;
    assert(a0 * y == (a0 * b1) * bb) by (nonlinear_arith)
        requires
            y == b1 * bb,
    ;
    assert((a0 * b1 + a1 * b0) * bb == (a0 * b1) * bb + (a1 * b0) * bb) by (nonlinear_arith);
}

/// The full 256-bit product of two 128-bit numbers.
fn mul_wide(a: u128, b: u128) -> (r: (u128, u128))
    ensures
        wide(r.0, r.1) == a * b,
{
    let base: u128 = 0x1_0000_0000_0000_0000;
    let a0 = a % base;
    let a1 = a / base;
    let b0 = b % base;
    let b1 = b / base;
    proof {
        lemma_fundamental_div_mod(a as int, base as int);
        lemma_fundamental_div_mod(b as int, base as int);
        lemma_mul_bound(a0 as int, b0 as int, base - 1, base - 1);
        lemma_mul_bound(a0 as int, b1 as int, base - 1, base - 1);
        lemma_mul_bound(a1 as int, b0 as int, base - 1, base - 1);
        lemma_mul_bound(a1 as int, b1 as int, base - 1, base - 1);
    }
    let low_low = a0 * b0;
    let low_high = a0 * b1;
    let high_low = a1 * b0;
    let high_high = a1 * b1;
    let mid = low_low / base + low_high % base + high_low % base;
    let mid_lo = mid % base;
    let low_low_lo = low_low % base;
    proof {
        lemma_fundamental_div_mod(low_low as int, base as int);
        lemma_fundamental_div_mod(low_high as int, base as int);
        lemma_fundamental_div_mod(high_low as int, base as int);
        lemma_fundamental_div_mod(mid as int, base as int);
        lemma_mul_bound(mid_lo as int, base as int, base - 1, base as int);
    }
    let lo = mid_lo * base + low_low_lo;
    let ghost hi_int = high_high as int + (low_high / base) as int + (high_low / base) as int + (mid / base) as int;
    proof {
        let bb = base as int;
        assert(a as int * b as int == (a1 * bb + a0) * (b1 * bb + b0));
        lemma_four_products(a1 as int, a0 as int, b1 as int, b0 as int, bb);
        assert(high_high * (bb * bb) + (low_high + high_low) * bb + low_low == hi_int * (bb * bb) + lo)
            by (nonlinear_arith)
            requires
                low_high == (low_high / base) * bb + low_high % base,
                high_low == (high_low / base) * bb + high_low % base,
                low_low == (low_low / base) * bb + low_low % base,
                mid == (mid / base) * bb + mid % base,
                mid == low_low / base + low_high % base + high_low % base,
                hi_int == high_high + low_high / base + high_low / base + mid / base,
                lo == (mid % base) * bb + low_low % base,
        ;
        assert(bb * bb == two_128());
        lemma_mul_bound(a as int, b as int, two_128() - 1, two_128() - 1);
        assert(hi_int < two_128()) by (nonlinear_arith)
            requires
                hi_int * two_128() + lo == a * b,
                a * b <= (two_128() - 1) * (two_128() - 1),
                0 <= lo,
                0 <= hi_int,
        ;
    }
    let hi = high_high + low_high / base + high_low / base + mid / base;
    (hi, lo)
}

/// Whether `x * y < z * w`, for 128-bit factors.
fn product_lt(x: u128, y: u128, z: u128, w: u128) -> (r: bool)
    ensures
        r == (x * y < z * w),
{
    let l = mul_wide(x, y);
    let g = mul_wide(z, w);
    proof {
        assert(l.0 < g.0 ==> wide(l.0, l.1) < wide(g.0, g.1)) by (nonlinear_arith)
            requires
                l.1 < two_128(),
                0 <= g.1,
                wide(l.0, l.1) == l.0 * two_128() + l.1,
                wide(g.0, g.1) == g.0 * two_128() + g.1,
        ;
        assert(g.0 < l.0 ==> wide(g.0, g.1) < wide(l.0, l.1)) by (nonlinear_arith)
            requires
                g.1 < two_128(),
                0 <= l.1,
                wide(l.0, l.1) == l.0 * two_128() + l.1,
                wide(g.0, g.1) == g.0 * two_128() + g.1,
        ;
    }
    l.0 < g.0 || (l.0 == g.0 && l.1 < g.1)
}

/// Whether attachment index `x` is above attachment index `y`.
pub fn attachment_gt(x: (u128, u128), y: (u128, u128)) -> (r: bool)
    ensures
        r == frac_lt((y.0 as int, y.1 as int), (x.0 as int, x.1 as int)),
{
    product_lt(y.0, x.1, x.0, y.1)
}

/// Whether attachment indices `x` and `y` are equal as rationals.
pub fn attachment_eq(x: (u128, u128), y: (u128, u128)) -> (r: bool)
    ensures
        r == frac_eq((x.0 as int, x.1 as int), (y.0 as int, y.1 as int)),
{
    !product_lt(x.0, y.1, y.0, x.1) && !product_lt(y.0, x.1, x.0, y.1)
}

} // verus!
