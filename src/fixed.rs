//! Fixed-point arithmetic shared by the value table and the agent.
use vstd::prelude::*;

verus! {

/// The fixed-point unit: the integer `ONE` stands for the real number 1.0.
pub const ONE: i64 = 1_000_000;

/// `x` clamped into the range of `i64`.
pub open spec fn saturated(x: int) -> i64 {
    if x < i64::MIN {
        i64::MIN
    } else if x > i64::MAX {
        i64::MAX
    } else {
        x as i64
    }
}

/// The fixed-point product of a rate in `[0, ONE]` and a value,
/// rounded toward zero.
pub open spec fn scaled(rate: int, x: int) -> int {
    if x >= 0 {
        (rate * x) / (ONE as int)
    } else {
        -((rate * -x) / (ONE as int))
    }
}

/// Clamps a wide intermediate result into `i64`.
pub fn saturate(x: i128) -> (r: i64)
    ensures
        r == saturated(x as int),
{
    if x < i64::MIN as i128 {
        i64::MIN
    } else if x > i64::MAX as i128 {
        i64::MAX
    } else {
        x as i64
    }
}

/// Multiplies `x` by the fixed-point rate `rate`, rounding toward zero.
pub fn scale(rate: u64, x: i64) -> (r: i64)
    requires
        rate <= ONE,
    ensures
        r == scaled(rate as int, x as int),
{
    let wide: i128 = x as i128;
    if wide >= 0 {
        assert(0 <= (rate as int) * (wide as int) <= (ONE as int) * (i64::MAX as int)) by (nonlinear_arith)
            requires 0 <= wide <= i64::MAX, rate <= ONE;
        let p: i128 = (rate as i128) * wide;
        let q: i128 = p / (ONE as i128);
        assert(q <= i64::MAX) by (nonlinear_arith)
            requires q as int == (p as int) / (ONE as int), 0 <= p <= (ONE as int) * (i64::MAX as int);
        q as i64
    } else {
        assert(0 <= (rate as int) * (-wide as int) <= (ONE as int) * (i64::MAX as int + 1)) by (nonlinear_arith)
            requires 0 < -wide <= i64::MAX + 1, rate <= ONE;
        let p: i128 = (rate as i128) * (-wide);
        let q: i128 = p / (ONE as i128);
        assert(q <= i64::MAX as int + 1) by (nonlinear_arith)
            requires q as int == (p as int) / (ONE as int), 0 <= p <= (ONE as int) * (i64::MAX as int + 1);
        (-q) as i64
    }
}

} // verus!
