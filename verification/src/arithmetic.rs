//! Division that rounds up.
use vstd::prelude::*;

verus! {

/// The quotient of `value` and `divisor`, rounded up.
pub open spec fn div_ceil(value: int, divisor: int) -> int {
    if value % divisor == 0 {
        value / divisor
    } else {
        value / divisor + 1
    }
}

/// A rounded-up quotient is the least number of `divisor`s that cover `value`.
pub proof fn lemma_div_ceil(value: int, divisor: int)
    requires
        0 <= value,
        0 < divisor,
    ensures
        0 <= div_ceil(value, divisor) <= value,
        value <= div_ceil(value, divisor) * divisor,
        div_ceil(value, divisor) * divisor < value + divisor,
        (value > 0 ==> div_ceil(value, divisor) > 0),
{
    let quotient = value / divisor;
    let rest = value % divisor;
    assert(value == quotient * divisor + rest && 0 <= rest < divisor && 0 <= quotient) by (nonlinear_arith)
        requires
            quotient == value / divisor,
            rest == value % divisor,
            0 <= value,
            0 < divisor,
    ;
    assert((quotient + 1) * divisor == quotient * divisor + divisor) by (nonlinear_arith);
    assert(quotient <= quotient * divisor) by (nonlinear_arith)
        requires
            0 <= quotient,
            0 < divisor,
    ;
    if value > 0 && rest == 0 {
        assert(quotient > 0) by (nonlinear_arith)
            requires
                value == quotient * divisor,
                value > 0,
                divisor > 0,
        ;
    }
}

/// The rounded-up quotient.
pub fn div_ceil_u64(value: u64, divisor: u64) -> (quotient: u64)
    requires
        divisor > 0,
    ensures
        quotient == div_ceil(value as int, divisor as int),
        quotient <= value,
{
    proof {
        lemma_div_ceil(value as int, divisor as int);
    }
    if value % divisor == 0 {
        value / divisor
    } else {
        value / divisor + 1
    }
}

/// The rounded-up quotient.
pub fn div_ceil_usize(value: usize, divisor: usize) -> (quotient: usize)
    requires
        divisor > 0,
    ensures
        quotient == div_ceil(value as int, divisor as int),
        quotient <= value,
{
    proof {
        lemma_div_ceil(value as int, divisor as int);
    }
    if value % divisor == 0 {
        value / divisor
    } else {
        value / divisor + 1
    }
}

/// Quotient and remainder are determined by `value == quotient * divisor + rest`.
pub proof fn lemma_quotient_and_rest(quotient: int, rest: int, divisor: int)
    requires
        0 <= rest < divisor,
    ensures
        (quotient * divisor + rest) / divisor == quotient,
        (quotient * divisor + rest) % divisor == rest,
{
    let value = quotient * divisor + rest;
    assert(value == divisor * quotient + rest) by (nonlinear_arith)
        requires
            value == quotient * divisor + rest,
    ;
    vstd::arithmetic::div_mod::lemma_fundamental_div_mod_converse(value, divisor, quotient, rest);
}

/// Rounding up is adding all but one of the divisor before dividing.
pub proof fn lemma_div_ceil_adds(value: int, divisor: int)
    requires
        0 <= value,
        0 < divisor,
    ensures
        div_ceil(value, divisor) == (value + divisor - 1) / divisor,
{
    let quotient = value / divisor;
    let rest = value % divisor;
    assert(value == quotient * divisor + rest && 0 <= rest < divisor) by (nonlinear_arith)
        requires
            quotient == value / divisor,
            rest == value % divisor,
            0 < divisor,
    ;
    if rest == 0 {
        lemma_quotient_and_rest(quotient, divisor - 1, divisor);
    } else {
        assert(quotient * divisor + rest + divisor - 1 == (quotient + 1) * divisor + (rest - 1))
            by (nonlinear_arith);
        lemma_quotient_and_rest(quotient + 1, rest - 1, divisor);
    }
}

/// There is one least number of `divisor`s that cover `value`.
pub proof fn lemma_least_cover(value: int, divisor: int, count: int)
    requires
        0 <= value,
        0 < divisor,
        value <= count * divisor < value + divisor,
    ensures
        count == div_ceil(value, divisor),
{
    let least = div_ceil(value, divisor);
    lemma_div_ceil(value, divisor);
    assert(count == least) by (nonlinear_arith)
        requires
            value <= count * divisor < value + divisor,
            value <= least * divisor < value + divisor,
            0 < divisor,
    ;
}

} // verus!
