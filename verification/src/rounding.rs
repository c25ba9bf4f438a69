//! Rounding of a rational number to the nearest integer.

use vstd::prelude::*;

verus! {

/// The integer nearest to `num / den`; a value half way between two integers
/// goes to the one further from zero.
pub open spec fn round_half_away(num: int, den: int) -> int
    recommends
        den > 0,
{
    if num >= 0 {
        (2 * num + den) / (2 * den)
    } else {
        -((2 * (-num) + den) / (2 * den))
    }
}

/// The rounded value lies within one half of `num / den`, and a half is
/// resolved away from zero: for `v = num / den` and the result `r`,
/// `r - 1/2 <= v < r + 1/2` where `v` is not negative and
/// `r - 1/2 < v <= r + 1/2` where it is.
pub proof fn lemma_round_half_away_is_nearest(num: int, den: int)
    requires
        den > 0,
    ensures
        num >= 0 ==> (2 * round_half_away(num, den) - 1) * den <= 2 * num < (2
            * round_half_away(num, den) + 1) * den,
        num < 0 ==> (2 * round_half_away(num, den) - 1) * den < 2 * num <= (2
            * round_half_away(num, den) + 1) * den,
{
    let m: int = if num >= 0 { num } else { -num };
    let q: int = (2 * m + den) / (2 * den);
    vstd::arithmetic::div_mod::lemma_fundamental_div_mod(2 * m + den, 2 * den);
    vstd::arithmetic::div_mod::lemma_mod_bound(2 * m + den, 2 * den);
    assert((2 * den) * q == 2 * (q * den)) by (nonlinear_arith);
    assert((2 * q - 1) * den == 2 * (q * den) - den) by (nonlinear_arith);
    assert((2 * q + 1) * den == 2 * (q * den) + den) by (nonlinear_arith);
    if num < 0 {
        assert((2 * (-q) - 1) * den == -(2 * (q * den)) - den) by (nonlinear_arith);
        assert((2 * (-q) + 1) * den == -(2 * (q * den)) + den) by (nonlinear_arith);
    }
}

/// Only one integer lies that near: whatever meets the bounds of
/// [`lemma_round_half_away_is_nearest`] is the rounded value.
pub proof fn lemma_round_half_away_is_unique(num: int, den: int, r: int)
    requires
        den > 0,
        num >= 0 ==> (2 * r - 1) * den <= 2 * num < (2 * r + 1) * den,
        num < 0 ==> (2 * r - 1) * den < 2 * num <= (2 * r + 1) * den,
    ensures
        r == round_half_away(num, den),
{
    let s: int = round_half_away(num, den);
    lemma_round_half_away_is_nearest(num, den);
    if r < s {
        assert((2 * r + 1) * den <= (2 * s - 1) * den) by (nonlinear_arith)
            requires
                r < s,
                den > 0,
        ;
    } else if r > s {
        assert((2 * s + 1) * den <= (2 * r - 1) * den) by (nonlinear_arith)
            requires
                s < r,
                den > 0,
        ;
    }
}

/// Rounding commutes with negation.
pub proof fn lemma_round_half_away_is_odd(num: int, den: int)
    requires
        den > 0,
    ensures
        round_half_away(-num, den) == -round_half_away(num, den),
{
    if num == 0 {
        vstd::arithmetic::div_mod::lemma_basic_div(den, 2 * den);
    }
}

/// An integer is its own rounded value.
pub proof fn lemma_round_half_away_of_whole(whole: int, den: int)
    requires
        den > 0,
    ensures
        round_half_away(whole * den, den) == whole,
{
    assert((2 * whole - 1) * den == 2 * (whole * den) - den) by (nonlinear_arith);
    assert((2 * whole + 1) * den == 2 * (whole * den) + den) by (nonlinear_arith);
    lemma_round_half_away_is_unique(whole * den, den, whole);
}

/// A value that ends in one half goes away from zero: `whole + 1/2` rounds to
/// `whole + 1`, and `-(whole + 1/2)` to `-(whole + 1)`.
pub proof fn lemma_half_rounds_away_from_zero(whole: int, den: int)
    requires
        whole >= 0,
        den > 0,
    ensures
        round_half_away((2 * whole + 1) * den, 2 * den) == whole + 1,
        round_half_away(-((2 * whole + 1) * den), 2 * den) == -(whole + 1),
{
    let num: int = (2 * whole + 1) * den;
    assert(num >= 0) by (nonlinear_arith)
        requires
            num == (2 * whole + 1) * den,
            whole >= 0,
            den > 0,
    ;
    assert((2 * (whole + 1) - 1) * (2 * den) == 2 * num) by (nonlinear_arith)
        requires
            num == (2 * whole + 1) * den,
    ;
    assert((2 * (whole + 1) + 1) * (2 * den) == 2 * num + 4 * den) by (nonlinear_arith)
        requires
            num == (2 * whole + 1) * den,
    ;
    lemma_round_half_away_is_unique(num, 2 * den, whole + 1);
    lemma_round_half_away_is_odd(num, 2 * den);
}

} // verus!
