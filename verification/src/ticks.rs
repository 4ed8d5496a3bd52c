use std::time::Duration;
use vstd::arithmetic::div_mod::lemma_fundamental_div_mod_converse;
use vstd::prelude::*;

verus! {

/// The length of a duration in nanoseconds.
pub uninterp spec fn duration_nanos(dur: Duration) -> nat;

/// `Duration::as_nanos` of std: the whole length of the duration, seconds
/// and fraction together, counted in nanoseconds. Nothing is proved of it;
/// the contract only gives that number its name.
pub assume_specification[ Duration::as_nanos ](dur: &Duration) -> (nanos: u128)
    ensures
        nanos == duration_nanos(*dur),
;

/// The number of ticks that a delay stands for: the delay divided by the
/// granularity, rounded to the nearest whole number, a half rounding up.
/// What does not fit a `usize` counts as `usize::MAX`. With a granularity of
/// zero no division exists: no delay is then no tick, and any other delay is
/// as long as can be.
pub open spec fn rounded_ticks(delay: nat, granularity: nat) -> nat {
    if granularity == 0 {
        if delay == 0 {
            0
        } else {
            usize::MAX as nat
        }
    } else {
        let whole = delay / granularity;
        let rest = delay % granularity;
        let nearest = if rest + rest >= granularity {
            whole + 1
        } else {
            whole
        };
        if nearest > usize::MAX {
            usize::MAX as nat
        } else {
            nearest as nat
        }
    }
}

/// Rounding to the nearest whole number is adding a half and rounding
/// down.
pub proof fn law_rounding_is_to_the_nearest(delay: nat, granularity: nat)
    requires
        granularity > 0,
        (2 * delay + granularity) / (2 * granularity) <= usize::MAX,
    ensures
        rounded_ticks(delay, granularity) == (2 * delay + granularity) / (2 * granularity),
{
    let d = delay as int;
    let g = granularity as int;
    let q = d / g;
    let r = d % g;
    vstd::arithmetic::div_mod::lemma_fundamental_div_mod(d, g);
    assert(0 <= r < g) by (nonlinear_arith)
        requires
            r == d % g,
            g > 0,
    ;
    assert(d == q * g + r) by (nonlinear_arith)
        requires
            d == g * q + r,
    ;
    if r + r >= g {
        assert(2 * d + g == (q + 1) * (2 * g) + (2 * r - g)) by (nonlinear_arith)
            requires
                d == q * g + r,
        ;
        lemma_fundamental_div_mod_converse(2 * d + g, 2 * g, q + 1, 2 * r - g);
    } else {
        assert(2 * d + g == q * (2 * g) + (2 * r + g)) by (nonlinear_arith)
            requires
                d == q * g + r,
        ;
        lemma_fundamental_div_mod_converse(2 * d + g, 2 * g, q, 2 * r + g);
    }
}

/// Rounds a delay to ticks, both given in the same unit.
pub fn round_to_ticks(delay: u128, granularity: u128) -> (ticks: usize)
    ensures
        ticks == rounded_ticks(delay as nat, granularity as nat),
{
    if granularity == 0 {
        return if delay == 0 {
            0
        } else {
            usize::MAX
        };
    }
    let whole: u128 = delay / granularity;
    let rest: u128 = delay % granularity;
    let up: bool = rest >= granularity - rest;
    if whole >= usize::MAX as u128 {
        usize::MAX
    } else if up {
        whole as usize + 1
    } else {
        whole as usize
    }
}

/// The number of ticks that `delay` stands for on a wheel that turns once
/// every `granularity`.
pub fn ticks_of(delay: &Duration, granularity: &Duration) -> (ticks: usize)
    ensures
        ticks == rounded_ticks(duration_nanos(*delay), duration_nanos(*granularity)),
{
    round_to_ticks(delay.as_nanos(), granularity.as_nanos())
}

} // verus!
