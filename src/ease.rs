//! Easing curves over fractions written in thousandths: each maps `t` in
//! `0..=1000` to a value in `0..=1000`, rounded down.
use vstd::prelude::*;

verus! {

pub fn linear(t: u32) -> (r: u32)
    requires
        t <= 1000,
    ensures
        r == t,
{
    t
}

/// `t^2`.
pub fn quadratic_in(t: u32) -> (r: u32)
    requires
        t <= 1000,
    ensures
        r == t * t / 1000,
        r <= 1000,
{
    assert(t * t <= 1000 * 1000) by (nonlinear_arith)
        requires
            t <= 1000,
    ;
    t * t / 1000
}

/// `t * (2 - t)`.
pub fn quadratic_out(t: u32) -> (r: u32)
    requires
        t <= 1000,
    ensures
        r == t * (2000 - t) / 1000,
        r <= 1000,
{
    assert(t * (2000 - t) <= 1000 * 1000) by (nonlinear_arith)
        requires
            t <= 1000,
    ;
    t * (2000 - t) / 1000
}

/// `t^3`.
pub fn cubic_in(t: u32) -> (r: u32)
    requires
        t <= 1000,
    ensures
        r == t * t * t / 1_000_000,
        r <= 1000,
{
    let t64 = t as u64;
    assert(t64 * t64 <= 1000 * 1000 && t64 * t64 * t64 <= 1000 * 1000 * 1000) by (nonlinear_arith)
        requires
            t64 <= 1000,
    ;
    (t64 * t64 * t64 / 1_000_000) as u32
}

/// `(t - 1)^3 + 1`.
pub fn cubic_out(t: u32) -> (r: u32)
    requires
        t <= 1000,
    ensures
        r == 1000 - (1000 - t) * (1000 - t) * (1000 - t) / 1_000_000,
        r <= 1000,
{
    let u = (1000 - t) as u64;
    assert(u * u <= 1000 * 1000 && u * u * u <= 1000 * 1000 * 1000) by (nonlinear_arith)
        requires
            u <= 1000,
    ;
    1000 - (u * u * u / 1_000_000) as u32
}

} // verus!
