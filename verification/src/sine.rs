//! Fixed-point sine for the oscillators.
//!
//! A phase is a `u64` in `[0, PHASE_ONE)` standing for `[0, 2*pi)`. The
//! waveform is the classic parabolic approximation of sine: each half
//! cycle is the arch `4*x*(1-x)` over the half, positive on the first
//! half and negative on the second, scaled to `[-AMP_ONE, AMP_ONE]`.

use vstd::prelude::*;

verus! {

use crate::fixed::{AMP_ONE, tdiv, lemma_tdiv_in_range};
use vstd::arithmetic::div_mod::lemma_div_pos_is_pos;

/// One full oscillator cycle (2*pi) in phase units.
pub const PHASE_ONE: u64 = 1_000_000_000;

/// Half a cycle (pi) in phase units.
pub const HALF_PHASE: u64 = 500_000_000;

/// The parabolic arch `4*x*(HALF_PHASE - x)` over one half cycle, scaled
/// to `[0, AMP_ONE]`.
pub open spec fn sine_arch(x: int) -> int {
    tdiv(tdiv(4 * x * (HALF_PHASE - x), HALF_PHASE as int) * AMP_ONE, HALF_PHASE as int)
}

/// The approximated sine of a phase in `[0, PHASE_ONE)`, scaled to
/// `[-AMP_ONE, AMP_ONE]`.
pub open spec fn sine_spec(p: int) -> int {
    if p < HALF_PHASE {
        sine_arch(p)
    } else {
        -sine_arch(p - HALF_PHASE)
    }
}

/// Over its half cycle the arch stays in `[0, AMP_ONE]`.
pub proof fn lemma_sine_arch_bounds(x: int)
    requires
        0 <= x <= HALF_PHASE,
    ensures
        0 <= sine_arch(x) <= AMP_ONE,
{
    let h = HALF_PHASE as int;
    let a = 4 * x * (h - x);
    assert(0 <= a <= h * h) by (nonlinear_arith)
        requires
            0 <= x <= h,
            a == 4 * x * (h - x),
    ;
    lemma_tdiv_in_range(a, h, h);
    let b = tdiv(a, h);
    assert(0 <= b * AMP_ONE <= AMP_ONE * h) by (nonlinear_arith)
        requires
            0 <= b <= h,
    ;
    lemma_tdiv_in_range(b * AMP_ONE, h, AMP_ONE as int);
    lemma_div_pos_is_pos(a, h);
    lemma_div_pos_is_pos(b * AMP_ONE, h);
}

/// The approximated sine stays in `[-AMP_ONE, AMP_ONE]`.
pub proof fn lemma_sine_bounds(p: int)
    requires
        0 <= p < PHASE_ONE,
    ensures
        -AMP_ONE <= sine_spec(p) <= AMP_ONE,
{
    if p < HALF_PHASE {
        lemma_sine_arch_bounds(p);
    } else {
        lemma_sine_arch_bounds(p - HALF_PHASE);
    }
}

/// The positive arch over a half cycle, in executable form.
fn sine_arch_exec(x: u64) -> (r: i64)
    requires
        x <= HALF_PHASE,
    ensures
        r == sine_arch(x as int),
        0 <= r <= AMP_ONE,
{
    proof {
        lemma_sine_arch_bounds(x as int);
        let h = HALF_PHASE as int;
        assert(0 <= 4 * x * (h - x) <= h * h) by (nonlinear_arith)
            requires
                0 <= x <= h,
        ;
        lemma_tdiv_in_range(4 * x * (h - x), h, h);
        lemma_div_pos_is_pos(4 * x * (h - x), h);
    }
    let a: u64 = 4 * x * (HALF_PHASE - x);
    let b: u64 = a / HALF_PHASE;
    proof {
        assert(b * (AMP_ONE as u64) <= (HALF_PHASE as u64) * (AMP_ONE as u64)) by (nonlinear_arith)
            requires
                b <= HALF_PHASE as u64,
        ;
    }
    let c: u64 = (b * (AMP_ONE as u64)) / HALF_PHASE;
    c as i64
}

/// The approximated sine of a phase, in executable form.
pub fn sine_fixed(p: u64) -> (r: i64)
    requires
        p < PHASE_ONE,
    ensures
        r == sine_spec(p as int),
        -AMP_ONE <= r <= AMP_ONE,
{
    if p < HALF_PHASE {
        sine_arch_exec(p)
    } else {
        let r = sine_arch_exec(p - HALF_PHASE);
        -r
    }
}

} // verus!
