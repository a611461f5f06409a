//! Per-voice ADSR (attack/decay/sustain/release) envelope.
//!
//! Amplitudes are fixed-point values in `[0, AMP_ONE]` standing for the
//! real interval `[0, 1]`. Attack and decay move by a constant per-sample
//! step; release decays in proportion to the current value and snaps to
//! exactly zero (entering `Idle`) once the value falls to a small floor,
//! which signals that the owning voice can be reclaimed.

use vstd::prelude::*;

verus! {

use crate::fixed::{AMP_ONE, tdiv, tdiv64};
use vstd::arithmetic::div_mod::{
    lemma_div_is_ordered,
    lemma_div_multiples_vanish,
    lemma_div_pos_is_pos,
    lemma_fundamental_div_mod_converse,
};

/// Release amplitude below which the envelope snaps to zero and goes Idle
/// (the fixed-point value of 0.001).
pub const RELEASE_FLOOR: i64 = 1_000;

/// Sustain level held after decay (the fixed-point value of 0.5).
pub const SUSTAIN_LEVEL: i64 = 500_000;

/// The five phases of the envelope state machine.
#[derive(Clone, Copy, Debug, PartialEq, Eq, Structural)]
pub enum EnvState {
    Idle,
    Attack,
    Decay,
    Sustain,
    Release,
}

/// One per-voice envelope, in fixed-point arithmetic.
#[derive(Clone, Copy, Debug)]
pub struct Envelope {
    /// Per-sample amplitude increment while in Attack.
    pub attack_step: i64,
    /// Per-sample amplitude decrement while in Decay.
    pub decay_step: i64,
    /// Level held in Sustain, in `[0, AMP_ONE]`.
    pub sustain: i64,
    /// Number of samples in the release time constant.
    pub release_samples: i64,
    /// Current phase of the state machine.
    pub state: EnvState,
    /// Current amplitude, in `[0, AMP_ONE]`.
    pub value: i64,
    /// Sample rate in Hz the steps were derived from.
    pub sample_rate: u32,
}

/// Mathematical model of an envelope.
pub struct EnvModel {
    pub attack_step: int,
    pub decay_step: int,
    pub sustain: int,
    pub release_samples: int,
    pub state: EnvState,
    pub value: int,
    pub sample_rate: int,
}

impl View for Envelope {
    type V = EnvModel;

    open spec fn view(&self) -> EnvModel {
        EnvModel {
            attack_step: self.attack_step as int,
            decay_step: self.decay_step as int,
            sustain: self.sustain as int,
            release_samples: self.release_samples as int,
            state: self.state,
            value: self.value as int,
            sample_rate: self.sample_rate as int,
        }
    }
}

/// Well-formedness of an envelope: steps are positive, the amplitude is in
/// `[0, AMP_ONE]`, and the amplitude agrees with the phase (zero when Idle,
/// at least the sustain level during Decay, exactly it during Sustain).
pub open spec fn env_wf(e: EnvModel) -> bool {
    &&& 1 <= e.attack_step <= AMP_ONE
    &&& 1 <= e.decay_step <= AMP_ONE
    &&& 1 <= e.release_samples <= 0x8000_0000
    &&& 0 <= e.sustain <= AMP_ONE
    &&& 0 <= e.value <= AMP_ONE
    &&& 1 <= e.sample_rate
    &&& e.state == EnvState::Idle ==> e.value == 0
    &&& e.state == EnvState::Decay ==> e.value >= e.sustain
    &&& e.state == EnvState::Sustain ==> e.value == e.sustain
}

/// The envelope a fresh voice starts from: Idle at amplitude zero, with
/// per-sample steps derived from the sample rate for an attack of 2 ms, a
/// decay of 150 ms to a sustain of one half, and a release time constant
/// of 100 ms.
pub open spec fn env_init(sr: int) -> EnvModel {
    let attack_samples = if sr / 500 >= 1 { sr / 500 } else { 1 };
    let attack_step0 = tdiv(AMP_ONE as int, attack_samples);
    let decay_samples0 = sr * 3 / 20;
    let decay_samples = if decay_samples0 >= 1 { decay_samples0 } else { 1 };
    let decay_step0 = tdiv(AMP_ONE - SUSTAIN_LEVEL, decay_samples);
    let release_samples0 = sr / 10;
    EnvModel {
        attack_step: if attack_step0 >= 1 { attack_step0 } else { 1 },
        decay_step: if decay_step0 >= 1 { decay_step0 } else { 1 },
        sustain: SUSTAIN_LEVEL as int,
        release_samples: if release_samples0 >= 1 { release_samples0 } else { 1 },
        state: EnvState::Idle,
        value: 0,
        sample_rate: sr,
    }
}

/// Effect of `trigger`: restart the attack from amplitude zero, whatever
/// the current phase.
pub open spec fn env_triggered(e: EnvModel) -> EnvModel {
    EnvModel { state: EnvState::Attack, value: 0, ..e }
}

/// Effect of `release`: enter Release from any non-Idle phase, keeping the
/// current amplitude as the starting point of the decay; from Idle it is a
/// no-op.
pub open spec fn env_released(e: EnvModel) -> EnvModel {
    if e.state == EnvState::Idle {
        e
    } else {
        EnvModel { state: EnvState::Release, ..e }
    }
}

/// Effect of one `process` tick on the state machine.
pub open spec fn env_step(e: EnvModel) -> EnvModel {
    match e.state {
        EnvState::Idle => e,
        EnvState::Attack => {
            let v = e.value + e.attack_step;
            if v >= AMP_ONE {
                EnvModel { state: EnvState::Decay, value: AMP_ONE as int, ..e }
            } else {
                EnvModel { value: v, ..e }
            }
        },
        EnvState::Decay => {
            let v = e.value - e.decay_step;
            if v <= e.sustain {
                EnvModel { state: EnvState::Sustain, value: e.sustain, ..e }
            } else {
                EnvModel { value: v, ..e }
            }
        },
        EnvState::Sustain => e,
        EnvState::Release => {
            let v = tdiv(e.value * (e.release_samples - 1), e.release_samples);
            if v <= RELEASE_FLOOR {
                EnvModel { state: EnvState::Idle, value: 0, ..e }
            } else {
                EnvModel { value: v, ..e }
            }
        },
    }
}

/// `n` consecutive `process` ticks.
pub open spec fn env_iter(e: EnvModel, n: nat) -> EnvModel
    decreases n,
{
    if n == 0 {
        e
    } else {
        env_iter(env_step(e), (n - 1) as nat)
    }
}

impl Envelope {
    /// A fresh Idle envelope for the given sample rate.
    pub fn new(sample_rate: u32) -> (e: Envelope)
        requires
            sample_rate >= 1,
        ensures
            e@ == env_init(sample_rate as int),
            env_wf(e@),
    {
        let attack_samples_u: u32 = sample_rate / 500;
        let attack_samples: i64 = if attack_samples_u >= 1 {
            attack_samples_u as i64
        } else {
            1
        };
        let attack_step0: i64 = tdiv64(AMP_ONE, attack_samples);
        let decay_samples0: u64 = (sample_rate as u64) * 3 / 20;
        let decay_samples: i64 = if decay_samples0 >= 1 {
            decay_samples0 as i64
        } else {
            1
        };
        let decay_step0: i64 = tdiv64(AMP_ONE - SUSTAIN_LEVEL, decay_samples);
        let release_samples0: u32 = sample_rate / 10;
        Envelope {
            attack_step: if attack_step0 >= 1 { attack_step0 } else { 1 },
            decay_step: if decay_step0 >= 1 { decay_step0 } else { 1 },
            sustain: SUSTAIN_LEVEL,
            release_samples: if release_samples0 >= 1 { release_samples0 as i64 } else { 1 },
            state: EnvState::Idle,
            value: 0,
            sample_rate,
        }
    }

    /// Restart the attack from amplitude zero, overriding any prior phase.
    pub fn trigger(&mut self)
        ensures
            final(self)@ == env_triggered(old(self)@),
    {
        self.state = EnvState::Attack;
        self.value = 0;
    }

    /// Begin the release decay from the current amplitude; a no-op when
    /// already Idle.
    pub fn release(&mut self)
        ensures
            final(self)@ == env_released(old(self)@),
    {
        if !matches!(self.state, EnvState::Idle) {
            self.state = EnvState::Release;
        }
    }

    /// Advance the state machine by one sample tick and return the new
    /// amplitude.
    pub fn process(&mut self) -> (amp: i64)
        requires
            env_wf(old(self)@),
        ensures
            final(self)@ == env_step(old(self)@),
            env_wf(final(self)@),
            amp == final(self)@.value,
            0 <= amp <= AMP_ONE,
    {
        proof {
            lemma_env_step_wf(old(self)@);
        }
        match self.state {
            EnvState::Idle => 0,
            EnvState::Attack => {
                let v: i64 = self.value + self.attack_step;
                if v >= AMP_ONE {
                    self.value = AMP_ONE;
                    self.state = EnvState::Decay;
                } else {
                    self.value = v;
                }
                self.value
            },
            EnvState::Decay => {
                let v: i64 = self.value - self.decay_step;
                if v <= self.sustain {
                    self.value = self.sustain;
                    self.state = EnvState::Sustain;
                } else {
                    self.value = v;
                }
                self.value
            },
            EnvState::Sustain => self.value,
            EnvState::Release => {
                proof {
                    let va = self@.value;
                    let rs = self@.release_samples;
                    assert(0 <= va * (rs - 1) <= AMP_ONE * 0x8000_0000) by (nonlinear_arith)
                        requires
                            0 <= va <= AMP_ONE,
                            1 <= rs <= 0x8000_0000,
                    ;
                }
                let v: i64 = tdiv64(self.value * (self.release_samples - 1), self.release_samples);
                if v <= RELEASE_FLOOR {
                    self.value = 0;
                    self.state = EnvState::Idle;
                } else {
                    self.value = v;
                }
                self.value
            },
        }
    }
}

/// A fresh envelope is well formed.
pub proof fn lemma_env_init_wf(sr: int)
    requires
        1 <= sr <= u32::MAX,
    ensures
        env_wf(env_init(sr)),
{
}

/// `trigger` preserves well-formedness.
pub proof fn lemma_env_trigger_wf(e: EnvModel)
    requires
        env_wf(e),
    ensures
        env_wf(env_triggered(e)),
{
}

/// `release` preserves well-formedness.
pub proof fn lemma_env_release_wf(e: EnvModel)
    requires
        env_wf(e),
    ensures
        env_wf(env_released(e)),
{
}

/// One `process` tick keeps the envelope well formed, so its amplitude
/// stays in `[0, AMP_ONE]`; together with the corresponding facts for
/// `trigger` and `release`, the amplitude lies in that interval after any
/// sequence of calls. In Release the amplitude also strictly decreases
/// until the envelope goes Idle.
pub proof fn lemma_env_step_wf(e: EnvModel)
    requires
        env_wf(e),
    ensures
        env_wf(env_step(e)),
        0 <= env_step(e).value <= AMP_ONE,
        e.state == EnvState::Release ==> (env_step(e).state == EnvState::Idle
            && env_step(e).value == 0) || env_step(e).value <= e.value - 1,
{
    match e.state {
        EnvState::Release => {
            let rs = e.release_samples;
            let num = e.value * (rs - 1);
            assert(0 <= num <= e.value * rs - e.value) by (nonlinear_arith)
                requires
                    0 <= e.value,
                    1 <= rs,
                    num == e.value * (rs - 1),
            ;
            let v = tdiv(num, rs);
            lemma_div_pos_is_pos(num, rs);
            if e.value >= 1 {
                // num <= (value - 1) * rs + (rs - 1), so the quotient is
                // at most value - 1.
                assert(num <= (e.value - 1) * rs + (rs - 1)) by (nonlinear_arith)
                    requires
                        1 <= e.value,
                        1 <= rs,
                        num == e.value * (rs - 1),
                ;
                lemma_div_is_ordered(num, (e.value - 1) * rs + (rs - 1), rs);
                lemma_fundamental_div_mod_converse(
                    (e.value - 1) * rs + (rs - 1),
                    rs,
                    e.value - 1,
                    rs - 1,
                );
                assert(v <= e.value - 1);
            } else {
                assert(num == 0) by (nonlinear_arith)
                    requires
                        e.value == 0,
                        num == e.value * (rs - 1),
                ;
                vstd::arithmetic::div_mod::lemma_div_of0(rs);
                assert(v == 0);
            }
        },
        _ => {},
    }
}

/// An envelope in Release reaches Idle, with amplitude exactly zero, in at
/// most `value + 1` ticks: the number of samples of release decay is
/// bounded in terms of the starting amplitude.
pub proof fn lemma_release_reaches_idle(e: EnvModel)
    requires
        env_wf(e),
        e.state == EnvState::Release,
    ensures
        exists|n: nat|
            #![trigger env_iter(e, n)]
            n <= e.value + 1 && env_iter(e, n).state == EnvState::Idle && env_iter(e, n).value
                == 0,
    decreases e.value,
{
    lemma_env_step_wf(e);
    let e1 = env_step(e);
    if e1.state == EnvState::Idle {
        assert(env_iter(e, 1) == env_iter(e1, 0));
        assert(env_iter(e, 1).state == EnvState::Idle && env_iter(e, 1).value == 0);
    } else {
        assert(e1.state == EnvState::Release);
        assert(e1.value <= e.value - 1);
        lemma_release_reaches_idle(e1);
        let n1 = choose|n: nat|
            #![trigger env_iter(e1, n)]
            n <= e1.value + 1 && env_iter(e1, n).state == EnvState::Idle && env_iter(e1, n).value
                == 0;
        assert(env_iter(e, n1 + 1) == env_iter(e1, n1));
    }
}

/// An envelope that is triggered and released at once goes Idle, at
/// amplitude exactly zero, on the very next tick.
pub proof fn lemma_immediate_release_idles(e: EnvModel)
    requires
        env_wf(e),
    ensures
        env_iter(env_released(env_triggered(e)), 1).state == EnvState::Idle,
        env_iter(env_released(env_triggered(e)), 1).value == 0,
{
    let r = env_released(env_triggered(e));
    assert(r.value == 0);
    assert(r.value * (r.release_samples - 1) == 0) by (nonlinear_arith)
        requires
            r.value == 0,
    ;
    vstd::arithmetic::div_mod::lemma_div_of0(r.release_samples);
    assert(env_iter(r, 1) == env_iter(env_step(r), 0));
}

} // verus!
