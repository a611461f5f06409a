//! A polyphonic additive synthesizer core, modelled in fixed-point
//! arithmetic: per-voice ADSR envelopes, an oscillator with two harmonics,
//! a shared resonance ring buffer and a one-pole low-pass filter.

pub mod fixed;
pub mod envelope;
pub mod sine;
pub mod synth;
