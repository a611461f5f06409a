//! The polyphonic synthesizer: a set of voices keyed by an 8-bit note
//! key, a shared resonance ring buffer, and a one-pole low-pass filter.
//!
//! All quantities are fixed point: amplitudes, velocities and gains in
//! units of `AMP_ONE` (1.0), oscillator phases in units of `PHASE_ONE`
//! (one full cycle), frequencies in millihertz. `note_on` allocates or
//! replaces the voice at a key, `note_off` starts its release, and
//! `generate_sample` advances every voice by one tick and returns the
//! mixed output sample.

use vstd::prelude::*;

verus! {

use crate::envelope::{
    env_init,
    env_released,
    env_step,
    env_triggered,
    env_wf,
    lemma_env_step_wf,
    EnvModel,
    EnvState,
    Envelope,
};
use crate::fixed::{
    lemma_seq_sum_bound,
    lemma_seq_sum_update,
    lemma_seq_sum_zero,
    lemma_tdiv_in_range,
    seq_sum,
    tdiv,
    tdiv64,
    AMP_ONE,
};
use crate::sine::{lemma_sine_bounds, sine_fixed, sine_spec, PHASE_ONE};
use vstd::arithmetic::div_mod::{
    lemma_add_mod_noop_right,
    lemma_div_of0,
    lemma_div_pos_is_pos,
    lemma_fundamental_div_mod,
    lemma_mod_division_less_than_divisor,
    lemma_mod_self_0,
};
use vstd::set_lib::{lemma_int_range, lemma_len_subset, set_int_range};

/// Largest accepted oscillator frequency, in millihertz.
pub const FREQ_MAX: u64 = 10_000_000_000;

/// Length of the resonance history ring buffer, in samples.
pub const RING_LEN: usize = 1024;

/// Numerator and denominator of the resonance factor 0.05.
pub const RES_NUM: i64 = 5;
pub const RES_DEN: i64 = 100;

/// Low-pass filter coefficient (the fixed-point value of 0.1).
pub const ALPHA: i64 = 100_000;

/// Numerator and denominator of the master gain 0.3.
pub const MASTER_NUM: i64 = 3;
pub const MASTER_DEN: i64 = 10;

/// Half of an amplitude unit (the fixed-point value of 0.5).
pub const HALF_AMP: i64 = 500_000;

/// Bound on one voice's contribution to a mixed sample.
pub const CONTRIB_MAX: i64 = 2_000_000;

/// Bound on one resonance ring entry.
pub const ENTRY_MAX: i64 = 30_000_000;

/// Bound on the low-pass filter state.
pub const LAST_MAX: i64 = 600_000_000;

/// One sounding note: an oscillator and its envelope.
#[derive(Clone, Copy, Debug)]
pub struct Voice {
    /// The note key, unique within the synthesizer.
    pub key: u8,
    /// Oscillator frequency in millihertz.
    pub freq: u64,
    /// Normalized velocity in `[0, AMP_ONE]`.
    pub velocity: i64,
    /// The voice's own envelope.
    pub envelope: Envelope,
    /// Oscillator phase in `[0, PHASE_ONE)`.
    pub phase: u64,
}

/// Mathematical model of a voice.
pub struct VoiceModel {
    pub key: int,
    pub freq: int,
    pub velocity: int,
    pub env: EnvModel,
    pub phase: int,
}

impl View for Voice {
    type V = VoiceModel;

    open spec fn view(&self) -> VoiceModel {
        VoiceModel {
            key: self.key as int,
            freq: self.freq as int,
            velocity: self.velocity as int,
            env: self.envelope@,
            phase: self.phase as int,
        }
    }
}

/// The synthesizer state.
#[derive(Debug)]
pub struct Synthesizer {
    /// Sample rate in Hz, fixed at construction.
    pub sample_rate: u32,
    /// The currently sounding voices; keys are pairwise distinct.
    pub voices: Vec<Voice>,
    /// Resonance history ring buffer of `RING_LEN` recent samples.
    pub ring: Vec<i64>,
    /// Index of the oldest ring entry, the next to be evicted.
    pub head: usize,
    /// Running sum of the ring entries.
    pub ring_sum: i64,
    /// The previous output sample: the low-pass filter state.
    pub last_sample: i64,
}

/// Mathematical model of the synthesizer state.
pub struct SynthModel {
    pub sample_rate: int,
    pub voices: Seq<VoiceModel>,
    pub ring: Seq<int>,
    pub head: int,
    pub ring_sum: int,
    pub last_sample: int,
}

impl View for Synthesizer {
    type V = SynthModel;

    open spec fn view(&self) -> SynthModel {
        SynthModel {
            sample_rate: self.sample_rate as int,
            voices: self.voices@.map_values(|v: Voice| v@),
            ring: self.ring@.map_values(|x: i64| x as int),
            head: self.head as int,
            ring_sum: self.ring_sum as int,
            last_sample: self.last_sample as int,
        }
    }
}

/// Well-formedness of a voice: a valid envelope, and every field within
/// its fixed-point range.
pub open spec fn voice_wf(v: VoiceModel) -> bool {
    &&& env_wf(v.env)
    &&& 0 <= v.key < 256
    &&& 0 <= v.velocity <= AMP_ONE
    &&& 0 <= v.freq <= FREQ_MAX
    &&& 0 <= v.phase < PHASE_ONE
}

/// Well-formedness of the synthesizer: voices are valid with pairwise
/// distinct keys, the ring has its fixed length with a correct running
/// sum and bounded entries, and the filter state is bounded.
pub open spec fn synth_wf(m: SynthModel) -> bool {
    &&& 1 <= m.sample_rate <= u32::MAX
    &&& forall|i: int| 0 <= i < m.voices.len() ==> voice_wf(#[trigger] m.voices[i])
    &&& forall|i: int, j: int|
        0 <= i < m.voices.len() && 0 <= j < m.voices.len() && i != j ==> (#[trigger] m.voices[i]).key
            != (#[trigger] m.voices[j]).key
    &&& m.ring.len() == RING_LEN
    &&& 0 <= m.head < RING_LEN
    &&& m.ring_sum == seq_sum(m.ring)
    &&& forall|i: int| 0 <= i < m.ring.len() ==> -ENTRY_MAX <= #[trigger] m.ring[i] <= ENTRY_MAX
    &&& -LAST_MAX <= m.last_sample <= LAST_MAX
}

/// Whether some voice in `s` sounds at `key`.
pub open spec fn has_key(s: Seq<VoiceModel>, key: int) -> bool {
    exists|i: int| 0 <= i < s.len() && (#[trigger] s[i]).key == key
}

/// The voice allocated by `note_on`: phase zero and a fresh envelope
/// whose attack has just been triggered.
pub open spec fn fresh_voice(key: int, freq: int, velocity: int, sr: int) -> VoiceModel {
    VoiceModel { key, freq, velocity, env: env_triggered(env_init(sr)), phase: 0 }
}

/// How many voices in `s` sound at `key`.
pub open spec fn key_count(s: Seq<VoiceModel>, key: int) -> int
    decreases s.len(),
{
    if s.len() == 0 {
        0
    } else {
        key_count(s.drop_last(), key) + if s.last().key == key {
            1int
        } else {
            0int
        }
    }
}

impl Synthesizer {
    /// A silent synthesizer: no voices, a zeroed resonance buffer, and a
    /// zeroed filter state.
    pub fn new(sample_rate: u32) -> (s: Synthesizer)
        requires
            sample_rate >= 1,
        ensures
            synth_wf(s@),
            s@.sample_rate == sample_rate,
            s@.voices.len() == 0,
            s@.head == 0,
            s@.ring_sum == 0,
            s@.last_sample == 0,
            forall|i: int| 0 <= i < s@.ring.len() ==> #[trigger] s@.ring[i] == 0,
    {
        let mut ring: Vec<i64> = Vec::new();
        let mut i: usize = 0;
        while i < RING_LEN
            invariant
                i <= RING_LEN,
                ring@.len() == i,
                forall|j: int| 0 <= j < i ==> #[trigger] ring@[j] == 0,
            decreases RING_LEN - i,
        {
            ring.push(0);
            i += 1;
        }
        let s = Synthesizer { sample_rate, voices: Vec::new(), ring, head: 0, ring_sum: 0, last_sample: 0 };
        proof {
            lemma_seq_sum_zero(s@.ring);
        }
        s
    }

    /// The number of currently sounding voices.
    pub fn voice_count(&self) -> (n: usize)
        ensures
            n == self@.voices.len(),
    {
        self.voices.len()
    }

    /// The voice sounding at `key`, if any.
    pub fn voice(&self, key: u8) -> (r: Option<Voice>)
        requires
            synth_wf(self@),
        ensures
            match r {
                Some(v) => exists|i: int|
                    0 <= i < self@.voices.len() && (#[trigger] self@.voices[i]).key == key && v@
                        == self@.voices[i],
                None => !has_key(self@.voices, key as int),
            },
    {
        let n = self.voices.len();
        let mut i: usize = 0;
        while i < n
            invariant
                i <= n,
                n == self@.voices.len(),
                forall|j: int| 0 <= j < i ==> (#[trigger] self@.voices[j]).key != key,
            decreases n - i,
        {
            if self.voices[i].key == key {
                let r = self.voices[i];
                proof {
                    assert(self@.voices[i as int].key == key && r@ == self@.voices[i as int]);
                }
                return Some(r);
            }
            i += 1;
        }
        None
    }

    /// Allocate a voice for `key`, replacing any voice already sounding
    /// there: the new voice starts at phase zero with a freshly triggered
    /// envelope, and every other voice is untouched.
    pub fn note_on(&mut self, key: u8, freq: u64, velocity: i64)
        requires
            synth_wf(old(self)@),
            0 <= velocity <= AMP_ONE,
            freq <= FREQ_MAX,
        ensures
            synth_wf(final(self)@),
            final(self)@.sample_rate == old(self)@.sample_rate,
            final(self)@.ring == old(self)@.ring,
            final(self)@.head == old(self)@.head,
            final(self)@.ring_sum == old(self)@.ring_sum,
            final(self)@.last_sample == old(self)@.last_sample,
            has_key(final(self)@.voices, key as int),
            ({
                let nv = fresh_voice(key as int, freq as int, velocity as int, old(self)@.sample_rate);
                if has_key(old(self)@.voices, key as int) {
                    exists|i: int|
                        0 <= i < old(self)@.voices.len() && (#[trigger] old(self)@.voices[i]).key
                            == key && final(self)@.voices == old(self)@.voices.update(i, nv)
                } else {
                    final(self)@.voices == old(self)@.voices.push(nv)
                }
            }),
    {
        let mut envelope = Envelope::new(self.sample_rate);
        envelope.trigger();
        let nv = Voice { key, freq, velocity, envelope, phase: 0 };
        let ghost nvm = fresh_voice(key as int, freq as int, velocity as int, old(self)@.sample_rate);
        proof {
            crate::envelope::lemma_env_trigger_wf(env_init(old(self)@.sample_rate));
            assert(nv@ == nvm);
            assert(voice_wf(nvm));
        }
        let n = self.voices.len();
        let mut i: usize = 0;
        while i < n
            invariant
                i <= n,
                *self == *old(self),
                synth_wf(old(self)@),
                nv@ == nvm,
                voice_wf(nvm),
                nvm.key == key,
                nvm == fresh_voice(key as int, freq as int, velocity as int, old(self)@.sample_rate),
                n == self@.voices.len(),
                forall|j: int| 0 <= j < i ==> (#[trigger] self@.voices[j]).key != key,
            decreases n - i,
        {
            if self.voices[i].key == key {
                self.voices.set(i, nv);
                proof {
                    let iv = i as int;
                    assert(old(self)@.voices[iv].key == key);
                    assert(has_key(old(self)@.voices, key as int));
                    assert(self@.voices =~= old(self)@.voices.update(iv, nvm));
                    assert(self@.ring =~= old(self)@.ring);
                    assert(self@.voices[iv].key == key);
                    assert forall|a: int| 0 <= a < self@.voices.len() implies voice_wf(
                        #[trigger] self@.voices[a],
                    ) by {
                        if a != iv {
                            assert(self@.voices[a] == old(self)@.voices[a]);
                            assert(voice_wf(old(self)@.voices[a]));
                        }
                    }
                    assert forall|a: int, b: int|
                        0 <= a < self@.voices.len() && 0 <= b < self@.voices.len() && a != b implies (
                    #[trigger] self@.voices[a]).key != (#[trigger] self@.voices[b]).key by {
                        if a != iv && b != iv {
                            assert(self@.voices[a] == old(self)@.voices[a]);
                            assert(self@.voices[b] == old(self)@.voices[b]);
                        } else if a == iv {
                            assert(self@.voices[b] == old(self)@.voices[b]);
                            assert(old(self)@.voices[iv].key != old(self)@.voices[b].key);
                        } else {
                            assert(self@.voices[a] == old(self)@.voices[a]);
                            assert(old(self)@.voices[iv].key != old(self)@.voices[a].key);
                        }
                    }
                }
                return;
            }
            i += 1;
        }
        self.voices.push(nv);
        proof {
            let ln = old(self)@.voices.len() as int;
            assert(self@.voices =~= old(self)@.voices.push(nvm));
            assert(self@.ring =~= old(self)@.ring);
            assert(self@.voices[ln].key == key);
            assert(!has_key(old(self)@.voices, key as int));
            assert forall|a: int| 0 <= a < self@.voices.len() implies voice_wf(
                #[trigger] self@.voices[a],
            ) by {
                if a != ln {
                    assert(self@.voices[a] == old(self)@.voices[a]);
                    assert(voice_wf(old(self)@.voices[a]));
                }
            }
            assert forall|a: int, b: int|
                0 <= a < self@.voices.len() && 0 <= b < self@.voices.len() && a != b implies (
            #[trigger] self@.voices[a]).key != (#[trigger] self@.voices[b]).key by {
                if a != ln && b != ln {
                    assert(self@.voices[a] == old(self)@.voices[a]);
                    assert(self@.voices[b] == old(self)@.voices[b]);
                } else if a == ln {
                    assert(self@.voices[b] == old(self)@.voices[b]);
                    assert(old(self)@.voices[b].key != key);
                } else {
                    assert(self@.voices[a] == old(self)@.voices[a]);
                    assert(old(self)@.voices[a].key != key);
                }
            }
        }
    }

    /// Start the release of the voice at `key`; when no voice sounds
    /// there, a no-op: the voices — in particular their number — are
    /// unchanged and no error results.
    pub fn note_off(&mut self, key: u8)
        requires
            synth_wf(old(self)@),
        ensures
            synth_wf(final(self)@),
            final(self)@.sample_rate == old(self)@.sample_rate,
            final(self)@.ring == old(self)@.ring,
            final(self)@.head == old(self)@.head,
            final(self)@.ring_sum == old(self)@.ring_sum,
            final(self)@.last_sample == old(self)@.last_sample,
            final(self)@.voices.len() == old(self)@.voices.len(),
            if has_key(old(self)@.voices, key as int) {
                exists|i: int|
                    0 <= i < old(self)@.voices.len() && (#[trigger] old(self)@.voices[i]).key == key
                        && final(self)@.voices == old(self)@.voices.update(
                        i,
                        VoiceModel {
                            env: env_released(old(self)@.voices[i].env),
                            ..old(self)@.voices[i]
                        },
                    )
            } else {
                final(self)@.voices == old(self)@.voices
            },
    {
        let n = self.voices.len();
        let mut i: usize = 0;
        while i < n
            invariant
                i <= n,
                *self == *old(self),
                synth_wf(old(self)@),
                n == self@.voices.len(),
                forall|j: int| 0 <= j < i ==> (#[trigger] self@.voices[j]).key != key,
            decreases n - i,
        {
            if self.voices[i].key == key {
                let mut v = self.voices[i];
                v.envelope.release();
                self.voices.set(i, v);
                proof {
                    let iv = i as int;
                    assert(voice_wf(old(self)@.voices[iv]));
                    assert(old(self)@.voices[iv].key == key);
                    assert(has_key(old(self)@.voices, key as int));
                    assert(self@.voices =~= old(self)@.voices.update(
                        iv,
                        VoiceModel {
                            env: env_released(old(self)@.voices[iv].env),
                            ..old(self)@.voices[iv]
                        },
                    ));
                    assert(self@.ring =~= old(self)@.ring);
                    crate::envelope::lemma_env_release_wf(old(self)@.voices[iv].env);
                    assert forall|a: int| 0 <= a < self@.voices.len() implies voice_wf(
                        #[trigger] self@.voices[a],
                    ) by {
                        if a != iv {
                            assert(self@.voices[a] == old(self)@.voices[a]);
                            assert(voice_wf(old(self)@.voices[a]));
                        }
                    }
                    assert forall|a: int, b: int|
                        0 <= a < self@.voices.len() && 0 <= b < self@.voices.len() && a != b implies (
                    #[trigger] self@.voices[a]).key != (#[trigger] self@.voices[b]).key by {
                        assert(self@.voices[a].key == old(self)@.voices[a].key);
                        assert(self@.voices[b].key == old(self)@.voices[b].key);
                    }
                }
                return;
            }
            i += 1;
        }
        proof {
            assert(self@.voices =~= old(self)@.voices);
            assert(self@.ring =~= old(self)@.ring);
        }
    }
}

/// In a well-formed voice set a key that sounds at all sounds in exactly
/// one voice: together with `note_on`'s contract, a `note_on` for an
/// already-active key leaves exactly one voice at that key, restarted
/// from a fresh attack at amplitude zero.
pub proof fn lemma_unique_key_count(s: Seq<VoiceModel>, key: int)
    requires
        forall|i: int, j: int|
            0 <= i < s.len() && 0 <= j < s.len() && i != j ==> (#[trigger] s[i]).key != (
            #[trigger] s[j]).key,
    ensures
        key_count(s, key) == if has_key(s, key) {
            1int
        } else {
            0int
        },
    decreases s.len(),
{
    if s.len() == 0 {
    } else {
        let butlast = s.drop_last();
        lemma_unique_key_count(butlast, key);
        if s.last().key == key {
            assert(!has_key(butlast, key)) by {
                if has_key(butlast, key) {
                    let i = choose|i: int| 0 <= i < butlast.len() && (#[trigger] butlast[i]).key == key;
                    assert(s[i].key == s[s.len() - 1].key);
                }
            }
            assert(has_key(s, key));
        } else {
            if has_key(s, key) {
                let i = choose|i: int| 0 <= i < s.len() && (#[trigger] s[i]).key == key;
                assert(butlast[i] == s[i]);
                assert(has_key(butlast, key));
            }
            if has_key(butlast, key) {
                let i = choose|i: int| 0 <= i < butlast.len() && (#[trigger] butlast[i]).key == key;
                assert(s[i].key == key);
                assert(has_key(s, key));
            }
        }
    }
}

/// Pairwise distinct 8-bit keys bound the number of voices by 256.
pub proof fn lemma_distinct_keys_len(s: Seq<VoiceModel>)
    requires
        forall|i: int| 0 <= i < s.len() ==> voice_wf(#[trigger] s[i]),
        forall|i: int, j: int|
            0 <= i < s.len() && 0 <= j < s.len() && i != j ==> (#[trigger] s[i]).key != (
            #[trigger] s[j]).key,
    ensures
        s.len() <= 256,
{
    let keys = s.map_values(|v: VoiceModel| v.key);
    assert(keys.no_duplicates());
    keys.unique_seq_to_set();
    assert forall|k: int| keys.to_set().contains(k) implies set_int_range(0, 256).contains(k) by {
        let i = choose|i: int| 0 <= i < keys.len() && keys[i] == k;
        assert(voice_wf(s[i]));
    }
    assert(keys.to_set().subset_of(set_int_range(0, 256)));
    lemma_int_range(0, 256);
    lemma_len_subset(keys.to_set(), set_int_range(0, 256));
}

/// Per-sample oscillator phase increment, in phase units: one cycle
/// scaled by the frequency over the sample rate.
pub open spec fn phase_inc(freq: int, sr: int) -> int {
    (PHASE_ONE * freq) / (sr * 1000)
}

/// One sample tick of a voice: its envelope steps and its phase advances
/// by `phase_inc`, wrapped to one cycle.
pub open spec fn voice_step(v: VoiceModel, sr: int) -> VoiceModel {
    VoiceModel {
        env: env_step(v.env),
        phase: (v.phase + phase_inc(v.freq, sr)) % (PHASE_ONE as int),
        ..v
    }
}

/// Whether this tick ends the voice: its envelope returns amplitude
/// exactly zero and has gone Idle, so the voice is removed from the
/// active set and excluded from mixing.
pub open spec fn voice_finished(v: VoiceModel) -> bool {
    env_step(v.env).value == 0 && env_step(v.env).state == EnvState::Idle
}

/// The sample a surviving voice adds to the mix on this tick: the
/// fundamental sine plus a second harmonic at 0.3 and a third at 0.1,
/// both scaled by a brightness from the velocity, the whole scaled by
/// envelope amplitude, velocity and a key-dependent factor that lowers
/// high keys.
pub open spec fn voice_contribution(v: VoiceModel, sr: int) -> int {
    let w = voice_step(v, sr);
    let amp = w.env.value;
    let s1 = sine_spec(w.phase);
    let s2 = sine_spec((2 * w.phase) % (PHASE_ONE as int));
    let s3 = sine_spec((3 * w.phase) % (PHASE_ONE as int));
    let b = tdiv(v.velocity, 2) + HALF_AMP;
    let h2 = tdiv(tdiv(s2 * 3, 10) * b, AMP_ONE as int);
    let h3 = tdiv(tdiv(tdiv(s3, 10) * b, AMP_ONE as int) * b, AMP_ONE as int);
    let ns = s1 + h2 + h3;
    let ks = AMP_ONE - tdiv(v.key * 3 * AMP_ONE, 1270);
    tdiv(tdiv(tdiv(ns * amp, AMP_ONE as int) * v.velocity, AMP_ONE as int) * ks, AMP_ONE as int)
}

/// The mixed sample of one tick: the sum of the contributions of the
/// voices that survive it.
pub open spec fn mix_of(s: Seq<VoiceModel>, sr: int) -> int
    decreases s.len(),
{
    if s.len() == 0 {
        0
    } else {
        mix_of(s.drop_last(), sr) + if voice_finished(s.last()) {
            0int
        } else {
            voice_contribution(s.last(), sr)
        }
    }
}

/// The voices left after one tick, each advanced by `voice_step`, in
/// their original order, with the finished ones removed.
pub open spec fn survivors(s: Seq<VoiceModel>, sr: int) -> Seq<VoiceModel>
    decreases s.len(),
{
    if s.len() == 0 {
        Seq::empty()
    } else {
        survivors(s.drop_last(), sr) + if voice_finished(s.last()) {
            Seq::empty()
        } else {
            seq![voice_step(s.last(), sr)]
        }
    }
}

/// The entry one tick pushes into the resonance ring: the mixed sample
/// scaled by the resonance factor.
pub open spec fn res_entry(m: SynthModel) -> int {
    tdiv(mix_of(m.voices, m.sample_rate) * RES_NUM, RES_DEN as int)
}

/// The ring's running sum after the tick: the oldest entry replaced by
/// the new one.
pub open spec fn ring_sum_after(m: SynthModel) -> int {
    m.ring_sum - m.ring[m.head] + res_entry(m)
}

/// The mixed sample with the ring's average added back.
pub open spec fn resonant_mix(m: SynthModel) -> int {
    mix_of(m.voices, m.sample_rate) + tdiv(ring_sum_after(m), RING_LEN as int)
}

/// The one-pole low-pass filter: a blend of the resonant mix and the
/// previous output, which becomes the new filter state.
pub open spec fn lowpass_out(m: SynthModel) -> int {
    tdiv(ALPHA * resonant_mix(m) + (AMP_ONE - ALPHA) * m.last_sample, AMP_ONE as int)
}

/// The sample a tick returns: the filter output under the master gain.
pub open spec fn output_of(m: SynthModel) -> int {
    tdiv(lowpass_out(m) * MASTER_NUM, MASTER_DEN as int)
}

/// Scaling a bounded value by a factor in `[0, AMP_ONE]` and renormalizing
/// keeps its bound.
proof fn lemma_scale_amp(x: int, y: int, bx: int)
    requires
        -bx <= x <= bx,
        0 <= y <= AMP_ONE,
        0 <= bx,
    ensures
        -(bx * AMP_ONE) <= x * y <= bx * AMP_ONE,
        -bx <= tdiv(x * y, AMP_ONE as int) <= bx,
{
    assert(-(bx * AMP_ONE) <= x * y <= bx * AMP_ONE) by (nonlinear_arith)
        requires
            -bx <= x <= bx,
            0 <= y <= AMP_ONE,
            0 <= bx,
    ;
    lemma_tdiv_in_range(x * y, AMP_ONE as int, bx);
}

/// The phase increment is nonnegative and small enough that phase
/// arithmetic stays far from the integer limits.
pub proof fn lemma_phase_inc_bounds(freq: int, sr: int)
    requires
        0 <= freq <= FREQ_MAX,
        1 <= sr,
    ensures
        0 <= phase_inc(freq, sr) <= (PHASE_ONE as int) * (FREQ_MAX as int),
{
    let num = PHASE_ONE * freq;
    assert(0 <= num <= (PHASE_ONE as int) * (FREQ_MAX as int)) by (nonlinear_arith)
        requires
            0 <= freq <= FREQ_MAX,
            num == PHASE_ONE * freq,
    ;
    assert(0 < sr * 1000) by (nonlinear_arith)
        requires
            1 <= sr,
    ;
    lemma_div_pos_is_pos(num, sr * 1000);
    vstd::arithmetic::div_mod::lemma_div_nonincreasing(num, sr * 1000);
}

/// One tick keeps a voice well formed and does not change its key.
pub proof fn lemma_voice_step_wf(v: VoiceModel, sr: int)
    requires
        voice_wf(v),
        1 <= sr,
    ensures
        voice_wf(voice_step(v, sr)),
        voice_step(v, sr).key == v.key,
{
    lemma_env_step_wf(v.env);
    lemma_phase_inc_bounds(v.freq, sr);
    lemma_mod_division_less_than_divisor(v.phase + phase_inc(v.freq, sr), PHASE_ONE as int);
}

/// One voice's contribution to a tick is bounded by `CONTRIB_MAX`.
pub proof fn lemma_voice_contribution_bound(v: VoiceModel, sr: int)
    requires
        voice_wf(v),
        1 <= sr,
    ensures
        -CONTRIB_MAX <= voice_contribution(v, sr) <= CONTRIB_MAX,
{
    lemma_voice_step_wf(v, sr);
    let w = voice_step(v, sr);
    let amp = w.env.value;
    let p2 = (2 * w.phase) % (PHASE_ONE as int);
    let p3 = (3 * w.phase) % (PHASE_ONE as int);
    lemma_mod_division_less_than_divisor(2 * w.phase, PHASE_ONE as int);
    lemma_mod_division_less_than_divisor(3 * w.phase, PHASE_ONE as int);
    lemma_sine_bounds(w.phase);
    lemma_sine_bounds(p2);
    lemma_sine_bounds(p3);
    let s1 = sine_spec(w.phase);
    let s2 = sine_spec(p2);
    let s3 = sine_spec(p3);
    lemma_tdiv_in_range(v.velocity, 2, HALF_AMP as int);
    lemma_div_pos_is_pos(v.velocity, 2);
    let b = tdiv(v.velocity, 2) + HALF_AMP;
    assert(0 <= b <= AMP_ONE);
    lemma_tdiv_in_range(s2 * 3, 10, 300_000);
    lemma_scale_amp(tdiv(s2 * 3, 10), b, 300_000);
    lemma_tdiv_in_range(s3, 10, 100_000);
    lemma_scale_amp(tdiv(s3, 10), b, 100_000);
    lemma_scale_amp(tdiv(tdiv(s3, 10) * b, AMP_ONE as int), b, 100_000);
    let h2 = tdiv(tdiv(s2 * 3, 10) * b, AMP_ONE as int);
    let h3 = tdiv(tdiv(tdiv(s3, 10) * b, AMP_ONE as int) * b, AMP_ONE as int);
    let ns = s1 + h2 + h3;
    assert(-1_400_000 <= ns <= 1_400_000);
    lemma_tdiv_in_range(v.key * 3 * AMP_ONE, 1270, 700_000);
    lemma_div_pos_is_pos(v.key * 3 * AMP_ONE, 1270);
    let ks = AMP_ONE - tdiv(v.key * 3 * AMP_ONE, 1270);
    assert(0 <= ks <= AMP_ONE);
    lemma_scale_amp(ns, amp, 1_400_000);
    lemma_scale_amp(tdiv(ns * amp, AMP_ONE as int), v.velocity, 1_400_000);
    lemma_scale_amp(
        tdiv(tdiv(ns * amp, AMP_ONE as int) * v.velocity, AMP_ONE as int),
        ks,
        1_400_000,
    );
}

/// The mixed sample of a tick is bounded by the number of voices times
/// the per-voice bound.
pub proof fn lemma_mix_bound(s: Seq<VoiceModel>, sr: int)
    requires
        forall|i: int| 0 <= i < s.len() ==> voice_wf(#[trigger] s[i]),
        1 <= sr,
    ensures
        -(s.len() * CONTRIB_MAX) <= mix_of(s, sr) <= s.len() * CONTRIB_MAX,
    decreases s.len(),
{
    if s.len() == 0 {
    } else {
        let bl = s.drop_last();
        assert(forall|i: int| 0 <= i < bl.len() ==> #[trigger] bl[i] == s[i]);
        lemma_mix_bound(bl, sr);
        lemma_voice_contribution_bound(s.last(), sr);
        assert((s.len() - 1) * CONTRIB_MAX + CONTRIB_MAX == s.len() * CONTRIB_MAX) by (nonlinear_arith);
    }
}

/// The survivors of a tick are well formed: no more voices than before,
/// each one a stepped voice of the old set, and their keys still pairwise
/// distinct.
pub proof fn lemma_survivors_wf(s: Seq<VoiceModel>, sr: int)
    requires
        forall|i: int| 0 <= i < s.len() ==> voice_wf(#[trigger] s[i]),
        forall|i: int, j: int|
            0 <= i < s.len() && 0 <= j < s.len() && i != j ==> (#[trigger] s[i]).key != (
            #[trigger] s[j]).key,
        1 <= sr,
    ensures
        survivors(s, sr).len() <= s.len(),
        forall|j: int|
            0 <= j < survivors(s, sr).len() ==> voice_wf(#[trigger] survivors(s, sr)[j]),
        forall|j: int|
            0 <= j < survivors(s, sr).len() ==> exists|i: int|
                0 <= i < s.len() && #[trigger] survivors(s, sr)[j] == voice_step(s[i], sr),
        forall|a: int, b: int|
            0 <= a < survivors(s, sr).len() && 0 <= b < survivors(s, sr).len() && a != b ==> (
            #[trigger] survivors(s, sr)[a]).key != (#[trigger] survivors(s, sr)[b]).key,
    decreases s.len(),
{
    if s.len() == 0 {
    } else {
        let bl = s.drop_last();
        let last = s.last();
        assert(forall|i: int| 0 <= i < bl.len() ==> #[trigger] bl[i] == s[i]);
        lemma_survivors_wf(bl, sr);
        lemma_voice_step_wf(last, sr);
        let sb = survivors(bl, sr);
        let sv = survivors(s, sr);
        // every survivor of the shorter set is a stepped voice of the full set
        assert forall|j: int| 0 <= j < sb.len() implies exists|i: int|
            0 <= i < s.len() && #[trigger] sb[j] == voice_step(s[i], sr) by {
            let i = choose|i: int| 0 <= i < bl.len() && sb[j] == voice_step(bl[i], sr);
            assert(sb[j] == voice_step(s[i], sr));
        }
        if voice_finished(last) {
            assert(sv =~= sb);
        } else {
            assert(sv =~= sb.push(voice_step(last, sr)));
            assert(sv[sb.len() as int] == voice_step(s[s.len() - 1], sr));
            // the new survivor's key differs from every earlier survivor's
            assert forall|j: int| 0 <= j < sb.len() implies (#[trigger] sb[j]).key != last.key by {
                let i = choose|i: int| 0 <= i < bl.len() && sb[j] == voice_step(bl[i], sr);
                lemma_voice_step_wf(bl[i], sr);
                assert(sb[j].key == s[i].key);
                assert(s[i].key != s[s.len() - 1].key);
            }
        }
    }
}

/// Advance one voice by one sample tick. Returns the voice's
/// contribution to the mix, or `None` when the envelope has just ended
/// and the voice is to be removed.
fn voice_tick(v: &mut Voice, sample_rate: u32) -> (c: Option<i64>)
    requires
        voice_wf(old(v)@),
        1 <= sample_rate,
    ensures
        match c {
            Some(x) => {
                &&& !voice_finished(old(v)@)
                &&& x == voice_contribution(old(v)@, sample_rate as int)
                &&& -CONTRIB_MAX <= x <= CONTRIB_MAX
                &&& final(v)@ == voice_step(old(v)@, sample_rate as int)
                &&& voice_wf(final(v)@)
            },
            None => voice_finished(old(v)@),
        },
{
    proof {
        lemma_voice_step_wf(old(v)@, sample_rate as int);
        lemma_voice_contribution_bound(old(v)@, sample_rate as int);
    }
    let amp = v.envelope.process();
    if amp == 0 && matches!(v.envelope.state, EnvState::Idle) {
        return None;
    }
    proof {
        let fq = old(v)@.freq;
        assert((PHASE_ONE as int) * fq <= (PHASE_ONE as int) * (FREQ_MAX as int))
            by (nonlinear_arith)
            requires
                0 <= fq <= FREQ_MAX,
        ;
        let srv = sample_rate as int;
        assert(0 < srv * 1000) by (nonlinear_arith)
            requires
                1 <= srv,
        ;
        vstd::arithmetic::div_mod::lemma_div_nonincreasing(
            (PHASE_ONE as int) * (old(v)@.freq as int),
            (sample_rate as int) * 1000,
        );
        lemma_div_pos_is_pos(
            (PHASE_ONE as int) * (old(v)@.freq as int),
            (sample_rate as int) * 1000,
        );
    }
    let sr1000: u64 = (sample_rate as u64) * 1000;
    let inc: u64 = (PHASE_ONE * v.freq) / sr1000;
    v.phase = (v.phase + inc) % PHASE_ONE;
    proof {
        assert(v@.phase == voice_step(old(v)@, sample_rate as int).phase);
        lemma_mod_division_less_than_divisor(
            (2 * v@.phase) % (PHASE_ONE as int),
            PHASE_ONE as int,
        );
    }
    let s1: i64 = sine_fixed(v.phase);
    let p2: u64 = (2 * v.phase) % PHASE_ONE;
    let s2: i64 = sine_fixed(p2);
    let p3: u64 = (3 * v.phase) % PHASE_ONE;
    let s3: i64 = sine_fixed(p3);
    let b: i64 = tdiv64(v.velocity, 2) + HALF_AMP;
    proof {
        lemma_tdiv_in_range(old(v)@.velocity, 2, HALF_AMP as int);
        lemma_div_pos_is_pos(old(v)@.velocity, 2);
        lemma_tdiv_in_range(s2 as int * 3, 10, 300_000);
        lemma_scale_amp(tdiv(s2 as int * 3, 10), b as int, 300_000);
        lemma_tdiv_in_range(s3 as int, 10, 100_000);
        lemma_scale_amp(tdiv(s3 as int, 10), b as int, 100_000);
        lemma_scale_amp(
            tdiv(tdiv(s3 as int, 10) * b, AMP_ONE as int),
            b as int,
            100_000,
        );
    }
    let t2: i64 = tdiv64(s2 * 3, 10);
    let h2: i64 = tdiv64(t2 * b, AMP_ONE);
    let t3: i64 = tdiv64(s3, 10);
    let t3b: i64 = tdiv64(t3 * b, AMP_ONE);
    let h3: i64 = tdiv64(t3b * b, AMP_ONE);
    let ns: i64 = s1 + h2 + h3;
    proof {
        lemma_tdiv_in_range(old(v)@.key * 3 * AMP_ONE, 1270, 700_000);
        lemma_div_pos_is_pos(old(v)@.key * 3 * AMP_ONE, 1270);
    }
    let ks: i64 = AMP_ONE - tdiv64((v.key as i64) * 3 * AMP_ONE, 1270);
    proof {
        lemma_scale_amp(ns as int, amp as int, 1_400_000);
        lemma_scale_amp(
            tdiv(ns as int * amp, AMP_ONE as int),
            old(v)@.velocity,
            1_400_000,
        );
        lemma_scale_amp(
            tdiv(tdiv(ns as int * amp, AMP_ONE as int) * old(v)@.velocity, AMP_ONE as int),
            ks as int,
            1_400_000,
        );
    }
    let c1: i64 = tdiv64(ns * amp, AMP_ONE);
    let c2: i64 = tdiv64(c1 * v.velocity, AMP_ONE);
    let c3: i64 = tdiv64(c2 * ks, AMP_ONE);
    Some(c3)
}

impl Synthesizer {
    /// Advance every voice by one sample tick and return the mixed
    /// output sample: the surviving voices' contributions are summed,
    /// fed through the resonance ring and the low-pass filter, and
    /// scaled by the master gain; finished voices are removed.
    pub fn generate_sample(&mut self) -> (out: i64)
        requires
            synth_wf(old(self)@),
        ensures
            synth_wf(final(self)@),
            final(self)@.sample_rate == old(self)@.sample_rate,
            final(self)@.voices == survivors(old(self)@.voices, old(self)@.sample_rate),
            final(self)@.ring == old(self)@.ring.update(old(self)@.head, res_entry(old(self)@)),
            final(self)@.head == (old(self)@.head + 1) % (RING_LEN as int),
            final(self)@.ring_sum == ring_sum_after(old(self)@),
            final(self)@.last_sample == lowpass_out(old(self)@),
            out == output_of(old(self)@),
    {
        proof {
            lemma_distinct_keys_len(old(self)@.voices);
        }
        let ghost sr = old(self)@.sample_rate;
        let n = self.voices.len();
        let mut kept: Vec<Voice> = Vec::new();
        let mut mixed: i64 = 0;
        let mut i: usize = 0;
        while i < n
            invariant
                i <= n,
                n <= 256,
                *self == *old(self),
                synth_wf(old(self)@),
                sr == old(self)@.sample_rate,
                n == self@.voices.len(),
                kept@.map_values(|v: Voice| v@) == survivors(old(self)@.voices.take(i as int), sr),
                mixed == mix_of(old(self)@.voices.take(i as int), sr),
                -((i as int) * CONTRIB_MAX) <= mixed <= (i as int) * CONTRIB_MAX,
            decreases n - i,
        {
            let mut v = self.voices[i];
            proof {
                assert(voice_wf(old(self)@.voices[i as int]));
                assert(v@ == old(self)@.voices[i as int]);
            }
            let c = voice_tick(&mut v, self.sample_rate);
            proof {
                let tl = old(self)@.voices.take(i as int + 1);
                assert(tl.drop_last() =~= old(self)@.voices.take(i as int));
                assert(tl.last() == old(self)@.voices[i as int]);
            }
            match c {
                Some(x) => {
                    mixed = mixed + x;
                    kept.push(v);
                    proof {
                        assert(kept@.map_values(|vv: Voice| vv@) =~= survivors(
                            old(self)@.voices.take(i as int + 1),
                            sr,
                        ));
                    }
                },
                None => {
                    proof {
                        assert(survivors(old(self)@.voices.take(i as int + 1), sr) =~= survivors(
                            old(self)@.voices.take(i as int),
                            sr,
                        ));
                    }
                },
            }
            i += 1;
        }
        proof {
            assert(old(self)@.voices.take(n as int) =~= old(self)@.voices);
            assert(mixed == mix_of(old(self)@.voices, sr));
        }
        self.voices = kept;
        proof {
            lemma_tdiv_in_range(mixed as int * RES_NUM, RES_DEN as int, ENTRY_MAX as int);
        }
        let entry: i64 = tdiv64(mixed * RES_NUM, RES_DEN);
        let evicted: i64 = self.ring[self.head];
        proof {
            lemma_seq_sum_bound(old(self)@.ring, ENTRY_MAX as int);
            lemma_seq_sum_update(old(self)@.ring, old(self)@.head, entry as int);
        }
        self.ring.set(self.head, entry);
        proof {
            assert(self@.ring =~= old(self)@.ring.update(old(self)@.head, entry as int));
        }
        let new_sum: i64 = self.ring_sum - evicted + entry;
        self.ring_sum = new_sum;
        self.head = (self.head + 1) % RING_LEN;
        proof {
            assert(self@.ring_sum == seq_sum(self@.ring));
            assert(forall|j: int|
                0 <= j < self@.ring.len() ==> -ENTRY_MAX <= #[trigger] self@.ring[j] <= ENTRY_MAX);
            lemma_seq_sum_bound(self@.ring, ENTRY_MAX as int);
            lemma_tdiv_in_range(new_sum as int, RING_LEN as int, ENTRY_MAX as int);
        }
        let avg: i64 = tdiv64(self.ring_sum, RING_LEN as i64);
        let resonant: i64 = mixed + avg;
        proof {
            lemma_tdiv_in_range(
                ALPHA * (resonant as int) + (AMP_ONE - ALPHA) * old(self)@.last_sample,
                AMP_ONE as int,
                LAST_MAX as int,
            );
        }
        let lp: i64 = tdiv64(ALPHA * resonant + (AMP_ONE - ALPHA) * self.last_sample, AMP_ONE);
        self.last_sample = lp;
        proof {
            lemma_survivors_wf(old(self)@.voices, sr);
            lemma_tdiv_in_range(lp as int * MASTER_NUM, MASTER_DEN as int, LAST_MAX as int);
        }
        tdiv64(lp * MASTER_NUM, MASTER_DEN)
    }
}

/// Mixing is linear in the voice set: the mixed sample of two voice
/// sets played together is the sum of the mixed samples of each alone.
/// The output chain applied after mixing (resonance, filter, gain) is
/// shared state, so superposition holds at the mixing stage.
pub proof fn lemma_mix_additive(a: Seq<VoiceModel>, b: Seq<VoiceModel>, sr: int)
    ensures
        mix_of(a + b, sr) == mix_of(a, sr) + mix_of(b, sr),
    decreases b.len(),
{
    if b.len() == 0 {
        assert(a + b =~= a);
    } else {
        assert((a + b).drop_last() =~= a + b.drop_last());
        assert((a + b).last() == b.last());
        lemma_mix_additive(a, b.drop_last(), sr);
    }
}

/// The oscillator phase after `n` ticks at a constant increment.
pub open spec fn phase_iter(p: int, inc: int, n: nat) -> int
    decreases n,
{
    if n == 0 {
        p
    } else {
        phase_iter((p + inc) % (PHASE_ONE as int), inc, (n - 1) as nat)
    }
}

/// Iterating the wrapped phase increment is addition modulo one cycle.
pub proof fn lemma_phase_iter_linear(p: int, inc: int, n: nat)
    requires
        0 <= p < PHASE_ONE,
        0 <= inc,
    ensures
        phase_iter(p, inc, n) == (p + n * inc) % (PHASE_ONE as int),
    decreases n,
{
    let m = PHASE_ONE as int;
    if n == 0 {
        assert(n * inc == 0) by (nonlinear_arith)
            requires
                n == 0,
        ;
        vstd::arithmetic::div_mod::lemma_small_mod(p as nat, PHASE_ONE as nat);
    } else {
        let p1 = (p + inc) % m;
        lemma_mod_division_less_than_divisor(p + inc, m);
        lemma_phase_iter_linear(p1, inc, (n - 1) as nat);
        lemma_add_mod_noop_right((n - 1) * inc, p + inc, m);
        assert((n - 1) * inc + (p + inc) == p + n * inc) by (nonlinear_arith);
        assert(p1 + (n - 1) * inc == (n - 1) * inc + (p + inc) % m);
    }
}

/// Round trip of the oscillator: when the phase increment divides
/// evenly, a voice at frequency `freq` returns to phase zero after
/// exactly one cycle's worth of ticks, `sample_rate / frequency` of
/// them. `voice_step` advances the phase by exactly this increment on
/// every tick of a sounding voice.
pub proof fn lemma_oscillator_cycle(freq: int, sr: int)
    requires
        1 <= freq,
        1 <= sr,
        (PHASE_ONE * freq) % (sr * 1000) == 0,
        (sr * 1000) % freq == 0,
    ensures
        phase_iter(0, phase_inc(freq, sr), ((sr * 1000) / freq) as nat) == 0,
{
    let d = sr * 1000;
    assert(0 < d) by (nonlinear_arith)
        requires
            1 <= sr,
            d == sr * 1000,
    ;
    let inc = phase_inc(freq, sr);
    let n = d / freq;
    lemma_fundamental_div_mod(PHASE_ONE * freq, d);
    lemma_fundamental_div_mod(d, freq);
    assert(PHASE_ONE * freq == d * inc);
    assert(d == freq * n);
    lemma_div_pos_is_pos(PHASE_ONE * freq, d);
    assert(0 <= PHASE_ONE * freq) by (nonlinear_arith)
        requires
            1 <= freq,
    ;
    lemma_div_pos_is_pos(d, freq);
    assert(n * inc == PHASE_ONE) by (nonlinear_arith)
        requires
            PHASE_ONE * freq == d * inc,
            d == freq * n,
            1 <= freq,
    ;
    lemma_phase_iter_linear(0, inc, n as nat);
    lemma_mod_self_0(PHASE_ONE as int);
    assert(0 + (n as nat) * inc == PHASE_ONE);
}

/// A synthesizer with no sounding voices and a fully drained shared
/// state — a zeroed resonance ring and a zeroed filter — outputs
/// exactly zero, and its state stays drained, so every later sample is
/// zero as well.
pub proof fn lemma_silence_is_stable(m: SynthModel)
    requires
        synth_wf(m),
        m.voices.len() == 0,
        forall|i: int| 0 <= i < m.ring.len() ==> #[trigger] m.ring[i] == 0,
        m.ring_sum == 0,
        m.last_sample == 0,
    ensures
        output_of(m) == 0,
        res_entry(m) == 0,
        ring_sum_after(m) == 0,
        lowpass_out(m) == 0,
        survivors(m.voices, m.sample_rate) == Seq::<VoiceModel>::empty(),
        forall|i: int|
            0 <= i < m.ring.len() ==> #[trigger] m.ring.update(m.head, res_entry(m))[i] == 0,
{
    assert(mix_of(m.voices, m.sample_rate) == 0);
    lemma_div_of0(RES_DEN as int);
    assert(res_entry(m) == tdiv(0, RES_DEN as int));
    assert(m.ring[m.head] == 0);
    lemma_div_of0(RING_LEN as int);
    lemma_div_of0(AMP_ONE as int);
    lemma_div_of0(MASTER_DEN as int);
    assert(survivors(m.voices, m.sample_rate) =~= Seq::<VoiceModel>::empty());
}

/// With no sounding voices and a drained ring, each tick pushes a zero
/// entry and strictly shrinks a nonzero filter state toward zero: after
/// at most `LAST_MAX` further silent ticks the state of
/// `lemma_silence_is_stable` is reached and the output is exactly zero.
pub proof fn lemma_silent_tick_drains(m: SynthModel)
    requires
        synth_wf(m),
        m.voices.len() == 0,
        forall|i: int| 0 <= i < m.ring.len() ==> #[trigger] m.ring[i] == 0,
        m.ring_sum == 0,
    ensures
        res_entry(m) == 0,
        ring_sum_after(m) == 0,
        m.last_sample >= 1 ==> 0 <= lowpass_out(m) <= m.last_sample - 1,
        m.last_sample <= -1 ==> m.last_sample + 1 <= lowpass_out(m) <= 0,
        m.last_sample == 0 ==> lowpass_out(m) == 0 && output_of(m) == 0,
{
    assert(mix_of(m.voices, m.sample_rate) == 0);
    lemma_div_of0(RES_DEN as int);
    assert(m.ring[m.head] == 0);
    lemma_div_of0(RING_LEN as int);
    let a = AMP_ONE as int;
    let last = m.last_sample;
    let num = (AMP_ONE - ALPHA) * last;
    assert(resonant_mix(m) == 0);
    assert(lowpass_out(m) == tdiv(num, a));
    if last >= 1 {
        lemma_div_pos_is_pos(num, a);
        // 900_000 * last is at most (last - 1) * 1_000_000 + 999_999
        vstd::arithmetic::div_mod::lemma_div_is_ordered(num, (last - 1) * a + (a - 1), a);
        vstd::arithmetic::div_mod::lemma_fundamental_div_mod_converse(
            (last - 1) * a + (a - 1),
            a,
            last - 1,
            a - 1,
        );
    } else if last <= -1 {
        lemma_div_pos_is_pos(-num, a);
        vstd::arithmetic::div_mod::lemma_div_is_ordered(-num, (-last - 1) * a + (a - 1), a);
        vstd::arithmetic::div_mod::lemma_fundamental_div_mod_converse(
            (-last - 1) * a + (a - 1),
            a,
            -last - 1,
            a - 1,
        );
    } else {
        lemma_div_of0(a);
        lemma_div_of0(MASTER_DEN as int);
    }
}

} // verus!
