//! The per-voice oscillator: phase, phase increment and gain in Q16.16,
//! reading a `WaveTable` with linear interpolation.

use vstd::prelude::*;
use crate::FP;
use crate::wavetable::WaveTable;
use vstd::arithmetic::div_mod::{
    lemma_add_mod_noop_right, lemma_div_by_multiple, lemma_div_is_ordered,
    lemma_div_nonincreasing, lemma_fundamental_div_mod, lemma_fundamental_div_mod_converse_div,
    lemma_hoist_over_denominator, lemma_mod_add_multiples_vanish,
    lemma_mod_division_less_than_divisor, lemma_mod_multiples_basic, lemma_mod_multiples_vanish,
    lemma_small_mod,
};
use vstd::arithmetic::mul::lemma_mul_inequality;
use vstd::math::abs;

verus! {

/// Largest representable target frequency, Q16.16 (65536 Hz).
pub const MAX_FREQ: u64 = 4294967296;

/// Largest phase increment `set_target_frequency` can produce:
/// `MAX_FREQ * MAX_TABLE_LEN / 1`.
pub const MAX_INCREMENT: u64 = 281474976710656;

/// Linear interpolation between the two table samples around `phase`
/// (a Q16.16 position): the value at `floor(phase)` weighted toward the
/// value at `floor(phase) + 1 mod len` by the fractional part.
/// The rounding of the fixed-point division is toward the lower sample.
pub open spec fn lerp_at(samples: Seq<i32>, phase: int) -> int
    recommends
        samples.len() >= 2,
        0 <= phase < samples.len() * FP,
{
    let n = samples.len() as int;
    let i = phase / (FP as int);
    let frac = phase % (FP as int);
    let v0 = samples[i % n] as int;
    let v1 = samples[(i + 1) % n] as int;
    if v1 >= v0 {
        v0 + (v1 - v0) * frac / (FP as int)
    } else {
        v0 - (v0 - v1) * frac / (FP as int)
    }
}

/// A value scaled by a Q16.16 gain, rounded toward zero.
pub open spec fn scale_q16(gain: int, x: int) -> int
    recommends
        0 <= gain <= FP,
{
    if x >= 0 {
        gain * x / (FP as int)
    } else {
        -(gain * (-x) / (FP as int))
    }
}

/// The sample the voice emits at `phase` with gain `gain` (Q16.16, in
/// [0, FP]): the interpolated table value scaled by the gain, rounded
/// toward zero.
pub open spec fn output_at(samples: Seq<i32>, phase: int, gain: int) -> int
    recommends
        samples.len() >= 2,
        0 <= phase < samples.len() * FP,
        0 <= gain <= FP,
{
    scale_q16(gain, lerp_at(samples, phase))
}

/// Q16.16 frequency of the lowest octave's note `s` (0 to 11) in 12-tone
/// equal temperament anchored at A4 = 440 Hz: `440 * 2^((s - 69) / 12)`,
/// rounded to the nearest Q16.16 value. The entry for `s == 9` (an A) is
/// exact: 13.75 Hz is 901120 in Q16.16.
pub open spec fn semitone_base(s: int) -> int {
    if s == 0 { 535809 }
    else if s == 1 { 567670 }
    else if s == 2 { 601425 }
    else if s == 3 { 637188 }
    else if s == 4 { 675077 }
    else if s == 5 { 715219 }
    else if s == 6 { 757749 }
    else if s == 7 { 802807 }
    else if s == 8 { 850544 }
    else if s == 9 { 901120 }
    else if s == 10 { 954703 }
    else { 1011473 }
}

/// 2 to the power `o`, for the octave numbers a 7-bit note can reach.
pub open spec fn octave_mult(o: int) -> int {
    if o == 0 { 1 }
    else if o == 1 { 2 }
    else if o == 2 { 4 }
    else if o == 3 { 8 }
    else if o == 4 { 16 }
    else if o == 5 { 32 }
    else if o == 6 { 64 }
    else if o == 7 { 128 }
    else if o == 8 { 256 }
    else if o == 9 { 512 }
    else { 1024 }
}

/// Q16.16 frequency of a MIDI note: the base for its pitch class, doubled
/// once per octave. Equals `440 * 2^((note - 69) / 12)` Hz up to the
/// rounding of the base table.
pub open spec fn note_freq_spec(note: int) -> int {
    semitone_base(note % 12) * octave_mult(note / 12)
}

/// Q16.16 gain for a MIDI velocity: `velocity / 127` of full scale,
/// rounded down; velocity 127 gives exactly `FP`.
pub open spec fn velocity_gain_spec(velocity: int) -> int {
    velocity * FP / 127
}

/// Frequency of a MIDI note in Q16.16 Hz.
pub fn note_frequency(note: u8) -> (freq: u64)
    requires
        note < 128,
    ensures
        freq == note_freq_spec(note as int),
        freq <= MAX_FREQ,
{
    let s = note % 12;
    let o = note / 12;
    let base: u64 = if s == 0 { 535809 }
        else if s == 1 { 567670 }
        else if s == 2 { 601425 }
        else if s == 3 { 637188 }
        else if s == 4 { 675077 }
        else if s == 5 { 715219 }
        else if s == 6 { 757749 }
        else if s == 7 { 802807 }
        else if s == 8 { 850544 }
        else if s == 9 { 901120 }
        else if s == 10 { 954703 }
        else { 1011473 };
    let mult: u64 = if o == 0 { 1 }
        else if o == 1 { 2 }
        else if o == 2 { 4 }
        else if o == 3 { 8 }
        else if o == 4 { 16 }
        else if o == 5 { 32 }
        else if o == 6 { 64 }
        else if o == 7 { 128 }
        else if o == 8 { 256 }
        else if o == 9 { 512 }
        else { 1024 };
    base * mult
}

/// Gain for a MIDI velocity in Q16.16; never above `FP`.
pub fn velocity_gain(velocity: u8) -> (g: u64)
    requires
        velocity < 128,
    ensures
        g == velocity_gain_spec(velocity as int),
        g <= FP,
{
    let g = (velocity as u64) * FP / 127;
    proof {
        lemma_div_is_ordered(velocity as int * FP, 127 * (FP as int), 127);
    }
    g
}

/// Mutable synthesis state of the single voice.
pub struct Oscillator {
    sample_rate: u32,
    wave_table: WaveTable,
    phase: u64,
    phase_increment: u64,
    gain: u64,
}

impl Oscillator {
    /// Samples per second, fixed at construction.
    pub closed spec fn rate(self) -> u32 {
        self.sample_rate
    }

    /// The lookup table the voice reads.
    pub closed spec fn table(self) -> WaveTable {
        self.wave_table
    }

    /// The table's sample sequence.
    pub open spec fn samples(self) -> Seq<i32> {
        self.table().samples()
    }

    /// Current position in the table, Q16.16, in `[0, span())`.
    pub closed spec fn phase(self) -> u64 {
        self.phase
    }

    /// Q16.16 table steps advanced per output sample.
    pub closed spec fn increment(self) -> u64 {
        self.phase_increment
    }

    /// Q16.16 amplitude in `[0, FP]`; 0 is silence.
    pub closed spec fn gain(self) -> u64 {
        self.gain
    }

    /// One table period in Q16.16 phase units.
    pub open spec fn span(self) -> int {
        self.samples().len() * FP
    }

    /// The state invariant: a usable table, a positive sample rate, the
    /// phase inside one period, and increment and gain in their ranges.
    pub open spec fn well_formed(self) -> bool {
        &&& self.table().well_formed()
        &&& self.rate() >= 1
        &&& self.phase() < self.span()
        &&& self.increment() <= MAX_INCREMENT
        &&& self.gain() <= FP
    }

    /// The sample this state would emit next.
    pub open spec fn output_spec(self) -> int {
        output_at(self.samples(), self.phase() as int, self.gain() as int)
    }

    /// A fresh, silent voice at phase 0.
    pub fn new(sample_rate: u32, wave_table: WaveTable) -> (r: Oscillator)
        requires
            sample_rate >= 1,
            wave_table.well_formed(),
        ensures
            r.well_formed(),
            r.rate() == sample_rate,
            r.table() == wave_table,
            r.phase() == 0,
            r.increment() == 0,
            r.gain() == 0,
    {
        Oscillator {
            sample_rate,
            wave_table,
            phase: 0,
            phase_increment: 0,
            gain: 0,
        }
    }

    /// Sets the phase increment for a target frequency `freq` (Q16.16 Hz):
    /// `freq * len / sample_rate` table steps per sample. A frequency of 0
    /// gives increment 0, so the voice holds still rather than failing.
    pub fn set_target_frequency(&mut self, freq: u64)
        requires
            old(self).well_formed(),
            freq <= MAX_FREQ,
        ensures
            final(self).well_formed(),
            final(self).increment() == freq * old(self).samples().len() / (old(self).rate() as int),
            final(self).phase() == old(self).phase(),
            final(self).gain() == old(self).gain(),
            final(self).table() == old(self).table(),
            final(self).rate() == old(self).rate(),
    {
        let n = self.wave_table.len() as u64;
        assert(freq * n <= MAX_INCREMENT) by (nonlinear_arith)
            requires
                freq <= MAX_FREQ,
                n <= 65536,
        ;
        let scaled = freq * n;
        let inc = scaled / (self.sample_rate as u64);
        proof {
            lemma_div_nonincreasing(scaled as int, self.sample_rate as int);
        }
        self.phase_increment = inc;
    }

    /// Stores `g` clamped to `[0, FP]`.
    pub fn set_gain(&mut self, g: u64)
        requires
            old(self).well_formed(),
        ensures
            final(self).well_formed(),
            final(self).gain() == if g > FP { FP as int } else { g as int },
            final(self).phase() == old(self).phase(),
            final(self).increment() == old(self).increment(),
            final(self).table() == old(self).table(),
            final(self).rate() == old(self).rate(),
    {
        self.gain = if g > FP { FP } else { g };
    }

    /// Restarts the cycle at phase 0 (used at note-on, so a new note always
    /// begins at the same point of the waveform).
    pub fn reset_phase(&mut self)
        requires
            old(self).well_formed(),
        ensures
            final(self).well_formed(),
            final(self).phase() == 0,
            final(self).increment() == old(self).increment(),
            final(self).gain() == old(self).gain(),
            final(self).table() == old(self).table(),
            final(self).rate() == old(self).rate(),
    {
        self.phase = 0;
    }

    /// Samples per second, as configured.
    pub fn sample_rate(&self) -> (r: u32)
        ensures
            r == self.rate(),
    {
        self.sample_rate
    }

    /// The current Q16.16 phase.
    pub fn current_phase(&self) -> (p: u64)
        ensures
            p == self.phase(),
    {
        self.phase
    }

    /// The current Q16.16 phase increment.
    pub fn current_increment(&self) -> (i: u64)
        ensures
            i == self.increment(),
    {
        self.phase_increment
    }

    /// The current Q16.16 gain.
    pub fn current_gain(&self) -> (g: u64)
        ensures
            g == self.gain(),
    {
        self.gain
    }

    /// The interpolated table value at the current phase.
    fn lerp(&self) -> (v: i64)
        requires
            self.well_formed(),
        ensures
            v == lerp_at(self.samples(), self.phase() as int),
            i32::MIN <= v <= i32::MAX,
    {
        let n = self.wave_table.len();
        let i = (self.phase / FP) as usize;
        proof {
            assert(self.phase() / FP < n) by (nonlinear_arith)
                requires
                    self.phase() < n * FP,
                    n >= 2,
                    FP == 65536,
            ;
        }
        let frac = self.phase % FP;
        let v0 = self.wave_table.value_at(i) as i64;
        let v1 = self.wave_table.value_at(i + 1) as i64;
        if v1 >= v0 {
            let d = (v1 - v0) as u64;
            proof {
                assert(d as int * frac <= d as int * FP) by (nonlinear_arith)
                    requires
                        frac <= FP,
                        d >= 0,
                ;
                assert(d as int * FP <= 0x1_0000_0000i64 * 65536) by (nonlinear_arith)
                    requires
                        d <= 0x1_0000_0000i64,
                        FP == 65536,
                ;
            }
            let q = d * frac / FP;
            proof {
                lemma_div_is_ordered((d * frac) as int, d as int * FP, FP as int);
                assert(d as int * FP / (FP as int) == d) by (nonlinear_arith)
                    requires
                        FP == 65536,
                        d >= 0,
                ;
            }
            v0 + q as i64
        } else {
            let d = (v0 - v1) as u64;
            proof {
                assert(d as int * frac <= d as int * FP) by (nonlinear_arith)
                    requires
                        frac <= FP,
                        d >= 0,
                ;
                assert(d as int * FP <= 0x1_0000_0000i64 * 65536) by (nonlinear_arith)
                    requires
                        d <= 0x1_0000_0000i64,
                        FP == 65536,
                ;
            }
            let q = d * frac / FP;
            proof {
                lemma_div_is_ordered((d * frac) as int, d as int * FP, FP as int);
                assert(d as int * FP / (FP as int) == d) by (nonlinear_arith)
                    requires
                        FP == 65536,
                        d >= 0,
                ;
            }
            v0 - q as i64
        }
    }

    /// Emits the sample for the current state, then advances the phase by
    /// one increment, wrapping at the end of the table. Never fails: with
    /// gain 0 it emits exactly 0.
    pub fn next_sample(&mut self) -> (s: i64)
        requires
            old(self).well_formed(),
        ensures
            final(self).well_formed(),
            s == old(self).output_spec(),
            final(self).phase() == (old(self).phase() + old(self).increment()) % old(self).span(),
            final(self).increment() == old(self).increment(),
            final(self).gain() == old(self).gain(),
            final(self).table() == old(self).table(),
            final(self).rate() == old(self).rate(),
    {
        let l = self.lerp();
        let s: i64 = if l >= 0 {
            let m = l as u64;
            proof {
                assert(self.gain() as int * m <= 65536 * 0x8000_0000i64) by (nonlinear_arith)
                    requires
                        self.gain() <= 65536,
                        0 <= m <= 0x8000_0000u64,
                ;
            }
            let scaled = self.gain * m;
            proof {
                lemma_div_nonincreasing(scaled as int, FP as int);
            }
            (scaled / FP) as i64
        } else {
            let m = (-l) as u64;
            proof {
                assert(self.gain() as int * m <= 65536 * 0x8000_0000i64) by (nonlinear_arith)
                    requires
                        self.gain() <= 65536,
                        0 <= m <= 0x8000_0000u64,
                ;
            }
            let scaled = self.gain * m;
            proof {
                lemma_div_nonincreasing(scaled as int, FP as int);
            }
            -((scaled / FP) as i64)
        };
        let n = self.wave_table.len() as u64;
        let span = n * FP;
        self.phase = (self.phase + self.phase_increment) % span;
        s
    }
}

/// The phase a voice reaches after `k` samples: each sample adds one
/// increment and wraps at the end of the table, exactly as
/// `next_sample` promises of the stored phase.
pub open spec fn phase_after(p: int, inc: int, span: int, k: nat) -> int
    decreases k,
{
    if k == 0 {
        p
    } else {
        (phase_after(p, inc, span, (k - 1) as nat) + inc) % span
    }
}

/// Phase evolution is linear: after `k` samples the phase is the start
/// plus `k` increments, all taken modulo one table period.
pub proof fn lemma_phase_after_linear(p: int, inc: int, span: int, k: nat)
    requires
        span >= 1,
        0 <= p < span,
        inc >= 0,
    ensures
        phase_after(p, inc, span, k) == (p + k * inc) % span,
    decreases k,
{
    if k == 0 {
        lemma_small_mod(p as nat, span as nat);
    } else {
        let km1 = (k - 1) as nat;
        lemma_phase_after_linear(p, inc, span, km1);
        let prev = p + km1 * inc;
        assert(phase_after(p, inc, span, k) == (prev % span + inc) % span);
        lemma_add_mod_noop_right(inc, prev, span);
        assert(km1 * inc + inc == k * inc) by (nonlinear_arith)
            requires
                km1 == k - 1,
        ;
        assert((prev % span + inc) % span == (inc + prev % span) % span);
    }
}

/// Oscillator periodicity: whenever `k` increments amount to a whole
/// number of table periods, `k` samples return the phase exactly to its
/// starting value. (With `inc == span / k` for a `k` that divides the
/// span, this is "sampling for `span / inc` samples returns the phase".)
pub proof fn lemma_phase_returns(p: int, inc: int, span: int, k: nat)
    requires
        span >= 1,
        0 <= p < span,
        inc >= 0,
        (k * inc) % span == 0,
    ensures
        phase_after(p, inc, span, k) == p,
{
    lemma_phase_after_linear(p, inc, span, k);
    lemma_fundamental_div_mod(k * inc, span);
    let q = k * inc / span;
    lemma_mod_multiples_vanish(q, p, span);
    lemma_small_mod(p as nat, span as nat);
}

/// A silent voice emits exactly 0, whatever its phase and table: the law
/// behind note-off. Since advancing the phase never touches the gain,
/// every sample after a note-off is 0 until a note-on raises the gain.
pub proof fn lemma_silent_output(samples: Seq<i32>, phase: int)
    ensures
        output_at(samples, phase, 0) == 0,
{
    let l = lerp_at(samples, phase);
    if l >= 0 {
        assert(0int * l == 0) by (nonlinear_arith);
        assert(0int / (FP as int) == 0);
    } else {
        assert(0int * (-l) == 0) by (nonlinear_arith);
        assert(0int / (FP as int) == 0);
    }
}

/// Concert pitch: MIDI note 69 maps to exactly 440 Hz (Q16.16), and full
/// velocity maps to exactly unit gain.
pub proof fn lemma_concert_pitch()
    ensures
        note_freq_spec(69) == 440 * FP,
        velocity_gain_spec(127) == FP,
{
    assert(note_freq_spec(69) == 901120 * 32);
}

/// Floor division by `FP` distributes over a sum of nonnegative
/// numerators up to one rounding unit.
proof fn lemma_floor_add(a: int, b: int)
    requires
        a >= 0,
        b >= 0,
    ensures
        a / (FP as int) + b / (FP as int) <= (a + b) / (FP as int),
        (a + b) / (FP as int) <= a / (FP as int) + b / (FP as int) + 1,
{
    let c = FP as int;
    lemma_fundamental_div_mod(a, c);
    lemma_fundamental_div_mod(b, c);
    let qa = a / c;
    let ra = a % c;
    let qb = b / c;
    let rb = b % c;
    if ra + rb < c {
        assert(a + b == (qa + qb) * c + (ra + rb)) by (nonlinear_arith)
            requires
                a == qa * c + ra,
                b == qb * c + rb,
        ;
        lemma_fundamental_div_mod_converse_div(a + b, c, qa + qb, ra + rb);
    } else {
        assert(a + b == (qa + qb + 1) * c + (ra + rb - c)) by (nonlinear_arith)
            requires
                a == qa * c + ra,
                b == qb * c + rb,
        ;
        lemma_fundamental_div_mod_converse_div(a + b, c, qa + qb + 1, ra + rb - c);
    }
}

/// Helper for the continuity law: a floor-divided product grows
/// monotonically with the factor, and by at most the scaled growth of the
/// factor plus one rounding unit.
proof fn lemma_scaled_floor_step(d: int, f1: int, f2: int)
    requires
        d >= 0,
        0 <= f1 <= f2,
    ensures
        d * f1 / (FP as int) <= d * f2 / (FP as int),
        d * f2 / (FP as int) <= d * f1 / (FP as int) + d * (f2 - f1) / (FP as int) + 1,
{
    let c = FP as int;
    let a = d * f1;
    let b = d * (f2 - f1);
    assert(a >= 0 && b >= 0 && a + b == d * f2) by (nonlinear_arith)
        requires
            d >= 0,
            0 <= f1 <= f2,
            a == d * f1,
            b == d * (f2 - f1),
    ;
    lemma_floor_add(a, b);
    lemma_div_is_ordered(a, d * f2, c);
}

/// A smaller rise gives a smaller scaled rise.
proof fn lemma_mul_div_mono(d: int, m: int, x: int)
    requires
        0 <= d <= m,
        0 <= x,
    ensures
        d * x / (FP as int) <= m * x / (FP as int),
{
    lemma_mul_inequality(d, m, x);
    lemma_div_is_ordered(d * x, m * x, FP as int);
}

/// Continuity of the interpolated output along one table segment: when
/// two phases share the same integer index, their interpolated values
/// differ by at most that segment's rise scaled by the phase difference,
/// plus one rounding unit. One render step stays inside a segment
/// whenever the increment does not carry the phase past the next index.
pub proof fn lemma_lerp_continuity(samples: Seq<i32>, p1: int, p2: int)
    requires
        samples.len() >= 2,
        0 <= p1 <= p2,
        p1 / (FP as int) == p2 / (FP as int),
    ensures
        ({
            let n = samples.len() as int;
            let i = p1 / (FP as int);
            let rise = abs(samples[(i + 1) % n] as int - samples[i % n] as int);
            abs(lerp_at(samples, p2) - lerp_at(samples, p1))
                <= rise * (p2 - p1) / (FP as int) + 1
        }),
{
    let c = FP as int;
    let n = samples.len() as int;
    let i = p1 / c;
    let f1 = p1 % c;
    let f2 = p2 % c;
    lemma_fundamental_div_mod(p1, c);
    lemma_fundamental_div_mod(p2, c);
    assert(f2 - f1 == p2 - p1);
    let v0 = samples[i % n] as int;
    let v1 = samples[(i + 1) % n] as int;
    if v1 >= v0 {
        lemma_scaled_floor_step(v1 - v0, f1, f2);
    } else {
        lemma_scaled_floor_step(v0 - v1, f1, f2);
    }
}

/// At a whole table index the interpolation passes exactly through the
/// stored sample.
pub proof fn lemma_lerp_at_knot(samples: Seq<i32>, k: int)
    requires
        samples.len() >= 2,
        k >= 0,
    ensures
        lerp_at(samples, k * (FP as int)) == samples[k % samples.len() as int] as int,
{
    let c = FP as int;
    lemma_div_by_multiple(k, c);
    lemma_mod_multiples_basic(k, c);
}

/// The interpolated value sits within one rounded scaled rise of the
/// sample at the next table index.
proof fn lemma_lerp_to_knot(samples: Seq<i32>, p: int)
    requires
        samples.len() >= 2,
        p >= 0,
    ensures
        ({
            let c = FP as int;
            let n = samples.len() as int;
            let i = p / c;
            let rise = abs(samples[(i + 1) % n] as int - samples[i % n] as int);
            abs(samples[(i + 1) % n] as int - lerp_at(samples, p))
                <= rise * ((i + 1) * c - p) / c + 1
        }),
{
    let c = FP as int;
    let n = samples.len() as int;
    let i = p / c;
    let f = p % c;
    lemma_fundamental_div_mod(p, c);
    assert((i + 1) * c - p == c - f) by (nonlinear_arith)
        requires
            p == i * c + f,
    ;
    let v0 = samples[i % n] as int;
    let v1 = samples[(i + 1) % n] as int;
    if v1 >= v0 {
        let d = v1 - v0;
        lemma_scaled_floor_step(d, f, c);
        lemma_div_by_multiple(d, c);
    } else {
        let d = v0 - v1;
        lemma_scaled_floor_step(d, f, c);
        lemma_div_by_multiple(d, c);
    }
}

/// The interpolation is periodic in the phase, one table period at a
/// time — reading past the end of the table is reading its start.
pub proof fn lemma_lerp_periodic(samples: Seq<i32>, p: int)
    requires
        samples.len() >= 2,
        p >= 0,
    ensures
        lerp_at(samples, p + samples.len() * FP) == lerp_at(samples, p),
{
    let c = FP as int;
    let n = samples.len() as int;
    let i = p / c;
    lemma_hoist_over_denominator(p, n, FP as nat);
    assert((p + n * c) / c == i + n);
    lemma_mod_multiples_vanish(n, p, c);
    assert((c * n + p) % c == p % c);
    lemma_mod_add_multiples_vanish(i, n);
    lemma_mod_add_multiples_vanish(i + 1, n);
    assert((i + n) % n == i % n);
    assert((i + n + 1) % n == (i + 1) % n);
}

/// The continuity law in full: between any two phases, interpolated
/// values differ by at most the steepest table rise `m` scaled by the
/// phase difference, plus one fixed-point rounding unit for each table
/// index passed. With the phase difference one increment, this bounds the
/// jump between consecutive samples for every frequency.
pub proof fn lemma_lerp_lipschitz(samples: Seq<i32>, p1: int, p2: int, m: int)
    requires
        samples.len() >= 2,
        0 <= p1 <= p2,
        forall|j: int| 0 <= j < samples.len()
            ==> #[trigger] abs(samples[(j + 1) % samples.len() as int] as int
                - samples[j] as int) <= m,
    ensures
        abs(lerp_at(samples, p2) - lerp_at(samples, p1))
            <= m * (p2 - p1) / (FP as int) + 1
                + 2 * (p2 / (FP as int) - p1 / (FP as int)),
    decreases p2 / (FP as int) - p1 / (FP as int),
{
    let c = FP as int;
    let n = samples.len() as int;
    let i1 = p1 / c;
    let i2 = p2 / c;
    lemma_div_is_ordered(p1, p2, c);
    lemma_mod_division_less_than_divisor(i1, n);
    lemma_add_mod_noop_right(1, i1, n);
    assert((i1 % n + 1) % n == (i1 + 1) % n);
    assert(abs(samples[(i1 % n + 1) % n] as int - samples[i1 % n] as int) <= m);
    let rise = abs(samples[(i1 + 1) % n] as int - samples[i1 % n] as int);
    assert(rise <= m);
    if i1 == i2 {
        lemma_lerp_continuity(samples, p1, p2);
        lemma_mul_div_mono(rise as int, m, p2 - p1);
    } else {
        let b = (i1 + 1) * c;
        lemma_fundamental_div_mod(p1, c);
        lemma_fundamental_div_mod(p2, c);
        assert(b - p1 == c - p1 % c) by (nonlinear_arith)
            requires
                p1 == i1 * c + p1 % c,
                b == (i1 + 1) * c,
        ;
        assert(p2 - b == (i2 - i1 - 1) * c + p2 % c) by (nonlinear_arith)
            requires
                p2 == i2 * c + p2 % c,
                b == (i1 + 1) * c,
        ;
        assert(b <= p2);
        lemma_div_by_multiple(i1 + 1, c);
        assert(b / c == i1 + 1);
        lemma_lerp_to_knot(samples, p1);
        lemma_lerp_at_knot(samples, i1 + 1);
        let vk = samples[(i1 + 1) % n] as int;
        assert(lerp_at(samples, b) == vk);
        lemma_mul_div_mono(rise as int, m, b - p1);
        assert(abs(vk - lerp_at(samples, p1)) <= m * (b - p1) / c + 1);
        lemma_lerp_lipschitz(samples, b, p2, m);
        assert(abs(lerp_at(samples, p2) - vk)
            <= m * (p2 - b) / c + 1 + 2 * (i2 - i1 - 1));
        assert(m * (b - p1) >= 0 && m * (p2 - b) >= 0
            && m * (b - p1) + m * (p2 - b) == m * (p2 - p1)) by (nonlinear_arith)
            requires
                m >= 0,
                p1 <= b <= p2,
        ;
        lemma_floor_add(m * (b - p1), m * (p2 - b));
    }
}

/// The interpolation reads a wrapped phase and an unwrapped one alike:
/// reducing a phase modulo one period does not change its value.
pub proof fn lemma_lerp_mod(samples: Seq<i32>, p: int)
    requires
        samples.len() >= 2,
        0 <= p < 2 * samples.len() * FP,
    ensures
        lerp_at(samples, p % (samples.len() * FP)) == lerp_at(samples, p),
{
    let span = samples.len() * FP;
    if p < span {
        lemma_small_mod(p as nat, span as nat);
    } else {
        let w = p - span;
        lemma_mod_add_multiples_vanish(w, span as int);
        assert((w + span) % (span as int) == w % (span as int));
        lemma_small_mod(w as nat, span as nat);
        assert(p % (span as int) == w);
        lemma_lerp_periodic(samples, w);
        assert(w + samples.len() * FP == p);
    }
}

/// The continuity law applied to one render step: the interpolated values
/// at a phase and at its successor (one increment later, wrapping at the
/// table's end) differ by at most the steepest rise `m` scaled by the
/// increment, plus the rounding units of the segments passed.
pub proof fn lemma_consecutive_lerp_bound(samples: Seq<i32>, p: int, inc: int, m: int)
    requires
        samples.len() >= 2,
        0 <= p < samples.len() * FP,
        0 <= inc <= samples.len() * FP,
        forall|j: int| 0 <= j < samples.len()
            ==> #[trigger] abs(samples[(j + 1) % samples.len() as int] as int
                - samples[j] as int) <= m,
    ensures
        abs(lerp_at(samples, (p + inc) % (samples.len() * FP)) - lerp_at(samples, p))
            <= m * inc / (FP as int) + 1
                + 2 * ((p + inc) / (FP as int) - p / (FP as int)),
{
    lemma_lerp_lipschitz(samples, p, p + inc, m);
    lemma_lerp_mod(samples, p + inc);
}

/// Scaling by a gain of at most 1 never widens a gap by more than one
/// rounding unit.
proof fn lemma_scale_step(g: int, x: int, y: int)
    requires
        0 <= g <= FP,
    ensures
        abs(scale_q16(g, x) - scale_q16(g, y)) <= abs(x - y) + 1,
{
    let c = FP as int;
    if x >= 0 && y >= 0 {
        if x <= y {
            lemma_scaled_floor_step(g, x, y);
            lemma_mul_div_mono(g, c, y - x);
            lemma_div_by_multiple(y - x, c);
        } else {
            lemma_scaled_floor_step(g, y, x);
            lemma_mul_div_mono(g, c, x - y);
            lemma_div_by_multiple(x - y, c);
        }
    } else if x < 0 && y < 0 {
        if -x <= -y {
            lemma_scaled_floor_step(g, -x, -y);
            lemma_mul_div_mono(g, c, -y - -x);
            lemma_div_by_multiple(-y - -x, c);
        } else {
            lemma_scaled_floor_step(g, -y, -x);
            lemma_mul_div_mono(g, c, -x - -y);
            lemma_div_by_multiple(-x - -y, c);
        }
    } else if x >= 0 {
        assert(g * x + g * (-y) == g * (x - y)) by (nonlinear_arith);
        lemma_floor_add(g * x, g * (-y));
        lemma_mul_div_mono(g, c, x - y);
        lemma_div_by_multiple(x - y, c);
    } else {
        assert(g * (-x) + g * y == g * (y - x)) by (nonlinear_arith);
        lemma_floor_add(g * (-x), g * y);
        lemma_mul_div_mono(g, c, y - x);
        lemma_div_by_multiple(y - x, c);
    }
}

/// Continuity of the rendered output: two consecutive samples of a voice
/// — same table, same gain, phases one increment apart — differ by at
/// most the steepest table rise `m` scaled by the increment, plus a
/// bounded fixed-point rounding error. This is the form `next_sample`'s
/// contract delivers: its emitted sample is `output_at` of the state,
/// and its new phase is `(phase + increment) % span` with the gain kept.
#[verifier::rlimit(30)]
pub proof fn lemma_output_continuity(samples: Seq<i32>, p: int, inc: int, g: int, m: int)
    requires
        samples.len() >= 2,
        0 <= p < samples.len() * FP,
        0 <= inc <= samples.len() * FP,
        0 <= g <= FP,
        forall|j: int| 0 <= j < samples.len()
            ==> #[trigger] abs(samples[(j + 1) % samples.len() as int] as int
                - samples[j] as int) <= m,
    ensures
        abs(output_at(samples, (p + inc) % (samples.len() * FP), g) - output_at(samples, p, g))
            <= m * inc / (FP as int) + 2
                + 2 * ((p + inc) / (FP as int) - p / (FP as int)),
{
    lemma_consecutive_lerp_bound(samples, p, inc, m);
    lemma_scale_step(g, lerp_at(samples, (p + inc) % (samples.len() * FP)),
        lerp_at(samples, p));
}

} // verus!
