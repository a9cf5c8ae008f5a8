//! The render step: drain every waiting command, apply each to the voice
//! in arrival order, then emit the next sample. Called by the audio sink
//! once per pull; it never blocks, waits or fails.

use vstd::prelude::*;
use crate::FP;
use crate::channel::CommandChannel;
use crate::command::Command;
use crate::oscillator::{note_freq_spec, velocity_gain_spec, Oscillator};

verus! {

/// The (phase, increment, gain) triple a command leaves on a voice whose
/// table has `n` samples at `rate` samples per second: a note-on restarts
/// the cycle at phase 0 with the note's frequency and the velocity's gain;
/// a note-off silences the voice and touches nothing else.
pub open spec fn apply_model(state: (int, int, int), n: int, rate: int, c: Command)
    -> (int, int, int) {
    match c {
        Command::NoteOn { note, velocity } => (
            0,
            note_freq_spec(note as int) * n / rate,
            velocity_gain_spec(velocity as int),
        ),
        Command::NoteOff { .. } => (state.0, state.1, 0),
    }
}

/// The triple left after applying every command of `cs`, in order.
pub open spec fn apply_all_model(state: (int, int, int), n: int, rate: int, cs: Seq<Command>)
    -> (int, int, int)
    decreases cs.len(),
{
    if cs.len() == 0 {
        state
    } else {
        apply_model(apply_all_model(state, n, rate, cs.drop_last()), n, rate, cs.last())
    }
}

impl Oscillator {
    /// The mutable part of the voice as one value, for speaking about
    /// whole drains at once.
    pub open spec fn state(self) -> (int, int, int) {
        (self.phase() as int, self.increment() as int, self.gain() as int)
    }
}

/// A full-velocity note-on for MIDI note 69 tunes the voice to exactly
/// 440 Hz: the increment is `440 * len / sample_rate` table steps (Q16.16)
/// and the gain is exactly full scale.
pub proof fn lemma_note_on_a440(state: (int, int, int), n: int, rate: int)
    ensures
        apply_model(state, n, rate, Command::NoteOn { note: 69, velocity: 127 })
            == (0int, 440 * (FP as int) * n / rate, FP as int),
{
    crate::oscillator::lemma_concert_pitch();
}

/// Draining commands that end in a note-off leaves the voice at gain 0 —
/// and with `lemma_silent_output`, every sample from then on is 0 until
/// a note-on raises the gain again.
pub proof fn lemma_note_off_is_silence(state: (int, int, int), n: int, rate: int,
    cs: Seq<Command>)
    requires
        cs.len() > 0,
        cs.last() is NoteOff,
    ensures
        apply_all_model(state, n, rate, cs).2 == 0,
{
}

/// Applies one command to the voice. Note-on resets the phase, then sets
/// frequency and gain; note-off silences immediately (no release ramp).
pub fn apply_command(osc: &mut Oscillator, c: Command)
    requires
        old(osc).well_formed(),
        c.well_formed(),
    ensures
        final(osc).well_formed(),
        final(osc).state() == apply_model(
            old(osc).state(), old(osc).samples().len() as int, old(osc).rate() as int, c),
        final(osc).table() == old(osc).table(),
        final(osc).rate() == old(osc).rate(),
{
    match c {
        Command::NoteOn { note, velocity } => {
            osc.reset_phase();
            let freq = crate::oscillator::note_frequency(note);
            osc.set_target_frequency(freq);
            let g = crate::oscillator::velocity_gain(velocity);
            osc.set_gain(g);
        }
        Command::NoteOff { .. } => {
            osc.set_gain(0);
        }
    }
}

/// One pull from the audio sink: drains the channel without blocking,
/// applies the drained commands in arrival order, then emits the next
/// sample and advances the phase. With nothing queued the drain is a
/// no-op.
pub fn render_next(osc: &mut Oscillator, chan: &mut CommandChannel) -> (s: i64)
    requires
        old(osc).well_formed(),
        old(chan).well_formed(),
    ensures
        final(osc).well_formed(),
        final(chan).well_formed(),
        final(chan).contents().len() == 0,
        final(chan).capacity_spec() == old(chan).capacity_spec(),
        final(osc).table() == old(osc).table(),
        final(osc).rate() == old(osc).rate(),
        ({
            let applied = apply_all_model(
                old(osc).state(), old(osc).samples().len() as int, old(osc).rate() as int,
                old(chan).contents());
            &&& s == crate::oscillator::output_at(old(osc).samples(), applied.0, applied.2)
            &&& final(osc).phase() == (applied.0 + applied.1) % old(osc).span()
            &&& final(osc).increment() == applied.1
            &&& final(osc).gain() == applied.2
        }),
{
    let ghost orig = chan.contents();
    let ghost n = osc.samples().len() as int;
    let ghost rate = osc.rate() as int;
    let ghost start = osc.state();
    let ghost mut taken: Seq<Command> = Seq::empty();
    proof {
        assert(orig.take(0) =~= taken);
    }
    loop
        invariant
            osc.well_formed(),
            chan.well_formed(),
            osc.samples().len() == n,
            osc.rate() == rate,
            osc.table() == old(osc).table(),
            chan.capacity_spec() == old(chan).capacity_spec(),
            taken.len() <= orig.len(),
            taken == orig.take(taken.len() as int),
            chan.contents() == orig.skip(taken.len() as int),
            osc.state() == apply_all_model(start, n, rate, taken),
        ensures
            osc.well_formed(),
            chan.well_formed(),
            chan.contents().len() == 0,
            chan.capacity_spec() == old(chan).capacity_spec(),
            osc.samples().len() == n,
            osc.rate() == rate,
            osc.table() == old(osc).table(),
            osc.state() == apply_all_model(start, n, rate, orig),
        decreases orig.len() - taken.len(),
    {
        let next = chan.recv();
        match next {
            Some(c) => {
                proof {
                    assert(orig.skip(taken.len() as int)[0] == orig[taken.len() as int]);
                    assert(orig.take(taken.len() as int + 1)
                        =~= orig.take(taken.len() as int).push(orig[taken.len() as int]));
                    assert(orig.take(taken.len() as int + 1).drop_last() =~= taken);
                    assert(orig.skip(taken.len() as int).subrange(
                        1, orig.len() - taken.len()) =~= orig.skip(taken.len() as int + 1));
                }
                apply_command(osc, c);
                proof {
                    taken = taken.push(c);
                }
            }
            None => {
                proof {
                    assert(taken =~= orig);
                }
                break;
            }
        }
    }
    osc.next_sample()
}

} // verus!
