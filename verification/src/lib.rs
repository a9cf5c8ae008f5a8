//! A monophonic wavetable synthesizer core: a precomputed one-cycle lookup
//! table, a per-voice oscillator with linear interpolation, a bounded
//! drop-oldest command channel, a MIDI note-message mapper, and the render
//! step that drains commands and produces the next sample.
//!
//! All sample values, phases, gains and frequencies are fixed-point integers
//! in Q16.16: the integer `FP` (65536) stands for the real value 1.

use vstd::prelude::*;

mod channel;
mod command;
mod oscillator;
mod render;
mod wavetable;

pub use channel::CommandChannel;
pub use command::{handle_midi_message, parse_midi_message, Command};
pub use oscillator::{note_frequency, velocity_gain, Oscillator};
pub use render::{apply_command, render_next};
pub use wavetable::{ConfigError, WaveTable};

verus! {

/// The fixed-point unit: `FP` represents the real value 1 in Q16.16.
pub const FP: u64 = 65536;

} // verus!
