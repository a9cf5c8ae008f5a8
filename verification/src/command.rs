//! Typed control commands, and the mapper that reads them out of raw
//! 3-byte MIDI note messages.

use vstd::prelude::*;
use crate::channel::{enqueue_model, CommandChannel};

verus! {

/// A control command for the voice. Produced by the mapper, moved through
/// the channel, consumed once by the render loop.
#[derive(Clone, Copy, PartialEq, Eq, Structural, Debug)]
pub enum Command {
    /// Start (or retune) the note: reset phase, set frequency from `note`
    /// and gain from `velocity`.
    NoteOn { note: u8, velocity: u8 },
    /// Silence the voice.
    NoteOff { note: u8 },
}

impl Command {
    /// Both data bytes are 7-bit, as MIDI data bytes are.
    pub open spec fn well_formed(self) -> bool {
        match self {
            Command::NoteOn { note, velocity } => note < 128 && velocity < 128,
            Command::NoteOff { note } => note < 128,
        }
    }
}

/// What a raw message means. Only 3-byte messages whose status byte has
/// the note-on nibble (9) or note-off nibble (8) — on any MIDI channel —
/// and whose data bytes are 7-bit yield a command; a note-on with
/// velocity 0 counts as a note-off, per common MIDI convention.
/// Everything else is ignored.
pub open spec fn parse_spec(bytes: Seq<u8>) -> Option<Command> {
    if bytes.len() != 3 {
        None
    } else {
        let status = bytes[0];
        let note = bytes[1];
        let value = bytes[2];
        if note >= 128 || value >= 128 {
            None
        } else if status / 16 == 9 {
            if value == 0 {
                Some(Command::NoteOff { note })
            } else {
                Some(Command::NoteOn { note, velocity: value })
            }
        } else if status / 16 == 8 {
            Some(Command::NoteOff { note })
        } else {
            None
        }
    }
}

/// Reads one raw MIDI message. Returns the command it encodes, or `None`
/// for anything malformed or unsupported — never an error, since noise
/// from real hardware is expected.
pub fn parse_midi_message(bytes: &[u8]) -> (r: Option<Command>)
    ensures
        r == parse_spec(bytes@),
        r matches Some(c) ==> c.well_formed(),
{
    if bytes.len() != 3 {
        return None;
    }
    let status = bytes[0];
    let note = bytes[1];
    let value = bytes[2];
    if note >= 128 || value >= 128 {
        None
    } else if status / 16 == 9 {
        if value == 0 {
            Some(Command::NoteOff { note })
        } else {
            Some(Command::NoteOn { note, velocity: value })
        }
    } else if status / 16 == 8 {
        Some(Command::NoteOff { note })
    } else {
        None
    }
}

/// The input side's whole step: reads one raw message and, when it means
/// something, enqueues the command — without blocking, dropping the
/// oldest queued command if the channel is full. Noise leaves the
/// channel untouched.
pub fn handle_midi_message(chan: &mut CommandChannel, bytes: &[u8])
    requires
        old(chan).well_formed(),
    ensures
        final(chan).well_formed(),
        final(chan).capacity_spec() == old(chan).capacity_spec(),
        parse_spec(bytes@) matches Some(c) ==> final(chan).contents() == enqueue_model(
            old(chan).contents(), old(chan).capacity_spec(), c),
        parse_spec(bytes@) is None ==> final(chan).contents() == old(chan).contents(),
{
    let parsed = parse_midi_message(bytes);
    match parsed {
        Some(c) => chan.send(c),
        None => (),
    }
}

} // verus!
