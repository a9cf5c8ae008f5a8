// Behavioural tests for the synthesizer core, exercised through its public
// interface with a sine table built the way the audio front end builds one.

use wavesynth::{
    apply_command, handle_midi_message, note_frequency, parse_midi_message, render_next,
    velocity_gain, Command, CommandChannel, ConfigError, Oscillator, WaveTable,
};

const FP: u64 = 65536;

/// One cycle of a sine, sampled at `n` equally spaced points and rounded
/// to the nearest Q16.16 value.
fn sine_samples(n: usize) -> Vec<i32> {
    let mut samples: Vec<i32> = Vec::with_capacity(n);
    for i in 0..n {
        let x = (2.0 * std::f64::consts::PI * i as f64 / n as f64).sin();
        samples.push((x * 65536.0).round() as i32);
    }
    samples
}

fn sine_table(n: usize) -> WaveTable {
    WaveTable::new(sine_samples(n)).unwrap()
}

#[test]
fn sine_table_endpoints() {
    // A sine table starts at its zero crossing and peaks a quarter period in.
    for &n in &[4usize, 8, 64, 256] {
        let t = sine_table(n);
        assert_eq!(t.len(), n);
        assert_eq!(t.value_at(0), 0);
        assert_eq!(t.value_at(n / 4), 65536);
    }
}

#[test]
fn sine_table_periodic() {
    let n = 64usize;
    let t = sine_table(n);
    for i in 0..n {
        assert_eq!(t.value_at(i + n), t.value_at(i));
        assert_eq!(t.value_at(i + 3 * n), t.value_at(i));
    }
}

#[test]
fn table_too_short_is_rejected() {
    assert!(matches!(WaveTable::new(vec![]), Err(ConfigError::TableTooShort)));
    assert!(matches!(WaveTable::new(vec![42]), Err(ConfigError::TableTooShort)));
    assert!(WaveTable::new(vec![0, 0]).is_ok());
}

#[test]
fn phase_returns_exactly_after_one_period() {
    // One table step per sample: 64 samples walk exactly one period.
    let mut osc = Oscillator::new(64, sine_table(64));
    osc.set_target_frequency(FP);
    assert_eq!(osc.current_increment(), FP);
    assert_eq!(osc.current_phase(), 0);
    for _ in 0..64 {
        osc.next_sample();
    }
    assert_eq!(osc.current_phase(), 0);
}

#[test]
fn phase_returns_within_tolerance_at_440hz() {
    let mut osc = Oscillator::new(44100, sine_table(64));
    osc.set_target_frequency(note_frequency(69));
    let inc = osc.current_increment();
    let span = 64 * FP;
    // Nearest whole number of samples to one oscillator period.
    let k = (span + inc / 2) / inc;
    for _ in 0..k {
        osc.next_sample();
    }
    let phase = osc.current_phase();
    let dist = phase.min(span - phase);
    assert!(dist <= inc, "phase {phase} strayed {dist} > one increment {inc}");
}

#[test]
fn output_is_continuous() {
    // Consecutive samples differ by at most the increment times the
    // steepest table segment, plus fixed-point rounding.
    let samples = sine_samples(64);
    let max_rise = (0..64)
        .map(|i| (samples[(i + 1) % 64] as i64 - samples[i] as i64).abs())
        .max()
        .unwrap();
    let mut osc = Oscillator::new(44100, sine_table(64));
    apply_command(&mut osc, Command::NoteOn { note: 69, velocity: 127 });
    let inc = osc.current_increment() as i64;
    let bound = inc * max_rise / 65536 + 2;
    let mut prev = osc.next_sample();
    for _ in 0..2000 {
        let s = osc.next_sample();
        assert!((s - prev).abs() <= bound, "step {} exceeds bound {}", (s - prev).abs(), bound);
        prev = s;
    }
}

#[test]
fn note_on_a440_tunes_exactly() {
    let mut osc = Oscillator::new(44100, sine_table(64));
    apply_command(&mut osc, Command::NoteOn { note: 69, velocity: 127 });
    // 440 Hz in Q16.16 is exactly 440 * FP; the increment is f * N / rate.
    assert_eq!(note_frequency(69), 440 * FP);
    assert_eq!(osc.current_increment(), 440 * FP * 64 / 44100);
    assert_eq!(osc.current_gain(), FP);
    assert_eq!(osc.current_phase(), 0);
}

#[test]
fn tuning_and_gain_formulas() {
    assert_eq!(note_frequency(57), 220 * FP);
    assert_eq!(note_frequency(81), 880 * FP);
    assert_eq!(note_frequency(60), 535809 * 32);
    assert_eq!(velocity_gain(127), FP);
    assert_eq!(velocity_gain(0), 0);
    assert_eq!(velocity_gain(64), 64 * FP / 127);
}

#[test]
fn note_off_silences_at_next_drain() {
    let mut osc = Oscillator::new(44100, sine_table(64));
    let mut chan = CommandChannel::new(8);
    handle_midi_message(&mut chan, &[0x90, 69, 127]);
    for _ in 0..50 {
        render_next(&mut osc, &mut chan);
    }
    assert!(osc.current_gain() > 0);
    handle_midi_message(&mut chan, &[0x80, 69, 0]);
    let first_after = render_next(&mut osc, &mut chan);
    assert_eq!(first_after, 0);
    assert_eq!(osc.current_gain(), 0);
    for _ in 0..200 {
        assert_eq!(render_next(&mut osc, &mut chan), 0);
    }
}

#[test]
fn it_works() {
    // End to end: note-on for middle C, a second of samples' worth of the
    // voice sounding, note-off, then exact silence.
    let mut osc = Oscillator::new(44100, sine_table(64));
    let mut chan = CommandChannel::new(8);
    handle_midi_message(&mut chan, &[0x90, 60, 100]);
    let mut nonzero = 0usize;
    let mut first = None;
    for k in 0..1000 {
        let s = render_next(&mut osc, &mut chan);
        if k == 0 {
            first = Some(s);
        }
        if s != 0 {
            nonzero += 1;
        }
    }
    // The sine begins at its zero crossing, so the very first sample is 0;
    // every other one of the 1000 is nonzero.
    assert_eq!(first, Some(0));
    assert_eq!(nonzero, 999);
    handle_midi_message(&mut chan, &[0x80, 60, 0]);
    for _ in 0..100 {
        assert_eq!(render_next(&mut osc, &mut chan), 0);
    }
}

#[test]
fn parser_maps_note_messages() {
    assert_eq!(
        parse_midi_message(&[0x90, 69, 127]),
        Some(Command::NoteOn { note: 69, velocity: 127 })
    );
    // Any MIDI channel in the low nibble works.
    assert_eq!(
        parse_midi_message(&[0x9C, 63, 1]),
        Some(Command::NoteOn { note: 63, velocity: 1 })
    );
    assert_eq!(parse_midi_message(&[0x80, 69, 64]), Some(Command::NoteOff { note: 69 }));
    assert_eq!(parse_midi_message(&[0x8C, 63, 0]), Some(Command::NoteOff { note: 63 }));
    // A note-on with velocity 0 is a note-off.
    assert_eq!(parse_midi_message(&[0x90, 60, 0]), Some(Command::NoteOff { note: 60 }));
}

#[test]
fn parser_ignores_noise() {
    assert_eq!(parse_midi_message(&[]), None);
    assert_eq!(parse_midi_message(&[0x90, 60]), None);
    assert_eq!(parse_midi_message(&[0x90, 60, 100, 0]), None);
    // Control change, program change, system messages.
    assert_eq!(parse_midi_message(&[0xB0, 7, 100]), None);
    assert_eq!(parse_midi_message(&[0xC0, 5, 0]), None);
    assert_eq!(parse_midi_message(&[0xF0, 1, 2]), None);
    // Data bytes must be 7-bit.
    assert_eq!(parse_midi_message(&[0x90, 200, 100]), None);
    assert_eq!(parse_midi_message(&[0x90, 60, 255]), None);
}

#[test]
fn channel_is_fifo() {
    let mut chan = CommandChannel::new(4);
    assert_eq!(chan.capacity(), 4);
    assert_eq!(chan.recv(), None);
    chan.send(Command::NoteOn { note: 60, velocity: 10 });
    chan.send(Command::NoteOff { note: 60 });
    chan.send(Command::NoteOn { note: 62, velocity: 20 });
    assert_eq!(chan.len(), 3);
    assert_eq!(chan.recv(), Some(Command::NoteOn { note: 60, velocity: 10 }));
    assert_eq!(chan.recv(), Some(Command::NoteOff { note: 60 }));
    assert_eq!(chan.recv(), Some(Command::NoteOn { note: 62, velocity: 20 }));
    assert_eq!(chan.recv(), None);
}

#[test]
fn channel_overflow_keeps_newest() {
    // Capacity plus five commands without a drain: exactly the most
    // recent `capacity` survive, the oldest five are gone.
    let cap = 4usize;
    let mut chan = CommandChannel::new(cap);
    for v in 0..(cap as u8 + 5) {
        chan.send(Command::NoteOn { note: 60, velocity: v });
    }
    assert_eq!(chan.len(), cap);
    for v in 5..9u8 {
        assert_eq!(chan.recv(), Some(Command::NoteOn { note: 60, velocity: v }));
    }
    assert_eq!(chan.recv(), None);
}

#[test]
fn mapper_feeds_channel() {
    let mut chan = CommandChannel::new(8);
    handle_midi_message(&mut chan, &[0xB0, 7, 100]);
    assert_eq!(chan.len(), 0);
    handle_midi_message(&mut chan, &[0x90, 60, 100]);
    handle_midi_message(&mut chan, &[0xF8, 0, 0]);
    handle_midi_message(&mut chan, &[0x80, 60, 0]);
    assert_eq!(chan.len(), 2);
    assert_eq!(chan.recv(), Some(Command::NoteOn { note: 60, velocity: 100 }));
    assert_eq!(chan.recv(), Some(Command::NoteOff { note: 60 }));
}

#[test]
fn low_frequency_degrades_to_silence_not_error() {
    // Frequency 0 (the fixed-point image of any non-positive frequency)
    // holds the phase still rather than failing in the render path.
    let mut osc = Oscillator::new(44100, sine_table(64));
    osc.set_target_frequency(0);
    osc.set_gain(FP);
    for _ in 0..10 {
        assert_eq!(osc.next_sample(), 0);
        assert_eq!(osc.current_phase(), 0);
    }
}

#[test]
fn gain_is_clamped() {
    let mut osc = Oscillator::new(44100, sine_table(64));
    osc.set_gain(10 * FP);
    assert_eq!(osc.current_gain(), FP);
    osc.set_gain(123);
    assert_eq!(osc.current_gain(), 123);
}
