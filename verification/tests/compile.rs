use std::rc::Rc;

use melody::interval::Interval;
use melody::melody::{CompileError, Melody};
use melody::note::{InvalidNoteError, Note};
use melody::scale_pitch::ScalePitch;
use melody::synth_event::SynthEvent;
use melody::tagged_event::TaggedEvent;
use melody::tuning::{Accidental, ScaleStep, Tuning};

/// A tuning whose bottom step is the reference itself (a major-like scale),
/// so degree 0 at range 0 resolves to exactly 440 Hz.
fn major_tuning() -> Rc<Tuning> {
    let twelfths: [i64; 7] = [0, 2, 4, 5, 7, 9, 11];
    Rc::new(Tuning {
        scale: twelfths
            .iter()
            .map(|&k| ScaleStep {
                interval: Interval::from_octave_fraction(k, 12).unwrap(),
                name: String::new(),
            })
            .collect(),
        accidentals: vec![
            Accidental {
                interval: Interval::from_octave_fraction(1, 12).unwrap(),
                name: "Half-Tone".to_string(),
            },
            Accidental {
                interval: Interval::from_octave_fraction(1, 24).unwrap(),
                name: "Quarter-Tone".to_string(),
            },
        ],
        reference_millihz: 440_000,
        name: "Major".to_string(),
    })
}

fn note(
    tuning: &Rc<Tuning>,
    degree: i32,
    counts: Vec<i32>,
    start_ms: u64,
    duration_ms: u64,
) -> Note {
    let pitch = ScalePitch::new(
        Rc::clone(tuning),
        degree.div_euclid(7),
        degree.rem_euclid(7),
        counts,
        Interval::zero(),
    )
    .unwrap();
    Note::new(start_ms, duration_ms, pitch, 300).unwrap()
}

/// A nine-note score: a triad held for two beats, then two more chords a
/// beat apart, one note sharpened by a half-tone.
fn score(tuning: &Rc<Tuning>) -> Melody {
    let mut notes: Vec<Note> = Vec::new();
    for &(j, half_tones, start, duration) in [
        (0, 0, 0u64, 2000u64),
        (2, 0, 0, 2000),
        (4, 0, 0, 2000),
        (3, 0, 2000, 1000),
        (5, 0, 2000, 1000),
        (0, 0, 2000, 1000),
        (4, 0, 3000, 1000),
        (6, 1, 3000, 1000),
        (1, 0, 3000, 1000),
    ]
    .iter()
    {
        notes.push(note(tuning, j + 2, vec![half_tones, 0], start, duration));
    }
    Melody { notes }
}

#[test]
fn single_note_compiles_to_on_and_off() {
    // One note: start 0, duration 2 s, pitch 440 Hz, amplitude 0.3, at
    // 44100 Hz: the queue is exactly [{tag 0, On}, {tag 88200, Off}].
    let tuning = major_tuning();
    let m = Melody { notes: vec![note(&tuning, 0, vec![0, 0], 0, 2000)] };
    let q = m.compile(44_100, 0).unwrap();
    assert_eq!(q.len(), 2);
    assert_eq!(q[0].tag, 0);
    assert_eq!(q[1].tag, 88_200);
    match q[0].event {
        SynthEvent::On { note_id, note_params } => {
            assert_eq!(note_id, 0);
            assert_eq!(note_params.frequency.reference_millihz, 440_000);
            assert_eq!(note_params.frequency.offset_subdivisions, 0);
            assert_eq!(note_params.amplitude_milli, 300);
        }
        SynthEvent::Off { .. } => panic!("the first event must start the note"),
    }
    assert_eq!(q[1].event, SynthEvent::Off { note_id: 0 });
}

#[test]
fn empty_melody_fails_to_compile() {
    let m = Melody { notes: Vec::new() };
    assert_eq!(m.compile(44_100, 0).unwrap_err(), CompileError::EmptyMelodyError);
    assert_eq!(m.compile(8_000, 17).unwrap_err(), CompileError::EmptyMelodyError);
}

#[test]
fn degenerate_notes_are_rejected() {
    let tuning = major_tuning();
    assert_eq!(
        Note::new(0, 0, ScalePitch::new(Rc::clone(&tuning), 0, 0, vec![0, 0], Interval::zero()).unwrap(), 300)
            .unwrap_err(),
        InvalidNoteError
    );
    let mut zero_len = score(&tuning);
    zero_len.notes[3].duration_ms = 0;
    assert_eq!(zero_len.compile(44_100, 0).unwrap_err(), CompileError::InvalidNoteError);
    let mut loud = score(&tuning);
    loud.notes[5].amplitude_milli = 1001;
    assert_eq!(loud.compile(44_100, 0).unwrap_err(), CompileError::InvalidNoteError);
}

#[test]
fn compiled_queue_is_sorted_with_two_events_per_note() {
    let tuning = major_tuning();
    let m = score(&tuning);
    let q = m.compile(44_100, 0).unwrap();
    assert_eq!(q.len(), 2 * m.notes.len());
    for w in q.windows(2) {
        assert!(w[0].tag <= w[1].tag);
    }
}

#[test]
fn each_note_has_one_on_before_its_off() {
    let tuning = major_tuning();
    let m = score(&tuning);
    let q = m.compile(44_100, 0).unwrap();
    for id in 0..m.notes.len() {
        let ons: Vec<usize> = q
            .iter()
            .enumerate()
            .filter(|(_, t)| matches!(t.event, SynthEvent::On { note_id, .. } if note_id == id))
            .map(|(k, _)| k)
            .collect();
        let offs: Vec<usize> = q
            .iter()
            .enumerate()
            .filter(|(_, t)| matches!(t.event, SynthEvent::Off { note_id } if note_id == id))
            .map(|(k, _)| k)
            .collect();
        assert_eq!(ons.len(), 1);
        assert_eq!(offs.len(), 1);
        assert!(ons[0] < offs[0]);
        assert!(q[ons[0]].tag < q[offs[0]].tag);
    }
}

#[test]
fn compiling_twice_gives_identical_queues() {
    let tuning = major_tuning();
    let m = score(&tuning);
    let q1 = m.compile(44_100, 7).unwrap();
    let q2 = m.compile(44_100, 7).unwrap();
    assert_eq!(q1, q2);
}

#[test]
fn simultaneous_events_keep_emission_order() {
    let tuning = major_tuning();
    let m = Melody {
        notes: vec![
            note(&tuning, 0, vec![0, 0], 0, 1000),
            note(&tuning, 2, vec![0, 0], 0, 1000),
        ],
    };
    let q = m.compile(1_000, 0).unwrap();
    let ids: Vec<(bool, usize)> = q
        .iter()
        .map(|t| match t.event {
            SynthEvent::On { note_id, .. } => (true, note_id),
            SynthEvent::Off { note_id } => (false, note_id),
        })
        .collect();
    assert_eq!(ids, vec![(true, 0), (true, 1), (false, 0), (false, 1)]);
}

#[test]
fn start_tag_shifts_every_tag() {
    let tuning = major_tuning();
    let m = Melody { notes: vec![note(&tuning, 0, vec![0, 0], 0, 1000)] };
    let base = m.compile(1_000, 0).unwrap();
    let shifted = m.compile(1_000, 40).unwrap();
    let expected: Vec<TaggedEvent<SynthEvent>> = base
        .iter()
        .map(|t| TaggedEvent { tag: t.tag + 40, event: t.event })
        .collect();
    assert_eq!(shifted, expected);
}

#[test]
fn tags_round_half_up() {
    let tuning = major_tuning();
    // 333 ms at 1500 Hz is 499.5 samples: rounds to 500. The note's end at
    // 666 ms is 999 samples exactly.
    let m = Melody { notes: vec![note(&tuning, 0, vec![0, 0], 333, 333)] };
    let q = m.compile(1_500, 0).unwrap();
    assert_eq!(q[0].tag, 500);
    assert_eq!(q[1].tag, 999);
}
