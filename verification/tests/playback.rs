use std::rc::Rc;

use melody::engine::{queue_is_playable, Engine};
use melody::interval::Interval;
use melody::melody::Melody;
use melody::note::Note;
use melody::scale_pitch::ScalePitch;
use melody::synth_event::SynthEvent;
use melody::tagged_event::TaggedEvent;
use melody::tuning::{ScaleStep, Tuning};

fn plain_tuning() -> Rc<Tuning> {
    Rc::new(Tuning {
        scale: vec![ScaleStep { interval: Interval::zero(), name: String::new() }],
        accidentals: Vec::new(),
        reference_millihz: 440_000,
        name: String::new(),
    })
}

fn short_note(tuning: &Rc<Tuning>, start_ms: u64, duration_ms: u64) -> Note {
    let pitch = ScalePitch::new(Rc::clone(tuning), 0, 0, Vec::new(), Interval::zero()).unwrap();
    Note::new(start_ms, duration_ms, pitch, 300).unwrap()
}

/// Two overlapping notes at 1000 Hz: tags 0, 5, 10 and 15.
fn small_queue() -> Vec<TaggedEvent<SynthEvent>> {
    let tuning = plain_tuning();
    let m = Melody {
        notes: vec![short_note(&tuning, 0, 10), short_note(&tuning, 5, 10)],
    };
    m.compile(1_000, 0).unwrap()
}

#[test]
fn playability_check_accepts_compiled_queues_only() {
    let q = small_queue();
    assert!(queue_is_playable(&q));

    assert!(!queue_is_playable(&Vec::new()));

    let mut unsorted = q.clone();
    unsorted.swap(0, 3);
    assert!(!queue_is_playable(&unsorted));

    let mut at_zero = q.clone();
    for t in at_zero.iter_mut() {
        t.tag = 0;
    }
    assert!(!queue_is_playable(&at_zero));
}

#[test]
fn dispatch_fires_due_events_and_tick_advances() {
    let q = small_queue();
    let mut e = Engine::new(q.clone());
    assert_eq!(e.cursor, 0);
    assert_eq!(e.clock, 0);
    // At clock 0 only the first event is due.
    assert_eq!(e.dispatch_one(), Some(q[0].event));
    assert_eq!(e.dispatch_one(), None);
    e.tick();
    assert_eq!(e.clock, 1);
    assert_eq!(e.dispatch_one(), None);
}

#[test]
fn frames_dispatch_at_their_tags() {
    let q = small_queue();
    let mut e = Engine::new(q.clone());
    let mut fired: Vec<(u64, SynthEvent)> = Vec::new();
    for _ in 0..16 {
        let clock = e.clock;
        for ev in e.advance_frame() {
            fired.push((clock, ev));
        }
    }
    // Each event fires in the frame whose clock equals its tag; the frame
    // that exhausts the queue wraps and at once dispatches whatever is due
    // at sample zero of the next cycle.
    let mut expected: Vec<(u64, SynthEvent)> =
        q.iter().map(|t| (t.tag, t.event)).collect();
    expected.push((q[3].tag, q[0].event));
    assert_eq!(fired, expected);
}

#[test]
fn wrapping_replays_the_schedule_exactly() {
    let q = small_queue();
    let mut e = Engine::new(q.clone());
    let mut stream: Vec<SynthEvent> = Vec::new();
    let mut frames: usize = 0;
    while stream.len() < 3 * q.len() {
        for ev in e.advance_frame() {
            stream.push(ev);
        }
        frames += 1;
        assert!(frames < 100);
    }
    let cycle: Vec<SynthEvent> = q.iter().map(|t| t.event).collect();
    assert_eq!(&stream[0..q.len()], &cycle[..]);
    assert_eq!(&stream[q.len()..2 * q.len()], &cycle[..]);
    assert_eq!(&stream[2 * q.len()..3 * q.len()], &cycle[..]);
}

#[test]
fn wrap_resets_cursor_and_clock_to_the_origin() {
    let q = small_queue();
    let mut e = Engine::new(q.clone());
    // Run exactly one frame on a fresh engine and remember its state.
    let mut first = Engine::new(q.clone());
    first.advance_frame();
    // Drive e until it wraps: its state after the wrapping frame must be
    // the state after the fresh engine's very first frame.
    let mut frames: usize = 0;
    loop {
        let before = e.cursor;
        e.advance_frame();
        frames += 1;
        assert!(frames < 100);
        if e.cursor < before {
            break;
        }
    }
    assert_eq!(e.cursor, first.cursor);
    assert_eq!(e.clock, first.clock);
}

#[test]
fn silence_before_first_event_repeats_every_cycle() {
    // A schedule whose first tag is 3: the silent lead-in before the first
    // event returns after every wrap, because the wrap resets the clock to
    // zero, not to the first tag.
    let tuning = plain_tuning();
    let m = Melody { notes: vec![short_note(&tuning, 3, 5)] };
    let q = m.compile(1_000, 0).unwrap();
    assert_eq!(q[0].tag, 3);
    assert_eq!(q[1].tag, 8);
    let mut e = Engine::new(q.clone());
    let mut fired: Vec<usize> = Vec::new();
    for k in 0..18 {
        if !e.advance_frame().is_empty() {
            fired.push(k);
        }
    }
    // The start fires at frame 3, the release at 8; the wrap frame renders
    // the next cycle's sample zero, so the loop's period is the last tag
    // and the start returns every 8 frames, silence gap included.
    assert_eq!(fired, vec![3, 8, 11, 16]);
}
