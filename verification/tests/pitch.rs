use std::rc::Rc;

use melody::interval::{Interval, SUBDIVISIONS_PER_OCTAVE};
use melody::scale_pitch::{ScalePitch, TuningMismatchError};
use melody::tuning::{Accidental, ScaleStep, Tuning};

fn step(num: i64, den: i64) -> ScaleStep {
    ScaleStep {
        interval: Interval::from_octave_fraction(num, den).unwrap(),
        name: String::new(),
    }
}

/// A seven-step scale: the multiples of 7/12 folded into one octave,
/// sorted ascending.
fn western_tuning() -> Tuning {
    let mut twelfths: Vec<i64> = (1..8).map(|i| (i * 7) % 12).collect();
    twelfths.sort();
    Tuning {
        scale: twelfths.iter().map(|&k| step(k, 12)).collect(),
        accidentals: vec![
            Accidental {
                interval: Interval::from_octave_fraction(1, 12).unwrap(),
                name: "Half-Tone".to_string(),
            },
            Accidental {
                interval: Interval::from_octave_fraction(1, 24).unwrap(),
                name: "Quarter-Tone".to_string(),
            },
        ],
        reference_millihz: 440_000,
        name: "Standard Western Tuning".to_string(),
    }
}

fn pitch(tuning: &Rc<Tuning>, range: i32, degree: i32, counts: Vec<i32>) -> ScalePitch {
    ScalePitch::new(
        Rc::clone(tuning),
        range,
        degree,
        counts,
        Interval::from_octave_fraction(0, 1).unwrap(),
    )
    .unwrap()
}

#[test]
fn interval_from_fraction_is_exact() {
    assert_eq!(
        Interval::from_octave_fraction(7, 12).unwrap().subdivisions,
        7 * SUBDIVISIONS_PER_OCTAVE / 12
    );
    assert_eq!(Interval::from_octave_fraction(1, 24).unwrap().subdivisions, 30030);
    assert_eq!(Interval::from_octave_fraction(-1, 12).unwrap().subdivisions, -60060);
    assert_eq!(Interval::from_octave_fraction(0, 5).unwrap().subdivisions, 0);
    assert_eq!(Interval::zero().subdivisions, 0);
}

#[test]
fn interval_from_fraction_rejects_inexact() {
    assert!(Interval::from_octave_fraction(1, 32).is_none());
    assert!(Interval::from_octave_fraction(1, 17).is_none());
    assert!(Interval::from_octave_fraction(i64::MAX, 1).is_none());
}

#[test]
fn interval_combines_by_addition() {
    let a = Interval::from_octave_fraction(7, 12).unwrap();
    let b = Interval::from_octave_fraction(1, 12).unwrap();
    assert_eq!(a.combine(b).subdivisions, 8 * SUBDIVISIONS_PER_OCTAVE / 12);
}

#[test]
fn tuning_well_formedness_is_checked() {
    let good = western_tuning();
    assert!(good.is_well_formed());

    let mut unsorted = western_tuning();
    unsorted.scale.swap(0, 3);
    assert!(!unsorted.is_well_formed());

    let mut empty = western_tuning();
    empty.scale.clear();
    assert!(!empty.is_well_formed());

    let mut silent = western_tuning();
    silent.reference_millihz = 0;
    assert!(!silent.is_well_formed());

    let mut wide = western_tuning();
    wide.scale[6].interval = Interval::from_octave_fraction(13, 12).unwrap();
    assert!(!wide.is_well_formed());
}

#[test]
fn scale_pitch_rejects_mismatched_accidentals() {
    let tuning = Rc::new(western_tuning());
    let r = ScalePitch::new(
        Rc::clone(&tuning),
        0,
        0,
        vec![0],
        Interval::zero(),
    );
    assert_eq!(r.unwrap_err(), TuningMismatchError);
    assert!(ScalePitch::new(Rc::clone(&tuning), 0, 0, vec![0, 0], Interval::zero()).is_ok());
}

#[test]
fn resolve_matches_reference_scenario() {
    // A tuning at 440 Hz with a 7-step equal-ish scale: degree 2, no
    // accidentals, no adjustment resolves to 440 * 2^(scale[2].interval).
    let tuning = Rc::new(western_tuning());
    let f = pitch(&tuning, 0, 2, vec![0, 0]).resolve();
    assert_eq!(f.reference_millihz, 440_000);
    assert_eq!(f.offset_subdivisions, tuning.scale[2].interval.subdivisions);
    assert_eq!(f.offset_subdivisions, 4 * SUBDIVISIONS_PER_OCTAVE / 12);
    let hz = 440.0_f64
        * 2.0_f64.powf(f.offset_subdivisions as f64 / SUBDIVISIONS_PER_OCTAVE as f64);
    assert!((hz - 440.0 * 2.0_f64.powf(4.0 / 12.0)).abs() < 1e-9);
}

#[test]
fn resolve_normalizes_out_of_range_degrees() {
    let tuning = Rc::new(western_tuning());
    // One step below the scale folds to its top step, one octave down.
    let low = pitch(&tuning, 0, -1, vec![0, 0]).resolve();
    assert_eq!(
        low.offset_subdivisions,
        tuning.scale[6].interval.subdivisions - SUBDIVISIONS_PER_OCTAVE
    );
    // One step past the scale folds to its bottom step, one octave up.
    let high = pitch(&tuning, 0, 7, vec![0, 0]).resolve();
    assert_eq!(
        high.offset_subdivisions,
        tuning.scale[0].interval.subdivisions + SUBDIVISIONS_PER_OCTAVE
    );
    // Folding by hand changes nothing: degree 9 at range 0 is degree 2 at
    // range 1.
    assert_eq!(
        pitch(&tuning, 0, 9, vec![0, 0]).resolve(),
        pitch(&tuning, 1, 2, vec![0, 0]).resolve()
    );
}

#[test]
fn resolve_is_monotonic_in_degree() {
    let tuning = Rc::new(western_tuning());
    let mut last = i64::MIN;
    for degree in -15..15 {
        let f = pitch(&tuning, 0, degree, vec![0, 0]).resolve();
        assert!(f.offset_subdivisions >= last);
        last = f.offset_subdivisions;
    }
}

#[test]
fn resolve_doubles_per_range_step() {
    let tuning = Rc::new(western_tuning());
    for range in -3..3 {
        let f0 = pitch(&tuning, range, 4, vec![1, -1]).resolve();
        let f1 = pitch(&tuning, range + 1, 4, vec![1, -1]).resolve();
        assert_eq!(f1.offset_subdivisions, f0.offset_subdivisions + SUBDIVISIONS_PER_OCTAVE);
    }
}

#[test]
fn resolve_applies_accidentals_and_adjustment() {
    let tuning = Rc::new(western_tuning());
    let adjusted = ScalePitch::new(
        Rc::clone(&tuning),
        0,
        2,
        vec![2, -1],
        Interval::from_octave_fraction(1, 24).unwrap(),
    )
    .unwrap()
    .resolve();
    // scale[2] + 2 half-tones - 1 quarter-tone + 1 quarter-tone.
    assert_eq!(
        adjusted.offset_subdivisions,
        tuning.scale[2].interval.subdivisions + 2 * 60060 - 30030 + 30030
    );
}
