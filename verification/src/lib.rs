//! A declarative music core: tunings, scale pitches, melodies compiled to
//! sample-timestamped synthesis events, and a looping playback engine.
//!
//! All pitch arithmetic is exact: intervals are fixed-point fractions of an
//! octave, so every contract speaks of integers rather than floats. The
//! conversion of a resolved pitch to a hertz value (an exponential) is left
//! to the caller, which keeps the core free of floating point.

pub mod engine;
pub mod interval;
pub mod melody;
pub mod note;
pub mod scale_pitch;
pub mod synth_event;
pub mod tagged_event;
pub mod tuning;
