use vstd::prelude::*;

use crate::scale_pitch::ScalePitch;

verus! {

/// The error for a degenerate note: a duration of zero, or an amplitude
/// above full scale. Such a note is rejected at construction or at
/// compilation, never silently clamped.
#[derive(Clone, Copy, Debug, PartialEq, Eq, Structural)]
pub struct InvalidNoteError;

/// A scored event: when it starts and how long it lasts (in milliseconds,
/// so ordinary beat grids are exact), at what pitch, and how loud (in
/// thousandths of full scale). A note is owned by the melody holding it.
#[derive(Debug)]
pub struct Note {
    pub start_ms: u64,
    pub duration_ms: u64,
    pub pitch: ScalePitch,
    pub amplitude_milli: u32,
}

impl Note {
    /// The note is meaningful: a positive duration, and an amplitude
    /// within full scale.
    pub open spec fn valid(self) -> bool {
        self.duration_ms >= 1 && self.amplitude_milli <= 1000
    }

    /// Builds a note, rejecting degenerate timing (a zero duration) and an
    /// out-of-range amplitude.
    pub fn new(start_ms: u64, duration_ms: u64, pitch: ScalePitch, amplitude_milli: u32) -> (r:
        Result<Note, InvalidNoteError>)
        ensures
            r is Ok <==> duration_ms >= 1 && amplitude_milli <= 1000,
            r is Ok ==> r->Ok_0 == (Note { start_ms, duration_ms, pitch, amplitude_milli }),
    {
        if duration_ms >= 1 && amplitude_milli <= 1000 {
            Ok(Note { start_ms, duration_ms, pitch, amplitude_milli })
        } else {
            Err(InvalidNoteError)
        }
    }
}

} // verus!
