use vstd::prelude::*;

use crate::scale_pitch::Frequency;

verus! {

/// The parameters a synthesis voice is started with: the exact pitch, and
/// an amplitude in thousandths of full scale (0 ..= 1000).
#[derive(Clone, Copy, Debug, PartialEq, Eq, Structural)]
pub struct NoteParams {
    pub frequency: Frequency,
    pub amplitude_milli: u32,
}

/// One trigger for the synthesis capability: start the voice keyed by
/// `note_id` with the given parameters, or release it. A closed sum type,
/// dispatched by matching.
#[derive(Clone, Copy, Debug, PartialEq, Eq, Structural)]
pub enum SynthEvent {
    On { note_id: usize, note_params: NoteParams },
    Off { note_id: usize },
}

} // verus!
