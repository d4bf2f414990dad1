use vstd::prelude::*;

use crate::interval::{Interval, SUBDIVISIONS_PER_OCTAVE};

verus! {

/// One entry in a tuning's scale: a pitch offset within the octave, with a
/// display name.
#[derive(Debug)]
pub struct ScaleStep {
    pub interval: Interval,
    pub name: String,
}

/// A named, repeatable pitch modifier (a half-tone, a quarter-tone, ...),
/// applied a signed number of times by a scale pitch.
#[derive(Debug)]
pub struct Accidental {
    pub interval: Interval,
    pub name: String,
}

/// An immutable reference table for pitch resolution: an ordered scale of
/// steps within one octave, the accidentals the table knows, and the
/// reference frequency that all offsets are relative to, in millihertz.
/// Once built, a tuning is never mutated; scale pitches share it read-only.
#[derive(Debug)]
pub struct Tuning {
    pub scale: Vec<ScaleStep>,
    pub accidentals: Vec<Accidental>,
    pub reference_millihz: u64,
    pub name: String,
}

impl Tuning {
    /// The table is usable: at least one scale step, every step within
    /// [0, 1) octave, the steps sorted ascending by interval, and a
    /// positive reference frequency.
    pub open spec fn wf(self) -> bool {
        &&& self.scale.len() >= 1
        &&& forall|i: int|
            0 <= i < self.scale.len() ==> 0 <= (
            #[trigger] self.scale[i].interval.subdivisions) < SUBDIVISIONS_PER_OCTAVE
        &&& forall|i: int, j: int|
            0 <= i <= j < self.scale.len() ==> #[trigger] self.scale[i].interval.subdivisions
                <= #[trigger] self.scale[j].interval.subdivisions
        &&& self.reference_millihz > 0
    }

    /// Runtime check of `wf`, for callers that build a table from data
    /// whose order is not known statically.
    pub fn is_well_formed(&self) -> (b: bool)
        ensures
            b == self.wf(),
    {
        if self.scale.len() == 0 || self.reference_millihz == 0 {
            return false;
        }
        let mut i: usize = 0;
        while i < self.scale.len()
            invariant
                0 <= i <= self.scale.len(),
                forall|k: int|
                    0 <= k < i ==> 0 <= (
                    #[trigger] self.scale[k].interval.subdivisions) < SUBDIVISIONS_PER_OCTAVE,
                forall|k: int|
                    0 <= k < i && k + 1 < self.scale.len()
                        ==> #[trigger] self.scale[k].interval.subdivisions <= self.scale[k
                        + 1].interval.subdivisions,
            decreases self.scale.len() - i,
        {
            let step = &self.scale[i];
            if step.interval.subdivisions < 0 || step.interval.subdivisions
                >= SUBDIVISIONS_PER_OCTAVE {
                return false;
            }
            if i + 1 < self.scale.len() {
                let next = &self.scale[i + 1];
                if step.interval.subdivisions > next.interval.subdivisions {
                    return false;
                }
            }
            i += 1;
        }
        proof {
            assert(forall|k: int|
                0 <= k && k + 1 < self.scale@.len()
                    ==> #[trigger] self.scale@[k].interval.subdivisions <= self.scale@[k
                    + 1].interval.subdivisions);
            lemma_sorted_from_adjacent(self.scale@);
        }
        true
    }
}

/// A scale whose adjacent steps are ordered is ordered as a whole.
proof fn lemma_sorted_from_adjacent(s: Seq<ScaleStep>)
    requires
        forall|k: int|
            0 <= k && k + 1 < s.len() ==> #[trigger] s[k].interval.subdivisions <= s[k
                + 1].interval.subdivisions,
    ensures
        forall|i: int, j: int|
            0 <= i <= j < s.len() ==> #[trigger] s[i].interval.subdivisions
                <= #[trigger] s[j].interval.subdivisions,
{
    assert forall|i: int, j: int|
        0 <= i <= j < s.len() implies #[trigger] s[i].interval.subdivisions
        <= #[trigger] s[j].interval.subdivisions by {
        lemma_le_chain(s, i, j);
    }
}

/// Chains adjacent orderedness from index `i` up to index `j`.
proof fn lemma_le_chain(s: Seq<ScaleStep>, i: int, j: int)
    requires
        forall|k: int|
            0 <= k && k + 1 < s.len() ==> #[trigger] s[k].interval.subdivisions <= s[k
                + 1].interval.subdivisions,
        0 <= i <= j < s.len(),
    ensures
        s[i].interval.subdivisions <= s[j].interval.subdivisions,
    decreases j - i,
{
    if i < j {
        lemma_le_chain(s, i + 1, j);
        assert(s[i].interval.subdivisions <= s[i + 1].interval.subdivisions);
    }
}

} // verus!
