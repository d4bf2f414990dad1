use std::rc::Rc;
use vstd::prelude::*;

use crate::interval::{Interval, SUBDIVISIONS_PER_OCTAVE};
use crate::tuning::{Accidental, Tuning};

verus! {

/// An absolute pitch in exact logarithmic form. The frequency it stands for
/// is `(reference_millihz / 1000) * 2^(offset_subdivisions /
/// SUBDIVISIONS_PER_OCTAVE)` hertz; the exponential is left to the caller,
/// which keeps the core exact. Raising `offset_subdivisions` by one octave
/// of subdivisions doubles the frequency.
#[derive(Clone, Copy, Debug, PartialEq, Eq, Structural)]
pub struct Frequency {
    pub reference_millihz: u64,
    pub offset_subdivisions: i64,
}

/// The error raised when a scale pitch is built with one accidental count
/// per accidental missing or in excess, relative to its tuning.
#[derive(Clone, Copy, Debug, PartialEq, Eq, Structural)]
pub struct TuningMismatchError;

/// A pitch named relative to a shared tuning: an octave offset (`range`), a
/// scale degree (any integer; out-of-range degrees are folded into the
/// octave), one signed count per accidental of the tuning, and a free
/// adjustment interval.
#[derive(Debug)]
pub struct ScalePitch {
    pub tuning: Rc<Tuning>,
    pub range: i32,
    pub scale_degree: i32,
    pub accidentals_count: Vec<i32>,
    pub adjustment: Interval,
}

/// The sum of the first `j` accidental contributions: each count times the
/// subdivisions of the matching accidental's interval.
pub open spec fn accidental_sum(counts: Seq<i32>, accidentals: Seq<Accidental>, j: int) -> int
    decreases j,
{
    if j <= 0 {
        0
    } else {
        accidental_sum(counts, accidentals, j - 1) + counts[j - 1]
            * accidentals[j - 1].interval.subdivisions
    }
}

impl ScalePitch {
    /// The pitch is usable: its tuning is, and it carries exactly one
    /// accidental count per accidental of the tuning.
    pub open spec fn wf(self) -> bool {
        &&& self.tuning.wf()
        &&& self.accidentals_count.len() == self.tuning.accidentals.len()
    }

    /// How many whole octaves the raw scale degree folds into.
    pub open spec fn extra_octaves(self) -> int {
        self.scale_degree as int / self.tuning.scale.len() as int
    }

    /// The scale degree folded into `[0, scale.len())`.
    pub open spec fn normalized_degree(self) -> int {
        self.scale_degree as int % self.tuning.scale.len() as int
    }

    /// The exact pitch offset `resolve` computes, in subdivisions: the
    /// normalized scale step, plus every accidental taken its counted
    /// number of times, plus the free adjustment, plus the effective whole
    /// octaves (the range and the folded extra octaves).
    pub open spec fn resolve_offset(self) -> int {
        self.tuning.scale[self.normalized_degree()].interval.subdivisions + accidental_sum(
            self.accidentals_count@,
            self.tuning.accidentals@,
            self.accidentals_count.len() as int,
        ) + self.adjustment.subdivisions + (self.range + self.extra_octaves())
            * SUBDIVISIONS_PER_OCTAVE
    }

    /// Every running total of the resolution stays within `i64`, so the
    /// computation cannot overflow. This is a machine bound, not part of
    /// the musical model.
    pub open spec fn resolve_fits(self) -> bool {
        let base = self.tuning.scale[self.normalized_degree()].interval.subdivisions as int;
        let counts = self.accidentals_count@;
        let accs = self.tuning.accidentals@;
        &&& forall|j: int|
            0 <= j <= counts.len() ==> i64::MIN <= base + #[trigger] accidental_sum(
                counts,
                accs,
                j,
            ) <= i64::MAX
        &&& i64::MIN <= base + accidental_sum(counts, accs, counts.len() as int)
            + self.adjustment.subdivisions <= i64::MAX
        &&& i64::MIN <= self.resolve_offset() <= i64::MAX
    }

    /// Resolves the pitch to an absolute frequency in exact logarithmic
    /// form: the tuning's reference together with the total offset of
    /// `resolve_offset`. Every integer degree is valid; out-of-range
    /// degrees fold into the octave.
    pub fn resolve(&self) -> (f: Frequency)
        requires
            self.wf(),
            self.resolve_fits(),
        ensures
            f.reference_millihz == self.tuning.reference_millihz,
            f.offset_subdivisions == self.resolve_offset(),
    {
        let n: usize = self.tuning.scale.len();
        let (extra, idx) = normalize_degree(self.scale_degree, n);
        let base: i64 = self.tuning.scale[idx].interval.subdivisions;
        let mut total: i64 = base;
        let mut i: usize = 0;
        while i < self.accidentals_count.len()
            invariant
                self.wf(),
                self.resolve_fits(),
                0 <= i <= self.accidentals_count.len(),
                base == self.tuning.scale[self.normalized_degree()].interval.subdivisions,
                total as int == base + accidental_sum(
                    self.accidentals_count@,
                    self.tuning.accidentals@,
                    i as int,
                ),
            decreases self.accidentals_count.len() - i,
        {
            let c: i32 = self.accidentals_count[i];
            let a: i64 = self.tuning.accidentals[i].interval.subdivisions;
            proof {
                assert(-0x4000_0000_0000_0000_0000_0000 <= (c as int) * (a as int)
                    <= 0x4000_0000_0000_0000_0000_0000) by (nonlinear_arith)
                    requires
                        -0x8000_0000 <= c as int <= 0x7fff_ffff,
                        -0x8000_0000_0000_0000 <= a as int <= 0x7fff_ffff_ffff_ffff;
            }
            let term: i128 = (c as i128) * (a as i128);
            let next: i128 = (total as i128) + term;
            assert(next == base + accidental_sum(
                self.accidentals_count@,
                self.tuning.accidentals@,
                i as int + 1,
            ));
            total = next as i64;
            i += 1;
        }
        let with_adjustment: i128 = (total as i128) + (self.adjustment.subdivisions as i128);
        let total_interval: i64 = with_adjustment as i64;
        let octaves: i64 = (self.range as i64) + extra;
        let off: i128 = (total_interval as i128) + (octaves as i128) * (
        SUBDIVISIONS_PER_OCTAVE as i128);
        Frequency {
            reference_millihz: self.tuning.reference_millihz,
            offset_subdivisions: off as i64,
        }
    }

    /// Builds a scale pitch over a shared tuning. Fails with
    /// `TuningMismatchError` exactly when the accidental counts do not
    /// match the tuning's accidentals one for one.
    pub fn new(
        tuning: Rc<Tuning>,
        range: i32,
        scale_degree: i32,
        accidentals_count: Vec<i32>,
        adjustment: Interval,
    ) -> (r: Result<ScalePitch, TuningMismatchError>)
        ensures
            r is Ok <==> accidentals_count.len() == tuning.accidentals.len(),
            r is Ok ==> r->Ok_0 == (ScalePitch {
                tuning,
                range,
                scale_degree,
                accidentals_count,
                adjustment,
            }),
    {
        if accidentals_count.len() == tuning.accidentals.len() {
            Ok(ScalePitch { tuning, range, scale_degree, accidentals_count, adjustment })
        } else {
            Err(TuningMismatchError)
        }
    }
}

/// The part of a resolved offset that depends on the raw scale degree
/// alone: the normalized step plus the folded whole octaves.
pub open spec fn degree_part(t: Tuning, d: int) -> int {
    let n = t.scale.len() as int;
    t.scale[d % n].interval.subdivisions + (d / n) * SUBDIVISIONS_PER_OCTAVE
}

/// Stepping the raw degree up by one never lowers the degree part: inside
/// an octave the scale is sorted ascending, and at the wrap the next octave
/// starts above every step of the previous one, because all steps lie
/// within one octave.
proof fn lemma_degree_part_step(t: &Tuning, d: int)
    requires
        t.wf(),
    ensures
        degree_part(*t, d) <= degree_part(*t, d + 1),
{
    let n = t.scale.len() as int;
    vstd::arithmetic::div_mod::lemma_fundamental_div_mod(d, n);
    let q = d / n;
    let m = d % n;
    if m + 1 < n {
        assert(d + 1 == q * n + (m + 1)) by (nonlinear_arith)
            requires
                d == n * q + m;
        vstd::arithmetic::div_mod::lemma_fundamental_div_mod_converse(d + 1, n, q, m + 1);
        assert(t.scale[m].interval.subdivisions <= t.scale[m + 1].interval.subdivisions);
    } else {
        assert(d + 1 == (q + 1) * n + 0) by (nonlinear_arith)
            requires
                d == n * q + m,
                m + 1 == n;
        vstd::arithmetic::div_mod::lemma_fundamental_div_mod_converse(d + 1, n, q + 1, 0);
        assert(0 <= t.scale[0].interval.subdivisions);
        assert(t.scale[n - 1].interval.subdivisions < SUBDIVISIONS_PER_OCTAVE);
    }
}

/// The degree part is monotone over any distance.
proof fn lemma_degree_part_mono(t: &Tuning, d1: int, d2: int)
    requires
        t.wf(),
        d1 <= d2,
    ensures
        degree_part(*t, d1) <= degree_part(*t, d2),
    decreases d2 - d1,
{
    if d1 < d2 {
        lemma_degree_part_mono(t, d1, d2 - 1);
        lemma_degree_part_step(t, d2 - 1);
    }
}

/// Law: with the tuning, range, accidental counts and adjustment fixed, a
/// higher raw scale degree never resolves lower. Offsets order frequencies,
/// since `2^x` is increasing, so the resolved frequency is monotone in the
/// scale degree.
pub proof fn lemma_resolve_monotonic_in_degree(p1: ScalePitch, p2: ScalePitch)
    requires
        p1.wf(),
        p1.tuning == p2.tuning,
        p1.range == p2.range,
        p1.accidentals_count@ == p2.accidentals_count@,
        p1.adjustment == p2.adjustment,
        p1.scale_degree <= p2.scale_degree,
    ensures
        p2.resolve_offset() >= p1.resolve_offset(),
{
    lemma_degree_part_mono(&p1.tuning, p1.scale_degree as int, p2.scale_degree as int);
    assert(p1.resolve_offset() == degree_part(*p1.tuning, p1.scale_degree as int) + accidental_sum(
        p1.accidentals_count@,
        p1.tuning.accidentals@,
        p1.accidentals_count.len() as int,
    ) + p1.adjustment.subdivisions + p1.range * SUBDIVISIONS_PER_OCTAVE) by (nonlinear_arith)
        requires
            p1.resolve_offset() == p1.tuning.scale[p1.normalized_degree()].interval.subdivisions
                + accidental_sum(
                p1.accidentals_count@,
                p1.tuning.accidentals@,
                p1.accidentals_count.len() as int,
            ) + p1.adjustment.subdivisions + (p1.range + p1.extra_octaves())
                * SUBDIVISIONS_PER_OCTAVE,
            degree_part(*p1.tuning, p1.scale_degree as int)
                == p1.tuning.scale[p1.normalized_degree()].interval.subdivisions
                + p1.extra_octaves() * SUBDIVISIONS_PER_OCTAVE;
    assert(p2.resolve_offset() == degree_part(*p2.tuning, p2.scale_degree as int) + accidental_sum(
        p2.accidentals_count@,
        p2.tuning.accidentals@,
        p2.accidentals_count.len() as int,
    ) + p2.adjustment.subdivisions + p2.range * SUBDIVISIONS_PER_OCTAVE) by (nonlinear_arith)
        requires
            p2.resolve_offset() == p2.tuning.scale[p2.normalized_degree()].interval.subdivisions
                + accidental_sum(
                p2.accidentals_count@,
                p2.tuning.accidentals@,
                p2.accidentals_count.len() as int,
            ) + p2.adjustment.subdivisions + (p2.range + p2.extra_octaves())
                * SUBDIVISIONS_PER_OCTAVE,
            degree_part(*p2.tuning, p2.scale_degree as int)
                == p2.tuning.scale[p2.normalized_degree()].interval.subdivisions
                + p2.extra_octaves() * SUBDIVISIONS_PER_OCTAVE;
}

/// Law: raising `range` by one octave, all else fixed, adds exactly one
/// octave of subdivisions to the resolved offset — the frequency doubles.
pub proof fn lemma_resolve_octave_doubles(p1: ScalePitch, p2: ScalePitch)
    requires
        p1.wf(),
        p1.tuning == p2.tuning,
        p2.range == p1.range + 1,
        p1.scale_degree == p2.scale_degree,
        p1.accidentals_count@ == p2.accidentals_count@,
        p1.adjustment == p2.adjustment,
    ensures
        p2.resolve_offset() == p1.resolve_offset() + SUBDIVISIONS_PER_OCTAVE,
{
    let e = p1.extra_octaves();
    assert((p1.range + 1 + e) * SUBDIVISIONS_PER_OCTAVE == (p1.range + e)
        * SUBDIVISIONS_PER_OCTAVE + SUBDIVISIONS_PER_OCTAVE) by (nonlinear_arith);
}

/// Law: normalization is exact, never an error. A raw degree at a given
/// range resolves exactly like its degree folded into `[0, scale.len())`
/// with the carried whole octaves added to the range.
pub proof fn lemma_degree_normalization(p1: ScalePitch, p2: ScalePitch)
    requires
        p1.wf(),
        p1.tuning == p2.tuning,
        p1.accidentals_count@ == p2.accidentals_count@,
        p1.adjustment == p2.adjustment,
        p2.scale_degree as int == p1.normalized_degree(),
        p2.range as int == p1.range + p1.extra_octaves(),
    ensures
        p2.resolve_offset() == p1.resolve_offset(),
{
    let n = p1.tuning.scale.len() as int;
    let m = p1.normalized_degree();
    vstd::arithmetic::div_mod::lemma_mod_bound(p1.scale_degree as int, n);
    vstd::arithmetic::div_mod::lemma_fundamental_div_mod_converse(m, n, 0, m);
    assert(p2.normalized_degree() == m);
    assert(p2.extra_octaves() == 0);
}

/// Floor-divides a raw scale degree by the scale length: returns the whole
/// octaves carried and the degree folded into `[0, n)`. The remainder is
/// non-negative for negative degrees too.
fn normalize_degree(degree: i32, n: usize) -> (r: (i64, usize))
    requires
        n >= 1,
    ensures
        r.1 < n,
        r.0 == degree as int / n as int,
        r.1 as int == degree as int % n as int,
        -0x1_0000_0000 <= r.0 <= 0x1_0000_0000,
{
    if degree >= 0 {
        let ud: usize = degree as usize;
        let q: usize = ud / n;
        let m: usize = ud % n;
        proof {
            vstd::arithmetic::div_mod::lemma_fundamental_div_mod(ud as int, n as int);
            vstd::arithmetic::div_mod::lemma_div_nonincreasing(ud as int, n as int);
        }
        (q as i64, m)
    } else {
        let mag: usize = (-(degree as i64)) as usize;
        let q0: usize = mag / n;
        let r0: usize = mag % n;
        proof {
            vstd::arithmetic::div_mod::lemma_fundamental_div_mod(mag as int, n as int);
            vstd::arithmetic::div_mod::lemma_div_nonincreasing(mag as int, n as int);
            let qi = q0 as int;
            let ni = n as int;
            if r0 == 0 {
                assert(-(mag as int) == (-qi) * ni + 0) by (nonlinear_arith)
                    requires
                        mag as int == ni * qi;
                vstd::arithmetic::div_mod::lemma_fundamental_div_mod_converse(
                    degree as int,
                    ni,
                    -qi,
                    0,
                );
            } else {
                assert(-(mag as int) == (-qi - 1) * ni + (ni - r0 as int)) by (nonlinear_arith)
                    requires
                        mag as int == ni * qi + r0 as int;
                vstd::arithmetic::div_mod::lemma_fundamental_div_mod_converse(
                    degree as int,
                    ni,
                    -qi - 1,
                    ni - r0 as int,
                );
            }
        }
        if r0 == 0 {
            (-(q0 as i64), 0)
        } else {
            (-(q0 as i64) - 1, n - r0)
        }
    }
}

} // verus!
