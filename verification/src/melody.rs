use vstd::prelude::*;

use crate::note::Note;
use crate::scale_pitch::Frequency;
use crate::synth_event::{NoteParams, SynthEvent};
use crate::tagged_event::TaggedEvent;

verus! {

/// Why a melody fails to compile: it holds no notes at all (the playback
/// engine needs at least one event to index safely), or some note is
/// degenerate.
#[derive(Clone, Copy, Debug, PartialEq, Eq, Structural)]
pub enum CompileError {
    EmptyMelodyError,
    InvalidNoteError,
}

/// An order-irrelevant collection of notes. Created once from a score and
/// compiled on demand into a sample-timestamped event queue; never mutated
/// during playback.
#[derive(Debug)]
pub struct Melody {
    pub notes: Vec<Note>,
}

/// `ms` milliseconds at `sample_rate` hertz, rounded half-up to the
/// nearest whole sample.
pub open spec fn rounded_samples(ms: int, sample_rate: int) -> int {
    (ms * sample_rate + 500) / 1000
}

/// The sample timestamp of a note's start.
pub open spec fn on_tag(n: Note, sample_rate: int, start_tag: int) -> int {
    start_tag + rounded_samples(n.start_ms as int, sample_rate)
}

/// The sample timestamp of a note's end.
pub open spec fn off_tag(n: Note, sample_rate: int, start_tag: int) -> int {
    start_tag + rounded_samples(n.start_ms + n.duration_ms, sample_rate)
}

/// The start trigger a note compiles to: its resolved pitch and amplitude,
/// keyed by the note's position in the melody.
pub open spec fn on_event(n: Note, id: int, sample_rate: int, start_tag: int) -> TaggedEvent<
    SynthEvent,
> {
    TaggedEvent {
        tag: on_tag(n, sample_rate, start_tag) as u64,
        event: SynthEvent::On {
            note_id: id as usize,
            note_params: NoteParams {
                frequency: Frequency {
                    reference_millihz: n.pitch.tuning.reference_millihz,
                    offset_subdivisions: n.pitch.resolve_offset() as i64,
                },
                amplitude_milli: n.amplitude_milli,
            },
        },
    }
}

/// The release trigger a note compiles to.
pub open spec fn off_event(n: Note, id: int, sample_rate: int, start_tag: int) -> TaggedEvent<
    SynthEvent,
> {
    TaggedEvent {
        tag: off_tag(n, sample_rate, start_tag) as u64,
        event: SynthEvent::Off { note_id: id as usize },
    }
}

/// The events of the first `j` notes in emission order: for each note an
/// `On` at its start, then an `Off` at its end, note by note.
pub open spec fn emitted(notes: Seq<Note>, j: int, sample_rate: int, start_tag: int) -> Seq<
    TaggedEvent<SynthEvent>,
>
    decreases j,
{
    if j <= 0 {
        Seq::empty()
    } else {
        emitted(notes, j - 1, sample_rate, start_tag) + seq![
            on_event(notes[j - 1], j - 1, sample_rate, start_tag),
            off_event(notes[j - 1], j - 1, sample_rate, start_tag),
        ]
    }
}

/// Insertion of `x` into `s` after every element whose tag does not exceed
/// `x`'s: the stable insertion position.
pub open spec fn sorted_insert<E>(s: Seq<TaggedEvent<E>>, x: TaggedEvent<E>) -> Seq<
    TaggedEvent<E>,
>
    decreases s.len(),
{
    if s.len() > 0 && s.last().tag > x.tag {
        sorted_insert(s.drop_last(), x).push(s.last())
    } else {
        s.push(x)
    }
}

/// Stable sort ascending by tag: each element in turn is inserted after
/// its equals, so ties keep their emission order.
pub open spec fn sort_by_tag<E>(s: Seq<TaggedEvent<E>>) -> Seq<TaggedEvent<E>>
    decreases s.len(),
{
    if s.len() == 0 {
        Seq::empty()
    } else {
        sorted_insert(sort_by_tag(s.drop_last()), s.last())
    }
}

/// Tags never decrease along the queue.
pub open spec fn sorted_by_tag<E>(s: Seq<TaggedEvent<E>>) -> bool {
    forall|i: int, j: int| 0 <= i <= j < s.len() ==> s[i].tag <= s[j].tag
}

/// The queue a successful compilation returns: the emitted events of every
/// note, stable-sorted by tag.
pub open spec fn compiled(m: Melody, sample_rate: int, start_tag: int) -> Seq<
    TaggedEvent<SynthEvent>,
> {
    sort_by_tag(emitted(m.notes@, m.notes@.len() as int, sample_rate, start_tag))
}

/// The note's timestamps fit the machine: its end in milliseconds, and
/// both of its tags, stay within `u64`. A machine bound, not part of the
/// musical model.
pub open spec fn note_fits(n: Note, sample_rate: int, start_tag: int) -> bool {
    &&& n.start_ms + n.duration_ms <= u64::MAX
    &&& 0 <= on_tag(n, sample_rate, start_tag) <= u64::MAX
    &&& 0 <= off_tag(n, sample_rate, start_tag) <= u64::MAX
}

/// Every note of the melody fits the machine, and every pitch can be
/// resolved without overflow.
pub open spec fn compile_fits(m: Melody, sample_rate: int, start_tag: int) -> bool {
    forall|i: int|
        0 <= i < m.notes.len() ==> {
            &&& note_fits(#[trigger] m.notes[i], sample_rate, start_tag)
            &&& m.notes[i].pitch.wf()
            &&& m.notes[i].pitch.resolve_fits()
        }
}

/// `ms` milliseconds at `sample_rate` hertz as a whole number of samples,
/// rounded half-up.
fn round_to_samples(ms: u64, sample_rate: u32) -> (s: u64)
    requires
        rounded_samples(ms as int, sample_rate as int) <= u64::MAX,
    ensures
        s as int == rounded_samples(ms as int, sample_rate as int),
{
    proof {
        assert((ms as int) * (sample_rate as int) <= 0xffff_ffff_ffff_ffff * 0xffff_ffff)
            by (nonlinear_arith)
            requires
                0 <= ms as int <= 0xffff_ffff_ffff_ffff,
                0 <= sample_rate as int <= 0xffff_ffff;
    }
    let prod: u128 = (ms as u128) * (sample_rate as u128);
    let r: u128 = (prod + 500) / 1000;
    r as u64
}

impl Melody {
    /// Compiles the melody into a non-empty event queue, sorted ascending
    /// by sample tag. Each note, identified by its position, contributes an
    /// `On` at `start_tag + round(start * sample_rate)` and an `Off` at
    /// `start_tag + round((start + duration) * sample_rate)`; ties keep
    /// emission order. An empty melody is an error, as is a degenerate
    /// note.
    pub fn compile(&self, sample_rate: u32, start_tag: u64) -> (r: Result<
        Vec<TaggedEvent<SynthEvent>>,
        CompileError,
    >)
        requires
            sample_rate >= 1,
            compile_fits(*self, sample_rate as int, start_tag as int),
        ensures
            r == Err::<Vec<TaggedEvent<SynthEvent>>, CompileError>(CompileError::EmptyMelodyError)
                <==> self.notes.len() == 0,
            r == Err::<Vec<TaggedEvent<SynthEvent>>, CompileError>(CompileError::InvalidNoteError)
                <==> self.notes.len() > 0 && exists|i: int|
                0 <= i < self.notes.len() && !(#[trigger] self.notes[i]).valid(),
            r is Ok ==> r->Ok_0@ == compiled(*self, sample_rate as int, start_tag as int),
    {
        let n = self.notes.len();
        if n == 0 {
            return Err(CompileError::EmptyMelodyError);
        }
        let mut i: usize = 0;
        while i < n
            invariant
                n == self.notes.len(),
                0 <= i <= n,
                forall|k: int| 0 <= k < i ==> (#[trigger] self.notes[k]).valid(),
            decreases n - i,
        {
            let note = &self.notes[i];
            if note.duration_ms == 0 || note.amplitude_milli > 1000 {
                return Err(CompileError::InvalidNoteError);
            }
            i += 1;
        }
        let mut events: Vec<TaggedEvent<SynthEvent>> = Vec::new();
        let mut i: usize = 0;
        while i < n
            invariant
                n == self.notes.len(),
                0 <= i <= n,
                sample_rate >= 1,
                compile_fits(*self, sample_rate as int, start_tag as int),
                events@ == emitted(self.notes@, i as int, sample_rate as int, start_tag as int),
            decreases n - i,
        {
            let note = &self.notes[i];
            let f = note.pitch.resolve();
            let on_t: u64 = start_tag + round_to_samples(note.start_ms, sample_rate);
            let end_ms: u64 = note.start_ms + note.duration_ms;
            let off_t: u64 = start_tag + round_to_samples(end_ms, sample_rate);
            events.push(
                TaggedEvent {
                    tag: on_t,
                    event: SynthEvent::On {
                        note_id: i,
                        note_params: NoteParams {
                            frequency: f,
                            amplitude_milli: note.amplitude_milli,
                        },
                    },
                },
            );
            events.push(TaggedEvent { tag: off_t, event: SynthEvent::Off { note_id: i } });
            proof {
                assert(events@ =~= emitted(
                    self.notes@,
                    i as int + 1,
                    sample_rate as int,
                    start_tag as int,
                ));
            }
            i += 1;
        }
        sort_events(&mut events);
        Ok(events)
    }
}

/// When everything from position `j` on exceeds `x`'s tag, inserting `x`
/// into `s` places it exactly at `j`.
proof fn lemma_sorted_insert_at<E>(s: Seq<TaggedEvent<E>>, x: TaggedEvent<E>, j: int)
    requires
        0 <= j <= s.len(),
        forall|k: int| j <= k < s.len() ==> s[k].tag > x.tag,
        j > 0 ==> s[j - 1].tag <= x.tag,
    ensures
        sorted_insert(s, x) == s.subrange(0, j) + seq![x] + s.subrange(j, s.len() as int),
    decreases s.len() - j,
{
    if j == s.len() {
        assert(s.subrange(0, j) == s);
        assert(sorted_insert(s, x) =~= s.subrange(0, j) + seq![x] + s.subrange(
            j,
            s.len() as int,
        ));
    } else {
        assert(s.last().tag > x.tag);
        let d = s.drop_last();
        assert(d.len() == s.len() - 1);
        assert(forall|k: int| j <= k < d.len() ==> d[k].tag > x.tag);
        lemma_sorted_insert_at(d, x, j);
        assert(sorted_insert(s, x) =~= s.subrange(0, j) + seq![x] + s.subrange(
            j,
            s.len() as int,
        ));
    }
}

/// Stable insertion sort by tag, matching `sort_by_tag` exactly.
fn sort_events(v: &mut Vec<TaggedEvent<SynthEvent>>)
    ensures
        final(v)@ == sort_by_tag(old(v)@),
{
    if v.len() == 0 {
        assert(v@ =~= sort_by_tag(v@));
        return ;
    }
    let ghost orig = v@;
    let mut i: usize = 1;
    proof {
        let s1 = orig.subrange(0, 1);
        assert(s1.drop_last() =~= Seq::<TaggedEvent<SynthEvent>>::empty());
        assert(sort_by_tag(s1.drop_last()) == Seq::<TaggedEvent<SynthEvent>>::empty());
        assert(sort_by_tag(s1) == sorted_insert(Seq::<TaggedEvent<SynthEvent>>::empty(), s1.last()));
        assert(v@.subrange(0, 1) =~= sort_by_tag(s1));
    }
    while i < v.len()
        invariant
            1 <= i <= v@.len(),
            v@.len() == orig.len(),
            v@.subrange(0, i as int) == sort_by_tag(orig.subrange(0, i as int)),
            v@.skip(i as int) == orig.skip(i as int),
        decreases v@.len() - i,
    {
        let ghost s = v@.subrange(0, i as int);
        let x = v[i];
        proof {
            assert(v@[i as int] == v@.skip(i as int)[0]);
            assert(orig[i as int] == orig.skip(i as int)[0]);
            assert(x == orig[i as int]);
            assert forall|k: int| i as int <= k < orig.len() implies v@[k] == orig[k] by {
                assert(v@.skip(i as int)[k - i as int] == orig.skip(i as int)[k - i as int]);
            }
            assert(v@ =~= s.subrange(0, i as int) + seq![x] + s.subrange(i as int, i as int)
                + orig.skip(i as int + 1));
        }
        let mut j: usize = i;
        while j > 0 && v[j - 1].tag > v[j].tag
            invariant
                0 <= j <= i < v@.len(),
                i < orig.len(),
                v@.len() == orig.len(),
                s.len() == i as int,
                v@ == s.subrange(0, j as int) + seq![x] + s.subrange(j as int, i as int)
                    + orig.skip(i as int + 1),
                forall|k: int| j <= k < i ==> s[k].tag > x.tag,
                s == sort_by_tag(orig.subrange(0, i as int)),
            decreases j,
        {
            let prev = v[j - 1];
            assert(prev == s[j as int - 1]);
            v.set(j, prev);
            v.set(j - 1, x);
            proof {
                assert(v@ =~= s.subrange(0, j as int - 1) + seq![x] + s.subrange(
                    j as int - 1,
                    i as int,
                ) + orig.skip(i as int + 1));
                assert(s[j as int - 1].tag > x.tag);
            }
            j -= 1;
        }
        proof {
            if j > 0 {
                assert(v@[j as int - 1] == s[j as int - 1]);
            }
            lemma_sorted_insert_at(s, x, j as int);
            assert(v@.subrange(0, i as int + 1) =~= s.subrange(0, j as int) + seq![x]
                + s.subrange(j as int, i as int));
            assert(v@.subrange(0, i as int + 1) == sorted_insert(s, x));
            let t = orig.subrange(0, i as int + 1);
            assert(t.drop_last() =~= orig.subrange(0, i as int));
            assert(t.last() == orig[i as int]);
            assert(sort_by_tag(t) == sorted_insert(sort_by_tag(orig.subrange(0, i as int)), x));
            assert(v@.skip(i as int + 1) =~= orig.skip(i as int + 1));
        }
        i += 1;
    }
    proof {
        assert(v@ =~= v@.subrange(0, i as int));
        assert(orig.subrange(0, i as int) =~= orig);
    }
}


/// Does the event start (`on` true) or release (`on` false) note `id`?
pub open spec fn event_matches(e: TaggedEvent<SynthEvent>, id: usize, on: bool) -> bool {
    match e.event {
        SynthEvent::On { note_id, .. } => on && note_id == id,
        SynthEvent::Off { note_id } => !on && note_id == id,
    }
}

/// How many events of `s` start (or release) note `id`.
pub open spec fn count_events(s: Seq<TaggedEvent<SynthEvent>>, id: usize, on: bool) -> nat
    decreases s.len(),
{
    if s.len() == 0 {
        0
    } else {
        count_events(s.drop_last(), id, on) + (if event_matches(s.last(), id, on) {
            1nat
        } else {
            0nat
        })
    }
}

proof fn lemma_count_push(s: Seq<TaggedEvent<SynthEvent>>, x: TaggedEvent<SynthEvent>, id: usize, on: bool)
    ensures
        count_events(s.push(x), id, on) == count_events(s, id, on) + (if event_matches(x, id, on) {
            1nat
        } else {
            0nat
        }),
{
    assert(s.push(x).drop_last() =~= s);
    assert(s.push(x).last() == x);
}

proof fn lemma_insert_count(s: Seq<TaggedEvent<SynthEvent>>, x: TaggedEvent<SynthEvent>, id: usize, on: bool)
    ensures
        count_events(sorted_insert(s, x), id, on) == count_events(s, id, on) + (if event_matches(
            x,
            id,
            on,
        ) {
            1nat
        } else {
            0nat
        }),
    decreases s.len(),
{
    if s.len() > 0 && s.last().tag > x.tag {
        lemma_insert_count(s.drop_last(), x, id, on);
        lemma_count_push(sorted_insert(s.drop_last(), x), s.last(), id, on);
    } else {
        lemma_count_push(s, x, id, on);
    }
}

proof fn lemma_sort_count(s: Seq<TaggedEvent<SynthEvent>>, id: usize, on: bool)
    ensures
        count_events(sort_by_tag(s), id, on) == count_events(s, id, on),
    decreases s.len(),
{
    if s.len() > 0 {
        lemma_sort_count(s.drop_last(), id, on);
        lemma_insert_count(sort_by_tag(s.drop_last()), s.last(), id, on);
    }
}

/// In `s`, every event for note `id` is the given start or release event.
pub open spec fn canonical_for(
    s: Seq<TaggedEvent<SynthEvent>>,
    id: usize,
    on_e: TaggedEvent<SynthEvent>,
    off_e: TaggedEvent<SynthEvent>,
) -> bool {
    forall|k: int|
        0 <= k < s.len() ==> {
            &&& (event_matches(#[trigger] s[k], id, true) ==> s[k] == on_e)
            &&& (event_matches(s[k], id, false) ==> s[k] == off_e)
        }
}

proof fn lemma_insert_canonical(
    s: Seq<TaggedEvent<SynthEvent>>,
    x: TaggedEvent<SynthEvent>,
    id: usize,
    on_e: TaggedEvent<SynthEvent>,
    off_e: TaggedEvent<SynthEvent>,
)
    requires
        canonical_for(s, id, on_e, off_e),
        event_matches(x, id, true) ==> x == on_e,
        event_matches(x, id, false) ==> x == off_e,
    ensures
        canonical_for(sorted_insert(s, x), id, on_e, off_e),
    decreases s.len(),
{
    if s.len() > 0 && s.last().tag > x.tag {
        assert(canonical_for(s.drop_last(), id, on_e, off_e)) by {
            assert(forall|k: int| 0 <= k < s.len() - 1 ==> s.drop_last()[k] == s[k]);
        }
        lemma_insert_canonical(s.drop_last(), x, id, on_e, off_e);
        let r = sorted_insert(s.drop_last(), x).push(s.last());
        assert forall|k: int| 0 <= k < r.len() implies {
            &&& (event_matches(#[trigger] r[k], id, true) ==> r[k] == on_e)
            &&& (event_matches(r[k], id, false) ==> r[k] == off_e)
        } by {
            if k < r.len() - 1 {
                assert(r[k] == sorted_insert(s.drop_last(), x)[k]);
            } else {
                assert(r[k] == s.last());
                assert(s.last() == s[s.len() - 1]);
            }
        }
    } else {
        let r = s.push(x);
        assert forall|k: int| 0 <= k < r.len() implies {
            &&& (event_matches(#[trigger] r[k], id, true) ==> r[k] == on_e)
            &&& (event_matches(r[k], id, false) ==> r[k] == off_e)
        } by {
            if k < r.len() - 1 {
                assert(r[k] == s[k]);
            } else {
                assert(r[k] == x);
            }
        }
    }
}

proof fn lemma_sort_canonical(
    s: Seq<TaggedEvent<SynthEvent>>,
    id: usize,
    on_e: TaggedEvent<SynthEvent>,
    off_e: TaggedEvent<SynthEvent>,
)
    requires
        canonical_for(s, id, on_e, off_e),
    ensures
        canonical_for(sort_by_tag(s), id, on_e, off_e),
    decreases s.len(),
{
    if s.len() > 0 {
        assert(canonical_for(s.drop_last(), id, on_e, off_e)) by {
            assert(forall|k: int| 0 <= k < s.len() - 1 ==> s.drop_last()[k] == s[k]);
        }
        lemma_sort_canonical(s.drop_last(), id, on_e, off_e);
        lemma_insert_canonical(sort_by_tag(s.drop_last()), s.last(), id, on_e, off_e);
        assert(s.last() == s[s.len() - 1]);
    }
}

proof fn lemma_insert_tag_bound(s: Seq<TaggedEvent<SynthEvent>>, x: TaggedEvent<SynthEvent>, b: u64)
    requires
        forall|k: int| 0 <= k < s.len() ==> (#[trigger] s[k].tag) <= b,
        x.tag <= b,
    ensures
        forall|k: int|
            0 <= k < sorted_insert(s, x).len() ==> (#[trigger] sorted_insert(s, x)[k].tag) <= b,
    decreases s.len(),
{
    if s.len() > 0 && s.last().tag > x.tag {
        assert(forall|k: int| 0 <= k < s.len() - 1 ==> (#[trigger] s.drop_last()[k].tag) <= b);
        lemma_insert_tag_bound(s.drop_last(), x, b);
        let r = sorted_insert(s.drop_last(), x).push(s.last());
        assert forall|k: int| 0 <= k < r.len() implies (#[trigger] r[k].tag) <= b by {
            if k < r.len() - 1 {
                assert(r[k] == sorted_insert(s.drop_last(), x)[k]);
            } else {
                assert(r[k] == s[s.len() - 1]);
            }
        }
    } else {
        let r = s.push(x);
        assert forall|k: int| 0 <= k < r.len() implies (#[trigger] r[k].tag) <= b by {
            if k < r.len() - 1 {
                assert(r[k] == s[k]);
            }
        }
    }
}

proof fn lemma_insert_sorted(s: Seq<TaggedEvent<SynthEvent>>, x: TaggedEvent<SynthEvent>)
    requires
        sorted_by_tag(s),
    ensures
        sorted_by_tag(sorted_insert(s, x)),
    decreases s.len(),
{
    if s.len() > 0 && s.last().tag > x.tag {
        let d = s.drop_last();
        assert(sorted_by_tag(d)) by {
            assert(forall|k: int| 0 <= k < d.len() ==> d[k] == s[k]);
        }
        lemma_insert_sorted(d, x);
        assert(forall|k: int| 0 <= k < d.len() ==> (#[trigger] d[k].tag) <= s.last().tag);
        lemma_insert_tag_bound(d, x, s.last().tag);
        let r = sorted_insert(d, x).push(s.last());
        assert forall|i: int, j: int| 0 <= i <= j < r.len() implies r[i].tag <= r[j].tag by {
            if j < r.len() - 1 {
                assert(r[i] == sorted_insert(d, x)[i] && r[j] == sorted_insert(d, x)[j]);
            } else if i < r.len() - 1 {
                assert(r[i] == sorted_insert(d, x)[i]);
                assert(r[i].tag <= s.last().tag);
            }
        }
    } else {
        let r = s.push(x);
        assert forall|i: int, j: int| 0 <= i <= j < r.len() implies r[i].tag <= r[j].tag by {
            if j < r.len() - 1 {
                assert(r[i] == s[i] && r[j] == s[j]);
            } else if i < r.len() - 1 {
                assert(r[i] == s[i]);
                if s.len() > 0 {
                    assert(s[i].tag <= s[s.len() - 1].tag);
                }
            }
        }
    }
}

proof fn lemma_sort_sorted(s: Seq<TaggedEvent<SynthEvent>>)
    ensures
        sorted_by_tag(sort_by_tag(s)),
    decreases s.len(),
{
    if s.len() > 0 {
        lemma_sort_sorted(s.drop_last());
        lemma_insert_sorted(sort_by_tag(s.drop_last()), s.last());
    }
}

proof fn lemma_insert_len(s: Seq<TaggedEvent<SynthEvent>>, x: TaggedEvent<SynthEvent>)
    ensures
        sorted_insert(s, x).len() == s.len() + 1,
    decreases s.len(),
{
    if s.len() > 0 && s.last().tag > x.tag {
        lemma_insert_len(s.drop_last(), x);
    }
}

proof fn lemma_sort_len(s: Seq<TaggedEvent<SynthEvent>>)
    ensures
        sort_by_tag(s).len() == s.len(),
    decreases s.len(),
{
    if s.len() > 0 {
        lemma_sort_len(s.drop_last());
        lemma_insert_len(sort_by_tag(s.drop_last()), s.last());
    }
}

proof fn lemma_emitted_len(notes: Seq<Note>, j: int, sample_rate: int, start_tag: int)
    requires
        0 <= j,
    ensures
        emitted(notes, j, sample_rate, start_tag).len() == 2 * j,
    decreases j,
{
    if j > 0 {
        lemma_emitted_len(notes, j - 1, sample_rate, start_tag);
    }
}

proof fn lemma_emitted_count(
    notes: Seq<Note>,
    j: int,
    sample_rate: int,
    start_tag: int,
    id: usize,
    on: bool,
)
    requires
        0 <= j <= notes.len(),
        notes.len() <= usize::MAX,
    ensures
        count_events(emitted(notes, j, sample_rate, start_tag), id, on) == (if (id as int) < j {
            1nat
        } else {
            0nat
        }),
    decreases j,
{
    if j > 0 {
        lemma_emitted_count(notes, j - 1, sample_rate, start_tag, id, on);
        let prev = emitted(notes, j - 1, sample_rate, start_tag);
        let e1 = on_event(notes[j - 1], j - 1, sample_rate, start_tag);
        let e2 = off_event(notes[j - 1], j - 1, sample_rate, start_tag);
        assert(emitted(notes, j, sample_rate, start_tag) =~= prev.push(e1).push(e2));
        lemma_count_push(prev, e1, id, on);
        lemma_count_push(prev.push(e1), e2, id, on);
    }
}

proof fn lemma_emitted_canonical(
    notes: Seq<Note>,
    j: int,
    sample_rate: int,
    start_tag: int,
    id: usize,
)
    requires
        0 <= j <= notes.len(),
        notes.len() <= usize::MAX,
        (id as int) < notes.len(),
    ensures
        canonical_for(
            emitted(notes, j, sample_rate, start_tag),
            id,
            on_event(notes[id as int], id as int, sample_rate, start_tag),
            off_event(notes[id as int], id as int, sample_rate, start_tag),
        ),
    decreases j,
{
    if j > 0 {
        lemma_emitted_canonical(notes, j - 1, sample_rate, start_tag, id);
        let prev = emitted(notes, j - 1, sample_rate, start_tag);
        let e1 = on_event(notes[j - 1], j - 1, sample_rate, start_tag);
        let e2 = off_event(notes[j - 1], j - 1, sample_rate, start_tag);
        let cur = emitted(notes, j, sample_rate, start_tag);
        assert(cur =~= prev.push(e1).push(e2));
        assert forall|k: int| 0 <= k < cur.len() implies {
            &&& (event_matches(
                #[trigger] cur[k],
                id,
                true,
            ) ==> cur[k] == on_event(notes[id as int], id as int, sample_rate, start_tag))
            &&& (event_matches(cur[k], id, false) ==> cur[k] == off_event(
                notes[id as int],
                id as int,
                sample_rate,
                start_tag,
            ))
        } by {
            if k < cur.len() - 2 {
                assert(cur[k] == prev[k]);
            }
        }
    }
}

/// With at least one whole sample period of duration, a note ends at a
/// strictly later sample than it starts.
proof fn lemma_tags_strict(n: Note, sample_rate: int, start_tag: int)
    requires
        sample_rate >= 1,
        n.duration_ms * sample_rate >= 1000,
    ensures
        on_tag(n, sample_rate, start_tag) + 1 <= off_tag(n, sample_rate, start_tag),
{
    let s = n.start_ms as int;
    let d = n.duration_ms as int;
    assert((s + d) * sample_rate == s * sample_rate + d * sample_rate) by (nonlinear_arith);
    vstd::arithmetic::div_mod::lemma_div_plus_one(s * sample_rate + 500, 1000);
    vstd::arithmetic::div_mod::lemma_div_is_ordered(
        s * sample_rate + 500 + 1000,
        (s + d) * sample_rate + 500,
        1000,
    );
}

/// Law: a compiled queue's tags never decrease along the queue, and its
/// length is exactly two events for every note of the melody.
pub proof fn lemma_compiled_shape(m: Melody, sample_rate: int, start_tag: int)
    ensures
        sorted_by_tag(compiled(m, sample_rate, start_tag)),
        compiled(m, sample_rate, start_tag).len() == 2 * m.notes@.len(),
{
    let e = emitted(m.notes@, m.notes@.len() as int, sample_rate, start_tag);
    lemma_emitted_len(m.notes@, m.notes@.len() as int, sample_rate, start_tag);
    lemma_sort_len(e);
    lemma_sort_sorted(e);
}

/// Law: every note contributes exactly one start and exactly one release
/// to the compiled queue.
pub proof fn lemma_compiled_pairing(m: Melody, sample_rate: int, start_tag: int, id: usize)
    requires
        (id as int) < m.notes@.len(),
    ensures
        count_events(compiled(m, sample_rate, start_tag), id, true) == 1,
        count_events(compiled(m, sample_rate, start_tag), id, false) == 1,
{
    let notes = m.notes@;
    let n = notes.len() as int;
    assert(m.notes@.len() == m.notes.len());
    let e = emitted(notes, n, sample_rate, start_tag);
    lemma_emitted_count(notes, n, sample_rate, start_tag, id, true);
    lemma_emitted_count(notes, n, sample_rate, start_tag, id, false);
    lemma_sort_count(e, id, true);
    lemma_sort_count(e, id, false);
}

/// Law: when a note lasts at least one sample period, its start stands
/// strictly before its release in the compiled queue, at a strictly
/// smaller tag.
pub proof fn lemma_compiled_on_before_off(m: Melody, sample_rate: int, start_tag: int, id: usize)
    requires
        (id as int) < m.notes@.len(),
        sample_rate >= 1,
        note_fits(m.notes@[id as int], sample_rate, start_tag),
        m.notes@[id as int].duration_ms * sample_rate >= 1000,
    ensures
        ({
            let q = compiled(m, sample_rate, start_tag);
            forall|a: int, b: int|
                0 <= a < q.len() && 0 <= b < q.len() && event_matches(#[trigger] q[a], id, true)
                    && event_matches(#[trigger] q[b], id, false) ==> a < b && q[a].tag < q[b].tag
        }),
{
    let notes = m.notes@;
    let n = notes.len() as int;
    assert(m.notes@.len() == m.notes.len());
    let e = emitted(notes, n, sample_rate, start_tag);
    let q = compiled(m, sample_rate, start_tag);
    let on_e = on_event(notes[id as int], id as int, sample_rate, start_tag);
    let off_e = off_event(notes[id as int], id as int, sample_rate, start_tag);
    lemma_emitted_canonical(notes, n, sample_rate, start_tag, id);
    lemma_sort_canonical(e, id, on_e, off_e);
    lemma_sort_sorted(e);
    lemma_tags_strict(notes[id as int], sample_rate, start_tag);
    assert(on_e.tag < off_e.tag);
    assert forall|a: int, b: int|
        0 <= a < q.len() && 0 <= b < q.len() && event_matches(#[trigger] q[a], id, true)
            && event_matches(#[trigger] q[b], id, false) implies a < b && q[a].tag < q[b].tag by {
        assert(q[a] == on_e);
        assert(q[b] == off_e);
        if b <= a {
            assert(q[b].tag <= q[a].tag);
        }
    }
}

/// Law: compilation is deterministic. Two melodies holding the same notes
/// compile to the same queue for the same sample rate and start tag, so
/// compiling twice yields identical queues.
pub proof fn lemma_compile_deterministic(m1: Melody, m2: Melody, sample_rate: int, start_tag: int)
    requires
        m1.notes@ == m2.notes@,
    ensures
        compiled(m1, sample_rate, start_tag) == compiled(m2, sample_rate, start_tag),
{
}

} // verus!
