use vstd::prelude::*;

use crate::melody::sorted_by_tag;
use crate::synth_event::SynthEvent;
use crate::tagged_event::TaggedEvent;

verus! {

/// The bare events of a tagged sequence, in order.
pub open spec fn events_of(s: Seq<TaggedEvent<SynthEvent>>) -> Seq<SynthEvent> {
    s.map_values(|t: TaggedEvent<SynthEvent>| t.event)
}

/// The first position at or after `start` whose event is not yet due at
/// `clock` (an event is due when its tag does not exceed the clock), or
/// the queue's length when everything from `start` on is due.
pub open spec fn first_pending(q: Seq<TaggedEvent<SynthEvent>>, start: int, clock: int) -> int
    decreases q.len() - start,
    when 0 <= start <= q.len()
{
    if start >= q.len() {
        q.len() as int
    } else if q[start].tag <= clock {
        first_pending(q, start + 1, clock)
    } else {
        start
    }
}

/// `first_pending` never passes a position whose event is pending.
proof fn lemma_first_pending_le(q: Seq<TaggedEvent<SynthEvent>>, start: int, clock: int, k: int)
    requires
        0 <= start <= k < q.len(),
        q[k].tag > clock,
    ensures
        first_pending(q, start, clock) <= k,
    decreases k - start,
{
    if start < k && q[start].tag <= clock {
        lemma_first_pending_le(q, start + 1, clock, k);
    }
}

/// The real-time playback state: the compiled queue (read-only but for the
/// traversal), the cursor into it, and the sample clock. The synthesis
/// capability itself lives with the caller, which applies the dispatched
/// events to it; the engine makes every timing decision.
#[derive(Debug)]
pub struct Engine {
    pub queue: Vec<TaggedEvent<SynthEvent>>,
    pub cursor: usize,
    pub clock: u64,
}

impl Engine {
    /// The engine invariant: a non-empty sorted queue whose last event
    /// falls strictly after sample zero (so a frame's dispatch loop always
    /// stops), the cursor inside the queue, and the clock never beyond the
    /// last tag (so it cannot overflow).
    pub open spec fn wf(self) -> bool {
        &&& self.queue.len() >= 1
        &&& self.cursor < self.queue.len()
        &&& sorted_by_tag(self.queue@)
        &&& self.queue@.last().tag >= 1
        &&& self.clock <= self.queue@.last().tag
    }

    /// The events one whole frame dispatches from this state, in order:
    /// everything due at the current clock, and, if that empties the
    /// queue, the schedule restarts at its origin within the same frame
    /// and dispatches whatever is due at sample zero.
    pub open spec fn frame_events(self) -> Seq<SynthEvent> {
        let q = self.queue@;
        let p = first_pending(q, self.cursor as int, self.clock as int);
        if p < q.len() {
            events_of(q.subrange(self.cursor as int, p))
        } else {
            events_of(q.subrange(self.cursor as int, q.len() as int)) + events_of(
                q.subrange(0, first_pending(q, 0, 0)),
            )
        }
    }

    /// Where the cursor stands after one whole frame.
    pub open spec fn frame_cursor(self) -> int {
        let q = self.queue@;
        let p = first_pending(q, self.cursor as int, self.clock as int);
        if p < q.len() {
            p
        } else {
            first_pending(q, 0, 0)
        }
    }

    /// The clock after one whole frame: one more sample, from zero again
    /// if the frame wrapped.
    pub open spec fn frame_clock(self) -> int {
        let q = self.queue@;
        let p = first_pending(q, self.cursor as int, self.clock as int);
        if p < q.len() {
            self.clock + 1
        } else {
            1
        }
    }

    /// Builds an engine at the schedule's origin. The state is meant to
    /// move wholesale into the audio callback's exclusive ownership before
    /// the device starts.
    pub fn new(queue: Vec<TaggedEvent<SynthEvent>>) -> (e: Engine)
        requires
            queue.len() >= 1,
            sorted_by_tag(queue@),
            queue@.last().tag >= 1,
        ensures
            e.queue == queue,
            e.cursor == 0,
            e.clock == 0,
            e.wf(),
    {
        Engine { queue, cursor: 0, clock: 0 }
    }

    /// Dispatches the next due event, if one is due at the current clock:
    /// hands it out, advances the cursor, and on reaching the queue's end
    /// resets both cursor and clock to zero, restarting the whole schedule
    /// from its origin (the seamless loop, silence gap included).
    pub fn dispatch_one(&mut self) -> (ev: Option<SynthEvent>)
        requires
            old(self).wf(),
        ensures
            final(self).wf(),
            final(self).queue == old(self).queue,
            ({
                let o = *old(self);
                if o.queue@[o.cursor as int].tag <= o.clock {
                    &&& ev == Some(o.queue@[o.cursor as int].event)
                    &&& (if o.cursor + 1 == o.queue.len() {
                        final(self).cursor == 0 && final(self).clock == 0
                    } else {
                        final(self).cursor == o.cursor + 1 && final(self).clock == o.clock
                    })
                } else {
                    ev is None && *final(self) == o
                }
            }),
    {
        if self.queue[self.cursor].tag <= self.clock {
            let ev = self.queue[self.cursor].event;
            self.cursor = self.cursor + 1;
            if self.cursor >= self.queue.len() {
                self.cursor = 0;
                self.clock = 0;
            }
            Some(ev)
        } else {
            None
        }
    }

    /// Ends a frame once nothing more is due: exactly one stereo pair was
    /// produced, so the clock advances by exactly one sample.
    pub fn tick(&mut self)
        requires
            old(self).wf(),
            old(self).queue@[old(self).cursor as int].tag > old(self).clock,
        ensures
            final(self).wf(),
            final(self).queue == old(self).queue,
            final(self).cursor == old(self).cursor,
            final(self).clock == old(self).clock + 1,
    {
        proof {
            assert(self.queue@[self.cursor as int].tag <= self.queue@.last().tag);
        }
        self.clock = self.clock + 1;
    }

    /// Runs one whole frame's dispatch phase and ends the frame: returns
    /// every event due this frame, in dispatch order, and leaves the state
    /// exactly as the frame semantics say. The caller applies the events
    /// to its synthesis capability and then produces the stereo pair.
    pub fn advance_frame(&mut self) -> (evs: Vec<SynthEvent>)
        requires
            old(self).wf(),
        ensures
            final(self).wf(),
            final(self).queue == old(self).queue,
            evs@ == old(self).frame_events(),
            final(self).cursor == old(self).frame_cursor(),
            final(self).clock == old(self).frame_clock(),
    {
        let ghost o = *self;
        let ghost q = self.queue@;
        let mut evs: Vec<SynthEvent> = Vec::new();
        let ghost mut wrapped = false;
        proof {
            assert(q.subrange(o.cursor as int, o.cursor as int) =~= Seq::empty());
            assert(events_of(Seq::empty()) =~= Seq::<SynthEvent>::empty());
        }
        while self.queue[self.cursor].tag <= self.clock
            invariant
                self.wf(),
                self.queue == o.queue,
                self.queue@ == q,
                o.wf(),
                o.queue@ == q,
                !wrapped ==> {
                    &&& self.clock == o.clock
                    &&& o.cursor <= self.cursor
                    &&& evs@ == events_of(q.subrange(o.cursor as int, self.cursor as int))
                    &&& first_pending(q, o.cursor as int, o.clock as int) == first_pending(
                        q,
                        self.cursor as int,
                        self.clock as int,
                    )
                },
                wrapped ==> {
                    &&& self.clock == 0
                    &&& first_pending(q, o.cursor as int, o.clock as int) == q.len()
                    &&& evs@ == events_of(q.subrange(o.cursor as int, q.len() as int))
                        + events_of(q.subrange(0, self.cursor as int))
                    &&& first_pending(q, 0, 0) == first_pending(q, self.cursor as int, 0)
                },
            decreases (if wrapped {
                q.len() - self.cursor
            } else {
                2 * q.len() - self.cursor
            }),
        {
            let ghost pre = *self;
            let ghost pre_wrapped = wrapped;
            let ev = self.queue[self.cursor].event;
            evs.push(ev);
            self.cursor = self.cursor + 1;
            if self.cursor >= self.queue.len() {
                self.cursor = 0;
                self.clock = 0;
                proof {
                    wrapped = true;
                }
            }
            proof {
                assert(first_pending(q, pre.cursor as int, pre.clock as int) == first_pending(
                    q,
                    pre.cursor as int + 1,
                    pre.clock as int,
                ));
                if pre_wrapped {
                    if pre.cursor as int + 1 == q.len() {
                        assert(q[pre.cursor as int].tag <= 0);
                        assert(q[pre.cursor as int].tag == q.last().tag);
                        assert(false);
                    }
                    assert(evs@ =~= events_of(q.subrange(o.cursor as int, q.len() as int))
                        + events_of(q.subrange(0, self.cursor as int))) by {
                        assert(q.subrange(0, pre.cursor as int + 1) =~= q.subrange(
                            0,
                            pre.cursor as int,
                        ).push(q[pre.cursor as int]));
                    }
                } else if !wrapped {
                    assert(evs@ =~= events_of(q.subrange(o.cursor as int, self.cursor as int)))
                        by {
                        assert(q.subrange(o.cursor as int, pre.cursor as int + 1) =~= q.subrange(
                            o.cursor as int,
                            pre.cursor as int,
                        ).push(q[pre.cursor as int]));
                    }
                } else {
                    assert(pre.cursor as int + 1 == q.len());
                    assert(evs@ =~= events_of(q.subrange(o.cursor as int, q.len() as int))
                        + events_of(q.subrange(0, 0))) by {
                        assert(q.subrange(o.cursor as int, pre.cursor as int + 1) =~= q.subrange(
                            o.cursor as int,
                            pre.cursor as int,
                        ).push(q[pre.cursor as int]));
                        assert(q.subrange(0, 0) =~= Seq::<TaggedEvent<SynthEvent>>::empty());
                    }
                }
            }
        }
        proof {
            let p = first_pending(q, o.cursor as int, o.clock as int);
            if !wrapped {
                assert(first_pending(q, self.cursor as int, self.clock as int)
                    == self.cursor as int);
                assert(p == self.cursor as int);
                assert(p < q.len());
            } else {
                assert(first_pending(q, self.cursor as int, 0) == self.cursor as int);
                assert(first_pending(q, 0, 0) == self.cursor as int);
            }
        }
        self.tick();
        evs
    }
}

/// Law: a frame that wraps ends in exactly the state a fresh engine on the
/// same queue reaches after its very first frame, and what it dispatches
/// after the wrap is exactly that first frame's dispatch. The loop
/// therefore replays the schedule from its origin, bit for bit, silence
/// gap included.
pub proof fn lemma_wrap_replays_schedule(e: Engine, fresh: Engine)
    requires
        e.wf(),
        fresh.wf(),
        fresh.queue@ == e.queue@,
        fresh.cursor == 0,
        fresh.clock == 0,
        first_pending(e.queue@, e.cursor as int, e.clock as int) == e.queue@.len(),
    ensures
        e.frame_cursor() == fresh.frame_cursor(),
        e.frame_clock() == fresh.frame_clock(),
        e.frame_events() == events_of(
            e.queue@.subrange(e.cursor as int, e.queue@.len() as int),
        ) + fresh.frame_events(),
{
    let q = e.queue@;
    lemma_first_pending_le(q, 0, 0, q.len() - 1);
    assert(first_pending(q, 0, 0) < q.len());
}

/// Checks that a compiled queue can drive the looping engine: non-empty,
/// sorted ascending by tag, and with its last event strictly after sample
/// zero, so that a frame's dispatch loop always stops.
pub fn queue_is_playable(q: &Vec<TaggedEvent<SynthEvent>>) -> (b: bool)
    ensures
        b == (q.len() >= 1 && sorted_by_tag(q@) && q@.last().tag >= 1),
{
    if q.len() == 0 {
        return false;
    }
    if q[q.len() - 1].tag == 0 {
        return false;
    }
    let mut i: usize = 0;
    while i < q.len()
        invariant
            0 <= i <= q.len(),
            forall|k: int| 0 <= k < i && k + 1 < q.len() ==> (#[trigger] q@[k].tag) <= q@[k
                + 1].tag,
        decreases q.len() - i,
    {
        if i + 1 < q.len() {
            if q[i].tag > q[i + 1].tag {
                return false;
            }
        }
        i += 1;
    }
    proof {
        lemma_sorted_from_adjacent_tags(q@);
    }
    true
}

/// A queue whose adjacent tags are ordered is ordered as a whole.
proof fn lemma_sorted_from_adjacent_tags(s: Seq<TaggedEvent<SynthEvent>>)
    requires
        forall|k: int| 0 <= k && k + 1 < s.len() ==> (#[trigger] s[k].tag) <= s[k + 1].tag,
    ensures
        sorted_by_tag(s),
{
    assert forall|i: int, j: int| 0 <= i <= j < s.len() implies s[i].tag <= s[j].tag by {
        lemma_tag_le_chain(s, i, j);
    }
}

/// Chains adjacent tag orderedness from `i` up to `j`.
proof fn lemma_tag_le_chain(s: Seq<TaggedEvent<SynthEvent>>, i: int, j: int)
    requires
        forall|k: int| 0 <= k && k + 1 < s.len() ==> (#[trigger] s[k].tag) <= s[k + 1].tag,
        0 <= i <= j < s.len(),
    ensures
        s[i].tag <= s[j].tag,
    decreases j - i,
{
    if i < j {
        lemma_tag_le_chain(s, i + 1, j);
        assert(s[i].tag <= s[i + 1].tag);
    }
}

} // verus!
