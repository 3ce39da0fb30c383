//! Events: the clicks of all sub bands that start in the same step.

use crate::band::{Run, STEP};
use std::collections::VecDeque;
use vstd::prelude::*;

verus! {

/// Number of sub bands the analysed range is split into.
pub const BAND_COUNT: usize = 10;

/// Length of the fade in and fade out of every correction in samples: 5 ms at
/// 44100 Hz.
pub const CROSSFADE: u64 = 220;

/// One detected event: all the clicks that start in the same step.
///
/// The per band results are kept in a fixed size array instead of a list, so
/// an event needs no allocation and the bands are naturally ordered by
/// increasing frequency - the order in which the repair filters are applied.
#[derive(Clone, Copy)]
pub struct Event {
    pub start_step: u64,
    /// Length of the event in steps: the longest of the runs that formed it.
    pub steps: u32,
    /// Peak level per band, or 0 for bands that did not fire.
    pub levels: [u32; BAND_COUNT],
}

/// One correction to be applied: the excerpt to filter, and how loud it is in
/// each band.
#[derive(Clone, Copy)]
pub struct Repair {
    /// Absolute index of the first sample of the excerpt.
    pub start: u64,
    /// One past the last sample of the excerpt.
    pub end: u64,
    /// Peak level per band, or 0 for bands that did not fire.
    pub levels: [u32; BAND_COUNT],
}

/// `a - b`, but not below zero.
pub open spec fn less(a: int, b: int) -> int {
    if a < b {
        0
    } else {
        a - b
    }
}

/// `levels` with `level` merged into the entry of `band`.
pub open spec fn with_level(levels: [u32; BAND_COUNT], band: int, level: u32) -> [u32; BAND_COUNT] {
    vstd::array::spec_array_update(levels, band, crate::band::louder(levels@[band], level))
}

impl Event {
    /// An event at `step` in which no band has fired.
    pub open spec fn blank(step: u64) -> Event {
        Event { start_step: step, steps: 0, levels: [0u32; BAND_COUNT] }
    }

    /// The event with the click `run` of `band` added to it.
    pub open spec fn with_click(self, band: int, run: Run) -> Event {
        Event {
            start_step: self.start_step,
            steps: if self.steps < run.steps {
                run.steps
            } else {
                self.steps
            },
            levels: with_level(self.levels, band, run.peak),
        }
    }

    /// One past the last step of the event.
    pub open spec fn end_step(self) -> int {
        self.start_step + self.steps
    }

    /// First sample of the event, including the crossfade.
    pub open spec fn span_start(self) -> int {
        less(self.start_step * STEP, CROSSFADE as int)
    }

    /// One past the last sample of the event, including the crossfade.
    pub open spec fn span_end(self) -> int {
        self.start_step * STEP + self.steps * STEP + CROSSFADE
    }

    /// Sample range covered by an event, including the crossfades.
    pub fn span(&self) -> (range: (u64, u64))
        requires
            self.span_end() <= u64::MAX,
        ensures
            range.0 == self.span_start(),
            range.1 == self.span_end(),
    {
        let start_sample = self.start_step * STEP;
        let start = start_sample.saturating_sub(CROSSFADE);
        let end = start_sample + self.steps as u64 * STEP + CROSSFADE;
        (start, end)
    }
}

/// Events come in the order of their starts, at most one per step.
pub open spec fn in_order(events: Seq<Event>) -> bool {
    forall|i: int, j: int|
        0 <= i < j < events.len() ==> (#[trigger] events[i]).start_step < (
        #[trigger] events[j]).start_step
}

/// How many of `events`, which are in order, start before `step`.
pub open spec fn place(events: Seq<Event>, step: u64) -> nat
    decreases events.len(),
{
    if events.len() == 0 {
        0
    } else if events.last().start_step < step {
        events.len()
    } else {
        place(events.drop_last(), step)
    }
}

/// `events` with the click `run` of `band` merged into the event that starts
/// at the same step, or into a new one.
pub open spec fn recorded(events: Seq<Event>, band: int, run: Run) -> Seq<Event> {
    let at = place(events, run.start_step) as int;
    if at < events.len() && events[at].start_step == run.start_step {
        events.update(at, events[at].with_click(band, run))
    } else {
        events.insert(at, Event::blank(run.start_step).with_click(band, run))
    }
}

/// `group` with `event` inserted where its start belongs.
pub open spec fn joined(group: Seq<Event>, event: Event) -> Seq<Event> {
    group.insert(place(group, event.start_step) as int, event)
}

/// Everything before `place` starts earlier, everything from there on does
/// not.
pub proof fn lemma_place(events: Seq<Event>, step: u64)
    requires
        in_order(events),
    ensures
        place(events, step) <= events.len(),
        forall|i: int|
            0 <= i < place(events, step) ==> (#[trigger] events[i]).start_step < step,
        forall|i: int|
            place(events, step) <= i < events.len() ==> (#[trigger] events[i]).start_step >= step,
    decreases events.len(),
{
    if events.len() > 0 && events.last().start_step >= step {
        let shorter = events.drop_last();
        lemma_place(shorter, step);
        assert forall|i: int| 0 <= i < place(events, step) implies (
        #[trigger] events[i]).start_step < step by {
            assert(events[i] == shorter[i]);
        }
        assert forall|i: int| place(events, step) <= i < events.len() implies (
        #[trigger] events[i]).start_step >= step by {
            if i < shorter.len() {
                assert(events[i] == shorter[i]);
            }
        }
    } else if events.len() > 0 {
        assert forall|i: int| 0 <= i < events.len() implies (#[trigger] events[i]).start_step
            < step by {
            if i < events.len() - 1 {
                assert(events[i].start_step < events[events.len() - 1].start_step);
            }
        }
    }
}

/// The one position that splits `events` at `step` is `place`.
proof fn lemma_place_is(events: Seq<Event>, step: u64, at: int)
    requires
        in_order(events),
        0 <= at <= events.len(),
        at > 0 ==> events[at - 1].start_step < step,
        at < events.len() ==> events[at].start_step >= step,
    ensures
        place(events, step) == at,
{
    lemma_place(events, step);
    let found = place(events, step) as int;
    if found < at {
        assert(events[found].start_step >= step);
        if found < at - 1 {
            assert(events[found].start_step < events[at - 1].start_step);
        }
    }
    if at < found {
        assert(events[at].start_step < step);
    }
}

/// Merges a finished run into the event that starts at the same step.
pub fn record_click(events: &mut VecDeque<Event>, band: usize, run: Run)
    requires
        in_order(old(events)@),
        band < BAND_COUNT,
    ensures
        final(events)@ == recorded(old(events)@, band as int, run),
{
    // Runs finish out of order (bands have different filter delays and
    // different run lengths), so the queue is kept sorted by start step.
    // Searching from the back is cheap because a new click almost always
    // belongs to one of the most recent events.
    let mut position: usize = events.len();
    while position > 0 && events[position - 1].start_step > run.start_step
        invariant
            position <= events@.len(),
            events@ == old(events)@,
            in_order(events@),
            forall|i: int|
                position <= i < events@.len() ==> (#[trigger] events@[i]).start_step
                    > run.start_step,
        decreases position,
    {
        position = position - 1;
    }

    if position > 0 && events[position - 1].start_step == run.start_step {
        let at = position - 1;
        proof {
            if at > 0 {
                assert(events@[at - 1].start_step < events@[at as int].start_step);
            }
            lemma_place_is(events@, run.start_step, at as int);
        }
        let mut event = events[at];
        if event.steps < run.steps {
            event.steps = run.steps;
        }
        if event.levels[band] < run.peak {
            event.levels[band] = run.peak;
        }
        proof {
            let merged = events@[at as int].with_click(band as int, run);
            assert(event.levels@ =~= merged.levels@);
            assert(event.levels =~= merged.levels);
            assert(event == merged);
        }
        let _ = events.remove(at);
        events.insert(at, event);
        assert(events@ =~= recorded(old(events)@, band as int, run));
    } else {
        proof {
            lemma_place_is(events@, run.start_step, position as int);
        }
        let mut event = Event { start_step: run.start_step, steps: run.steps, levels: [0;
            BAND_COUNT] };
        event.levels[band] = run.peak;
        proof {
            let fresh = Event::blank(run.start_step).with_click(band as int, run);
            assert(event.levels@ =~= fresh.levels@);
            assert(event.levels =~= fresh.levels);
            assert(event == fresh);
        }
        events.insert(position, event);
    }
}

/// Inserts a released event into a group where its start belongs.
pub fn join_group(group: &mut Vec<Event>, event: Event)
    requires
        in_order(old(group)@),
    ensures
        final(group)@ == joined(old(group)@, event),
{
    let mut position: usize = group.len();
    while position > 0 && group[position - 1].start_step >= event.start_step
        invariant
            position <= group@.len(),
            group@ == old(group)@,
            in_order(group@),
            forall|i: int|
                position <= i < group@.len() ==> (#[trigger] group@[i]).start_step
                    >= event.start_step,
        decreases position,
    {
        position = position - 1;
    }
    proof {
        lemma_place_is(group@, event.start_step, position as int);
    }
    group.insert(position, event);
}

} // verus!
