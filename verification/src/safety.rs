//! What always holds of a [`Schedule`]: no correction ever reaches a sample
//! that has been handed out, and the samples that are held back always fit
//! into the ring buffer.

use crate::band::{Band, Run, MAX_RUN_STEPS, STEP};
use crate::event::{Event, Repair, BAND_COUNT, CROSSFADE};
use crate::schedule::{
    Schedule, MAX_EXCERPT, MAX_GROUP_SAMPLES, MAX_LATENCY, MAX_SAMPLES, RING_CAPACITY,
};
use vstd::prelude::*;

verus! {

/// `repair` is the correction of `event`: it covers all its steps, as far as
/// there are samples, and does not reach beyond the crossfades around them.
pub open spec fn fits(repair: Repair, event: Event, written: nat) -> bool {
    &&& repair.start == event.span_start()
    &&& crate::schedule::smaller(event.end_step() * STEP, written as int) <= repair.end
    &&& repair.end <= event.span_end()
    &&& repair.levels == event.levels
}

impl Schedule {
    /// A correction that starts with step `step` cannot reach a sample that
    /// has been handed out.
    pub open spec fn not_too_late(self, step: int) -> bool {
        self.emitted <= crate::event::less(step * STEP, CROSSFADE as int)
    }

    /// A run that is made of steps that have been heard, and is not too late to
    /// be repaired.
    pub open spec fn run_ok(self, run: Run) -> bool {
        &&& 1 <= run.steps <= MAX_RUN_STEPS
        &&& run.end_step() * STEP <= self.horizon()
        &&& self.not_too_late(run.start_step as int)
    }

    /// The state of a band agrees with what it has heard, and neither its open
    /// run nor a run that it may still open is too late to be repaired.
    pub open spec fn band_ok(self, i: int) -> bool {
        let band = self.bands[i];
        let latency = self.latencies[i] as int;
        let heard = self.heard[i].len() as int;
        &&& band.wf(self.threshold)
        &&& band.warmup == crate::event::less(latency, heard)
        &&& band.position() == crate::event::less(heard, latency)
        &&& heard <= self.horizon() + latency
        &&& band.run matches Some(run) ==> self.not_too_late(run.start_step as int)
        &&& !self.done ==> self.not_too_late(band.steps_done as int)
    }

    pub open spec fn bands_ok(self) -> bool {
        &&& self.bands.len() == BAND_COUNT
        &&& self.heard.len() == BAND_COUNT
        &&& self.clicks.len() == BAND_COUNT
        &&& self.latencies.len() == BAND_COUNT
        &&& forall|i: int| #![trigger self.latencies[i]]
            0 <= i < BAND_COUNT ==> self.latencies[i] <= MAX_LATENCY
        &&& forall|i: int| #![trigger self.bands[i]] 0 <= i < BAND_COUNT ==> self.band_ok(i)
    }

    /// An event that is made of steps that have been heard, and is not too late
    /// to be repaired.
    pub open spec fn event_ok(self, event: Event) -> bool {
        &&& 1 <= event.steps <= MAX_RUN_STEPS
        &&& event.end_step() * STEP <= self.horizon()
        &&& self.emitted <= event.span_start()
    }

    pub open spec fn events_ok(self) -> bool {
        &&& crate::event::in_order(self.events)
        &&& forall|i: int| 0 <= i < self.events.len() ==> self.event_ok(#[trigger] self.events[i])
    }

    /// The group lies within its range, which is not too long and has not been
    /// handed out.
    pub open spec fn group_ok(self) -> bool {
        &&& crate::event::in_order(self.group)
        &&& forall|i: int|
            0 <= i < self.group.len() ==> {
                &&& self.event_ok(#[trigger] self.group[i])
                &&& self.group_start <= self.group[i].span_start()
                &&& self.group[i].span_end() <= self.group_end
            }
        &&& self.group.len() > 0 ==> {
            &&& self.emitted <= self.group_start <= self.group_end
            &&& self.group_end <= self.horizon() + CROSSFADE
            &&& self.group_end - self.group_start <= MAX_GROUP_SAMPLES
        }
    }

    /// No band can still produce a click that starts in `step`, and no waiting
    /// event starts there.
    pub open spec fn is_past(self, step: u64) -> bool {
        &&& forall|i: int|
            0 <= i < self.bands.len() ==> {
                &&& step < (#[trigger] self.bands[i]).steps_done
                &&& self.bands[i].run matches Some(run) ==> run.start_step != step
            }
        &&& forall|j: int|
            0 <= j < self.events.len() ==> (#[trigger] self.events[j]).start_step != step
    }

    /// The events that have left the queue are past, and all different.
    pub open spec fn released_ok(self) -> bool {
        &&& forall|i: int|
            0 <= i < self.group.len() ==> self.is_past((#[trigger] self.group[i]).start_step)
        &&& forall|i: int|
            0 <= i < self.closed.len() ==> self.is_past((#[trigger] self.closed[i]).start_step)
        &&& forall|i: int, j: int|
            0 <= i < j < self.closed.len() ==> (#[trigger] self.closed[i]).start_step != (
            #[trigger] self.closed[j]).start_step
        &&& forall|i: int, j: int|
            0 <= i < self.group.len() && 0 <= j < self.closed.len() ==> (
            #[trigger] self.group[i]).start_step != (#[trigger] self.closed[j]).start_step
    }

    /// Repair number `i` is that of its event, which is made of steps that have
    /// been heard, and if it has not been applied yet, it is not too late.
    pub open spec fn repair_ok(self, i: int) -> bool {
        &&& fits(self.repairs[i], self.closed[i], self.written)
        &&& 1 <= self.closed[i].steps <= MAX_RUN_STEPS
        &&& self.closed[i].end_step() * STEP <= self.horizon()
        &&& self.repairs[i].end <= self.written
        &&& i >= self.performed ==> self.emitted <= self.repairs[i].start
    }

    /// Every closed event has its repair; the repairs that have not been
    /// applied yet only reach samples that have not been handed out.
    pub open spec fn repairs_ok(self) -> bool {
        &&& self.repairs.len() == self.closed.len()
        &&& self.performed <= self.repairs.len()
        &&& forall|i: int| #![trigger self.repairs[i]]
            0 <= i < self.repairs.len() ==> self.repair_ok(i)
    }

    /// The samples that have not been handed out fit into the ring buffer.
    pub open spec fn counts_ok(self) -> bool {
        &&& self.written <= MAX_SAMPLES
        &&& self.emitted <= self.written <= self.emitted + RING_CAPACITY
    }

    /// What holds at all times.
    pub open spec fn wf(self) -> bool {
        &&& self.counts_ok()
        &&& self.bands_ok()
        &&& self.events_ok()
        &&& self.group_ok()
        &&& self.released_ok()
        &&& self.repairs_ok()
    }

    /// All bands have heard all samples.
    pub open spec fn in_step(self) -> bool {
        forall|i: int| #![trigger self.heard[i]]
            0 <= i < BAND_COUNT ==> self.heard[i].len() == self.written
    }

    /// Whatever could be decided has been decided: the first waiting event is
    /// not final, and something can still join the group.
    pub open spec fn settled(self) -> bool {
        &&& self.events.len() > 0 ==> !self.event_is_final(self.events[0])
        &&& self.group.len() > 0 ==> self.earliest_future_correction() < self.group_end
    }

    /// What holds between two calls: everything has been decided on the basis
    /// of all samples, or the input has ended and nothing is left to decide.
    pub open spec fn ready(self) -> bool {
        &&& self.wf()
        &&& self.ended == self.done
        &&& if self.done {
            &&& self.events.len() == 0
            &&& self.group.len() == 0
            &&& forall|i: int|
                0 <= i < self.bands.len() ==> (#[trigger] self.bands[i]).run is None
            &&& forall|i: int| #![trigger self.heard[i]]
                0 <= i < BAND_COUNT ==> self.heard[i].len() == crate::schedule::padded(
                    self.written,
                ) + self.latencies[i]
        } else {
            &&& self.in_step()
            &&& self.settled()
        }
    }
}

// ---------------------------------------------------------------------------
// Minima over the bands
// ---------------------------------------------------------------------------

pub proof fn lemma_slowest(bands: Seq<Band>)
    requires
        bands.len() > 0,
    ensures
        forall|i: int|
            0 <= i < bands.len() ==> crate::schedule::slowest(bands) <= (
            #[trigger] bands[i]).steps_done,
        exists|i: int|
            0 <= i < bands.len() && crate::schedule::slowest(bands) == (
            #[trigger] bands[i]).steps_done,
    decreases bands.len(),
{
    if bands.len() > 1 {
        let shorter = bands.drop_last();
        lemma_slowest(shorter);
        let i = choose|i: int|
            0 <= i < shorter.len() && crate::schedule::slowest(shorter) == (
            #[trigger] shorter[i]).steps_done;
        assert(bands[i] == shorter[i]);
        assert(bands[bands.len() - 1] == bands.last());
        assert forall|k: int| 0 <= k < bands.len() implies crate::schedule::slowest(bands) <= (
        #[trigger] bands[k]).steps_done by {
            if k < shorter.len() {
                assert(bands[k] == shorter[k]);
            }
        }
    } else {
        assert(bands[0].steps_done == crate::schedule::slowest(bands));
    }
}

pub proof fn lemma_first_open(bands: Seq<Band>, bound: int)
    ensures
        crate::schedule::first_open(bands, bound) <= bound,
        forall|i: int|
            0 <= i < bands.len() ==> ((#[trigger] bands[i]).run matches Some(run)
                ==> crate::schedule::first_open(bands, bound) <= run.start_step),
        crate::schedule::first_open(bands, bound) == bound || exists|i: int|
            0 <= i < bands.len() && ((#[trigger] bands[i]).run matches Some(run)
                && crate::schedule::first_open(bands, bound) == run.start_step),
    decreases bands.len(),
{
    if bands.len() > 0 {
        let shorter = bands.drop_last();
        lemma_first_open(shorter, bound);
        let first = crate::schedule::first_open(shorter, bound);
        assert(bands[bands.len() - 1] == bands.last());
        assert forall|k: int| 0 <= k < bands.len() implies ((
        #[trigger] bands[k]).run matches Some(run) ==> crate::schedule::first_open(bands, bound)
            <= run.start_step) by {
            if k < shorter.len() {
                assert(bands[k] == shorter[k]);
            }
        }
        if first != bound {
            let i = choose|i: int|
                0 <= i < shorter.len() && ((#[trigger] shorter[i]).run matches Some(run) && first
                    == run.start_step);
            assert(bands[i] == shorter[i]);
        }
    }
}

/// Everything is as it should be before the first sample.
pub proof fn lemma_initial(latencies: Seq<u64>, threshold: u32)
    requires
        latencies.len() == BAND_COUNT,
        forall|i: int| 0 <= i < BAND_COUNT ==> #[trigger] latencies[i] <= MAX_LATENCY,
    ensures
        Schedule::initial(latencies, threshold).ready(),
{
    let s = Schedule::initial(latencies, threshold);
    assert forall|i: int| #![trigger s.bands[i]] 0 <= i < BAND_COUNT implies s.band_ok(i) by {}
    assert(s.bands_ok());
}

// ---------------------------------------------------------------------------
// Detection
// ---------------------------------------------------------------------------

/// The bands stay as they should be while others take their turn.
proof fn lemma_same_bands(s: Schedule, next: Schedule)
    requires
        s.bands_ok(),
        next.bands == s.bands,
        next.heard == s.heard,
        next.latencies == s.latencies,
        next.threshold == s.threshold,
        next.clicks.len() == s.clicks.len(),
        next.emitted == s.emitted,
        s.horizon() <= next.horizon(),
        s.done ==> next.done,
    ensures
        next.bands_ok(),
{
    assert forall|i: int| #![trigger next.bands[i]] 0 <= i < BAND_COUNT implies next.band_ok(
        i,
    ) by {
        assert(s.band_ok(i)) by {
            let _ = s.bands[i];
        }
    }
    assert forall|i: int| #![trigger next.latencies[i]] 0 <= i < BAND_COUNT implies next.latencies[i]
        <= MAX_LATENCY by {
        assert(s.latencies[i] <= MAX_LATENCY);
    }
}

/// A click that is not too late keeps the queue as it should be.
proof fn lemma_recorded(s: Schedule, index: int, run: Run)
    requires
        s.events_ok(),
        s.run_ok(run),
        0 <= index < BAND_COUNT,
    ensures
        s.click(index, run).events_ok(),
        forall|j: int|
            0 <= j < s.click(index, run).events.len() ==> (#[trigger] s.click(
                index,
                run,
            ).events[j]).start_step == run.start_step || exists|k: int|
                0 <= k < s.events.len() && (#[trigger] s.events[k]).start_step == s.click(
                    index,
                    run,
                ).events[j].start_step,
{
    let next = s.click(index, run);
    let at = crate::event::place(s.events, run.start_step) as int;
    crate::event::lemma_place(s.events, run.start_step);
    if at < s.events.len() && s.events[at].start_step == run.start_step {
        assert forall|j: int| 0 <= j < next.events.len() implies s.events[j].start_step == (
        #[trigger] next.events[j]).start_step && next.event_ok(next.events[j]) by {
            if j != at {
                assert(next.events[j] == s.events[j]);
            }
        }
    } else {
        assert forall|j: int| 0 <= j < next.events.len() implies next.event_ok(
            #[trigger] next.events[j],
        ) && (next.events[j].start_step == run.start_step || exists|k: int|
            0 <= k < s.events.len() && (#[trigger] s.events[k]).start_step
                == next.events[j].start_step) by {
            if j < at {
                assert(next.events[j] == s.events[j]);
            } else if j > at {
                assert(next.events[j] == s.events[j - 1]);
            }
        }
        assert forall|i: int, j: int| 0 <= i < j < next.events.len() implies (
        #[trigger] next.events[i]).start_step < (#[trigger] next.events[j]).start_step by {
            if j < at {
                assert(next.events[i] == s.events[i] && next.events[j] == s.events[j]);
            } else if i > at {
                assert(next.events[i] == s.events[i - 1] && next.events[j] == s.events[j - 1]);
            } else if i < at {
                assert(next.events[i] == s.events[i]);
                if j > at {
                    assert(next.events[j] == s.events[j - 1]);
                }
            } else {
                assert(next.events[j] == s.events[j - 1]);
            }
        }
    }
}

/// A click that no released event shares its start with keeps everything as it
/// should be.
proof fn lemma_click(s: Schedule, index: int, run: Run)
    requires
        s.wf(),
        s.run_ok(run),
        0 <= index < BAND_COUNT,
        forall|i: int|
            0 <= i < s.group.len() ==> (#[trigger] s.group[i]).start_step != run.start_step,
        forall|i: int|
            0 <= i < s.closed.len() ==> (#[trigger] s.closed[i]).start_step != run.start_step,
    ensures
        s.click(index, run).wf(),
{
    let next = s.click(index, run);
    lemma_recorded(s, index, run);
    lemma_same_bands(s, next);
    assert forall|step: u64| s.is_past(step) && step != run.start_step implies #[trigger] next.is_past(
        step,
    ) by {
        assert forall|j: int| 0 <= j < next.events.len() implies (
        #[trigger] next.events[j]).start_step != step by {
            if next.events[j].start_step != run.start_step {
                let k = choose|k: int|
                    0 <= k < s.events.len() && (#[trigger] s.events[k]).start_step
                        == next.events[j].start_step;
                assert(s.events[k].start_step != step);
            }
        }
    }
    assert(next.released_ok());
    assert(next.group_ok());
}

/// The repairs stay as they should be while others take their turn, and when
/// more of them have been applied.
proof fn lemma_same_repairs(s: Schedule, next: Schedule)
    requires
        s.repairs_ok(),
        next.repairs == s.repairs,
        next.closed == s.closed,
        s.written == next.written || (!s.ended && s.written <= next.written),
        s.horizon() <= next.horizon(),
        s.performed <= next.performed <= next.repairs.len(),
        next.emitted == s.emitted || next.performed == next.repairs.len(),
    ensures
        next.repairs_ok(),
{
    assert forall|i: int| #![trigger next.repairs[i]] 0 <= i < next.repairs.len() implies next.repair_ok(
        i,
    ) by {
        assert(s.repair_ok(i)) by {
            let _ = s.repairs[i];
        }
    }
}

/// What was found and decided stays as it should be while only the bands
/// change.
proof fn lemma_same_decisions(s: Schedule, next: Schedule)
    requires
        s.counts_ok(),
        s.events_ok(),
        s.group_ok(),
        s.repairs_ok(),
        same_output(s, Schedule { done: s.done, ..next }),
        next.events == s.events,
    ensures
        next.counts_ok(),
        next.events_ok(),
        next.group_ok(),
        next.repairs_ok(),
{
    assert forall|i: int| 0 <= i < next.events.len() implies next.event_ok(
        #[trigger] next.events[i],
    ) by {
        assert(s.event_ok(s.events[i]));
    }
    assert forall|i: int| 0 <= i < next.group.len() implies {
        &&& next.event_ok(#[trigger] next.group[i])
        &&& next.group_start <= next.group[i].span_start()
        &&& next.group[i].span_end() <= next.group_end
    } by {
        assert(s.event_ok(s.group[i]));
    }
    lemma_same_repairs(s, next);
}

/// One more level keeps everything as it should be.
pub proof fn lemma_hear(s: Schedule, index: int, level: u32)
    requires
        s.wf(),
        !s.done,
        0 <= index < BAND_COUNT,
        s.heard[index].len() < s.horizon() + s.latencies[index],
    ensures
        s.hear(index, level).wf(),
{
    let before = s.bands[index];
    let after = before.after(level, s.threshold);
    assert(s.band_ok(index));
    let mid = Schedule {
        heard: s.heard.update(index, s.heard[index].push(level)),
        bands: s.bands.update(index, after),
        ..s
    };
    assert(mid.band_ok(index));
    assert(mid.bands_ok()) by {
        assert forall|i: int| #![trigger mid.bands[i]] 0 <= i < BAND_COUNT implies mid.band_ok(
            i,
        ) by {
            if i != index {
                assert(s.band_ok(i)) by {
                    let _ = s.bands[i];
                }
            }
        }
    }
    assert forall|step: u64| s.is_past(step) implies #[trigger] mid.is_past(step) by {
        assert forall|i: int| 0 <= i < mid.bands.len() implies step < (
        #[trigger] mid.bands[i]).steps_done && (mid.bands[i].run matches Some(run)
            ==> run.start_step != step) by {
            assert(step < s.bands[i].steps_done);
        }
    }
    lemma_same_decisions(s, mid);
    assert(mid.released_ok());
    assert(mid.wf());
    match before.ended(level, s.threshold) {
        Some(run) => {
            assert(mid.run_ok(run));
            assert(before.run matches Some(open) && open.start_step == run.start_step);
            assert forall|i: int| 0 <= i < mid.group.len() implies (
            #[trigger] mid.group[i]).start_step != run.start_step by {
                assert(s.is_past(s.group[i].start_step));
                assert(s.bands[index].steps_done == before.steps_done);
            }
            assert forall|i: int| 0 <= i < mid.closed.len() implies (
            #[trigger] mid.closed[i]).start_step != run.start_step by {
                assert(s.is_past(s.closed[i].start_step));
                assert(s.bands[index].steps_done == before.steps_done);
            }
            lemma_click(mid, index, run);
        },
        None => {},
    }
}

/// A run that ends because the input has ended keeps everything as it should
/// be.
pub proof fn lemma_end_run(s: Schedule, index: int)
    requires
        s.wf(),
        0 <= index < BAND_COUNT,
    ensures
        s.end_run(index).wf(),
{
    match s.bands[index].run {
        Some(run) => {
            let mid = Schedule {
                bands: s.bands.update(index, Band { run: None, ..s.bands[index] }),
                ..s
            };
            assert(s.band_ok(index));
            assert(mid.bands_ok()) by {
                assert forall|i: int| #![trigger mid.bands[i]] 0 <= i < BAND_COUNT implies mid.band_ok(
                    i,
                ) by {
                    assert(s.band_ok(i)) by {
                        let _ = s.bands[i];
                    }
                }
            }
            assert forall|step: u64| s.is_past(step) implies #[trigger] mid.is_past(step) by {
                assert forall|i: int| 0 <= i < mid.bands.len() implies step < (
                #[trigger] mid.bands[i]).steps_done && (mid.bands[i].run matches Some(run)
                    ==> run.start_step != step) by {
                    assert(step < s.bands[i].steps_done);
                }
            }
            lemma_same_decisions(s, mid);
            assert(mid.released_ok());
            assert(mid.wf());
            assert(mid.run_ok(run));
            assert forall|i: int| 0 <= i < mid.group.len() implies (
            #[trigger] mid.group[i]).start_step != run.start_step by {
                assert(s.is_past(s.group[i].start_step));
            }
            assert forall|i: int| 0 <= i < mid.closed.len() implies (
            #[trigger] mid.closed[i]).start_step != run.start_step by {
                assert(s.is_past(s.closed[i].start_step));
            }
            lemma_click(mid, index, run);
        },
        None => {},
    }
}

// ---------------------------------------------------------------------------
// Grouping
// ---------------------------------------------------------------------------

/// The repairs of a group reach no sample that has been handed out.
pub proof fn lemma_close_group(s: Schedule)
    requires
        s.wf(),
    ensures
        s.close_group().wf(),
        s.close_group().repairs.len() == s.repairs.len() + s.group.len(),
{
    let next = s.close_group();
    let count = s.repairs.len() as int;
    lemma_same_bands(s, next);
    assert(next.events_ok());
    assert(next.group_ok());
    assert forall|i: int| #![trigger next.repairs[i]] 0 <= i < next.repairs.len() implies next.repair_ok(
        i,
    ) by {
        if i < count {
            assert(s.repair_ok(i)) by {
                let _ = s.repairs[i];
            }
            assert(next.repairs[i] == s.repairs[i] && next.closed[i] == s.closed[i]);
        } else {
            let event = s.group[i - count];
            assert(next.closed[i] == event);
            assert(s.event_ok(event));
            assert(next.repairs[i] == crate::schedule::repair_of(event, s.written));
        }
    }
    assert forall|step: u64| s.is_past(step) implies #[trigger] next.is_past(step) by {}
    assert forall|i: int| 0 <= i < next.closed.len() implies next.is_past(
        (#[trigger] next.closed[i]).start_step,
    ) by {
        if i < count {
            assert(next.closed[i] == s.closed[i]);
        } else {
            assert(next.closed[i] == s.group[i - count]);
        }
    }
    assert forall|i: int, j: int| 0 <= i < j < next.closed.len() implies (
    #[trigger] next.closed[i]).start_step != (#[trigger] next.closed[j]).start_step by {
        if j < count {
            assert(next.closed[i] == s.closed[i] && next.closed[j] == s.closed[j]);
        } else if i >= count {
            assert(next.closed[i] == s.group[i - count] && next.closed[j] == s.group[j - count]);
        } else {
            assert(next.closed[i] == s.closed[i] && next.closed[j] == s.group[j - count]);
        }
    }
    assert(next.counts_ok());
    assert(next.repairs_ok());
    assert(next.released_ok());
}

/// An event that is past can join the group or start a new one.
proof fn lemma_start_group(s: Schedule, event: Event)
    requires
        s.wf(),
        s.group.len() == 0,
        s.event_ok(event),
        s.is_past(event.start_step),
        forall|i: int|
            0 <= i < s.closed.len() ==> (#[trigger] s.closed[i]).start_step != event.start_step,
    ensures
        s.start_group(event).wf(),
{
    let next = s.start_group(event);
    lemma_same_bands(s, next);
    assert(next.events_ok());
    assert(next.group_ok());
    assert forall|step: u64| s.is_past(step) implies #[trigger] next.is_past(step) by {}
    assert(next.released_ok());
    lemma_same_repairs(s, next);
}

proof fn lemma_add_to_group(s: Schedule, event: Event)
    requires
        s.wf(),
        s.event_ok(event),
        s.is_past(event.start_step),
        forall|i: int|
            0 <= i < s.group.len() ==> (#[trigger] s.group[i]).start_step != event.start_step,
        forall|i: int|
            0 <= i < s.closed.len() ==> (#[trigger] s.closed[i]).start_step != event.start_step,
    ensures
        s.add_to_group(event).wf(),
{
    if s.group.len() == 0 {
        lemma_start_group(s, event);
    } else if s.can_join(event) {
        let next = s.add_to_group(event);
        let at = crate::event::place(s.group, event.start_step) as int;
        crate::event::lemma_place(s.group, event.start_step);
        lemma_same_bands(s, next);
        assert(next.events_ok());
        assert forall|i: int| 0 <= i < next.group.len() implies #[trigger] next.group[i] == if i
            < at {
            s.group[i]
        } else if i == at {
            event
        } else {
            s.group[i - 1]
        } by {}
        assert forall|i: int, j: int| 0 <= i < j < next.group.len() implies (
        #[trigger] next.group[i]).start_step < (#[trigger] next.group[j]).start_step by {}
        assert(next.group_ok());
        assert forall|step: u64| s.is_past(step) implies #[trigger] next.is_past(step) by {}
        assert(next.released_ok());
        lemma_same_repairs(s, next);
    } else {
        lemma_close_group(s);
        let mid = s.close_group();
        assert forall|i: int| 0 <= i < mid.closed.len() implies (
        #[trigger] mid.closed[i]).start_step != event.start_step by {
            let count = s.closed.len() as int;
            if i < count {
                assert(mid.closed[i] == s.closed[i]);
            } else {
                assert(mid.closed[i] == s.group[i - count]);
            }
        }
        lemma_start_group(mid, event);
    }
}

/// An event that is final can leave the queue.
pub proof fn lemma_release_first(s: Schedule)
    requires
        s.wf(),
        s.events.len() > 0,
        s.event_is_final(s.events[0]),
    ensures
        s.release_first().wf(),
{
    let event = s.events[0];
    let mid = Schedule { events: s.events.drop_first(), ..s };
    lemma_without_first(s);
    lemma_slowest(s.bands);
    assert(mid.is_past(event.start_step));
    assert forall|i: int| 0 <= i < mid.group.len() implies (#[trigger] mid.group[i]).start_step
        != event.start_step by {
        assert(s.is_past(s.group[i].start_step));
    }
    assert forall|i: int| 0 <= i < mid.closed.len() implies (#[trigger] mid.closed[i]).start_step
        != event.start_step by {
        assert(s.is_past(s.closed[i].start_step));
    }
    lemma_add_to_group(mid, event);
}

/// A queue without its first event is still as it should be.
pub proof fn lemma_without_first(s: Schedule)
    requires
        s.wf(),
        s.events.len() > 0,
    ensures
        (Schedule { events: s.events.drop_first(), ..s }).wf(),
{
    let mid = Schedule { events: s.events.drop_first(), ..s };
    lemma_same_bands(s, mid);
    assert forall|i: int| 0 <= i < mid.events.len() implies #[trigger] mid.events[i] == s.events[i
        + 1] by {}
    assert(mid.events_ok());
    assert(mid.group_ok());
    assert forall|step: u64| s.is_past(step) implies #[trigger] mid.is_past(step) by {}
    assert(mid.released_ok());
    lemma_same_repairs(s, mid);
}

/// What `release` leaves alone.
pub open spec fn same_detection(a: Schedule, b: Schedule) -> bool {
    &&& a.threshold == b.threshold
    &&& a.latencies == b.latencies
    &&& a.written == b.written
    &&& a.emitted == b.emitted
    &&& a.ended == b.ended
    &&& a.done == b.done
    &&& a.heard == b.heard
    &&& a.bands == b.bands
    &&& a.clicks == b.clicks
    &&& a.performed == b.performed
}

/// Releasing the events that are final keeps everything as it should be, and
/// leaves an event first that is not final.
pub proof fn lemma_release(s: Schedule)
    requires
        s.wf(),
    ensures
        s.release().wf(),
        same_detection(s, s.release()),
        s.release().events.len() > 0 ==> !s.release().event_is_final(s.release().events[0]),
        s.release().events.len() <= s.events.len(),
    decreases s.events.len(),
{
    if s.events.len() > 0 && s.event_is_final(s.events[0]) {
        lemma_release_first(s);
        lemma_release(s.release_first());
    }
}

/// After finalised events have moved on, everything that could be decided has
/// been decided.
pub proof fn lemma_advance(s: Schedule)
    requires
        s.wf(),
    ensures
        s.advance().wf(),
        same_detection(s, s.advance()),
        s.advance().settled(),
{
    lemma_release(s);
    lemma_close_group(s.release());
}

// ---------------------------------------------------------------------------
// Input
// ---------------------------------------------------------------------------

/// What hearing leaves alone.
pub open spec fn same_output(a: Schedule, b: Schedule) -> bool {
    &&& a.threshold == b.threshold
    &&& a.latencies == b.latencies
    &&& a.written == b.written
    &&& a.emitted == b.emitted
    &&& a.ended == b.ended
    &&& a.done == b.done
    &&& a.group == b.group
    &&& a.group_start == b.group_start
    &&& a.group_end == b.group_end
    &&& a.closed == b.closed
    &&& a.repairs == b.repairs
    &&& a.performed == b.performed
}

/// The minima depend only on the completed steps and the open runs.
proof fn lemma_same_minima(a: Seq<Band>, b: Seq<Band>, bound: int)
    requires
        a.len() == b.len(),
        forall|i: int|
            0 <= i < a.len() ==> (#[trigger] a[i]).steps_done == b[i].steps_done && a[i].run
                == b[i].run,
    ensures
        crate::schedule::slowest(a) == crate::schedule::slowest(b),
        crate::schedule::first_open(a, bound) == crate::schedule::first_open(b, bound),
    decreases a.len(),
{
    if a.len() > 0 {
        assert forall|i: int| 0 <= i < a.drop_last().len() implies (
        #[trigger] a.drop_last()[i]).steps_done == b.drop_last()[i].steps_done
            && a.drop_last()[i].run == b.drop_last()[i].run by {
            assert(a.drop_last()[i] == a[i]);
        }
        lemma_same_minima(a.drop_last(), b.drop_last(), bound);
        assert(a[a.len() - 1].run == b[a.len() - 1].run);
    }
}

/// Every band hears one level.
pub proof fn lemma_hear_each(s: Schedule, levels: Seq<u32>, count: nat)
    requires
        s.wf(),
        !s.done,
        count <= BAND_COUNT,
        forall|i: int| #![trigger s.heard[i]]
            0 <= i < BAND_COUNT ==> s.heard[i].len() < s.horizon() + s.latencies[i],
    ensures
        ({
            let next = s.hear_each(levels, count);
            &&& next.wf()
            &&& same_output(s, next)
            &&& forall|i: int| #![trigger next.heard[i]]
                0 <= i < count ==> next.heard[i] == s.heard[i].push(levels[i])
            &&& forall|i: int| #![trigger next.heard[i]]
                count <= i < BAND_COUNT ==> next.heard[i] == s.heard[i]
            &&& forall|i: int| #![trigger next.bands[i]]
                0 <= i < count ==> next.bands[i] == s.bands[i].after(levels[i], s.threshold)
            &&& forall|i: int| #![trigger next.bands[i]]
                count <= i < BAND_COUNT ==> next.bands[i] == s.bands[i]
            &&& !s.closes_step() ==> next.events == s.events
        }),
    decreases count,
{
    if count > 0 {
        let index = count - 1;
        lemma_hear_each(s, levels, index as nat);
        let mid = s.hear_each(levels, index as nat);
        assert(mid.heard[index] == s.heard[index]);
        assert(mid.bands[index] == s.bands[index]);
        lemma_hear(mid, index, levels[index]);
        if !s.closes_step() {
            assert(!s.bands[index].closes_step());
        }
    }
}

/// One more sample keeps everything as it should be.
pub proof fn lemma_push(s: Schedule, levels: Seq<u32>)
    requires
        s.ready(),
        !s.done,
        s.written < MAX_SAMPLES,
        s.written - s.emitted < RING_CAPACITY,
    ensures
        ({
            let mid = Schedule { written: s.written + 1, ..s };
            &&& mid.wf()
            &&& forall|i: int| #![trigger mid.heard[i]]
                0 <= i < BAND_COUNT ==> mid.heard[i].len() < mid.horizon() + mid.latencies[i]
        }),
        s.push(levels).ready(),
        !s.push(levels).done,
        s.push(levels).written == s.written + 1,
        s.push(levels).emitted == s.emitted,
        s.push(levels).performed == s.performed,
        s.push(levels).threshold == s.threshold,
        s.push(levels).latencies == s.latencies,
{
    let mid = Schedule { written: s.written + 1, ..s };
    lemma_same_bands(s, mid);
    assert(mid.events_ok());
    assert(mid.group_ok());
    assert forall|step: u64| s.is_past(step) implies #[trigger] mid.is_past(step) by {}
    assert(mid.released_ok());
    lemma_same_repairs(s, mid);
    assert(mid.wf());
    lemma_hear_each(mid, levels, BAND_COUNT as nat);
    let next = mid.hear_each(levels, BAND_COUNT as nat);
    assert forall|i: int| #![trigger next.heard[i]] 0 <= i < BAND_COUNT implies next.heard[i].len()
        == next.written by {
        assert(s.heard[i].len() == s.written);
    }
    if s.closes_step() {
        lemma_advance(next);
    } else {
        assert(mid.bands == s.bands);
        assert(!mid.closes_step());
        assert forall|i: int| 0 <= i < s.bands.len() implies (#[trigger] s.bands[i]).steps_done
            == next.bands[i].steps_done && s.bands[i].run == next.bands[i].run by {
            assert(!s.bands[i].closes_step());
            assert(next.bands[i] == s.bands[i].after(levels[i], s.threshold));
        }
        lemma_same_minima(s.bands, next.bands, crate::schedule::slowest(s.bands));
        assert(next.events == s.events);
        assert(next.settled()) by {
            assert(next.earliest_step() == s.earliest_step());
            if s.events.len() > 0 {
                let event = s.events[0];
                if next.event_is_final(event) {
                    assert forall|i: int| 0 <= i < s.bands.len() implies ((
                    #[trigger] s.bands[i]).run matches Some(run) ==> run.start_step
                        != event.start_step) by {
                        assert(next.bands[i].run == s.bands[i].run);
                    }
                    assert(s.event_is_final(event));
                }
            }
        }
    }
}

/// A band hears what is left in its filter.
pub proof fn lemma_hear_all(s: Schedule, index: int, levels: Seq<u32>)
    requires
        s.wf(),
        !s.done,
        0 <= index < BAND_COUNT,
        s.heard[index].len() + levels.len() <= s.horizon() + s.latencies[index],
    ensures
        ({
            let next = s.hear_all(index, levels);
            &&& next.wf()
            &&& same_output(s, next)
            &&& next.heard[index] == s.heard[index] + levels
            &&& forall|i: int| #![trigger next.heard[i]]
                0 <= i < BAND_COUNT && i != index ==> next.heard[i] == s.heard[i]
            &&& forall|i: int| #![trigger next.bands[i]]
                0 <= i < BAND_COUNT && i != index ==> next.bands[i] == s.bands[i]
        }),
    decreases levels.len(),
{
    if levels.len() > 0 {
        lemma_hear_all(s, index, levels.drop_last());
        let mid = s.hear_all(index, levels.drop_last());
        lemma_hear(mid, index, levels.last());
        assert(mid.heard[index].push(levels.last()) =~= s.heard[index] + levels);
    } else {
        assert(s.heard[index] + levels =~= s.heard[index]);
    }
}

/// The levels after the input: as many for each band as its filter delays, and
/// as many more as the last step needs to be complete.
pub open spec fn tails_ok(latencies: Seq<u64>, written: nat, tails: Seq<Seq<u32>>) -> bool {
    &&& tails.len() == BAND_COUNT
    &&& forall|i: int| #![trigger tails[i]]
        0 <= i < BAND_COUNT ==> tails[i].len() == latencies[i] + crate::schedule::padded(written)
            - written
}

/// The end of the input only widens what can be analysed.
pub proof fn lemma_ended(s: Schedule)
    requires
        s.ready(),
        !s.done,
    ensures
        (Schedule { ended: true, ..s }).wf(),
        (Schedule { ended: true, ..s }).in_step(),
        s.written <= crate::schedule::padded(s.written) < s.written + STEP,
{
    let next = Schedule { ended: true, ..s };
    lemma_same_bands(s, next);
    assert(next.events_ok());
    assert(next.group_ok());
    assert forall|step: u64| s.is_past(step) implies #[trigger] next.is_past(step) by {}
    assert(next.released_ok());
    lemma_same_repairs(s, next);
}

/// The bands hear the silence after the input.
pub proof fn lemma_flush(s: Schedule, tails: Seq<Seq<u32>>, count: nat)
    requires
        s.wf(),
        s.ended,
        !s.done,
        s.in_step(),
        tails_ok(s.latencies, s.written, tails),
        count <= BAND_COUNT,
    ensures
        ({
            let next = s.flush(tails, count);
            &&& next.wf()
            &&& same_output(s, next)
            &&& forall|i: int| #![trigger next.heard[i]]
                0 <= i < count ==> next.heard[i] == s.heard[i] + tails[i]
            &&& forall|i: int| #![trigger next.heard[i]]
                count <= i < BAND_COUNT ==> next.heard[i] == s.heard[i]
        }),
    decreases count,
{
    if count > 0 {
        let index = count - 1;
        lemma_flush(s, tails, index as nat);
        let mid = s.flush(tails, index as nat);
        assert(mid.heard[index] == s.heard[index]);
        assert(tails[index].len() + s.heard[index].len() == s.horizon() + s.latencies[index]);
        lemma_hear_all(mid, index, tails[index]);
    }
}

/// The runs that are still open end.
pub proof fn lemma_end_runs(s: Schedule, count: nat)
    requires
        s.wf(),
        count <= BAND_COUNT,
    ensures
        ({
            let next = s.end_runs(count);
            &&& next.wf()
            &&& same_output(s, next)
            &&& next.heard == s.heard
            &&& forall|i: int| #![trigger next.bands[i]]
                0 <= i < count ==> next.bands[i] == (Band { run: None, ..s.bands[i] })
            &&& forall|i: int| #![trigger next.bands[i]]
                count <= i < BAND_COUNT ==> next.bands[i] == s.bands[i]
        }),
    decreases count,
{
    if count > 0 {
        let index = count - 1;
        lemma_end_runs(s, index as nat);
        let mid = s.end_runs(index as nat);
        assert(mid.bands[index] == s.bands[index]);
        lemma_end_run(mid, index);
    }
}

/// When the input has ended, every queued event is final, and nothing is left
/// to decide.
pub proof fn lemma_finish(s: Schedule, tails: Seq<Seq<u32>>)
    requires
        s.ready(),
        !s.done,
        tails_ok(s.latencies, s.written, tails),
    ensures
        s.finish(tails).ready(),
        s.finish(tails).done,
        s.finish(tails).written == s.written,
        s.finish(tails).emitted == s.emitted,
        s.finish(tails).performed == s.performed,
        s.finish(tails).threshold == s.threshold,
        s.finish(tails).latencies == s.latencies,
        (Schedule { ended: true, ..s }).flush(tails, BAND_COUNT as nat).wf(),
        (Schedule { ended: true, ..s }).flush(tails, BAND_COUNT as nat).end_runs(
            BAND_COUNT as nat,
        ).wf(),
{
    let start = Schedule { ended: true, ..s };
    lemma_ended(s);
    let flushed = start.flush(tails, BAND_COUNT as nat);
    lemma_flush(start, tails, BAND_COUNT as nat);
    let ended = flushed.end_runs(BAND_COUNT as nat);
    lemma_end_runs(flushed, BAND_COUNT as nat);
    let released = ended.release();
    lemma_release(ended);
    assert forall|i: int| 0 <= i < released.bands.len() implies (
    #[trigger] released.bands[i]).steps_done * STEP + released.bands[i].filled
        == crate::schedule::padded(s.written)
        && released.bands[i].run is None by {
        assert(ended.bands[i] == (Band { run: None, ..flushed.bands[i] }));
        assert(ended.band_ok(i));
        assert(ended.heard[i] == s.heard[i] + tails[i]);
        assert(s.heard[i].len() == s.written);
    }
    if released.events.len() > 0 {
        let event = released.events[0];
        assert(released.event_ok(event));
        lemma_slowest(released.bands);
        let i = choose|i: int|
            0 <= i < released.bands.len() && crate::schedule::slowest(released.bands) == (
            #[trigger] released.bands[i]).steps_done;
        assert(released.band_ok(i));
        assert(released.event_is_final(event));
    }
    lemma_close_group(released);
    let last = if released.group.len() > 0 {
        released.close_group()
    } else {
        released
    };
    let result = s.finish(tails);
    lemma_same_bands(last, result);
    assert forall|i: int| #![trigger result.heard[i]] 0 <= i < BAND_COUNT implies result.heard[i].len()
        == crate::schedule::padded(result.written) + result.latencies[i] by {
        assert(ended.heard[i] == s.heard[i] + tails[i]);
        assert(s.heard[i].len() == s.written);
    }
    lemma_same_decisions(last, result);
    assert forall|step: u64| last.is_past(step) implies #[trigger] result.is_past(step) by {}
    assert(result.released_ok());
}

/// The repairs of `a` come first among those of `b`.
pub open spec fn more_repairs(a: Schedule, b: Schedule) -> bool {
    &&& a.repairs.len() <= b.repairs.len()
    &&& forall|k: int| #![trigger b.repairs[k]]
        0 <= k < a.repairs.len() ==> b.repairs[k] == a.repairs[k]
}

proof fn lemma_release_repairs(s: Schedule)
    ensures
        more_repairs(s, s.release()),
    decreases s.events.len(),
{
    if s.events.len() > 0 && s.event_is_final(s.events[0]) {
        lemma_release_repairs(s.release_first());
        let mid = s.release_first();
        let end = s.release();
        assert forall|k: int| #![trigger end.repairs[k]] 0 <= k
            < s.repairs.len() implies end.repairs[k] == s.repairs[k] by {
            assert(end.repairs[k] == mid.repairs[k]);
        }
    }
}

/// Taking a sample never takes a repair back.
pub proof fn lemma_push_repairs(s: Schedule, levels: Seq<u32>)
    requires
        s.ready(),
        !s.done,
        s.written < MAX_SAMPLES,
        s.written - s.emitted < RING_CAPACITY,
    ensures
        more_repairs(s, s.push(levels)),
{
    lemma_push(s, levels);
    let stored = Schedule { written: s.written + 1, ..s };
    lemma_hear_each(stored, levels, BAND_COUNT as nat);
    let heard = stored.hear_each(levels, BAND_COUNT as nat);
    lemma_release_repairs(heard);
}

/// The end of the input never takes a repair back.
pub proof fn lemma_finish_repairs(s: Schedule, tails: Seq<Seq<u32>>)
    requires
        s.ready(),
        !s.done,
        tails_ok(s.latencies, s.written, tails),
    ensures
        more_repairs(s, s.finish(tails)),
{
    let start = Schedule { ended: true, ..s };
    lemma_ended(s);
    let flushed = start.flush(tails, BAND_COUNT as nat);
    lemma_flush(start, tails, BAND_COUNT as nat);
    lemma_end_runs(flushed, BAND_COUNT as nat);
    lemma_release_repairs(flushed.end_runs(BAND_COUNT as nat));
}

// ---------------------------------------------------------------------------
// Output
// ---------------------------------------------------------------------------

/// `first_open` and the first event bound the earliest future correction.
pub proof fn lemma_earliest_bounds(s: Schedule)
    requires
        s.bands.len() == BAND_COUNT,
        crate::event::in_order(s.events),
    ensures
        forall|i: int|
            0 <= i < BAND_COUNT ==> s.earliest_step() <= (#[trigger] s.bands[i]).steps_done,
        forall|i: int|
            0 <= i < BAND_COUNT ==> ((#[trigger] s.bands[i]).run matches Some(run)
                ==> s.earliest_step() <= run.start_step),
        forall|j: int|
            0 <= j < s.events.len() ==> s.earliest_step() <= (#[trigger] s.events[j]).start_step,
{
    lemma_slowest(s.bands);
    lemma_first_open(s.bands, crate::schedule::slowest(s.bands));
    assert forall|j: int| 0 <= j < s.events.len() implies s.earliest_step() <= (
    #[trigger] s.events[j]).start_step by {
        if j > 0 {
            assert(s.events[0].start_step < s.events[j].start_step);
        }
    }
}

/// A sample below the safe limit can be handed out: no correction that is
/// waiting, or still to come, reaches it.
pub proof fn lemma_emit(s: Schedule)
    requires
        s.ready(),
        s.up_to_date(),
        s.emitted < s.safe_limit(),
    ensures
        (Schedule { emitted: s.emitted + 1, ..s }).ready(),
{
    let next = Schedule { emitted: s.emitted + 1, ..s };
    lemma_earliest_bounds(s);
    assert(next.bands_ok()) by {
        assert forall|i: int| #![trigger next.bands[i]] 0 <= i < BAND_COUNT implies next.band_ok(
            i,
        ) by {
            assert(s.band_ok(i)) by {
                let _ = s.bands[i];
            }
            assert(s.bands[i].steps_done == next.bands[i].steps_done);
        }
        assert(next.latencies == s.latencies);
    }
    assert(next.events_ok());
    assert(next.group_ok());
    assert forall|step: u64| s.is_past(step) implies #[trigger] next.is_past(step) by {}
    assert(next.released_ok());
    lemma_same_repairs(s, next);
    if !s.done {
        assert(next.earliest_step() == s.earliest_step());
        if s.events.len() > 0 && next.event_is_final(s.events[0]) {
            assert(s.event_is_final(s.events[0]));
        }
        assert(next.in_step());
        assert(next.settled());
    }
}

/// Applying a repair changes nothing but the count of the applied ones.
pub proof fn lemma_perform(s: Schedule)
    requires
        s.ready(),
        !s.up_to_date(),
    ensures
        (Schedule { performed: s.performed + 1, ..s }).ready(),
        ({
            let repair = s.repairs[s.performed as int];
            &&& s.emitted <= repair.start < repair.end <= s.written
            &&& repair.end - repair.start <= MAX_EXCERPT
        }),
{
    let next = Schedule { performed: s.performed + 1, ..s };
    let repair = s.repairs[s.performed as int];
    lemma_same_bands(s, next);
    assert(next.events_ok());
    assert(next.group_ok());
    assert forall|step: u64| s.is_past(step) implies #[trigger] next.is_past(step) by {}
    assert(next.released_ok());
    lemma_same_repairs(s, next);
    if !s.done {
        if s.events.len() > 0 && next.event_is_final(s.events[0]) {
            assert(s.event_is_final(s.events[0]));
        }
        assert(next.earliest_step() == s.earliest_step());
        assert(next.in_step());
        assert(next.settled());
    }
}

/// The look-ahead is bounded: while nothing more can be handed out without
/// taking another sample, fewer samples are held back than fit into the ring
/// buffer.
pub proof fn law_look_ahead_fits_into_the_ring(s: Schedule)
    requires
        s.ready(),
        !s.done,
        s.emitted >= s.safe_limit(),
    ensures
        s.written - s.emitted < 176_400,
{
    let slow = crate::schedule::slowest(s.bands);
    lemma_slowest(s.bands);
    lemma_first_open(s.bands, slow);
    let first = crate::schedule::first_open(s.bands, slow);

    // The slowest band lags behind by its latency and a step that is not
    // complete.
    let i = choose|i: int| 0 <= i < s.bands.len() && slow == (#[trigger] s.bands[i]).steps_done;
    assert(s.band_ok(i));
    assert(s.heard[i].len() == s.written);
    assert(s.latencies[i] <= MAX_LATENCY);
    assert(s.written < (slow + 1) * STEP + MAX_LATENCY);

    // An open run is shorter than the longest run.
    assert(first > slow - MAX_RUN_STEPS) by {
        if first != slow {
            let k = choose|k: int|
                0 <= k < s.bands.len() && ((#[trigger] s.bands[k]).run matches Some(run) && first
                    == run.start_step);
            assert(s.band_ok(k));
        }
    }

    // A waiting event starts with an open run, or is not processed yet.
    let earliest = s.earliest_step();
    assert(earliest > slow - MAX_RUN_STEPS) by {
        if s.events.len() > 0 {
            let event = s.events[0];
            if slow > event.start_step {
                let k = choose|k: int|
                    0 <= k < s.bands.len() && !((#[trigger] s.bands[k]).run matches Some(run)
                        ==> run.start_step != event.start_step);
                assert(s.band_ok(k));
            }
        }
    }

    // The group ends after the earliest future correction.
    if s.group.len() > 0 {
        assert(s.group_start > s.earliest_future_correction() - MAX_GROUP_SAMPLES);
    }
}

impl Schedule {
    /// The steps in which the events start that have to be remembered: those
    /// that are waiting, those of the group, and those whose repairs have not
    /// been applied yet.
    pub open spec fn remembered(self) -> Seq<int> {
        self.events.map_values(|event: Event| event.start_step as int) + self.group.map_values(
            |event: Event| event.start_step as int,
        ) + self.closed.skip(self.performed as int).map_values(
            |event: Event| event.start_step as int,
        )
    }
}

/// Memory use does not depend on the length of the input: there is never more
/// than one event to remember for each step that fits into the ring buffer.
pub proof fn law_memory_is_bounded(s: Schedule)
    requires
        s.wf(),
    ensures
        s.remembered().len() == s.events.len() + s.group.len() + s.repairs.len() - s.performed,
        s.remembered().len() * 441 <= 176_400,
{
    let steps = s.remembered();
    let first = s.events.len() as int;
    let second = first + s.group.len();
    let performed = s.performed as int;
    let pending = s.closed.skip(performed);

    // They all lie between what has been handed out and what has been taken.
    let low = (s.emitted + STEP - 1) / STEP as int;
    let high = crate::schedule::padded(s.written) / STEP as int;
    assert forall|i: int| 0 <= i < steps.len() implies low <= #[trigger] steps[i] < high by {
        if i < first {
            assert(s.event_ok(s.events[i]));
        } else if i < second {
            assert(s.event_ok(s.group[i - first]));
        } else {
            let k = i - second + performed;
            assert(steps[i] == s.closed[k].start_step);
            assert(s.repair_ok(k)) by {
                let _ = s.repairs[k];
            }
        }
    }

    // They are all different.
    assert forall|i: int, j: int| 0 <= i < j < steps.len() implies steps[i] != steps[j] by {
        if i < first {
            let event = s.events[i];
            if j < first {
                assert(event.start_step < s.events[j].start_step);
            } else if j < second {
                assert(s.is_past(s.group[j - first].start_step));
            } else {
                assert(s.is_past(s.closed[j - second + performed].start_step));
            }
        } else if i < second {
            let event = s.group[i - first];
            if j < second {
                assert(event.start_step < s.group[j - first].start_step);
            } else {
                assert(event.start_step != s.closed[j - second + performed].start_step);
            }
        } else {
            assert(s.closed[i - second + performed].start_step != s.closed[j - second
                + performed].start_step);
        }
    }
    assert(steps.no_duplicates());
    steps.unique_seq_to_set();
    if steps.len() > 0 {
        assert(low <= steps[0] < high);
        let range = vstd::set_lib::set_int_range(low, high);
        vstd::set_lib::lemma_int_range(low, high);
        assert forall|step: int| steps.to_set().contains(step) implies range.contains(step) by {
            let i = choose|i: int| 0 <= i < steps.len() && steps[i] == step;
            assert(low <= steps[i] < high);
        }
        vstd::set_lib::lemma_len_subset(steps.to_set(), range);
    }
}

/// A chain of overlapping events is repaired in units of at most two seconds:
/// that is how far the samples of a group are apart.
pub proof fn law_a_group_is_short(s: Schedule, i: int, j: int)
    requires
        s.wf(),
        0 <= i < s.group.len(),
        0 <= j < s.group.len(),
    ensures
        ({
            let next = s.close_group();
            let first = s.repairs.len();
            next.repairs[first + j].end - next.repairs[first + i].start <= 88_200
        }),
        crate::schedule::repair_of(s.group[j], s.written).end - crate::schedule::repair_of(
            s.group[i],
            s.written,
        ).start <= MAX_GROUP_SAMPLES,
{
    assert(s.event_ok(s.group[i]) && s.event_ok(s.group[j]));
}

} // verus!
