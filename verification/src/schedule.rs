//! The mathematical model of the de-esser: what it has detected, what it has
//! decided to repair, and which samples are final.
//!
//! Nothing here is executed.  [`Schedule`] is the state of
//! [`DeEsser`](crate::deesser::DeEsser) without its audio, and its functions say
//! how that state develops.

use crate::band::{Band, Run, STEP};
use crate::event::{Event, Repair, BAND_COUNT, CROSSFADE};
use vstd::prelude::*;

verus! {

/// Longest chain of overlapping events that is repaired as one unit (2 s).
pub const MAX_GROUP_SAMPLES: u64 = 88_200;

/// Ring buffer capacity (4 s).
pub const RING_CAPACITY: usize = 176_400;

/// Longest group delay of a detector filter for which the look-ahead is sure
/// to stay within the ring buffer: what is left of the capacity after the
/// longest group, the longest run and one crossfade.
pub const MAX_LATENCY: u64 = 43_880;

/// Longest excerpt the repair stage can ever be asked to filter.
pub const MAX_EXCERPT: u64 = 44_540;

/// Largest number of samples whose positions can be counted up to the end of
/// the last step, with a crossfade after it.
pub const MAX_SAMPLES: u64 = 18_446_744_073_709_550_955;

/// The state of the de-esser without its audio.
pub struct Schedule {
    /// Detection threshold.
    pub threshold: u32,
    /// Group delay of the filter of each band.
    pub latencies: Seq<u64>,
    /// Number of samples taken so far.
    pub written: nat,
    /// Number of samples handed out so far.
    pub emitted: nat,
    /// The input has ended.
    pub ended: bool,
    /// The input has ended and the tail has been flushed.
    pub done: bool,
    /// The levels each band has heard so far.
    pub heard: Seq<Seq<u32>>,
    /// The detection state of each band.
    pub bands: Seq<Band>,
    /// The runs of each band that have ended, in the order in which they ended.
    pub clicks: Seq<Seq<Run>>,
    /// Detected events that are not part of a group yet, in order.
    pub events: Seq<Event>,
    /// Events of the group currently being collected, in order.
    pub group: Seq<Event>,
    /// Sample range covered by `group`, including crossfades.
    pub group_start: int,
    pub group_end: int,
    /// The events of all groups that have been closed.
    pub closed: Seq<Event>,
    /// The repairs of these events, in the order in which they are applied.
    pub repairs: Seq<Repair>,
    /// How many of the repairs have been applied.
    pub performed: nat,
}

/// The smaller of two numbers.
pub open spec fn smaller(a: int, b: int) -> int {
    if a < b {
        a
    } else {
        b
    }
}

/// The larger of two numbers.
pub open spec fn larger(a: int, b: int) -> int {
    if a < b {
        b
    } else {
        a
    }
}

/// One past the last position of the step in which sample number `written`,
/// counted from one, lies: silence fills up the last step.
pub open spec fn padded(written: nat) -> int {
    (written + STEP - 1) / STEP as int * STEP
}

/// Number of steps that *every* band has finished: the position of the slowest
/// one.
pub open spec fn slowest(bands: Seq<Band>) -> int
    decreases bands.len(),
{
    if bands.len() == 0 {
        0
    } else if bands.len() == 1 {
        bands[0].steps_done as int
    } else {
        smaller(slowest(bands.drop_last()), bands.last().steps_done as int)
    }
}

/// The step in which the earliest open run starts, or `bound` if none starts
/// before it.
pub open spec fn first_open(bands: Seq<Band>, bound: int) -> int
    decreases bands.len(),
{
    if bands.len() == 0 {
        bound
    } else {
        let others = first_open(bands.drop_last(), bound);
        match bands.last().run {
            Some(run) => smaller(others, run.start_step as int),
            None => others,
        }
    }
}

/// The correction of `event` when `written` samples have been taken: the tail
/// of an event can reach past the last of them.
pub open spec fn repair_of(event: Event, written: nat) -> Repair {
    Repair {
        start: event.span_start() as u64,
        end: smaller(event.span_end(), written as int) as u64,
        levels: event.levels,
    }
}

impl Schedule {
    /// Nothing taken, nothing detected.
    pub open spec fn initial(latencies: Seq<u64>, threshold: u32) -> Schedule {
        Schedule {
            threshold,
            latencies,
            written: 0,
            emitted: 0,
            ended: false,
            done: false,
            heard: Seq::new(latencies.len(), |i: int| Seq::empty()),
            bands: Seq::new(latencies.len(), |i: int| Band::silent(latencies[i])),
            clicks: Seq::new(latencies.len(), |i: int| Seq::empty()),
            events: Seq::empty(),
            group: Seq::empty(),
            group_start: 0,
            group_end: 0,
            closed: Seq::empty(),
            repairs: Seq::empty(),
            performed: 0,
        }
    }

    /// How far the input can have been analysed: up to the last sample, and once
    /// the input has ended up to the end of the last step.
    pub open spec fn horizon(self) -> int {
        if self.ended {
            padded(self.written)
        } else {
            self.written as int
        }
    }

    // -- detection ---------------------------------------------------------

    /// A run of band `index` has ended.
    pub open spec fn click(self, index: int, run: Run) -> Schedule {
        Schedule {
            clicks: self.clicks.update(index, self.clicks[index].push(run)),
            events: crate::event::recorded(self.events, index, run),
            ..self
        }
    }

    /// Band `index` hears one more level.
    pub open spec fn hear(self, index: int, level: u32) -> Schedule {
        let next = Schedule {
            heard: self.heard.update(index, self.heard[index].push(level)),
            bands: self.bands.update(index, self.bands[index].after(level, self.threshold)),
            ..self
        };
        match self.bands[index].ended(level, self.threshold) {
            Some(run) => next.click(index, run),
            None => next,
        }
    }

    /// The first `count` bands hear one more level each.
    pub open spec fn hear_each(self, levels: Seq<u32>, count: nat) -> Schedule
        decreases count,
    {
        if count == 0 {
            self
        } else {
            self.hear_each(levels, (count - 1) as nat).hear(count - 1, levels[count - 1])
        }
    }

    /// Band `index` hears all of `levels`.
    pub open spec fn hear_all(self, index: int, levels: Seq<u32>) -> Schedule
        decreases levels.len(),
    {
        if levels.len() == 0 {
            self
        } else {
            self.hear_all(index, levels.drop_last()).hear(index, levels.last())
        }
    }

    /// The first `count` bands hear what their filters make of the silence after
    /// the input.
    pub open spec fn flush(self, tails: Seq<Seq<u32>>, count: nat) -> Schedule
        decreases count,
    {
        if count == 0 {
            self
        } else {
            self.flush(tails, (count - 1) as nat).hear_all(count - 1, tails[count - 1])
        }
    }

    /// The open run of band `index`, if there is one, ends.
    pub open spec fn end_run(self, index: int) -> Schedule {
        match self.bands[index].run {
            Some(run) => Schedule {
                bands: self.bands.update(index, Band { run: None, ..self.bands[index] }),
                ..self
            }.click(index, run),
            None => self,
        }
    }

    /// The open runs of the first `count` bands end.
    pub open spec fn end_runs(self, count: nat) -> Schedule
        decreases count,
    {
        if count == 0 {
            self
        } else {
            self.end_runs((count - 1) as nat).end_run(count - 1)
        }
    }

    /// The first step in which a correction that does not exist yet could
    /// start: the first step that some band has not processed, or the start of
    /// a run that is still open or of an event that is still waiting.
    pub open spec fn earliest_step(self) -> int {
        let first = first_open(self.bands, slowest(self.bands));
        if self.events.len() > 0 {
            smaller(first, self.events[0].start_step as int)
        } else {
            first
        }
    }

    /// Earliest sample that a correction which does not exist yet could still
    /// touch.  Everything before it is final.
    pub open spec fn earliest_future_correction(self) -> int {
        crate::event::less(self.earliest_step() * STEP, CROSSFADE as int)
    }

    /// An event is final when no band can still add a click to it: all bands
    /// have processed its starting step, and none of them has a run open that
    /// started there.
    pub open spec fn event_is_final(self, event: Event) -> bool {
        &&& slowest(self.bands) > event.start_step
        &&& forall|i: int|
            0 <= i < self.bands.len() ==> ((#[trigger] self.bands[i]).run matches Some(run)
                ==> run.start_step != event.start_step)
    }

    // -- grouping ----------------------------------------------------------

    /// The corrections of the current group are ordered, and the group is
    /// closed.
    pub open spec fn close_group(self) -> Schedule {
        Schedule {
            group: Seq::empty(),
            closed: self.closed + self.group,
            repairs: self.repairs + self.group.map_values(
                |event: Event| repair_of(event, self.written),
            ),
            ..self
        }
    }

    /// A group is started with `event`.
    pub open spec fn start_group(self, event: Event) -> Schedule {
        Schedule {
            group: seq![event],
            group_start: event.span_start(),
            group_end: event.span_end(),
            ..self
        }
    }

    /// The group joins `event`: they overlap, and together are not longer than
    /// a group may be.
    pub open spec fn can_join(self, event: Event) -> bool {
        &&& event.span_start() < self.group_end
        &&& larger(self.group_end, event.span_end()) - smaller(
            self.group_start,
            event.span_start(),
        ) <= MAX_GROUP_SAMPLES
    }

    /// `event` goes to the current group, or closes it and starts a new one.
    pub open spec fn add_to_group(self, event: Event) -> Schedule {
        if self.group.len() == 0 {
            self.start_group(event)
        } else if self.can_join(event) {
            Schedule {
                group: crate::event::joined(self.group, event),
                group_start: smaller(self.group_start, event.span_start()),
                group_end: larger(self.group_end, event.span_end()),
                ..self
            }
        } else {
            self.close_group().start_group(event)
        }
    }

    /// The first waiting event leaves the queue.
    pub open spec fn release_first(self) -> Schedule {
        Schedule { events: self.events.drop_first(), ..self }.add_to_group(self.events[0])
    }

    /// All waiting events leave the queue, up to the first that is not final.
    pub open spec fn release(self) -> Schedule
        decreases self.events.len(),
    {
        if self.events.len() > 0 && self.event_is_final(self.events[0]) {
            self.release_first().release()
        } else {
            self
        }
    }

    /// Finalised events move into the current group, and the group is closed
    /// as soon as it is certain that nothing else can join it.
    pub open spec fn advance(self) -> Schedule {
        let next = self.release();
        if next.group.len() > 0 && next.earliest_future_correction() >= next.group_end {
            next.close_group()
        } else {
            next
        }
    }

    // -- input and output --------------------------------------------------

    /// Some band completes a step with its next level.
    pub open spec fn closes_step(self) -> bool {
        exists|i: int| 0 <= i < self.bands.len() && (#[trigger] self.bands[i]).closes_step()
    }

    /// One more sample is taken; `levels` are the levels of the filtered
    /// sample in each band.
    pub open spec fn push(self, levels: Seq<u32>) -> Schedule {
        let next = Schedule { written: self.written + 1, ..self }.hear_each(
            levels,
            BAND_COUNT as nat,
        );
        if self.closes_step() {
            next.advance()
        } else {
            next
        }
    }

    /// The input has ended; `tails` are the levels that come out of each filter
    /// when silence follows.
    pub open spec fn finish(self, tails: Seq<Seq<u32>>) -> Schedule {
        let next = Schedule { ended: true, ..self }.flush(tails, BAND_COUNT as nat).end_runs(
            BAND_COUNT as nat,
        ).release();
        let last = if next.group.len() > 0 {
            next.close_group()
        } else {
            next
        };
        Schedule { done: true, ..last }
    }

    /// Absolute index up to which samples are final and may be handed out.
    pub open spec fn safe_limit(self) -> int {
        if self.done {
            self.written as int
        } else {
            let limit = if self.group.len() > 0 {
                smaller(self.earliest_future_correction(), self.group_start)
            } else {
                self.earliest_future_correction()
            };
            smaller(limit, self.written as int)
        }
    }

    /// All ordered repairs have been applied.
    pub open spec fn up_to_date(self) -> bool {
        self.performed == self.repairs.len()
    }
}

} // verus!
