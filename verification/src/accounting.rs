//! The books of the de-esser: every click ends up in exactly the event that
//! starts with it, and every event ends up in a repair.

use crate::band::{Band, Run, STEP};
use crate::event::{Event, BAND_COUNT, CROSSFADE};
use crate::schedule::{Schedule, MAX_SAMPLES, RING_CAPACITY};
use vstd::prelude::*;

verus! {

/// `event` accounts for the click `run` of `band`.
pub open spec fn accounts_for(event: Event, band: int, run: Run) -> bool {
    &&& event.start_step == run.start_step
    &&& event.steps >= run.steps
    &&& event.levels@[band] >= run.peak
}

impl Schedule {
    /// `event` is waiting, in the group, or in a group that was closed.
    pub open spec fn knows(self, event: Event) -> bool {
        ||| self.events.contains(event)
        ||| self.group.contains(event)
        ||| self.closed.contains(event)
    }

    /// Click number `j` of `band` is in an event.
    pub open spec fn has_booked(self, band: int, j: int) -> bool {
        exists|event: Event| #[trigger]
            self.knows(event) && accounts_for(event, band, self.clicks[band][j])
    }

    /// `band` has a click that starts with `event` and has the level that the
    /// event has in this band.
    pub open spec fn explains_level(self, event: Event, band: int) -> bool {
        exists|j: int|
            0 <= j < self.clicks[band].len() && (#[trigger] self.clicks[band][j]).start_step
                == event.start_step && self.clicks[band][j].peak == event.levels@[band]
    }

    /// `band` has a click that starts with `event` and is as long.
    pub open spec fn explains_length(self, event: Event, band: int) -> bool {
        exists|j: int|
            0 <= j < self.clicks[band].len() && (#[trigger] self.clicks[band][j]).start_step
                == event.start_step && self.clicks[band][j].steps == event.steps
    }

    /// Nothing in `event` comes from anything but a click that starts with it.
    pub open spec fn explains(self, event: Event) -> bool {
        &&& forall|band: int|
            0 <= band < BAND_COUNT && event.levels@[band] > 0 ==> #[trigger] self.explains_level(
                event,
                band,
            )
        &&& exists|band: int| 0 <= band < BAND_COUNT && #[trigger] self.explains_length(event, band)
    }

    /// Every click is in an event, and every event is made of clicks.
    pub open spec fn balanced(self) -> bool {
        &&& self.clicks.len() == BAND_COUNT
        &&& forall|band: int, j: int|
            0 <= band < BAND_COUNT && 0 <= j < self.clicks[band].len()
                ==> #[trigger] self.has_booked(band, j)
        &&& forall|event: Event| #[trigger] self.knows(event) ==> self.explains(event)
    }

    /// Band `i` is as its levels have made it, and so are its clicks.
    pub open spec fn follows(self, i: int) -> bool {
        &&& self.bands[i] == crate::band::band_after(
            self.latencies[i],
            self.heard[i],
            self.threshold,
        )
        &&& self.clicks[i] == crate::band::ended_while(
            self.latencies[i],
            self.heard[i],
            self.threshold,
        )
    }

    /// The clicks of band `i` are all runs in its levels, the last one included.
    pub open spec fn has_all_clicks(self, i: int) -> bool {
        self.clicks[i] == runs_in(self.latencies[i], self.heard[i], self.threshold)
    }

    /// The clicks of band `i` are those in its levels.
    pub open spec fn tracks(self, i: int) -> bool {
        if self.done {
            self.has_all_clicks(i)
        } else {
            self.follows(i)
        }
    }

    /// The books are kept.
    pub open spec fn accounted(self) -> bool {
        &&& self.balanced()
        &&& forall|i: int| 0 <= i < BAND_COUNT ==> #[trigger] self.tracks(i)
    }
}

/// All runs of loud steps in `levels`: those that have ended, and the one that
/// is still open at the end.
pub open spec fn runs_in(latency: u64, levels: Seq<u32>, threshold: u32) -> Seq<Run> {
    match crate::band::band_after(latency, levels, threshold).run {
        Some(run) => crate::band::ended_while(latency, levels, threshold).push(run),
        None => crate::band::ended_while(latency, levels, threshold),
    }
}

// ---------------------------------------------------------------------------
// Clicks
// ---------------------------------------------------------------------------

/// Where a recorded click is found, and that the other events stay.
proof fn lemma_recorded_event(s: Schedule, index: int, run: Run) -> (event: Event)
    requires
        crate::event::in_order(s.events),
        0 <= index < BAND_COUNT,
    ensures
        ({
            let next = s.click(index, run);
            &&& next.events.contains(event)
            &&& event.start_step == run.start_step
            // It is a new event, or one that was there before.
            &&& event == Event::blank(run.start_step).with_click(index, run) || exists|old_event: Event|
                #[trigger] s.events.contains(old_event) && old_event.start_step == run.start_step
                    && event == old_event.with_click(index, run)
            // Nothing else has changed.
            &&& forall|other: Event|
                other.start_step != run.start_step ==> (#[trigger] next.events.contains(other)
                    <==> s.events.contains(other))
            &&& forall|other: Event| #[trigger]
                next.events.contains(other) && other.start_step == run.start_step ==> other == event
            &&& forall|other: Event| #[trigger]
                s.events.contains(other) && other.start_step == run.start_step ==> event
                    == other.with_click(index, run)
        }),
{
    let next = s.click(index, run);
    let at = crate::event::place(s.events, run.start_step) as int;
    crate::event::lemma_place(s.events, run.start_step);
    if at < s.events.len() && s.events[at].start_step == run.start_step {
        let event = s.events[at].with_click(index, run);
        assert(next.events[at] == event);
        assert(s.events.contains(s.events[at]));
        assert forall|other: Event| other.start_step != run.start_step implies (
        #[trigger] next.events.contains(other) <==> s.events.contains(other)) by {
            if s.events.contains(other) {
                let k = choose|k: int| 0 <= k < s.events.len() && s.events[k] == other;
                assert(next.events[k] == other);
            }
            if next.events.contains(other) {
                let k = choose|k: int| 0 <= k < next.events.len() && next.events[k] == other;
                assert(s.events[k] == other);
            }
        }
        assert forall|other: Event| #[trigger]
            next.events.contains(other) && other.start_step == run.start_step implies other
            == event by {
            let k = choose|k: int| 0 <= k < next.events.len() && next.events[k] == other;
            if k != at {
                assert(s.events[k] == other);
                if k < at {
                    assert(s.events[k].start_step < s.events[at].start_step);
                } else {
                    assert(s.events[at].start_step < s.events[k].start_step);
                }
            }
        }
        assert forall|other: Event| #[trigger]
            s.events.contains(other) && other.start_step == run.start_step implies event
            == other.with_click(index, run) by {
            let k = choose|k: int| 0 <= k < s.events.len() && s.events[k] == other;
            if k < at {
                assert(s.events[k].start_step < s.events[at].start_step);
            } else if k > at {
                assert(s.events[at].start_step < s.events[k].start_step);
            }
        }
        event
    } else {
        let event = Event::blank(run.start_step).with_click(index, run);
        assert(next.events[at] == event);
        assert forall|k: int| 0 <= k < s.events.len() implies (#[trigger] s.events[k]).start_step
            != run.start_step by {
            if k > at {
                assert(s.events[at].start_step < s.events[k].start_step);
            }
        }
        assert forall|other: Event| other.start_step != run.start_step implies (
        #[trigger] next.events.contains(other) <==> s.events.contains(other)) by {
            if s.events.contains(other) {
                let k = choose|k: int| 0 <= k < s.events.len() && s.events[k] == other;
                if k < at {
                    assert(next.events[k] == other);
                } else {
                    assert(next.events[k + 1] == other);
                }
            }
            if next.events.contains(other) {
                let k = choose|k: int| 0 <= k < next.events.len() && next.events[k] == other;
                if k < at {
                    assert(s.events[k] == other);
                } else {
                    assert(s.events[k - 1] == other);
                }
            }
        }
        assert forall|other: Event| #[trigger]
            next.events.contains(other) && other.start_step == run.start_step implies other
            == event by {
            let k = choose|k: int| 0 <= k < next.events.len() && next.events[k] == other;
            if k < at {
                assert(s.events[k] == other);
            } else if k > at {
                assert(s.events[k - 1] == other);
            }
        }
        event
    }
}

/// More clicks explain no less.
proof fn lemma_still_explains(s: Schedule, next: Schedule, event: Event, index: int, run: Run)
    requires
        s.clicks.len() == BAND_COUNT,
        0 <= index < BAND_COUNT,
        next.clicks == s.clicks.update(index, s.clicks[index].push(run)),
        s.explains(event),
    ensures
        next.explains(event),
{
    assert forall|band: int| 0 <= band < BAND_COUNT && event.levels@[band]
        > 0 implies #[trigger] next.explains_level(event, band) by {
        assert(s.explains_level(event, band));
        let j = choose|j: int|
            0 <= j < s.clicks[band].len() && (#[trigger] s.clicks[band][j]).start_step
                == event.start_step && s.clicks[band][j].peak == event.levels@[band];
        assert(next.clicks[band][j] == s.clicks[band][j]);
    }
    let band = choose|band: int|
        0 <= band < BAND_COUNT && #[trigger] s.explains_length(event, band);
    let j = choose|j: int|
        0 <= j < s.clicks[band].len() && (#[trigger] s.clicks[band][j]).start_step
            == event.start_step && s.clicks[band][j].steps == event.steps;
    assert(next.clicks[band][j] == s.clicks[band][j]);
    assert(next.explains_length(event, band));
}

/// A click is entered into the books.
proof fn lemma_click_balanced(s: Schedule, index: int, run: Run)
    requires
        s.balanced(),
        crate::event::in_order(s.events),
        0 <= index < BAND_COUNT,
        run.steps >= 1,
        forall|i: int|
            0 <= i < s.group.len() ==> (#[trigger] s.group[i]).start_step != run.start_step,
        forall|i: int|
            0 <= i < s.closed.len() ==> (#[trigger] s.closed[i]).start_step != run.start_step,
    ensures
        s.click(index, run).balanced(),
{
    let next = s.click(index, run);
    let entered = lemma_recorded_event(s, index, run);
    let last = s.clicks[index].len() as int;
    assert(next.clicks[index][last] == run);
    assert(next.knows(entered));
    assert(accounts_for(entered, index, run));

    assert forall|band: int, j: int|
        0 <= band < BAND_COUNT && 0 <= j
            < next.clicks[band].len() implies #[trigger] next.has_booked(band, j) by {
        if band == index && j == last {
            assert(next.knows(entered) && accounts_for(entered, band, next.clicks[band][j]));
        } else {
            assert(next.clicks[band][j] == s.clicks[band][j]);
            assert(s.has_booked(band, j));
            let event = choose|event: Event| #[trigger]
                s.knows(event) && accounts_for(event, band, s.clicks[band][j]);
            if s.events.contains(event) && event.start_step == run.start_step {
                assert(entered == event.with_click(index, run));
                assert(next.knows(entered) && accounts_for(entered, band, next.clicks[band][j]));
            } else {
                assert(next.knows(event)) by {
                    if s.events.contains(event) {
                        assert(next.events.contains(event));
                    }
                }
            }
        }
    }

    assert forall|event: Event| #[trigger] next.knows(event) implies next.explains(event) by {
        if next.events.contains(event) && event.start_step == run.start_step {
            assert(event == entered);
            lemma_entered_is_explained(s, index, run, entered);
        } else {
            assert(s.knows(event)) by {
                if next.events.contains(event) {
                    assert(s.events.contains(event));
                }
            }
            lemma_still_explains(s, next, event, index, run);
        }
    }
}

/// The event that a click was entered into is explained.
proof fn lemma_entered_is_explained(s: Schedule, index: int, run: Run, entered: Event)
    requires
        s.balanced(),
        0 <= index < BAND_COUNT,
        run.steps >= 1,
        entered == Event::blank(run.start_step).with_click(index, run) || exists|old_event: Event|
            #[trigger] s.events.contains(old_event) && old_event.start_step == run.start_step
                && entered == old_event.with_click(index, run),
    ensures
        s.click(index, run).explains(entered),
{
    let next = s.click(index, run);
    let last = s.clicks[index].len() as int;
    assert(next.clicks[index][last] == run);
    if entered == Event::blank(run.start_step).with_click(index, run) {
        assert forall|band: int| 0 <= band < BAND_COUNT && entered.levels@[band]
            > 0 implies #[trigger] next.explains_level(entered, band) by {
            assert(band == index);
        }
        assert(next.explains_length(entered, index));
    } else {
        let old_event = choose|old_event: Event| #[trigger]
            s.events.contains(old_event) && old_event.start_step == run.start_step && entered
                == old_event.with_click(index, run);
        assert(s.knows(old_event));
        lemma_still_explains(s, next, old_event, index, run);
        assert forall|band: int| 0 <= band < BAND_COUNT && entered.levels@[band]
            > 0 implies #[trigger] next.explains_level(entered, band) by {
            if band == index && old_event.levels@[index] < run.peak {
                assert(next.clicks[band][last].peak == entered.levels@[band]);
            } else {
                assert(entered.levels@[band] == old_event.levels@[band]);
                assert(next.explains_level(old_event, band));
                let j = choose|j: int|
                    0 <= j < next.clicks[band].len() && (
                    #[trigger] next.clicks[band][j]).start_step == old_event.start_step
                        && next.clicks[band][j].peak == old_event.levels@[band];
                assert(next.clicks[band][j].start_step == entered.start_step);
            }
        }
        if old_event.steps < run.steps {
            assert(next.explains_length(entered, index));
        } else {
            let band = choose|band: int|
                0 <= band < BAND_COUNT && #[trigger] next.explains_length(old_event, band);
            let j = choose|j: int|
                0 <= j < next.clicks[band].len() && (#[trigger] next.clicks[band][j]).start_step
                    == old_event.start_step && next.clicks[band][j].steps == old_event.steps;
            assert(next.clicks[band][j].start_step == entered.start_step);
            assert(next.explains_length(entered, band));
        }
    }
}

/// The books depend on nothing but the clicks and the events.
proof fn lemma_same_books(s: Schedule, next: Schedule)
    requires
        s.balanced(),
        next.clicks == s.clicks,
        forall|event: Event| #[trigger] next.knows(event) <==> s.knows(event),
    ensures
        next.balanced(),
{
    assert forall|band: int, j: int|
        0 <= band < BAND_COUNT && 0 <= j
            < next.clicks[band].len() implies #[trigger] next.has_booked(band, j) by {
        assert(s.has_booked(band, j));
        let event = choose|event: Event| #[trigger]
            s.knows(event) && accounts_for(event, band, s.clicks[band][j]);
        assert(next.knows(event));
    }
    assert forall|event: Event| #[trigger] next.knows(event) implies next.explains(event) by {
        assert(s.knows(event));
        lemma_same_clicks_explain(s, next, event);
    }
}

proof fn lemma_same_clicks_explain(s: Schedule, next: Schedule, event: Event)
    requires
        next.clicks == s.clicks,
        s.explains(event),
    ensures
        next.explains(event),
{
    assert forall|band: int| 0 <= band < BAND_COUNT && event.levels@[band]
        > 0 implies #[trigger] next.explains_level(event, band) by {
        assert(s.explains_level(event, band));
        let j = choose|j: int|
            0 <= j < s.clicks[band].len() && (#[trigger] s.clicks[band][j]).start_step
                == event.start_step && s.clicks[band][j].peak == event.levels@[band];
        assert(next.clicks[band][j].start_step == event.start_step);
    }
    let band = choose|band: int|
        0 <= band < BAND_COUNT && #[trigger] s.explains_length(event, band);
    let j = choose|j: int|
        0 <= j < s.clicks[band].len() && (#[trigger] s.clicks[band][j]).start_step
            == event.start_step && s.clicks[band][j].steps == event.steps;
    assert(next.clicks[band][j].start_step == event.start_step);
    assert(next.explains_length(event, band));
}

/// One more level keeps the books.
proof fn lemma_hear_accounted(s: Schedule, index: int, level: u32)
    requires
        s.wf(),
        s.accounted(),
        !s.done,
        0 <= index < BAND_COUNT,
        s.heard[index].len() < s.horizon() + s.latencies[index],
    ensures
        s.hear(index, level).accounted(),
{
    let before = s.bands[index];
    let mid = Schedule {
        heard: s.heard.update(index, s.heard[index].push(level)),
        bands: s.bands.update(index, before.after(level, s.threshold)),
        ..s
    };
    let next = s.hear(index, level);
    assert(s.band_ok(index));
    assert forall|event: Event| #[trigger] mid.knows(event) <==> s.knows(event) by {}
    lemma_same_books(s, mid);
    match before.ended(level, s.threshold) {
        Some(run) => {
            assert(before.run matches Some(open) && open.start_step == run.start_step);
            assert forall|i: int| 0 <= i < mid.group.len() implies (
            #[trigger] mid.group[i]).start_step != run.start_step by {
                assert(s.is_past(s.group[i].start_step));
                assert(s.bands[index].steps_done == before.steps_done);
            }
            assert forall|i: int| 0 <= i < mid.closed.len() implies (
            #[trigger] mid.closed[i]).start_step != run.start_step by {
                assert(s.is_past(s.closed[i].start_step));
                assert(s.bands[index].steps_done == before.steps_done);
            }
            lemma_click_balanced(mid, index, run);
        },
        None => {},
    }
    assert forall|i: int| 0 <= i < BAND_COUNT implies #[trigger] next.tracks(i) by {
        assert(s.tracks(i));
        if i == index {
            let longer = s.heard[i].push(level);
            assert(longer.drop_last() =~= s.heard[i]);
            assert(longer.last() == level);
            assert(next.heard[i] == longer);
        }
    }
}

proof fn lemma_hear_each_accounted(s: Schedule, levels: Seq<u32>, count: nat)
    requires
        s.wf(),
        s.accounted(),
        !s.done,
        count <= BAND_COUNT,
        forall|i: int| #![trigger s.heard[i]]
            0 <= i < BAND_COUNT ==> s.heard[i].len() < s.horizon() + s.latencies[i],
    ensures
        s.hear_each(levels, count).accounted(),
    decreases count,
{
    if count > 0 {
        let index = count - 1;
        lemma_hear_each_accounted(s, levels, index as nat);
        crate::safety::lemma_hear_each(s, levels, index as nat);
        let mid = s.hear_each(levels, index as nat);
        assert(mid.heard[index] == s.heard[index]);
        lemma_hear_accounted(mid, index, levels[index]);
    }
}

proof fn lemma_hear_all_accounted(s: Schedule, index: int, levels: Seq<u32>)
    requires
        s.wf(),
        s.accounted(),
        !s.done,
        0 <= index < BAND_COUNT,
        s.heard[index].len() + levels.len() <= s.horizon() + s.latencies[index],
    ensures
        s.hear_all(index, levels).accounted(),
    decreases levels.len(),
{
    if levels.len() > 0 {
        lemma_hear_all_accounted(s, index, levels.drop_last());
        crate::safety::lemma_hear_all(s, index, levels.drop_last());
        lemma_hear_accounted(s.hear_all(index, levels.drop_last()), index, levels.last());
    }
}

proof fn lemma_flush_accounted(s: Schedule, tails: Seq<Seq<u32>>, count: nat)
    requires
        s.wf(),
        s.accounted(),
        s.ended,
        !s.done,
        s.in_step(),
        crate::safety::tails_ok(s.latencies, s.written, tails),
        count <= BAND_COUNT,
    ensures
        s.flush(tails, count).accounted(),
    decreases count,
{
    if count > 0 {
        let index = count - 1;
        lemma_flush_accounted(s, tails, index as nat);
        crate::safety::lemma_flush(s, tails, index as nat);
        let mid = s.flush(tails, index as nat);
        assert(mid.heard[index] == s.heard[index]);
        assert(tails[index].len() + s.heard[index].len() == s.horizon() + s.latencies[index]);
        lemma_hear_all_accounted(mid, index, tails[index]);
    }
}

/// When the open runs have ended, the clicks are all runs.
proof fn lemma_end_runs_accounted(s: Schedule, count: nat)
    requires
        s.wf(),
        s.accounted(),
        !s.done,
        count <= BAND_COUNT,
    ensures
        ({
            let next = s.end_runs(count);
            &&& next.balanced()
            &&& forall|i: int| 0 <= i < count ==> #[trigger] next.has_all_clicks(i)
            &&& forall|i: int| count <= i < BAND_COUNT ==> #[trigger] next.follows(i)
        }),
    decreases count,
{
    if count > 0 {
        let index = count - 1;
        lemma_end_runs_accounted(s, index as nat);
        crate::safety::lemma_end_runs(s, index as nat);
        let before = s.end_runs(index as nat);
        let next = s.end_runs(count);
        assert(before.follows(index));
        assert(before.band_ok(index));
        match before.bands[index].run {
            Some(run) => {
                let mid = Schedule {
                    bands: before.bands.update(
                        index,
                        Band { run: None, ..before.bands[index] },
                    ),
                    ..before
                };
                assert forall|event: Event| #[trigger] mid.knows(event) <==> before.knows(
                    event,
                ) by {}
                lemma_same_books(before, mid);
                assert forall|i: int| 0 <= i < mid.group.len() implies (
                #[trigger] mid.group[i]).start_step != run.start_step by {
                    assert(before.is_past(before.group[i].start_step));
                }
                assert forall|i: int| 0 <= i < mid.closed.len() implies (
                #[trigger] mid.closed[i]).start_step != run.start_step by {
                    assert(before.is_past(before.closed[i].start_step));
                }
                lemma_click_balanced(mid, index, run);
            },
            None => {},
        }
        assert forall|i: int| 0 <= i < count implies #[trigger] next.has_all_clicks(i) by {
            if i < index {
                assert(before.has_all_clicks(i));
            }
        }
        assert forall|i: int| count <= i < BAND_COUNT implies #[trigger] next.follows(i) by {
            assert(before.follows(i));
        }
    } else {
        assert forall|i: int| 0 <= i < BAND_COUNT implies #[trigger] s.follows(i) by {
            assert(s.tracks(i));
        }
    }
}

// ---------------------------------------------------------------------------
// Groups
// ---------------------------------------------------------------------------

/// Closing a group moves its events, and loses none.
proof fn lemma_close_group_knows(s: Schedule)
    ensures
        forall|event: Event| #[trigger] s.close_group().knows(event) <==> s.knows(event),
{
    let next = s.close_group();
    let count = s.closed.len() as int;
    assert forall|event: Event| #[trigger] next.knows(event) <==> s.knows(event) by {
        if s.closed.contains(event) {
            let k = choose|k: int| 0 <= k < s.closed.len() && s.closed[k] == event;
            assert(next.closed[k] == event);
        }
        if s.group.contains(event) {
            let k = choose|k: int| 0 <= k < s.group.len() && s.group[k] == event;
            assert(next.closed[count + k] == event);
        }
        if next.closed.contains(event) {
            let k = choose|k: int| 0 <= k < next.closed.len() && next.closed[k] == event;
            if k < count {
                assert(s.closed[k] == event);
            } else {
                assert(s.group[k - count] == event);
            }
        }
    }
}

/// Starting a group adds its event.
proof fn lemma_start_group_knows(s: Schedule, first: Event)
    requires
        s.group.len() == 0,
    ensures
        forall|event: Event| #[trigger]
            s.start_group(first).knows(event) <==> s.knows(event) || event == first,
{
    let next = s.start_group(first);
    assert(next.group[0] == first);
}

proof fn lemma_add_to_group_knows(s: Schedule, added: Event)
    requires
        crate::event::in_order(s.group),
    ensures
        forall|event: Event| #[trigger]
            s.add_to_group(added).knows(event) <==> s.knows(event) || event == added,
{
    if s.group.len() == 0 {
        lemma_start_group_knows(s, added);
    } else if s.can_join(added) {
        let next = s.add_to_group(added);
        let at = crate::event::place(s.group, added.start_step) as int;
        crate::event::lemma_place(s.group, added.start_step);
        assert forall|event: Event| #[trigger] next.knows(event) <==> s.knows(event) || event
            == added by {
            assert(next.group[at] == added);
            if s.group.contains(event) {
                let k = choose|k: int| 0 <= k < s.group.len() && s.group[k] == event;
                if k < at {
                    assert(next.group[k] == event);
                } else {
                    assert(next.group[k + 1] == event);
                }
            }
            if next.group.contains(event) && event != added {
                let k = choose|k: int| 0 <= k < next.group.len() && next.group[k] == event;
                if k < at {
                    assert(s.group[k] == event);
                } else {
                    assert(s.group[k - 1] == event);
                }
            }
        }
    } else {
        lemma_close_group_knows(s);
        lemma_start_group_knows(s.close_group(), added);
    }
}

proof fn lemma_release_knows(s: Schedule)
    requires
        s.wf(),
    ensures
        forall|event: Event| #[trigger] s.release().knows(event) <==> s.knows(event),
    decreases s.events.len(),
{
    if s.events.len() > 0 && s.event_is_final(s.events[0]) {
        crate::safety::lemma_release_first(s);
        lemma_release_knows(s.release_first());
        let first = s.events[0];
        let mid = Schedule { events: s.events.drop_first(), ..s };
        lemma_add_to_group_knows(mid, first);
        let next = s.release_first();
        assert forall|event: Event| #[trigger] s.release().knows(event) <==> s.knows(event) by {
            assert(s.release() == next.release());
            assert(next.release().knows(event) <==> next.knows(event));
            assert(next.knows(event) <==> mid.knows(event) || event == first);
            if s.events.contains(event) && event != first {
                let k = choose|k: int| 0 <= k < s.events.len() && s.events[k] == event;
                assert(mid.events[k - 1] == event);
            }
            if mid.events.contains(event) {
                let k = choose|k: int| 0 <= k < mid.events.len() && mid.events[k] == event;
                assert(s.events[k + 1] == event);
            }
        }
    }
}

/// Moving events on keeps the books.
proof fn lemma_moved_on(s: Schedule, next: Schedule)
    requires
        s.accounted(),
        crate::safety::same_detection(s, next),
        forall|event: Event| #[trigger] next.knows(event) <==> s.knows(event),
    ensures
        next.accounted(),
{
    lemma_same_books(s, next);
    assert forall|i: int| 0 <= i < BAND_COUNT implies #[trigger] next.tracks(i) by {
        assert(s.tracks(i));
    }
}

/// One more sample keeps the books.
pub proof fn lemma_push_accounted(s: Schedule, levels: Seq<u32>)
    requires
        s.ready(),
        s.accounted(),
        !s.done,
        s.written < MAX_SAMPLES,
        s.written - s.emitted < RING_CAPACITY,
    ensures
        s.push(levels).accounted(),
{
    crate::safety::lemma_push(s, levels);
    let stored = Schedule { written: s.written + 1, ..s };
    assert(stored.accounted()) by {
        assert forall|event: Event| #[trigger] stored.knows(event) <==> s.knows(event) by {}
        lemma_same_books(s, stored);
        assert forall|i: int| 0 <= i < BAND_COUNT implies #[trigger] stored.tracks(i) by {
            assert(s.tracks(i));
        }
    }
    lemma_hear_each_accounted(stored, levels, BAND_COUNT as nat);
    crate::safety::lemma_hear_each(stored, levels, BAND_COUNT as nat);
    let heard = stored.hear_each(levels, BAND_COUNT as nat);
    if s.closes_step() {
        lemma_release_knows(heard);
        crate::safety::lemma_release(heard);
        let released = heard.release();
        lemma_close_group_knows(released);
        lemma_moved_on(heard, released);
        lemma_moved_on(released, released.close_group());
    }
}

proof fn lemma_ended_accounted(s: Schedule)
    requires
        s.accounted(),
    ensures
        (Schedule { ended: true, ..s }).accounted(),
{
    let next = Schedule { ended: true, ..s };
    assert forall|event: Event| #[trigger] next.knows(event) <==> s.knows(event) by {}
    lemma_same_books(s, next);
    assert forall|i: int| 0 <= i < BAND_COUNT implies #[trigger] next.tracks(i) by {
        assert(s.tracks(i));
    }
}

/// The end of the input keeps the books.
pub proof fn lemma_finish_accounted(s: Schedule, tails: Seq<Seq<u32>>)
    requires
        s.ready(),
        s.accounted(),
        !s.done,
        crate::safety::tails_ok(s.latencies, s.written, tails),
    ensures
        s.finish(tails).accounted(),
{
    let start = Schedule { ended: true, ..s };
    crate::safety::lemma_ended(s);
    lemma_ended_accounted(s);
    let flushed = start.flush(tails, BAND_COUNT as nat);
    crate::safety::lemma_flush(start, tails, BAND_COUNT as nat);
    lemma_flush_accounted(start, tails, BAND_COUNT as nat);
    let ended = flushed.end_runs(BAND_COUNT as nat);
    crate::safety::lemma_end_runs(flushed, BAND_COUNT as nat);
    lemma_end_runs_accounted(flushed, BAND_COUNT as nat);
    let released = ended.release();
    crate::safety::lemma_release(ended);
    lemma_release_knows(ended);
    lemma_close_group_knows(released);
    let result = s.finish(tails);
    assert forall|event: Event| #[trigger] result.knows(event) <==> ended.knows(event) by {
        assert(released.knows(event) <==> ended.knows(event));
        assert(released.close_group().knows(event) <==> released.knows(event));
        assert(result.knows(event) <==> released.knows(event) || released.close_group().knows(
            event,
        ));
    }
    lemma_same_books(ended, result);
    assert forall|i: int| 0 <= i < BAND_COUNT implies #[trigger] result.tracks(i) by {
        assert(ended.has_all_clicks(i));
    }
}

/// Handing out a sample or applying a repair keeps the books.
pub proof fn lemma_output_accounted(s: Schedule, emitted: nat, performed: nat)
    requires
        s.accounted(),
    ensures
        (Schedule { emitted, performed, ..s }).accounted(),
{
    let next = Schedule { emitted, performed, ..s };
    assert forall|event: Event| #[trigger] next.knows(event) <==> s.knows(event) by {}
    lemma_same_books(s, next);
    assert forall|i: int| 0 <= i < BAND_COUNT implies #[trigger] next.tracks(i) by {
        assert(s.tracks(i));
    }
}

/// The books are empty before the first sample.
pub proof fn lemma_initial_accounted(latencies: Seq<u64>, threshold: u32)
    requires
        latencies.len() == BAND_COUNT,
    ensures
        Schedule::initial(latencies, threshold).accounted(),
{
    let s = Schedule::initial(latencies, threshold);
    assert forall|i: int| 0 <= i < BAND_COUNT implies #[trigger] s.tracks(i) by {}
}

// ---------------------------------------------------------------------------
// Laws
// ---------------------------------------------------------------------------

impl Schedule {
    /// The peaks of the steps that `band` has completed.
    pub open spec fn envelope(self, band: int) -> Seq<u32> {
        if self.heard[band].len() <= self.latencies[band] {
            Seq::empty()
        } else {
            crate::band::step_peaks(self.heard[band].skip(self.latencies[band] as int))
        }
    }

    /// Step number `step` exceeds the threshold in `band`.
    pub open spec fn is_loud(self, band: int, step: int) -> bool {
        &&& 0 <= step < self.envelope(band).len()
        &&& self.envelope(band)[step] > self.threshold
    }

    /// Repair number `k` covers all samples of step number `step`, of which the
    /// last step has fewer, and cuts
    /// `band` by no less than the step exceeds the threshold.
    pub open spec fn repairs_step(self, k: int, band: int, step: int) -> bool {
        &&& self.repairs[k].start <= step * STEP
        &&& crate::schedule::smaller((step + 1) * STEP, self.written as int) <= self.repairs[k].end
        &&& self.repairs[k].levels@[band] >= self.envelope(band)[step]
    }

    /// Step number `step` is loud in `band`, and no further away from sample
    /// `i` than a crossfade is long.
    pub open spec fn is_loud_around(self, band: int, step: int, i: int) -> bool {
        &&& self.is_loud(band, step)
        &&& step * STEP - CROSSFADE <= i < (step + 1) * STEP + CROSSFADE
    }

    /// Click number `j` of `band` starts in `step`.
    pub open spec fn starts_in(self, band: int, j: int, step: u64) -> bool {
        &&& 0 <= j < self.clicks[band].len()
        &&& self.clicks[band][j].start_step == step
    }
}

/// The clicks of a band are the runs of its envelope.
pub proof fn lemma_clicks_are_runs(s: Schedule, band: int)
    requires
        s.ready(),
        s.accounted(),
        0 <= band < BAND_COUNT,
    ensures
        s.done ==> s.clicks[band] == crate::band::all_runs(s.envelope(band), s.threshold),
        forall|j: int|
            0 <= j < s.clicks[band].len() ==> (#[trigger] s.clicks[band][j]).is_loud_stretch(
                s.envelope(band),
                s.threshold,
            ),
        forall|i: int, j: int|
            0 <= i < j < s.clicks[band].len() ==> (#[trigger] s.clicks[band][i]).start_step < (
            #[trigger] s.clicks[band][j]).start_step,
        forall|step: int| #[trigger]
            s.is_loud(band, step) && s.done ==> exists|j: int|
                0 <= j < s.clicks[band].len() && (#[trigger] s.clicks[band][j]).covers(step),
{
    let latency = s.latencies[band];
    let heard = s.heard[band];
    let envelope = s.envelope(band);
    let runs = crate::band::all_runs(envelope, s.threshold);
    assert(s.tracks(band));
    assert(s.band_ok(band)) by {
        let _ = s.bands[band];
    }
    crate::band::law_band_cuts_the_signal_into_steps(latency, heard, s.threshold);
    crate::band::law_runs_are_the_loud_steps(envelope, s.threshold);
    assert forall|j: int| 0 <= j < s.clicks[band].len() implies #[trigger] s.clicks[band][j]
        == runs[j] by {}
    assert forall|i: int, j: int| 0 <= i < j < s.clicks[band].len() implies (
    #[trigger] s.clicks[band][i]).start_step < (#[trigger] s.clicks[band][j]).start_step by {
        assert(runs[i].is_loud_stretch(envelope, s.threshold));
        assert(runs[i].end_step() <= runs[j].start_step);
    }
    assert forall|step: int| #[trigger] s.is_loud(band, step) && s.done implies exists|j: int|
        0 <= j < s.clicks[band].len() && (#[trigger] s.clicks[band][j]).covers(step) by {
        assert(envelope[step] > s.threshold);
        let j = choose|j: int| 0 <= j < runs.len() && (#[trigger] runs[j]).covers(step);
        assert(s.clicks[band][j].covers(step));
    }
}

/// Every band hears every sample exactly once, in order.
pub proof fn law_every_sample_is_heard(s: Schedule, levels: Seq<u32>, band: int)
    requires
        s.ready(),
        !s.done,
        s.written < MAX_SAMPLES,
        s.written - s.emitted < RING_CAPACITY,
        0 <= band < BAND_COUNT,
    ensures
        s.push(levels).heard[band] == s.heard[band].push(levels[band]),
        s.push(levels).threshold == s.threshold,
        s.push(levels).latencies == s.latencies,
{
    crate::safety::lemma_push(s, levels);
    let stored = Schedule { written: s.written + 1, ..s };
    crate::safety::lemma_hear_each(stored, levels, BAND_COUNT as nat);
    let heard = stored.hear_each(levels, BAND_COUNT as nat);
    crate::safety::lemma_advance(heard);
    assert(heard.heard[band] == stored.heard[band].push(levels[band]));
}

/// At the end of the input every band hears what its filter makes of the silence
/// that follows.
pub proof fn law_every_tail_is_heard(s: Schedule, tails: Seq<Seq<u32>>, band: int)
    requires
        s.ready(),
        !s.done,
        crate::safety::tails_ok(s.latencies, s.written, tails),
        0 <= band < BAND_COUNT,
    ensures
        s.finish(tails).heard[band] == s.heard[band] + tails[band],
        s.finish(tails).threshold == s.threshold,
        s.finish(tails).latencies == s.latencies,
{
    crate::safety::lemma_finish(s, tails);
    let start = Schedule { ended: true, ..s };
    crate::safety::lemma_ended(s);
    let flushed = start.flush(tails, BAND_COUNT as nat);
    crate::safety::lemma_flush(start, tails, BAND_COUNT as nat);
    let ended = flushed.end_runs(BAND_COUNT as nat);
    crate::safety::lemma_end_runs(flushed, BAND_COUNT as nat);
    crate::safety::lemma_release(ended);
    assert(flushed.heard[band] == s.heard[band] + tails[band]);
}

/// Every step of the input is analysed, in every band; the last one as if
/// silence followed.
pub proof fn law_every_step_is_analysed(s: Schedule, band: int)
    requires
        s.ready(),
        s.done,
        0 <= band < BAND_COUNT,
    ensures
        s.envelope(band).len() == (s.written + STEP - 1) / STEP as int,
        s.envelope(band).len() * STEP >= s.written,
{
    assert(s.heard[band].len() == crate::schedule::padded(s.written) + s.latencies[band]);
}

/// No sibilant is missed: when the input has ended, every loud step of every
/// band is covered by a repair that cuts the band by no less than the step
/// exceeds the threshold.
pub proof fn law_every_loud_step_is_repaired(s: Schedule, band: int, step: int)
    requires
        s.ready(),
        s.accounted(),
        s.done,
        0 <= band < BAND_COUNT,
        s.is_loud(band, step),
    ensures
        exists|k: int| 0 <= k < s.repairs.len() && #[trigger] s.repairs_step(k, band, step),
{
    lemma_clicks_are_runs(s, band);
    let j = choose|j: int|
        0 <= j < s.clicks[band].len() && (#[trigger] s.clicks[band][j]).covers(step);
    let click = s.clicks[band][j];
    assert(s.envelope(band)[step] <= click.peak);
    assert(s.has_booked(band, j));
    let event = choose|event: Event| #[trigger]
        s.knows(event) && accounts_for(event, band, s.clicks[band][j]);
    assert(s.closed.contains(event));
    let k = choose|k: int| 0 <= k < s.closed.len() && s.closed[k] == event;
    assert(s.repair_ok(k)) by {
        let _ = s.repairs[k];
    }
    assert(s.repairs_step(k, band, step));
}

/// Every repair is made of clicks: it repairs one event, cuts each band by the
/// level of the click of that band that starts with the event, if there is
/// one, and is as long as the longest of these clicks.
pub proof fn law_every_repair_is_made_of_clicks(s: Schedule, k: int)
    requires
        s.ready(),
        s.accounted(),
        0 <= k < s.repairs.len(),
    ensures
        crate::safety::fits(s.repairs[k], s.closed[k], s.written),
        forall|band: int, j: int|
            0 <= band < BAND_COUNT && #[trigger] s.starts_in(band, j, s.closed[k].start_step) ==> {
                &&& s.clicks[band][j].peak == s.repairs[k].levels@[band]
                &&& s.clicks[band][j].steps <= s.closed[k].steps
            },
        forall|band: int|
            0 <= band < BAND_COUNT && #[trigger] s.repairs[k].levels@[band] > 0 ==> exists|j: int|
                #[trigger] s.starts_in(band, j, s.closed[k].start_step),
        exists|band: int, j: int|
            0 <= band < BAND_COUNT && #[trigger] s.starts_in(band, j, s.closed[k].start_step)
                && s.clicks[band][j].steps == s.closed[k].steps,
{
    let event = s.closed[k];
    assert(s.repair_ok(k)) by {
        let _ = s.repairs[k];
    }
    assert(s.knows(event));
    assert(s.explains(event));
    assert forall|band: int, j: int|
        0 <= band < BAND_COUNT && #[trigger] s.starts_in(
            band,
            j,
            event.start_step,
        ) implies s.clicks[band][j].peak == event.levels@[band] && s.clicks[band][j].steps
        <= event.steps by {
        lemma_clicks_are_runs(s, band);
        assert(s.has_booked(band, j));
        let booked = choose|booked: Event| #[trigger]
            s.knows(booked) && accounts_for(booked, band, s.clicks[band][j]);
        lemma_one_event_per_step(s, k, booked);
        let peak = s.clicks[band][j].peak;
        assert(s.clicks[band][j].is_loud_stretch(s.envelope(band), s.threshold));
        assert(peak > 0) by {
            let first = s.clicks[band][j].start_step as int;
            assert(s.clicks[band][j].covers(first));
            assert(s.envelope(band)[first] > s.threshold);
        }
        assert(event.levels@[band] >= peak);
        assert(s.explains_level(event, band));
        let other = choose|other: int|
            0 <= other < s.clicks[band].len() && (#[trigger] s.clicks[band][other]).start_step
                == event.start_step && s.clicks[band][other].peak == event.levels@[band];
        if other < j {
            assert(s.clicks[band][other].start_step < s.clicks[band][j].start_step);
        } else if j < other {
            assert(s.clicks[band][j].start_step < s.clicks[band][other].start_step);
        }
    }
    assert forall|band: int|
        0 <= band < BAND_COUNT && #[trigger] s.repairs[k].levels@[band] > 0 implies exists|j: int|
        #[trigger] s.starts_in(band, j, event.start_step) by {
        assert(s.explains_level(event, band));
        let j = choose|j: int|
            0 <= j < s.clicks[band].len() && (#[trigger] s.clicks[band][j]).start_step
                == event.start_step && s.clicks[band][j].peak == event.levels@[band];
        assert(s.starts_in(band, j, event.start_step));
    }
    let band = choose|band: int|
        0 <= band < BAND_COUNT && #[trigger] s.explains_length(event, band);
    let j = choose|j: int|
        0 <= j < s.clicks[band].len() && (#[trigger] s.clicks[band][j]).start_step
            == event.start_step && s.clicks[band][j].steps == event.steps;
    assert(s.starts_in(band, j, event.start_step));
}

/// The event of a repair is the only one that starts where it starts.
proof fn lemma_one_event_per_step(s: Schedule, k: int, event: Event)
    requires
        s.ready(),
        0 <= k < s.closed.len(),
        s.knows(event),
        event.start_step == s.closed[k].start_step,
    ensures
        event == s.closed[k],
{
    assert(s.is_past(s.closed[k].start_step));
    if s.events.contains(event) {
        let i = choose|i: int| 0 <= i < s.events.len() && s.events[i] == event;
        assert(s.events[i].start_step != s.closed[k].start_step);
    } else if s.group.contains(event) {
        let i = choose|i: int| 0 <= i < s.group.len() && s.group[i] == event;
        assert(s.group[i].start_step != s.closed[k].start_step);
    } else {
        let i = choose|i: int| 0 <= i < s.closed.len() && s.closed[i] == event;
        if i < k {
            assert(s.closed[i].start_step != s.closed[k].start_step);
        } else if k < i {
            assert(s.closed[k].start_step != s.closed[i].start_step);
        }
    }
}

/// Nothing but sibilants is touched: a repair only reaches samples that are no
/// further away from a loud step than a crossfade is long.
pub proof fn law_repairs_stay_around_loud_steps(s: Schedule, k: int, i: int)
    requires
        s.ready(),
        s.accounted(),
        0 <= k < s.repairs.len(),
        s.repairs[k].start <= i < s.repairs[k].end,
    ensures
        exists|band: int, step: int|
            0 <= band < BAND_COUNT && #[trigger] s.is_loud_around(band, step, i),
{
    law_every_repair_is_made_of_clicks(s, k);
    let event = s.closed[k];
    let (band, j) = choose|band: int, j: int|
        0 <= band < BAND_COUNT && #[trigger] s.starts_in(band, j, event.start_step)
            && s.clicks[band][j].steps == event.steps;
    lemma_clicks_are_runs(s, band);
    let click = s.clicks[band][j];
    assert(click.is_loud_stretch(s.envelope(band), s.threshold));
    // The step that `i` lies in, or else the first or last step of the click.
    let step = if i < click.start_step * STEP {
        click.start_step as int
    } else if i >= click.end_step() * STEP {
        click.end_step() - 1
    } else {
        i / STEP as int
    };
    assert(click.covers(step));
    assert(s.envelope(band)[step] > s.threshold);
    assert(s.is_loud_around(band, step, i));
}

/// A quiet signal is left alone: as long as no level that describes the input
/// exceeds the threshold, there is nothing to repair.
pub proof fn law_quiet_signal_needs_no_repair(s: Schedule)
    requires
        s.ready(),
        s.accounted(),
        forall|band: int, n: int|
            0 <= band < BAND_COUNT && s.latencies[band] <= n < s.heard[band].len()
                ==> #[trigger] s.heard[band][n] <= s.threshold,
    ensures
        s.repairs.len() == 0,
{
    if s.repairs.len() > 0 {
        assert(s.repair_ok(0)) by {
            let _ = s.repairs[0];
        }
        law_repairs_stay_around_loud_steps(s, 0, s.repairs[0].start as int);
        let (band, step) = choose|band: int, step: int|
            0 <= band < BAND_COUNT && #[trigger] s.is_loud_around(
                band,
                step,
                s.repairs[0].start as int,
            );
        let heard = s.heard[band].skip(s.latencies[band] as int);
        let part = heard.subrange(step * STEP, (step + 1) * STEP);
        assert forall|n: int| 0 <= n < part.len() implies #[trigger] part[n] <= s.threshold by {
            assert(part[n] == s.heard[band][s.latencies[band] + step * STEP + n]);
        }
        crate::band::lemma_loudest(part, s.threshold);
    }
}

/// When a group is closed, each of its events gets a repair, and the repairs come
/// in the order of time.
pub proof fn law_a_group_is_repaired_in_order(s: Schedule, i: int, j: int)
    requires
        s.wf(),
        0 <= i < j < s.group.len(),
    ensures
        ({
            let next = s.close_group();
            let first = s.repairs.len();
            &&& next.repairs.len() == first + s.group.len()
            &&& next.repairs[first + i] == crate::schedule::repair_of(s.group[i], s.written)
            &&& next.repairs[first + i].start < next.repairs[first + j].start
        }),
{
    assert(s.group[i].start_step < s.group[j].start_step);
    assert(s.event_ok(s.group[i]) && s.event_ok(s.group[j]));
}

/// Closing a group repairs each of its events from 220 samples before its first
/// step to 220 samples after its last, as far as there are samples, and with the
/// levels that it has; repairs that were ordered before come first.
pub proof fn law_a_repair_reaches_over_the_crossfades(s: Schedule, i: int)
    requires
        s.wf(),
        0 <= i < s.group.len(),
    ensures
        ({
            let next = s.close_group();
            let event = s.group[i];
            let repair = next.repairs[s.repairs.len() + i];
            let end = 441 * (event.start_step + event.steps) + 220;
            &&& 441 * event.start_step >= 220 ==> repair.start == 441 * event.start_step - 220
            &&& 441 * event.start_step < 220 ==> repair.start == 0
            &&& end <= s.written ==> repair.end == end
            &&& end > s.written ==> repair.end == s.written
            &&& repair.levels == event.levels
            &&& next.repairs.take(s.repairs.len() as int) == s.repairs
            &&& next.group.len() == 0
        }),
{
    assert(s.event_ok(s.group[i]));
    assert(s.close_group().repairs.take(s.repairs.len() as int) =~= s.repairs);
}

/// Events that overlap are repaired together, unless they would reach over more
/// than 88200 samples: an event joins the group if it begins before the group
/// ends, both with their crossfades, and if the group stays short enough.  Else
/// the group is closed, and the event starts another one.
pub proof fn law_overlapping_events_form_a_group(s: Schedule, event: Event)
    requires
        crate::event::in_order(s.group),
        s.group.len() > 0,
        forall|i: int|
            0 <= i < s.group.len() ==> (#[trigger] s.group[i]).start_step != event.start_step,
    ensures
        ({
            let next = s.add_to_group(event);
            let start = if 441 * event.start_step < 220 {
                0
            } else {
                441 * event.start_step - 220
            };
            let end = 441 * (event.start_step + event.steps) + 220;
            let first = if start < s.group_start {
                start
            } else {
                s.group_start
            };
            let last = if end < s.group_end {
                s.group_end
            } else {
                end
            };
            if start < s.group_end && last - first <= 88_200 {
                &&& next.closed == s.closed
                &&& next.repairs == s.repairs
                &&& next.group.len() == s.group.len() + 1
                &&& forall|other: Event| #[trigger]
                    next.group.contains(other) <==> s.group.contains(other) || other == event
                &&& crate::event::in_order(next.group)
                &&& next.group_start == first
                &&& next.group_end == last
            } else {
                &&& next.closed == s.closed + s.group
                &&& next.repairs == s.close_group().repairs
                &&& next.group == seq![event]
                &&& next.group_start == start
                &&& next.group_end == end
            }
        }),
{
    if s.can_join(event) {
        let next = s.add_to_group(event);
        let at = crate::event::place(s.group, event.start_step) as int;
        crate::event::lemma_place(s.group, event.start_step);
        assert(next.group[at] == event);
        assert forall|other: Event| #[trigger] next.group.contains(other) <==> s.group.contains(
            other,
        ) || other == event by {
            if s.group.contains(other) {
                let k = choose|k: int| 0 <= k < s.group.len() && s.group[k] == other;
                if k < at {
                    assert(next.group[k] == other);
                } else {
                    assert(next.group[k + 1] == other);
                }
            }
            if next.group.contains(other) && other != event {
                let k = choose|k: int| 0 <= k < next.group.len() && next.group[k] == other;
                if k < at {
                    assert(s.group[k] == other);
                } else {
                    assert(s.group[k - 1] == other);
                }
            }
        }
        assert forall|i: int, j: int| 0 <= i < j < next.group.len() implies (
        #[trigger] next.group[i]).start_step < (#[trigger] next.group[j]).start_step by {
            if i < at {
                assert(next.group[i] == s.group[i]);
            } else if i > at {
                assert(next.group[i] == s.group[i - 1]);
            }
            if j < at {
                assert(next.group[j] == s.group[j]);
            } else if j > at {
                assert(next.group[j] == s.group[j - 1]);
            }
        }
    }
}

/// Clicks that begin with the same step form an event: it is as long as the
/// longest of them and has the peak of each band.  Recording a click changes no
/// other event, and keeps the events in the order of time.
pub proof fn law_clicks_that_begin_together_form_an_event(
    events: Seq<Event>,
    band: int,
    run: Run,
    other: Event,
)
    requires
        crate::event::in_order(events),
        0 <= band < 10,
    ensures
        ({
            let next = crate::event::recorded(events, band, run);
            &&& crate::event::in_order(next)
            &&& other.start_step != run.start_step ==> (next.contains(other) <==> events.contains(
                other,
            ))
            &&& next.contains(other) && other.start_step == run.start_step ==> {
                &&& other.steps >= run.steps
                &&& other.levels@[band] >= run.peak
                &&& (forall|i: int|
                    0 <= i < events.len() ==> (#[trigger] events[i]).start_step
                        != run.start_step) ==> {
                    &&& other.steps == run.steps
                    &&& other.levels@[band] == run.peak
                    &&& forall|b: int|
                        0 <= b < 10 && b != band ==> #[trigger] other.levels@[b] == 0
                }
            }
            &&& events.contains(other) && other.start_step == run.start_step ==> exists|event: Event|
                {
                    &&& #[trigger] next.contains(event)
                    &&& event.start_step == run.start_step
                    &&& event.steps == other.steps || event.steps == run.steps
                    &&& event.steps >= other.steps && event.steps >= run.steps
                    &&& event.levels@[band] == other.levels@[band] || event.levels@[band]
                        == run.peak
                    &&& event.levels@[band] >= other.levels@[band] && event.levels@[band]
                        >= run.peak
                    &&& forall|b: int|
                        0 <= b < 10 && b != band ==> #[trigger] event.levels@[b]
                            == other.levels@[b]
                }
            &&& exists|event: Event| #[trigger]
                next.contains(event) && event.start_step == run.start_step
        }),
{
    let next = crate::event::recorded(events, band, run);
    let at = crate::event::place(events, run.start_step) as int;
    crate::event::lemma_place(events, run.start_step);
    let event = next[at];
    assert(next.contains(event));
    if at < events.len() && events[at].start_step == run.start_step {
        assert forall|i: int, j: int| 0 <= i < j < next.len() implies (
        #[trigger] next[i]).start_step < (#[trigger] next[j]).start_step by {
            assert(events[i].start_step < events[j].start_step);
        }
        if events.contains(other) {
            let k = choose|k: int| 0 <= k < events.len() && events[k] == other;
            if k != at {
                assert(next[k] == other);
                if k < at {
                    assert(events[k].start_step < events[at].start_step);
                } else {
                    assert(events[at].start_step < events[k].start_step);
                }
            }
        }
        if next.contains(other) {
            let k = choose|k: int| 0 <= k < next.len() && next[k] == other;
            if k != at {
                assert(events[k] == other);
                if k < at {
                    assert(events[k].start_step < events[at].start_step);
                } else {
                    assert(events[at].start_step < events[k].start_step);
                }
            }
        }
    } else {
        assert forall|k: int| 0 <= k < events.len() implies (#[trigger] events[k]).start_step
            != run.start_step by {
            if k > at {
                assert(events[at].start_step < events[k].start_step);
            }
        }
        assert forall|i: int, j: int| 0 <= i < j < next.len() implies (
        #[trigger] next[i]).start_step < (#[trigger] next[j]).start_step by {
            if i < at {
                assert(next[i] == events[i]);
            } else if i > at {
                assert(next[i] == events[i - 1]);
            }
            if j < at {
                assert(next[j] == events[j]);
            } else if j > at {
                assert(next[j] == events[j - 1]);
            }
        }
        if events.contains(other) {
            let k = choose|k: int| 0 <= k < events.len() && events[k] == other;
            if k < at {
                assert(next[k] == other);
            } else {
                assert(next[k + 1] == other);
            }
        }
        if next.contains(other) {
            let k = choose|k: int| 0 <= k < next.len() && next[k] == other;
            if k < at {
                assert(events[k] == other);
            } else if k > at {
                assert(events[k - 1] == other);
            }
        }
    }
}

// ---------------------------------------------------------------------------
// Laws of the look-ahead
// ---------------------------------------------------------------------------

/// A final event is complete: whatever a band hears next adds nothing to it,
/// and it stays final.
pub proof fn law_final_events_are_complete(s: Schedule, event: Event, index: int, level: u32)
    requires
        s.wf(),
        !s.done,
        0 <= index < BAND_COUNT,
        s.heard[index].len() < s.horizon() + s.latencies[index],
        s.events.contains(event),
        s.event_is_final(event),
    ensures
        s.hear(index, level).events.contains(event),
        s.hear(index, level).event_is_final(event),
{
    let next = s.hear(index, level);
    let before = s.bands[index];
    assert(s.band_ok(index));
    match before.ended(level, s.threshold) {
        Some(run) => {
            assert(before.run matches Some(open) && open.start_step == run.start_step);
            let _ = lemma_recorded_event(s, index, run);
            assert(next.events == s.click(index, run).events);
        },
        None => {},
    }
    crate::safety::lemma_slowest(s.bands);
    crate::safety::lemma_slowest(next.bands);
    let i = choose|i: int|
        0 <= i < next.bands.len() && crate::schedule::slowest(next.bands) == (
        #[trigger] next.bands[i]).steps_done;
    assert(s.bands[i].steps_done <= next.bands[i].steps_done);
    assert forall|k: int| 0 <= k < next.bands.len() implies ((
    #[trigger] next.bands[k]).run matches Some(run) ==> run.start_step != event.start_step) by {
        assert(s.bands[k].steps_done > event.start_step);
    }
}

/// The first step in which a correction could still start does not move back
/// while a band hears.
proof fn lemma_hear_earliest(s: Schedule, index: int, level: u32)
    requires
        s.wf(),
        !s.done,
        0 <= index < BAND_COUNT,
        s.heard[index].len() < s.horizon() + s.latencies[index],
    ensures
        s.hear(index, level).earliest_step() >= s.earliest_step(),
{
    let next = s.hear(index, level);
    let before = s.bands[index];
    assert(s.band_ok(index));
    crate::safety::lemma_earliest_bounds(s);
    assert forall|i: int| 0 <= i < BAND_COUNT implies (#[trigger] next.bands[i]).steps_done
        >= s.earliest_step() && (next.bands[i].run matches Some(run) ==> run.start_step
        >= s.earliest_step()) by {
        assert(s.bands[i].steps_done >= s.earliest_step());
    }
    match before.ended(level, s.threshold) {
        Some(run) => {
            assert(before.run matches Some(open) && open.start_step == run.start_step);
            lemma_click_earliest(s, next, index, run);
        },
        None => {},
    }
    lemma_earliest_is_a_bound(next, s.earliest_step());
}

/// A click of a run that was open is not too early.
proof fn lemma_click_earliest(s: Schedule, next: Schedule, index: int, run: Run)
    requires
        crate::event::in_order(s.events),
        0 <= index < BAND_COUNT,
        next.events == s.click(index, run).events,
        run.start_step >= s.earliest_step(),
    ensures
        next.events.len() > 0 ==> next.events[0].start_step >= s.earliest_step(),
{
    let _ = lemma_recorded_event(s, index, run);
    if next.events.len() > 0 {
        let first = next.events[0];
        assert(next.events.contains(first));
        if first.start_step != run.start_step {
            assert(s.click(index, run).events.contains(first));
            assert(s.events.contains(first));
            let k = choose|k: int| 0 <= k < s.events.len() && s.events[k] == first;
            if k > 0 {
                assert(s.events[0].start_step < s.events[k].start_step);
            }
        }
    }
}

/// A bound on everything that a correction could start with is a bound on the
/// earliest of them.
proof fn lemma_earliest_is_a_bound(s: Schedule, bound: int)
    requires
        s.bands.len() == BAND_COUNT,
        forall|i: int|
            0 <= i < BAND_COUNT ==> (#[trigger] s.bands[i]).steps_done >= bound && (
            s.bands[i].run matches Some(run) ==> run.start_step >= bound),
        s.events.len() > 0 ==> s.events[0].start_step >= bound,
    ensures
        s.earliest_step() >= bound,
{
    let slow = crate::schedule::slowest(s.bands);
    crate::safety::lemma_slowest(s.bands);
    crate::safety::lemma_first_open(s.bands, slow);
    let i = choose|i: int| 0 <= i < s.bands.len() && slow == (#[trigger] s.bands[i]).steps_done;
    assert(s.bands[i].steps_done >= bound);
    let first = crate::schedule::first_open(s.bands, slow);
    if first != slow {
        let k = choose|k: int|
            0 <= k < s.bands.len() && ((#[trigger] s.bands[k]).run matches Some(run) && first
                == run.start_step);
        assert(s.bands[k].steps_done >= bound);
    }
}

proof fn lemma_hear_each_earliest(s: Schedule, levels: Seq<u32>, count: nat)
    requires
        s.wf(),
        !s.done,
        count <= BAND_COUNT,
        forall|i: int| #![trigger s.heard[i]]
            0 <= i < BAND_COUNT ==> s.heard[i].len() < s.horizon() + s.latencies[i],
    ensures
        s.hear_each(levels, count).earliest_step() >= s.earliest_step(),
    decreases count,
{
    if count > 0 {
        let index = count - 1;
        lemma_hear_each_earliest(s, levels, index as nat);
        crate::safety::lemma_hear_each(s, levels, index as nat);
        let mid = s.hear_each(levels, index as nat);
        assert(mid.heard[index] == s.heard[index]);
        lemma_hear_earliest(mid, index, levels[index]);
    }
}

proof fn lemma_hear_all_earliest(s: Schedule, index: int, levels: Seq<u32>)
    requires
        s.wf(),
        !s.done,
        0 <= index < BAND_COUNT,
        s.heard[index].len() + levels.len() <= s.horizon() + s.latencies[index],
    ensures
        s.hear_all(index, levels).earliest_step() >= s.earliest_step(),
    decreases levels.len(),
{
    if levels.len() > 0 {
        lemma_hear_all_earliest(s, index, levels.drop_last());
        crate::safety::lemma_hear_all(s, index, levels.drop_last());
        lemma_hear_earliest(s.hear_all(index, levels.drop_last()), index, levels.last());
    }
}

proof fn lemma_flush_earliest(s: Schedule, tails: Seq<Seq<u32>>, count: nat)
    requires
        s.wf(),
        s.ended,
        !s.done,
        s.in_step(),
        crate::safety::tails_ok(s.latencies, s.written, tails),
        count <= BAND_COUNT,
    ensures
        s.flush(tails, count).earliest_step() >= s.earliest_step(),
    decreases count,
{
    if count > 0 {
        let index = count - 1;
        lemma_flush_earliest(s, tails, index as nat);
        crate::safety::lemma_flush(s, tails, index as nat);
        let mid = s.flush(tails, index as nat);
        assert(mid.heard[index] == s.heard[index]);
        assert(tails[index].len() + s.heard[index].len() == s.horizon() + s.latencies[index]);
        lemma_hear_all_earliest(mid, index, tails[index]);
    }
}

proof fn lemma_end_runs_earliest(s: Schedule, count: nat)
    requires
        s.wf(),
        count <= BAND_COUNT,
    ensures
        s.end_runs(count).earliest_step() >= s.earliest_step(),
    decreases count,
{
    if count > 0 {
        let index = count - 1;
        lemma_end_runs_earliest(s, index as nat);
        crate::safety::lemma_end_runs(s, index as nat);
        let before = s.end_runs(index as nat);
        let next = s.end_runs(count);
        crate::safety::lemma_earliest_bounds(before);
        assert forall|i: int| 0 <= i < BAND_COUNT implies (#[trigger] next.bands[i]).steps_done
            >= before.earliest_step() && (next.bands[i].run matches Some(run) ==> run.start_step
            >= before.earliest_step()) by {
            assert(before.bands[i].steps_done >= before.earliest_step());
        }
        match before.bands[index].run {
            Some(run) => {
                assert(before.bands[index].run matches Some(open) && before.earliest_step()
                    <= open.start_step);
                lemma_click_earliest(before, next, index, run);
            },
            None => {},
        }
        lemma_earliest_is_a_bound(next, before.earliest_step());
    }
}

/// What is known afterwards and was not known before was found meanwhile.
proof fn lemma_new_events_are_late(s: Schedule, heard: Schedule, event: Event)
    requires
        crate::safety::same_output(s, heard),
        heard.wf(),
        heard.earliest_step() >= s.earliest_step(),
        heard.knows(event),
        !s.knows(event),
    ensures
        event.span_start() >= s.earliest_future_correction(),
{
    assert(heard.events.contains(event));
    let k = choose|k: int| 0 <= k < heard.events.len() && heard.events[k] == event;
    crate::safety::lemma_earliest_bounds(heard);
    assert(heard.events[k].start_step >= heard.earliest_step());
}

/// The earliest future correction is what it says: an event that comes to be
/// known with the next sample starts no earlier, and neither does one that
/// comes to be known at the end of the input.
pub proof fn law_future_corrections_come_later(
    s: Schedule,
    levels: Seq<u32>,
    tails: Seq<Seq<u32>>,
    event: Event,
)
    requires
        s.ready(),
        !s.done,
        s.written < MAX_SAMPLES,
        s.written - s.emitted < RING_CAPACITY,
        crate::safety::tails_ok(s.latencies, s.written, tails),
        !s.knows(event),
    ensures
        s.push(levels).knows(event) ==> event.span_start() >= s.earliest_future_correction(),
        s.finish(tails).knows(event) ==> event.span_start() >= s.earliest_future_correction(),
{
    if s.push(levels).knows(event) {
        crate::safety::lemma_push(s, levels);
        let stored = Schedule { written: s.written + 1, ..s };
        lemma_hear_each_earliest(stored, levels, BAND_COUNT as nat);
        crate::safety::lemma_hear_each(stored, levels, BAND_COUNT as nat);
        let heard = stored.hear_each(levels, BAND_COUNT as nat);
        lemma_release_knows(heard);
        lemma_close_group_knows(heard.release());
        assert(heard.release().close_group().knows(event) <==> heard.release().knows(event));
        assert(heard.release().knows(event) <==> heard.knows(event));
        lemma_new_events_are_late(stored, heard, event);
        assert(stored.earliest_step() == s.earliest_step());
    }
    if s.finish(tails).knows(event) {
        let start = Schedule { ended: true, ..s };
        crate::safety::lemma_ended(s);
        assert(start.earliest_step() == s.earliest_step());
        let flushed = start.flush(tails, BAND_COUNT as nat);
        crate::safety::lemma_flush(start, tails, BAND_COUNT as nat);
        lemma_flush_earliest(start, tails, BAND_COUNT as nat);
        let ended = flushed.end_runs(BAND_COUNT as nat);
        crate::safety::lemma_end_runs(flushed, BAND_COUNT as nat);
        lemma_end_runs_earliest(flushed, BAND_COUNT as nat);
        let released = ended.release();
        lemma_release_knows(ended);
        lemma_close_group_knows(released);
        assert(released.close_group().knows(event) <==> released.knows(event));
        assert(released.knows(event) <==> ended.knows(event));
        assert(s.finish(tails).knows(event) ==> released.knows(event)
            || released.close_group().knows(event));
        lemma_new_events_are_late(start, ended, event);
    }
}

/// An event is final as soon as all bands have completed the step with which it
/// begins, and no run that began with that step is still open.
pub proof fn law_an_event_is_final_once_its_clicks_have_ended(s: Schedule, event: Event)
    requires
        s.wf(),
    ensures
        s.event_is_final(event) <==> forall|band: int|
            0 <= band < 10 ==> (#[trigger] s.bands[band]).steps_done > event.start_step && !(
            s.bands[band].run matches Some(run) && run.start_step == event.start_step),
{
    crate::safety::lemma_slowest(s.bands);
}

/// A sample is handed out as soon as no correction can reach it any more: none
/// that starts with a step that some band has not completed, with a run that is
/// still open, or with an event that is waiting, and none of the group.  When the
/// input has ended, all samples are.
pub proof fn law_samples_are_held_back_no_longer_than_needed(s: Schedule, i: int)
    requires
        s.wf(),
        0 <= i < s.written,
    ensures
        s.done ==> i < s.safe_limit(),
        !s.done ==> (i < s.safe_limit() <==> {
            &&& forall|band: int|
                0 <= band < 10 ==> i + 220 < 441 * (#[trigger] s.bands[band]).steps_done && (
                s.bands[band].run matches Some(run) ==> i + 220 < 441 * run.start_step)
            &&& forall|k: int|
                0 <= k < s.events.len() ==> i + 220 < 441 * (#[trigger] s.events[k]).start_step
            &&& s.group.len() > 0 ==> i < s.group_start
        }),
        s.safe_limit() <= s.written,
{
    if !s.done {
        let earliest = s.earliest_step();
        let slow = crate::schedule::slowest(s.bands);
        crate::safety::lemma_earliest_bounds(s);
        crate::safety::lemma_slowest(s.bands);
        crate::safety::lemma_first_open(s.bands, slow);
        let first = crate::schedule::first_open(s.bands, slow);
        if i + 220 < 441 * earliest {
            assert forall|band: int| 0 <= band < 10 implies i + 220 < 441 * (
            #[trigger] s.bands[band]).steps_done && (s.bands[band].run matches Some(run) ==> i
                + 220 < 441 * run.start_step) by {
                assert(earliest <= s.bands[band].steps_done);
            }
            assert forall|k: int| 0 <= k < s.events.len() implies i + 220 < 441 * (
            #[trigger] s.events[k]).start_step by {
                if k > 0 {
                    assert(s.events[0].start_step < s.events[k].start_step);
                }
            }
        } else {
            // The earliest step is that of a band, a run or an event.
            let b = choose|b: int|
                0 <= b < s.bands.len() && slow == (#[trigger] s.bands[b]).steps_done;
            if earliest == slow {
                assert(s.bands[b].steps_done == earliest);
            } else if earliest == first {
                let k = choose|k: int|
                    0 <= k < s.bands.len() && ((#[trigger] s.bands[k]).run matches Some(run)
                        && first == run.start_step);
                assert(s.bands[k].run matches Some(run) && earliest == run.start_step);
            } else {
                assert(s.events[0].start_step == earliest);
            }
        }
    }
}

/// Between two samples everything is decided that can be: the first event that
/// is waiting has a run that is still open, or begins with a step that some band
/// has not completed; and as long as a group is not closed, a correction that
/// does not exist yet could still overlap it.
pub proof fn law_nothing_waits_without_need(s: Schedule)
    requires
        s.ready(),
        !s.done,
    ensures
        s.events.len() > 0 ==> exists|band: int|
            0 <= band < 10 && ((#[trigger] s.bands[band]).steps_done <= s.events[0].start_step || (
            s.bands[band].run matches Some(run) && run.start_step == s.events[0].start_step)),
        s.group.len() > 0 ==> s.group_end > 0 && !(s.group_end <= s.written && {
            &&& forall|band: int|
                0 <= band < 10 ==> s.group_end + 220 <= 441 * (
                #[trigger] s.bands[band]).steps_done && (s.bands[band].run matches Some(run)
                    ==> s.group_end + 220 <= 441 * run.start_step)
            &&& forall|k: int|
                0 <= k < s.events.len() ==> s.group_end + 220 <= 441 * (
                #[trigger] s.events[k]).start_step
        }),
{
    if s.events.len() > 0 {
        law_an_event_is_final_once_its_clicks_have_ended(s, s.events[0]);
    }
    if s.group.len() > 0 {
        assert(s.event_ok(s.group[0]));
        assert(s.group_end > 0);
        let slow = crate::schedule::slowest(s.bands);
        crate::safety::lemma_slowest(s.bands);
        crate::safety::lemma_first_open(s.bands, slow);
        let first = crate::schedule::first_open(s.bands, slow);
        let b = choose|b: int| 0 <= b < s.bands.len() && slow == (#[trigger] s.bands[b]).steps_done;
        let earliest = s.earliest_step();
        if earliest == slow {
            assert(s.bands[b].steps_done == earliest);
        } else if earliest == first {
            let k = choose|k: int|
                0 <= k < s.bands.len() && ((#[trigger] s.bands[k]).run matches Some(run) && first
                    == run.start_step);
            assert(s.bands[k].run matches Some(run) && earliest == run.start_step);
        } else {
            assert(s.events[0].start_step == earliest);
        }
    }
}

/// The last step is filled up with silence, and nothing more.
pub proof fn law_the_last_step_is_filled_up(written: nat)
    ensures
        crate::schedule::padded(written) % 441 == 0,
        written <= crate::schedule::padded(written) < written + 441,
{
}

} // verus!
