//! The de-esser itself: it takes samples, and hands them out again once no
//! correction can reach them any more.
//!
//! # What the algorithm does
//!
//! This is not a compressor with attack and release times.  It works in two
//! stages, "detect events, then repair them":
//!
//! 1. **Detection.**  The analysed range is split into sub bands.  Each sub
//!    band is isolated with a band-pass filter, and the peak magnitude of the
//!    filtered signal is measured over blocks of 10 ms ("steps").  A run of
//!    consecutive steps whose peak exceeds the threshold is a *click*.
//!
//! 2. **Repair.**  Clicks that start in the same step form an *event*; events
//!    that overlap (after both ends are widened by the 5 ms crossfade) form a
//!    *group*.  For every event, the corresponding excerpt of the input is
//!    passed through a cascade of filters - one per sub band that fired.  The
//!    difference between the filtered and the original excerpt is faded in and
//!    out with a trapezoid and added to the output.
//!
//! # How it stays within a fixed amount of memory
//!
//! Samples flow through a ring buffer.  The detector runs ahead of the output,
//! and a sample is only handed out once no future correction can reach it any
//! more, which is decided by the safe limit.  Two limits keep the look-ahead
//! bounded on dense material: a single run is cut after `MAX_RUN_STEPS`, and a
//! group is closed after `MAX_GROUP_SAMPLES`.  Nothing here scales with the
//! length of the input.
//!
//! # Who does what
//!
//! The arithmetic of the samples is left to the caller and comes in as
//! functions.  The caller asks [`DeEsser::next`] what to do, and does it.

use crate::band::{Band, STEP};
use crate::dsp::{Biquad, Fir};
use crate::event::{Event, Repair, BAND_COUNT, CROSSFADE};
use crate::ring::SampleRing;
use crate::schedule::{
    Schedule, MAX_EXCERPT, MAX_GROUP_SAMPLES, MAX_LATENCY, MAX_SAMPLES, RING_CAPACITY,
};
use std::collections::VecDeque;
use vstd::prelude::*;

verus! {

/// What to do next.
pub enum Action<T> {
    /// Hand out this sample; nothing will modify it any more.
    Emit(T),
    /// Apply the next correction with [`DeEsser::repair`].
    Repair,
    /// Nothing is ready: take another sample with [`DeEsser::push_input`], or
    /// finish with [`DeEsser::finish_stream`] if there is none.
    Input,
    /// All samples have been handed out.
    Finished,
}

/// The de-esser.  See the module documentation.
pub struct DeEsser<T> {
    /// The band-pass filter of each band.
    firs: Vec<Fir<T>>,
    /// Silence.
    zero: T,
    /// Group delay of the band-pass filter of each band, in samples.
    latencies: Vec<u64>,
    bands: Vec<Band>,
    /// Detection threshold, as a level.
    threshold: u32,
    /// Audio that has been taken but not yet handed out.  The repair stage
    /// writes its corrections directly into this buffer.
    ring: SampleRing<T>,
    /// Absolute index of the next sample to be handed out.
    emit_index: u64,
    /// Detected events that are not part of a group yet, ordered by
    /// `start_step`.
    events: VecDeque<Event>,
    /// Events of the group currently being collected.
    group: Vec<Event>,
    /// Sample range covered by `group`, including crossfades.
    group_start: u64,
    group_end: u64,
    /// Corrections of closed groups that have not been applied yet.
    pending: VecDeque<Repair>,
    /// The input is exhausted and the tail has been flushed.
    input_done: bool,
    /// The state that all of the above stands for.
    model: Ghost<Schedule>,
    /// All samples taken so far, as they came.
    input: Ghost<Seq<T>>,
    /// All samples taken so far, with the corrections applied so far.
    signal: Ghost<Seq<T>>,
    /// All samples handed out so far.
    output: Ghost<Seq<T>>,
}

impl<T> DeEsser<T> {
    /// What has been detected, decided and handed out.
    pub closed spec fn schedule(&self) -> Schedule {
        self.model@
    }

    /// All samples taken so far, as they came.
    pub closed spec fn taken(&self) -> Seq<T> {
        self.input@
    }

    /// All samples taken so far, with the corrections applied so far.
    pub closed spec fn corrected(&self) -> Seq<T> {
        self.signal@
    }

    /// The coefficients of the band-pass filter of each band.
    pub closed spec fn kernels(&self) -> Seq<Seq<T>> {
        kernels_of(self.firs@)
    }

    /// Silence.
    pub closed spec fn silence(&self) -> T {
        self.zero
    }

    /// All samples handed out so far.
    pub closed spec fn handed_out(&self) -> Seq<T> {
        self.output@
    }

    /// The fields are those of the model.
    spec fn agrees(&self) -> bool {
        let model = self.model@;
        &&& self.latencies@ == model.latencies
        &&& self.bands@ == model.bands
        &&& self.threshold == model.threshold
        &&& self.ring.written() == model.written
        &&& self.emit_index == model.emitted
        &&& self.events@ == model.events
        &&& self.group@ == model.group
        &&& self.group.len() > 0 ==> self.group_start == model.group_start && self.group_end
            == model.group_end
        &&& model.performed <= model.repairs.len()
        &&& self.pending@ == model.repairs.skip(model.performed as int)
        &&& self.input_done == model.done
    }

    /// The ring holds the end of the corrected signal, and its beginning has
    /// been handed out.
    spec fn audio_ok(&self) -> bool {
        &&& self.ring.wf()
        &&& self.ring.size() == RING_CAPACITY
        &&& self.input@.len() == self.model@.written
        &&& self.signal@.len() == self.model@.written
        &&& self.output@ == self.signal@.take(self.model@.emitted as int)
        &&& forall|i: int|
            self.ring.holds(i) ==> #[trigger] self.ring.sample(i) == self.signal@[i]
        &&& forall|i: int|
            0 <= i < self.model@.written && !touched(self.model@, i)
                ==> #[trigger] self.signal@[i] == self.input@[i]
    }

    /// What holds of everything behind the band-pass filters.
    spec fn core_ok(&self) -> bool {
        &&& self.model@.ready()
        &&& self.model@.accounted()
        &&& self.agrees()
        &&& self.audio_ok()
    }

    /// The filters delay as much as the bands expect, and as long as there is
    /// input they have heard nothing but that.
    spec fn filters_ok(&self) -> bool {
        &&& self.firs@.len() == BAND_COUNT
        &&& self.latencies@ == latencies_of(kernels_of(self.firs@))
        &&& forall|i: int|
            0 <= i < BAND_COUNT ==> {
                &&& (#[trigger] self.firs@[i]).wf()
                &&& !self.model@.done ==> self.firs@[i].window() == crate::dsp::recent(
                    self.input@,
                    self.zero,
                    self.firs@[i].coefficients().len(),
                )
            }
    }

    /// What holds between two calls.
    pub closed spec fn wf(&self) -> bool {
        &&& self.core_ok()
        &&& self.filters_ok()
    }
}

/// The coefficients of some filters.
spec fn kernels_of<T>(firs: Seq<Fir<T>>) -> Seq<Seq<T>> {
    firs.map_values(|fir: Fir<T>| fir.coefficients())
}

/// The group delays of symmetric filters: half their length.
pub open spec fn latencies_of<T>(kernels: Seq<Seq<T>>) -> Seq<u64> {
    kernels.map_values(|taps: Seq<T>| (taps.len() / 2) as u64)
}

/// The coefficients in `kernels`.
pub open spec fn taps_of<T>(kernels: Seq<Vec<T>>) -> Seq<Seq<T>> {
    kernels.map_values(|taps: Vec<T>| taps@)
}

/// A correction that has been applied covers sample `i`.
pub open spec fn touched(schedule: Schedule, i: int) -> bool {
    exists|k: int|
        0 <= k < schedule.performed && (#[trigger] schedule.repairs[k]).start <= i
            < schedule.repairs[k].end
}

// ---------------------------------------------------------------------------
// Detection and grouping
// ---------------------------------------------------------------------------

impl<T: Copy> DeEsser<T> {
    /// A de-esser that has taken nothing yet.
    ///
    /// `kernels` are the coefficients of the band-pass filters, which are
    /// symmetric, so that they delay the signal by half their length;
    /// `threshold` is the level above which a step is loud.
    pub fn new(kernels: Vec<Vec<T>>, threshold: u32, zero: T) -> (deesser: DeEsser<T>)
        requires
            kernels@.len() == BAND_COUNT,
            forall|i: int|
                0 <= i < BAND_COUNT ==> 0 < (#[trigger] kernels@[i])@.len() && kernels@[i]@.len()
                    / 2 <= MAX_LATENCY,
        ensures
            deesser.wf(),
            deesser.kernels() == taps_of(kernels@),
            deesser.silence() == zero,
            deesser.schedule() == Schedule::initial(latencies_of(taps_of(kernels@)), threshold),
            deesser.taken() == Seq::<T>::empty(),
            deesser.corrected() == Seq::<T>::empty(),
            deesser.handed_out() == Seq::<T>::empty(),
    {
        let ghost taps = taps_of(kernels@);
        let ghost delays = latencies_of(taps);
        let mut left = kernels;
        let mut firs: Vec<Fir<T>> = Vec::new();
        let mut latencies: Vec<u64> = Vec::new();
        let mut bands: Vec<Band> = Vec::new();
        let mut index: usize = 0;
        assert(left@ =~= kernels@.skip(0));
        while index < BAND_COUNT
            invariant
                index <= BAND_COUNT,
                kernels@.len() == BAND_COUNT,
                taps == taps_of(kernels@),
                delays == latencies_of(taps),
                left@ == kernels@.skip(index as int),
                forall|i: int|
                    0 <= i < BAND_COUNT ==> 0 < (#[trigger] kernels@[i])@.len()
                        && kernels@[i]@.len() / 2 <= MAX_LATENCY,
                firs@.len() == index,
                forall|i: int|
                    0 <= i < index ==> {
                        &&& (#[trigger] firs@[i]).wf()
                        &&& firs@[i].coefficients() == taps[i]
                        &&& firs@[i].window() == Seq::new(taps[i].len(), |age: int| zero)
                    },
                latencies@ == delays.take(index as int),
                bands@ == Seq::new(index as nat, |i: int| Band::silent(delays[i])),
            decreases BAND_COUNT - index,
        {
            let kernel = left.remove(0);
            let latency = (kernel.len() / 2) as u64;
            assert(kernel == kernels@[index as int]);
            assert(latency == delays[index as int]);
            latencies.push(latency);
            bands.push(Band::new(latency));
            firs.push(Fir::new(kernel, zero));
            index = index + 1;
            assert(left@ =~= kernels@.skip(index as int));
            assert(latencies@ =~= delays.take(index as int));
            assert(bands@ =~= Seq::new(index as nat, |i: int| Band::silent(delays[i])));
        }
        let ghost model = Schedule::initial(delays, threshold);
        let deesser = DeEsser {
            firs,
            zero,
            latencies,
            bands,
            threshold,
            ring: SampleRing::new(RING_CAPACITY, zero),
            emit_index: 0,
            events: VecDeque::new(),
            group: Vec::new(),
            group_start: 0,
            group_end: 0,
            pending: VecDeque::new(),
            input_done: false,
            model: Ghost(model),
            input: Ghost(Seq::empty()),
            signal: Ghost(Seq::empty()),
            output: Ghost(Seq::empty()),
        };
        proof {
            assert(delays.take(BAND_COUNT as int) =~= delays);
            assert(kernels_of(firs@) =~= taps);
            crate::safety::lemma_initial(delays, threshold);
            crate::accounting::lemma_initial_accounted(delays, threshold);
            assert(deesser.output@ =~= deesser.signal@.take(0));
            assert(deesser.pending@ =~= model.repairs.skip(0));
            assert forall|i: int| 0 <= i < BAND_COUNT implies (#[trigger] firs@[i]).window()
                == crate::dsp::recent(Seq::empty(), zero, firs@[i].coefficients().len()) by {
                assert(firs@[i].window() =~= crate::dsp::recent(
                    Seq::empty(),
                    zero,
                    firs@[i].coefficients().len(),
                ));
            }
        }
        deesser
    }

    /// Number of steps that *every* band has finished.  Bands with a longer
    /// filter lag behind, so this is the position of the slowest one.
    fn detector_steps_done(&self) -> (steps: u64)
        requires
            self.bands@.len() == BAND_COUNT,
        ensures
            steps == crate::schedule::slowest(self.bands@),
    {
        let mut steps: u64 = self.bands[0].steps_done;
        let mut index: usize = 1;
        proof {
            assert(self.bands@.take(1)[0] == self.bands@[0]);
        }
        while index < self.bands.len()
            invariant
                1 <= index <= self.bands@.len(),
                steps == crate::schedule::slowest(self.bands@.take(index as int)),
            decreases self.bands@.len() - index,
        {
            proof {
                let longer = self.bands@.take(index + 1);
                assert(longer.drop_last() =~= self.bands@.take(index as int));
                assert(longer.last() == self.bands@[index as int]);
            }
            if self.bands[index].steps_done < steps {
                steps = self.bands[index].steps_done;
            }
            index = index + 1;
        }
        assert(self.bands@.take(self.bands@.len() as int) =~= self.bands@);
        steps
    }

    /// Earliest sample that a correction which does not exist yet could still
    /// touch.  Everything before it is final.
    fn earliest_future_correction(&self) -> (earliest: u64)
        requires
            self.agrees(),
            self.model@.wf(),
        ensures
            earliest == self.model@.earliest_future_correction(),
    {
        // A brand new run could start at the first step nobody has processed.
        let slow = self.detector_steps_done();
        let mut earliest: u64 = slow;

        // Runs that are already open start earlier than that.
        let mut index: usize = 0;
        while index < self.bands.len()
            invariant
                index <= self.bands@.len(),
                earliest == crate::schedule::first_open(
                    self.bands@.take(index as int),
                    slow as int,
                ),
            decreases self.bands@.len() - index,
        {
            proof {
                let longer = self.bands@.take(index + 1);
                assert(longer.drop_last() =~= self.bands@.take(index as int));
                assert(longer.last() == self.bands@[index as int]);
            }
            if let Some(run) = self.bands[index].run {
                if run.start_step < earliest {
                    earliest = run.start_step;
                }
            }
            index = index + 1;
        }
        assert(self.bands@.take(self.bands@.len() as int) =~= self.bands@);

        // So do events that are waiting to be finalised (the queue is sorted,
        // so the front is the earliest).
        if self.events.len() > 0 && self.events[0].start_step < earliest {
            earliest = self.events[0].start_step;
        }
        proof {
            crate::safety::lemma_slowest(self.bands@);
            crate::safety::lemma_first_open(self.bands@, slow as int);
            assert(self.model@.band_ok(0)) by {
                let _ = self.model@.bands[0];
            }
            assert(slow <= self.bands@[0].steps_done);
        }
        (earliest * STEP).saturating_sub(CROSSFADE)
    }

    /// An event is final when no band can still add a click to it: all bands
    /// have processed its starting step, and none of them has a run open that
    /// started there.
    fn event_is_final(&self, event: &Event) -> (is_final: bool)
        requires
            self.agrees(),
            self.model@.wf(),
        ensures
            is_final == self.model@.event_is_final(*event),
    {
        if self.detector_steps_done() <= event.start_step {
            return false;
        }
        let mut index: usize = 0;
        while index < self.bands.len()
            invariant
                self.agrees(),
                index <= self.bands@.len(),
                forall|i: int|
                    0 <= i < index ==> ((#[trigger] self.model@.bands[i]).run matches Some(run)
                        ==> run.start_step != event.start_step),
            decreases self.bands@.len() - index,
        {
            if let Some(run) = self.bands[index].run {
                if run.start_step == event.start_step {
                    assert(!(self.model@.bands[index as int].run matches Some(run)
                        ==> run.start_step != event.start_step));
                    return false;
                }
            }
            index = index + 1;
        }
        true
    }

    /// Orders the corrections of all events of the current group, then clears
    /// the group.
    ///
    /// Events are processed in time order and the correction is written back
    /// into the ring, so an event that overlaps an earlier one automatically
    /// sees the already corrected signal.  The detector has long since heard
    /// these samples, so modifying them does not feed back into detection.
    fn close_group(&mut self)
        requires
            old(self).agrees(),
            old(self).model@.wf(),
        ensures
            final(self).agrees(),
            final(self).model@ == old(self).model@.close_group(),
            final(self).ring == old(self).ring,
            final(self).input == old(self).input,
            final(self).signal == old(self).signal,
            final(self).output == old(self).output,
            final(self).firs == old(self).firs,
            final(self).zero == old(self).zero,
    {
        let ghost before = self.model@;
        let ghost ordered = before.group.map_values(
            |event: Event| crate::schedule::repair_of(event, before.written),
        );
        let written = self.ring.write_index();
        let mut index: usize = 0;
        while index < self.group.len()
            invariant
                index <= self.group@.len(),
                before == old(self).model@,
                before.wf(),
                self.group@ == before.group,
                ordered == before.group.map_values(
                    |event: Event| crate::schedule::repair_of(event, before.written),
                ),
                written == before.written,
                self.pending@ == old(self).pending@ + ordered.take(index as int),
                *self == (DeEsser { pending: self.pending, ..*old(self) }),
            decreases self.group@.len() - index,
        {
            let event = self.group[index];
            assert(before.event_ok(before.group[index as int]));
            let (start, reach) = event.span();
            // The tail of the last event can reach past the end of the file.
            let end = if reach < written {
                reach
            } else {
                written
            };
            let repair = Repair { start, end, levels: event.levels };
            assert(repair == ordered[index as int]);
            self.pending.push_back(repair);
            index = index + 1;
            assert(ordered.take(index as int) =~= ordered.take(index - 1).push(repair));
        }
        self.group.clear();
        proof {
            self.model@ = before.close_group();
            assert(ordered.take(index as int) =~= ordered);
            assert(self.pending@ =~= self.model@.repairs.skip(self.model@.performed as int));
        }
    }

    /// Moves a final event into the current group, or starts a new group with
    /// it.
    fn add_to_group(&mut self, event: Event)
        requires
            old(self).agrees(),
            old(self).model@.wf(),
            old(self).model@.event_ok(event),
        ensures
            final(self).agrees(),
            final(self).model@ == old(self).model@.add_to_group(event),
            final(self).ring == old(self).ring,
            final(self).input == old(self).input,
            final(self).signal == old(self).signal,
            final(self).output == old(self).output,
            final(self).firs == old(self).firs,
            final(self).zero == old(self).zero,
    {
        let (start, end) = event.span();
        if !self.group.is_empty() {
            let joined_start = if self.group_start < start {
                self.group_start
            } else {
                start
            };
            let joined_end = if self.group_end < end {
                end
            } else {
                self.group_end
            };
            let overlaps = start < self.group_end;
            if overlaps && joined_end - joined_start <= MAX_GROUP_SAMPLES {
                crate::event::join_group(&mut self.group, event);
                self.group_start = joined_start;
                self.group_end = joined_end;
                proof {
                    self.model@ = old(self).model@.add_to_group(event);
                }
                return;
            }
            // Either there is a gap, or the chain has grown too long to be
            // repaired as one unit.  Close it and start a new one.

            self.close_group();
        }
        let ghost before = self.model@;
        self.group_start = start;
        self.group_end = end;
        self.group.push(event);
        proof {
            self.model@ = before.start_group(event);
            assert(self.group@ =~= seq![event]);
        }
    }

    /// Moves finalised events into the current group.
    fn release(&mut self)
        requires
            old(self).agrees(),
            old(self).model@.wf(),
        ensures
            final(self).agrees(),
            final(self).model@ == old(self).model@.release(),
            final(self).model@.wf(),
            final(self).ring == old(self).ring,
            final(self).input == old(self).input,
            final(self).signal == old(self).signal,
            final(self).output == old(self).output,
            final(self).firs == old(self).firs,
            final(self).zero == old(self).zero,
    {
        proof {
            crate::safety::lemma_release(self.model@);
        }
        while self.events.len() > 0
            invariant_except_break
                self.agrees(),
                self.model@.wf(),
                self.model@.release() == old(self).model@.release(),
                self.ring == old(self).ring,
                self.input == old(self).input,
                self.signal == old(self).signal,
                self.output == old(self).output,
                self.firs == old(self).firs,
                self.zero == old(self).zero,
            ensures
                self.agrees(),
                self.model@ == old(self).model@.release(),
                self.model@.wf(),
                self.ring == old(self).ring,
                self.input == old(self).input,
                self.signal == old(self).signal,
                self.output == old(self).output,
                self.firs == old(self).firs,
                self.zero == old(self).zero,
            decreases self.events@.len(),
        {
            let event = self.events[0];
            if !self.event_is_final(&event) {
                break ;
            }
            let ghost before = self.model@;
            let _ = self.events.pop_front();
            proof {
                assert(before.event_ok(before.events[0]));
                crate::safety::lemma_release_first(before);
                self.model@ = Schedule { events: before.events.drop_first(), ..before };
                assert(self.events@ =~= before.events.drop_first());
                crate::safety::lemma_without_first(before);
            }
            self.add_to_group(event);
        }
    }

    /// Moves finalised events into the current group and closes the group as
    /// soon as it is certain that nothing else can join it.
    fn advance_grouping(&mut self)
        requires
            old(self).agrees(),
            old(self).model@.wf(),
        ensures
            final(self).agrees(),
            final(self).model@ == old(self).model@.advance(),
            final(self).ring == old(self).ring,
            final(self).input == old(self).input,
            final(self).signal == old(self).signal,
            final(self).output == old(self).output,
            final(self).firs == old(self).firs,
            final(self).zero == old(self).zero,
    {
        self.release();
        if !self.group.is_empty() && self.earliest_future_correction() >= self.group_end {
            self.close_group();
        }
    }
}

// ---------------------------------------------------------------------------
// Input and output
// ---------------------------------------------------------------------------

/// The levels in `tails`.
pub open spec fn levels_of(tails: Seq<Vec<u32>>) -> Seq<Seq<u32>> {
    tails.map_values(|tail: Vec<u32>| tail@)
}

/// `level` is the level of what the filter with the coefficients `taps` makes
/// of `signal` at its last sample.
pub open spec fn hears<T, F: Fn(T, T, T) -> T, L: Fn(T) -> u32>(
    multiply_add: F,
    measure: L,
    zero: T,
    taps: Seq<T>,
    signal: Seq<T>,
    level: u32,
) -> bool {
    exists|sum: T|
        {
            &&& #[trigger] crate::dsp::sums_to(
                multiply_add,
                taps,
                crate::dsp::recent(signal, zero, taps.len()),
                zero,
                sum,
            )
            &&& call_ensures(measure, (sum,), level)
        }
}

/// `levels` are the levels of what the filter of each band makes of `signal` at
/// its last sample.
pub open spec fn hears_each<T, F: Fn(T, T, T) -> T, L: Fn(T) -> u32>(
    multiply_add: F,
    measure: L,
    zero: T,
    kernels: Seq<Seq<T>>,
    signal: Seq<T>,
    levels: Seq<u32>,
) -> bool {
    &&& levels.len() == kernels.len()
    &&& forall|i: int|
        0 <= i < kernels.len() ==> #[trigger] hears(
            multiply_add,
            measure,
            zero,
            kernels[i],
            signal,
            levels[i],
        )
}

/// `signal`, followed by `count` samples of silence.
pub open spec fn followed<T>(signal: Seq<T>, zero: T, count: nat) -> Seq<T> {
    signal + Seq::new(count, |i: int| zero)
}

/// `levels` are the levels of what a filter makes of the silence after
/// `signal`, one for each sample of silence.
pub open spec fn hears_tail<T, F: Fn(T, T, T) -> T, L: Fn(T) -> u32>(
    multiply_add: F,
    measure: L,
    zero: T,
    taps: Seq<T>,
    signal: Seq<T>,
    levels: Seq<u32>,
) -> bool {
    forall|k: int|
        0 <= k < levels.len() ==> #[trigger] hears(
            multiply_add,
            measure,
            zero,
            taps,
            followed(signal, zero, (k + 1) as nat),
            levels[k],
        )
}

/// `tails` are the levels of what the filter of each band makes of the silence
/// after `signal`.
pub open spec fn hears_silence<T, F: Fn(T, T, T) -> T, L: Fn(T) -> u32>(
    multiply_add: F,
    measure: L,
    zero: T,
    kernels: Seq<Seq<T>>,
    signal: Seq<T>,
    tails: Seq<Seq<u32>>,
) -> bool {
    &&& tails.len() == kernels.len()
    &&& forall|i: int|
        0 <= i < kernels.len() ==> #[trigger] hears_tail(
            multiply_add,
            measure,
            zero,
            kernels[i],
            signal,
            tails[i],
        )
}

/// Feeds `count` samples of silence to a filter that has heard `signal`.
fn flush_filter<T: Copy, F: Fn(T, T, T) -> T, L: Fn(T) -> u32>(
    fir: &mut Fir<T>,
    zero: T,
    count: u64,
    multiply_add: &F,
    measure: &L,
    Ghost(signal): Ghost<Seq<T>>,
) -> (levels: Vec<u32>)
    requires
        old(fir).wf(),
        old(fir).window() == crate::dsp::recent(signal, zero, old(fir).coefficients().len()),
        forall|a: T, b: T, c: T| call_requires(*multiply_add, (a, b, c)),
        forall|a: T| call_requires(*measure, (a,)),
    ensures
        final(fir).wf(),
        final(fir).coefficients() == old(fir).coefficients(),
        levels@.len() == count,
        hears_tail(*multiply_add, *measure, zero, old(fir).coefficients(), signal, levels@),
{
    let ghost taps = fir.coefficients();
    let mut levels: Vec<u32> = Vec::new();
    let mut fed: u64 = 0;
    assert(followed(signal, zero, 0) =~= signal);
    while fed < count
        invariant
            fed <= count,
            levels@.len() == fed,
            fir.wf(),
            taps == fir.coefficients(),
            taps == old(fir).coefficients(),
            fir.window() == crate::dsp::recent(
                followed(signal, zero, fed as nat),
                zero,
                taps.len(),
            ),
            forall|a: T, b: T, c: T| call_requires(*multiply_add, (a, b, c)),
            forall|a: T| call_requires(*measure, (a,)),
            hears_tail(*multiply_add, *measure, zero, taps, signal, levels@),
        decreases count - fed,
    {
        let ghost so_far = followed(signal, zero, fed as nat);
        let ghost longer = followed(signal, zero, (fed + 1) as nat);
        proof {
            fir.lemma_not_empty();
            crate::dsp::lemma_recent(so_far, zero, taps.len(), zero);
            assert(longer =~= so_far.push(zero));
        }
        let filtered = fir.process(zero, zero, multiply_add);
        let level = measure(filtered);
        let ghost before = levels@;
        levels.push(level);
        proof {
            assert(hears(*multiply_add, *measure, zero, taps, longer, level));
            assert forall|k: int| 0 <= k < levels@.len() implies #[trigger] hears(
                *multiply_add,
                *measure,
                zero,
                taps,
                followed(signal, zero, (k + 1) as nat),
                levels@[k],
            ) by {
                if k < before.len() {
                    assert(hears(
                        *multiply_add,
                        *measure,
                        zero,
                        taps,
                        followed(signal, zero, (k + 1) as nat),
                        before[k],
                    ));
                }
            }
        }
        fed = fed + 1;
    }
    levels
}

impl<T: Copy> DeEsser<T> {
    /// Band `index` hears one more level; a run that ends with it becomes part
    /// of an event.
    fn hear(&mut self, index: usize, level: u32) -> (step_closed: bool)
        requires
            old(self).agrees(),
            old(self).model@.wf(),
            !old(self).model@.done,
            index < BAND_COUNT,
            old(self).model@.heard[index as int].len() < old(self).model@.horizon()
                + old(self).model@.latencies[index as int],
        ensures
            final(self).agrees(),
            final(self).model@ == old(self).model@.hear(index as int, level),
            final(self).model@.wf(),
            step_closed == old(self).model@.bands[index as int].closes_step(),
            final(self).ring == old(self).ring,
            final(self).input == old(self).input,
            final(self).signal == old(self).signal,
            final(self).output == old(self).output,
            final(self).firs == old(self).firs,
            final(self).zero == old(self).zero,
    {
        let ghost before = self.model@;
        proof {
            assert(before.band_ok(index as int));
            crate::safety::lemma_hear(before, index as int, level);
        }
        let mut band = self.bands[index];
        let update = band.accept(level, self.threshold);
        self.bands[index] = band;
        if let Some(run) = update.finished_run {
            crate::event::record_click(&mut self.events, index, run);
        }
        proof {
            self.model@ = before.hear(index as int, level);
            assert(self.bands@ =~= self.model@.bands);
        }
        update.step_closed
    }

    /// Stores one input sample and runs its levels through all band detectors.
    fn take(&mut self, sample: T, levels: &Vec<u32>)
        requires
            old(self).core_ok(),
            !old(self).model@.done,
            old(self).model@.written < MAX_SAMPLES,
            old(self).model@.written - old(self).model@.emitted < RING_CAPACITY,
            levels@.len() == BAND_COUNT,
        ensures
            final(self).core_ok(),
            final(self).model@ == old(self).model@.push(levels@),
            final(self).input@ == old(self).input@.push(sample),
            final(self).signal@ == old(self).signal@.push(sample),
            final(self).output == old(self).output,
            final(self).firs == old(self).firs,
            final(self).zero == old(self).zero,
    {
        let ghost before = self.model@;
        let ghost stored = Schedule { written: before.written + 1, ..before };
        proof {
            crate::safety::lemma_push(before, levels@);
            crate::accounting::lemma_push_accounted(before, levels@);
        }
        self.ring.push(sample);
        proof {
            self.model@ = stored;
            self.input@ = self.input@.push(sample);
            self.signal@ = self.signal@.push(sample);
        }
        let ghost ring = self.ring;
        let ghost input = self.input@;
        let ghost signal = self.signal@;
        let ghost output = self.output@;

        let mut any_step_closed = false;
        let mut index: usize = 0;
        while index < BAND_COUNT
            invariant
                index <= BAND_COUNT,
                levels@.len() == BAND_COUNT,
                stored.wf(),
                !stored.done,
                forall|i: int| #![trigger stored.heard[i]]
                    0 <= i < BAND_COUNT ==> stored.heard[i].len() < stored.horizon()
                        + stored.latencies[i],
                self.agrees(),
                self.model@ == stored.hear_each(levels@, index as nat),
                any_step_closed == exists|i: int|
                    0 <= i < index && (#[trigger] stored.bands[i]).closes_step(),
                self.ring == ring,
                self.input@ == input,
                self.signal@ == signal,
                self.output@ == output,
                self.firs == old(self).firs,
                self.zero == old(self).zero,
            decreases BAND_COUNT - index,
        {
            proof {
                crate::safety::lemma_hear_each(stored, levels@, index as nat);
                assert(self.model@.heard[index as int] == stored.heard[index as int]);
                assert(self.model@.bands[index as int] == stored.bands[index as int]);
            }
            let step_closed = self.hear(index, levels[index]);
            any_step_closed = any_step_closed || step_closed;
            index = index + 1;
        }
        proof {
            crate::safety::lemma_hear_each(stored, levels@, BAND_COUNT as nat);
        }

        // Nothing downstream can change unless a step boundary was crossed.
        if any_step_closed {
            assert(before.closes_step());
            self.advance_grouping();
        } else {
            assert(!before.closes_step());
        }
        proof {
            assert(self.model@ == before.push(levels@));
            crate::safety::lemma_push_repairs(before, levels@);
            self.lemma_audio_after_push(*old(self), sample);
        }
    }

    /// A sample that has been pushed into the ring leaves the audio as it
    /// should be.
    proof fn lemma_audio_after_push(self, old_self: DeEsser<T>, sample: T)
        requires
            old_self.audio_ok(),
            old_self.model@.repairs_ok(),
            old_self.ring.written() == old_self.model@.written,
            self.ring.wf(),
            self.ring.size() == old_self.ring.size(),
            self.ring.written() == old_self.ring.written() + 1,
            self.ring.sample(old_self.ring.written() as int) == sample,
            forall|index: int|
                self.ring.holds(index) && index < old_self.ring.written()
                    ==> #[trigger] self.ring.sample(index) == old_self.ring.sample(index),
            self.input@ == old_self.input@.push(sample),
            self.signal@ == old_self.signal@.push(sample),
            self.output@ == old_self.output@,
            old_self.model@.emitted <= old_self.model@.written,
            self.model@.emitted == old_self.model@.emitted,
            self.model@.written == old_self.model@.written + 1,
            self.model@.performed == old_self.model@.performed,
            self.model@.repairs.len() >= old_self.model@.repairs.len(),
            forall|k: int| #![trigger self.model@.repairs[k]]
                0 <= k < old_self.model@.repairs.len() ==> self.model@.repairs[k]
                    == old_self.model@.repairs[k],
        ensures
            self.audio_ok(),
    {
        let written = old_self.model@.written as int;
        let emitted = old_self.model@.emitted as int;
        assert(self.signal@.take(emitted) =~= old_self.signal@.take(emitted));
        assert forall|i: int| self.ring.holds(i) implies #[trigger] self.ring.sample(i)
            == self.signal@[i] by {
            if i < written {
                assert(old_self.ring.holds(i));
                assert(old_self.ring.sample(i) == old_self.signal@[i]);
            }
        }
        assert forall|i: int| 0 <= i < self.model@.written && !touched(
            self.model@,
            i,
        ) implies #[trigger] self.signal@[i] == self.input@[i] by {
            if i < written {
                if touched(old_self.model@, i) {
                    let k = choose|k: int|
                        0 <= k < old_self.model@.performed && (
                        #[trigger] old_self.model@.repairs[k]).start <= i
                            < old_self.model@.repairs[k].end;
                    assert(self.model@.repairs[k] == old_self.model@.repairs[k]);
                }
                assert(old_self.signal@[i] == old_self.input@[i]);
            }
        }
    }

    /// Runs the levels after the input through all band detectors and decides
    /// whatever is still undecided.
    fn flush(&mut self, tails: &Vec<Vec<u32>>)
        requires
            old(self).core_ok(),
            !old(self).model@.done,
            crate::safety::tails_ok(
                old(self).model@.latencies,
                old(self).model@.written,
                levels_of(tails@),
            ),
        ensures
            final(self).core_ok(),
            final(self).model@ == old(self).model@.finish(levels_of(tails@)),
            final(self).input == old(self).input,
            final(self).signal == old(self).signal,
            final(self).output == old(self).output,
            final(self).firs == old(self).firs,
            final(self).zero == old(self).zero,
    {
        let ghost before = self.model@;
        let ghost levels = levels_of(tails@);
        let ghost start = Schedule { ended: true, ..before };
        proof {
            self.model@ = start;
            crate::safety::lemma_ended(before);
            crate::safety::lemma_finish(before, levels);
            crate::accounting::lemma_finish_accounted(before, levels);
        }
        let mut index: usize = 0;
        while index < BAND_COUNT
            invariant
                index <= BAND_COUNT,
                levels == levels_of(tails@),
                crate::safety::tails_ok(start.latencies, start.written, levels),
                start.wf(),
                start.in_step(),
                start.ended,
                !start.done,
                self.agrees(),
                self.model@ == start.flush(levels, index as nat),
                self.ring == old(self).ring,
                self.input == old(self).input,
                self.signal == old(self).signal,
                self.output == old(self).output,
                self.firs == old(self).firs,
                self.zero == old(self).zero,
            decreases BAND_COUNT - index,
        {
            proof {
                crate::safety::lemma_flush(start, levels, index as nat);
                assert(levels[index as int] == tails@[index as int]@);
                assert(self.model@.heard[index as int] == start.heard[index as int]);
            }
            self.flush_band(index, &tails[index]);
            index = index + 1;
        }

        // Close runs that are still open at the end of the file.
        let ghost flushed = self.model@;
        let mut index: usize = 0;
        while index < BAND_COUNT
            invariant
                index <= BAND_COUNT,
                flushed.wf(),
                self.agrees(),
                self.model@ == flushed.end_runs(index as nat),
                self.ring == old(self).ring,
                self.input == old(self).input,
                self.signal == old(self).signal,
                self.output == old(self).output,
                self.firs == old(self).firs,
                self.zero == old(self).zero,
            decreases BAND_COUNT - index,
        {
            let ghost so_far = self.model@;
            proof {
                crate::safety::lemma_end_runs(flushed, index as nat);
            }
            let mut band = self.bands[index];
            if let Some(run) = band.run {
                band.run = None;
                self.bands[index] = band;
                crate::event::record_click(&mut self.events, index, run);
            }
            proof {
                self.model@ = so_far.end_run(index as int);
                assert(self.bands@ =~= self.model@.bands);
            }
            index = index + 1;
        }

        // No more clicks can appear, so every queued event is final.
        self.release();
        if !self.group.is_empty() {
            self.close_group();
        }
        self.input_done = true;
        proof {
            let last = self.model@;
            self.model@ = Schedule { done: true, ..last };
            assert(self.model@ == before.finish(levels));
            crate::safety::lemma_finish_repairs(before, levels);
            self.lemma_audio_after_finish(*old(self));
        }
    }

    /// Band `index` hears all of `tail`.
    fn flush_band(&mut self, index: usize, tail: &Vec<u32>)
        requires
            old(self).agrees(),
            old(self).model@.wf(),
            !old(self).model@.done,
            index < BAND_COUNT,
            old(self).model@.heard[index as int].len() + tail@.len() <= old(self).model@.horizon()
                + old(self).model@.latencies[index as int],
        ensures
            final(self).agrees(),
            final(self).model@ == old(self).model@.hear_all(index as int, tail@),
            final(self).ring == old(self).ring,
            final(self).input == old(self).input,
            final(self).signal == old(self).signal,
            final(self).output == old(self).output,
            final(self).firs == old(self).firs,
            final(self).zero == old(self).zero,
    {
        let ghost before = self.model@;
        let mut position: usize = 0;
        assert(tail@.take(0) =~= Seq::<u32>::empty());
        while position < tail.len()
            invariant
                position <= tail@.len(),
                index < BAND_COUNT,
                before.wf(),
                !before.done,
                before.heard[index as int].len() + tail@.len() <= before.horizon()
                    + before.latencies[index as int],
                self.agrees(),
                self.model@ == before.hear_all(index as int, tail@.take(position as int)),
                self.ring == old(self).ring,
                self.input == old(self).input,
                self.signal == old(self).signal,
                self.output == old(self).output,
                self.firs == old(self).firs,
                self.zero == old(self).zero,
            decreases tail@.len() - position,
        {
            proof {
                crate::safety::lemma_hear_all(before, index as int, tail@.take(position as int));
                let longer = tail@.take(position + 1);
                assert(longer.drop_last() =~= tail@.take(position as int));
                assert(longer.last() == tail@[position as int]);
            }
            let _ = self.hear(index, tail[position]);
            position = position + 1;
        }
        assert(tail@.take(tail@.len() as int) =~= tail@);
    }

    proof fn lemma_audio_after_finish(self, old_self: DeEsser<T>)
        requires
            old_self.audio_ok(),
            old_self.model@.repairs_ok(),
            self.ring == old_self.ring,
            self.input == old_self.input,
            self.signal == old_self.signal,
            self.output == old_self.output,
            self.model@.emitted == old_self.model@.emitted,
            self.model@.written == old_self.model@.written,
            self.model@.performed == old_self.model@.performed,
            self.model@.repairs.len() >= old_self.model@.repairs.len(),
            forall|k: int| #![trigger self.model@.repairs[k]]
                0 <= k < old_self.model@.repairs.len() ==> self.model@.repairs[k]
                    == old_self.model@.repairs[k],
        ensures
            self.audio_ok(),
    {
        assert forall|i: int| 0 <= i < self.model@.written && !touched(
            self.model@,
            i,
        ) implies #[trigger] self.signal@[i] == self.input@[i] by {
            if touched(old_self.model@, i) {
                let k = choose|k: int|
                    0 <= k < old_self.model@.performed && (
                    #[trigger] old_self.model@.repairs[k]).start <= i
                        < old_self.model@.repairs[k].end;
                assert(self.model@.repairs[k] == old_self.model@.repairs[k]);
            }
        }
    }

    /// Runs one input sample through all band-pass filters and band detectors,
    /// and stores it.
    ///
    /// `multiply_add(a, b, c)` is `a + b * c`; `measure` is the level of a
    /// filtered sample.
    pub fn push_input<F: Fn(T, T, T) -> T, L: Fn(T) -> u32>(
        &mut self,
        sample: T,
        multiply_add: &F,
        measure: &L,
    )
        requires
            old(self).wf(),
            !old(self).schedule().done,
            old(self).schedule().written < MAX_SAMPLES,
            old(self).schedule().written - old(self).schedule().emitted < RING_CAPACITY,
            forall|a: T, b: T, c: T| call_requires(*multiply_add, (a, b, c)),
            forall|a: T| call_requires(*measure, (a,)),
        ensures
            final(self).wf(),
            final(self).kernels() == old(self).kernels(),
            final(self).silence() == old(self).silence(),
            exists|levels: Seq<u32>|
                {
                    &&& #[trigger] hears_each(
                        *multiply_add,
                        *measure,
                        old(self).silence(),
                        old(self).kernels(),
                        final(self).taken(),
                        levels,
                    )
                    &&& final(self).schedule() == old(self).schedule().push(levels)
                },
            // If every level heard so far is that of the filtered input at its
            // position, this goes on.
            crate::whole::hears_signal(
                *multiply_add,
                *measure,
                old(self).kernels(),
                old(self).silence(),
                old(self).taken(),
                old(self).schedule().heard,
            ) ==> crate::whole::hears_signal(
                *multiply_add,
                *measure,
                old(self).kernels(),
                old(self).silence(),
                final(self).taken(),
                final(self).schedule().heard,
            ),
            forall|band: int|
                0 <= band < BAND_COUNT ==> (#[trigger] final(self).schedule().heard[band]).len()
                    == final(self).taken().len(),
            final(self).taken() == old(self).taken().push(sample),
            final(self).corrected() == old(self).corrected().push(sample),
            final(self).handed_out() == old(self).handed_out(),
    {
        let zero = self.zero;
        let ghost firs = self.firs@;
        let ghost input = self.input@;
        let mut levels: Vec<u32> = Vec::with_capacity(BAND_COUNT);
        let mut index: usize = 0;
        while index < BAND_COUNT
            invariant
                index <= BAND_COUNT,
                zero == self.zero,
                firs == old(self).firs@,
                input == old(self).input@,
                old(self).filters_ok(),
                !old(self).model@.done,
                *self == (DeEsser { firs: self.firs, ..*old(self) }),
                self.firs@.len() == BAND_COUNT,
                levels@.len() == index,
                forall|a: T, b: T, c: T| call_requires(*multiply_add, (a, b, c)),
                forall|a: T| call_requires(*measure, (a,)),
                forall|i: int| index <= i < BAND_COUNT ==> self.firs@[i] == #[trigger] firs[i],
                forall|i: int|
                    0 <= i < index ==> {
                        &&& (#[trigger] self.firs@[i]).wf()
                        &&& self.firs@[i].coefficients() == firs[i].coefficients()
                        &&& self.firs@[i].window() == crate::dsp::recent(
                            input.push(sample),
                            zero,
                            firs[i].coefficients().len(),
                        )
                    },
                forall|i: int|
                    0 <= i < index ==> #[trigger] hears(
                        *multiply_add,
                        *measure,
                        zero,
                        firs[i].coefficients(),
                        input.push(sample),
                        levels@[i],
                    ),
            decreases BAND_COUNT - index,
        {
            proof {
                assert(self.firs@[index as int] == firs[index as int]);
                firs[index as int].lemma_not_empty();
                crate::dsp::lemma_recent(
                    input,
                    zero,
                    firs[index as int].coefficients().len(),
                    sample,
                );
            }
            let filtered = self.firs[index].process(sample, zero, multiply_add);
            let level = measure(filtered);
            levels.push(level);
            proof {
                assert(hears(
                    *multiply_add,
                    *measure,
                    zero,
                    firs[index as int].coefficients(),
                    input.push(sample),
                    level,
                ));
            }
            index = index + 1;
        }
        self.take(sample, &levels);
        proof {
            assert(kernels_of(self.firs@) =~= kernels_of(firs));
            assert forall|i: int| 0 <= i < BAND_COUNT implies #[trigger] hears(
                *multiply_add,
                *measure,
                zero,
                kernels_of(firs)[i],
                input.push(sample),
                levels@[i],
            ) by {
                assert(hears(
                    *multiply_add,
                    *measure,
                    zero,
                    firs[i].coefficients(),
                    input.push(sample),
                    levels@[i],
                ));
            }
            assert(hears_each(
                *multiply_add,
                *measure,
                old(self).silence(),
                old(self).kernels(),
                self.taken(),
                levels@,
            ));
            crate::safety::lemma_push(old(self).model@, levels@);
            if crate::whole::hears_signal(
                *multiply_add,
                *measure,
                old(self).kernels(),
                old(self).silence(),
                old(self).taken(),
                old(self).schedule().heard,
            ) {
                assert forall|band: int| 0 <= band < 10 implies (
                #[trigger] old(self).model@.heard[band]).len() == input.len()
                    && self.model@.heard[band] == old(self).model@.heard[band].push(
                    levels@[band],
                ) by {
                    crate::accounting::law_every_sample_is_heard(
                        old(self).model@,
                        levels@,
                        band,
                    );
                }
                crate::whole::law_every_sample_is_filtered(
                    *multiply_add,
                    *measure,
                    old(self).kernels(),
                    old(self).silence(),
                    input,
                    sample,
                    old(self).model@.heard,
                    levels@,
                    self.model@.heard,
                );
            }
        }
    }

    /// Called once the input is exhausted.
    ///
    /// The band-pass filters still hold as many samples of signal as they
    /// delay it.  Feeding zeros flushes them and fills up the last step, which
    /// analyses the tail of the file exactly as if the signal continued with
    /// silence.
    pub fn finish_stream<F: Fn(T, T, T) -> T, L: Fn(T) -> u32>(
        &mut self,
        multiply_add: &F,
        measure: &L,
    )
        requires
            old(self).wf(),
            !old(self).schedule().done,
            forall|a: T, b: T, c: T| call_requires(*multiply_add, (a, b, c)),
            forall|a: T| call_requires(*measure, (a,)),
        ensures
            final(self).wf(),
            final(self).kernels() == old(self).kernels(),
            final(self).silence() == old(self).silence(),
            exists|tails: Seq<Seq<u32>>|
                {
                    &&& #[trigger] hears_silence(
                        *multiply_add,
                        *measure,
                        old(self).silence(),
                        old(self).kernels(),
                        old(self).taken(),
                        tails,
                    )
                    &&& crate::safety::tails_ok(
                        old(self).schedule().latencies,
                        old(self).schedule().written,
                        tails,
                    )
                    &&& final(self).schedule() == old(self).schedule().finish(tails)
                },
            // If every level heard so far is that of the filtered input at its
            // position, this goes on into the silence after the input.
            crate::whole::hears_signal(
                *multiply_add,
                *measure,
                old(self).kernels(),
                old(self).silence(),
                old(self).taken(),
                old(self).schedule().heard,
            ) ==> crate::whole::hears_signal(
                *multiply_add,
                *measure,
                old(self).kernels(),
                old(self).silence(),
                final(self).taken(),
                final(self).schedule().heard,
            ),
            final(self).taken() == old(self).taken(),
            final(self).corrected() == old(self).corrected(),
            final(self).handed_out() == old(self).handed_out(),
    {
        let zero = self.zero;
        let ghost firs = self.firs@;
        let ghost input = self.input@;
        let ghost written = self.model@.written;
        // What the last step still needs to be complete.
        let missing: u64 = (STEP - self.ring.write_index() % STEP) % STEP;
        assert(missing == crate::schedule::padded(written) - written);
        let mut tails: Vec<Vec<u32>> = Vec::with_capacity(BAND_COUNT);
        let mut index: usize = 0;
        while index < BAND_COUNT
            invariant
                index <= BAND_COUNT,
                zero == self.zero,
                firs == old(self).firs@,
                input == old(self).input@,
                old(self).wf(),
                !old(self).model@.done,
                *self == (DeEsser { firs: self.firs, ..*old(self) }),
                self.firs@.len() == BAND_COUNT,
                missing < STEP,
                tails@.len() == index,
                forall|a: T, b: T, c: T| call_requires(*multiply_add, (a, b, c)),
                forall|a: T| call_requires(*measure, (a,)),
                forall|i: int| index <= i < BAND_COUNT ==> self.firs@[i] == #[trigger] firs[i],
                forall|i: int|
                    0 <= i < index ==> (#[trigger] self.firs@[i]).wf()
                        && self.firs@[i].coefficients() == firs[i].coefficients(),
                forall|i: int|
                    0 <= i < index ==> (#[trigger] tails@[i])@.len() == self.latencies@[i]
                        + missing,
                forall|i: int|
                    0 <= i < index ==> #[trigger] hears_tail(
                        *multiply_add,
                        *measure,
                        zero,
                        firs[i].coefficients(),
                        input,
                        tails@[i]@,
                    ),
            decreases BAND_COUNT - index,
        {
            proof {
                assert(self.firs@[index as int] == firs[index as int]);
                assert(old(self).model@.latencies[index as int] <= MAX_LATENCY);
            }
            let count = self.latencies[index] + missing;
            let tail = flush_filter(
                &mut self.firs[index],
                zero,
                count,
                multiply_add,
                measure,
                Ghost(input),
            );
            tails.push(tail);
            index = index + 1;
        }
        let ghost levels = levels_of(tails@);
        proof {
            assert(kernels_of(self.firs@) =~= kernels_of(firs));
            assert forall|i: int| #![trigger levels[i]] 0 <= i < BAND_COUNT implies levels[i].len()
                == self.model@.latencies[i] + crate::schedule::padded(written) - written by {
                assert(tails@[i]@.len() == self.latencies@[i] + missing);
            }
            assert forall|i: int| 0 <= i < BAND_COUNT implies #[trigger] hears_tail(
                *multiply_add,
                *measure,
                zero,
                kernels_of(firs)[i],
                input,
                levels[i],
            ) by {
                assert(hears_tail(
                    *multiply_add,
                    *measure,
                    zero,
                    firs[i].coefficients(),
                    input,
                    tails@[i]@,
                ));
            }
            assert(hears_silence(
                *multiply_add,
                *measure,
                old(self).silence(),
                old(self).kernels(),
                old(self).taken(),
                levels,
            ));
            crate::safety::lemma_finish(self.model@, levels);
        }
        self.flush(&tails);
        proof {
            if crate::whole::hears_signal(
                *multiply_add,
                *measure,
                old(self).kernels(),
                old(self).silence(),
                old(self).taken(),
                old(self).schedule().heard,
            ) {
                assert forall|band: int| 0 <= band < 10 implies (
                #[trigger] old(self).model@.heard[band]).len() == input.len()
                    && self.model@.heard[band] == old(self).model@.heard[band]
                    + levels[band] by {
                    crate::accounting::law_every_tail_is_heard(old(self).model@, levels, band);
                }
                crate::whole::law_the_silence_after_the_input_is_filtered(
                    *multiply_add,
                    *measure,
                    old(self).kernels(),
                    old(self).silence(),
                    input,
                    old(self).model@.heard,
                    levels,
                    self.model@.heard,
                );
            }
        }
    }

    /// Absolute index up to which samples are final and may be handed out.
    fn safe_limit(&self) -> (limit: u64)
        requires
            self.wf(),
        ensures
            limit == self.model@.safe_limit(),
    {
        if self.input_done {
            // Everything has been detected already.
            return self.ring.write_index();
        }
        let mut limit = self.earliest_future_correction();
        if !self.group.is_empty() && self.group_start < limit {
            // A group that is still collecting events will be rewritten from
            // its start, so nothing from there on may leave yet.
            limit = self.group_start;
        }
        if self.ring.write_index() < limit {
            limit = self.ring.write_index();
        }
        limit
    }

    /// Says what to do next, and hands out a sample if one is ready.
    pub fn next(&mut self) -> (action: Action<T>)
        requires
            old(self).wf(),
        ensures
            final(self).wf(),
            final(self).kernels() == old(self).kernels(),
            final(self).silence() == old(self).silence(),
            final(self).taken() == old(self).taken(),
            final(self).corrected() == old(self).corrected(),
            ({
                let before = old(self).schedule();
                let after = final(self).schedule();
                if before.up_to_date() && before.emitted < before.safe_limit() {
                    &&& action matches Action::Emit(sample) && sample == old(self).corrected()[
                        before.emitted as int
                    ] && final(self).handed_out() == old(self).handed_out().push(sample)
                    &&& after == (Schedule { emitted: before.emitted + 1, ..before })
                } else {
                    &&& final(self).handed_out() == old(self).handed_out()
                    &&& after == before
                    &&& if !before.up_to_date() {
                        action is Repair
                    } else if before.done {
                        action is Finished && before.emitted == before.written
                    } else {
                        action is Input && before.written - before.emitted < RING_CAPACITY
                    }
                }
            }),
    {
        let ghost before = self.model@;
        // 1. Corrections come first.
        if self.pending.len() > 0 {
            return Action::Repair;
        }
        // 2. Hand out a sample that can no longer be modified.

        if self.emit_index < self.safe_limit() {
            proof {
                crate::safety::lemma_emit(before);
            }
            let sample = self.ring.get(self.emit_index);
            self.emit_index = self.emit_index + 1;
            proof {
                crate::accounting::lemma_output_accounted(
                    before,
                    before.emitted + 1,
                    before.performed,
                );
                self.model@ = Schedule { emitted: before.emitted + 1, ..before };
                self.output@ = self.output@.push(sample);
                assert(self.output@ =~= self.signal@.take(before.emitted as int + 1));
                assert forall|i: int| 0 <= i < before.written && !touched(
                    self.model@,
                    i,
                ) implies #[trigger] self.signal@[i] == self.input@[i] by {
                    assert(!touched(before, i)) by {
                        if touched(before, i) {
                            let k = choose|k: int|
                                0 <= k < before.performed && (#[trigger] before.repairs[k]).start
                                    <= i < before.repairs[k].end;
                            assert(self.model@.repairs[k].start <= i);
                        }
                    }
                }
            }
            return Action::Emit(sample);
        }
        // 3. Nothing is ready: take more input, or finish up.

        if self.input_done {
            return Action::Finished;
        }
        proof {
            crate::safety::law_look_ahead_fits_into_the_ring(before);
        }
        Action::Input
    }
}

// ---------------------------------------------------------------------------
// Repair
// ---------------------------------------------------------------------------

/// The weight of a correction at `offset` of an excerpt of `length` samples, as
/// a fraction: numerator and denominator.
///
/// It rises linearly from 0 to 1 over the first `ramp` samples, stays at 1, and
/// falls back to 0 over the last `ramp` samples.  Without a ramp, or without
/// room for two of them, it is 1 throughout.
pub open spec fn fade(offset: int, length: int, ramp: int) -> (int, int) {
    if ramp == 0 || length <= 2 * ramp {
        (1, 1)
    } else if offset <= ramp {
        (offset, ramp)
    } else if offset >= length - ramp {
        (length - offset, ramp)
    } else {
        (1, 1)
    }
}

/// Trapezoidal fade used to blend a correction in and out; see [`fade`].
pub fn trapezoid(offset: usize, length: usize, ramp: usize) -> (weight: (usize, usize))
    requires
        2 * ramp <= usize::MAX,
        offset <= length,
    ensures
        weight.0 == fade(offset as int, length as int, ramp as int).0,
        weight.1 == fade(offset as int, length as int, ramp as int).1,
{
    if ramp == 0 || length <= 2 * ramp {
        return (1, 1);
    }
    if offset <= ramp {
        (offset, ramp)
    } else if offset >= length - ramp {
        (length - offset, ramp)
    } else {
        (1, 1)
    }
}

/// The fade is a weight between 0 and 1, is the same from both ends, does not
/// fall while it rises, and is 1 in between.
pub proof fn law_fade_is_a_trapezoid(offset: int, length: int, ramp: int)
    requires
        0 <= ramp,
        0 <= offset <= length,
    ensures
        0 <= fade(offset, length, ramp).0 <= fade(offset, length, ramp).1,
        fade(offset, length, ramp).1 > 0,
        // Symmetric.
        fade(offset, length, ramp).0 * fade(length - offset, length, ramp).1 == fade(
            length - offset,
            length,
            ramp,
        ).0 * fade(offset, length, ramp).1,
        // Zero at both ends, where there is room for two ramps.
        0 < ramp && 2 * ramp < length ==> fade(0, length, ramp).0 == 0 && fade(
            length,
            length,
            ramp,
        ).0 == 0,
        // Rising by the same amount with each sample of the ramp.
        0 < ramp && 2 * ramp < length && offset < ramp ==> fade(offset + 1, length, ramp).0
            == fade(offset, length, ramp).0 + 1 && fade(offset + 1, length, ramp).1 == ramp,
        // One in between, and throughout where there is no room for two ramps.
        ramp <= offset <= length - ramp ==> fade(offset, length, ramp).0 == fade(
            offset,
            length,
            ramp,
        ).1,
        length <= 2 * ramp ==> fade(offset, length, ramp).0 == fade(offset, length, ramp).1,
        // Falling in the last samples as it rises in the first.
        0 < ramp && 2 * ramp < length && length - ramp < offset ==> fade(offset, length, ramp).0
            == length - offset && fade(offset, length, ramp).1 == ramp,
{
    if ramp > 0 && length > 2 * ramp {
        let a = fade(offset, length, ramp);
        let b = fade(length - offset, length, ramp);
        if offset == ramp || offset == length - ramp {
            assert(a.0 == a.1);
            assert(b.0 == b.1);
            assert(a.0 * b.1 == b.0 * a.1) by (nonlinear_arith)
                requires
                    a.0 == a.1,
                    b.0 == b.1,
            ;
        } else {
            assert(a == b);
            assert(a.0 * b.1 == b.0 * a.1) by (nonlinear_arith)
                requires
                    a == b,
            ;
        }
    }
}

/// What the filter of `band` does to the excerpt: nothing if the band did not
/// fire, else a filter that is designed for its level, and whose memory is
/// empty at first, filters the excerpt.
pub open spec fn cuts_band<
    C,
    S,
    T,
    O: Fn(usize, u32) -> C,
    E: Fn(C, T, S, S, S, S) -> (S, S, T),
>(
    design: O,
    zero: S,
    equation: E,
    levels: Seq<u32>,
    stages: Seq<Seq<T>>,
    band: int,
) -> bool {
    if levels[band] == 0 {
        stages[band + 1] == stages[band]
    } else {
        exists|filters: Seq<Biquad<C, S>>|
            {
                &&& #[trigger] crate::dsp::filters_all(
                    equation,
                    filters,
                    stages[band],
                    stages[band + 1],
                )
                &&& filters.first() == Biquad::zeroed(filters.first().coefficients, zero)
                &&& call_ensures(
                    design,
                    (band as usize, levels[band]),
                    filters.first().coefficients,
                )
            }
    }
}

/// `stages` are the excerpt, the excerpt behind the filter of the lowest band,
/// behind those of the two lowest bands, and so on.
pub open spec fn cascades<
    C,
    S,
    T,
    O: Fn(usize, u32) -> C,
    E: Fn(C, T, S, S, S, S) -> (S, S, T),
>(design: O, zero: S, equation: E, levels: Seq<u32>, stages: Seq<Seq<T>>) -> bool {
    &&& 1 <= stages.len() <= levels.len() + 1
    &&& forall|band: int|
        0 <= band < stages.len() - 1 ==> #[trigger] cuts_band(
            design,
            zero,
            equation,
            levels,
            stages,
            band,
        )
}

/// The sample number `offset` of the excerpt becomes `after`: the difference
/// between the filtered and the original sample is weighted with the fade and
/// added.
pub open spec fn blends<T, W: Fn(T, T, usize, usize) -> T, A: Fn(T, T) -> T>(
    weigh: W,
    plus: A,
    excerpt: Seq<T>,
    filtered: Seq<T>,
    offset: int,
    after: T,
) -> bool {
    let weight = fade(offset, excerpt.len() as int, CROSSFADE as int);
    exists|delta: T|
        {
            &&& call_ensures(
                weigh,
                (filtered[offset], excerpt[offset], weight.0 as usize, weight.1 as usize),
                delta,
            )
            &&& #[trigger] call_ensures(plus, (excerpt[offset], delta), after)
        }
}

/// Every sample of the excerpt, which starts with sample number `start` of the
/// signal, becomes that of `after`.
pub open spec fn blends_all<T, W: Fn(T, T, usize, usize) -> T, A: Fn(T, T) -> T>(
    weigh: W,
    plus: A,
    excerpt: Seq<T>,
    filtered: Seq<T>,
    start: int,
    after: Seq<T>,
) -> bool {
    forall|offset: int|
        0 <= offset < excerpt.len() ==> #[trigger] blends(
            weigh,
            plus,
            excerpt,
            filtered,
            offset,
            after[start + offset],
        )
}

/// `repair` turns the signal `before` into `after`.
pub open spec fn repairs<
    C,
    S,
    T,
    O: Fn(usize, u32) -> C,
    E: Fn(C, T, S, S, S, S) -> (S, S, T),
    W: Fn(T, T, usize, usize) -> T,
    A: Fn(T, T) -> T,
>(
    design: O,
    zero: S,
    equation: E,
    weigh: W,
    plus: A,
    repair: Repair,
    before: Seq<T>,
    after: Seq<T>,
) -> bool {
    let start = repair.start as int;
    let end = repair.end as int;
    let excerpt = before.subrange(start, end);
    &&& after.len() == before.len()
    &&& forall|i: int|
        0 <= i < before.len() && !(start <= i < end) ==> #[trigger] after[i] == before[i]
    &&& exists|stages: Seq<Seq<T>>|
        {
            &&& #[trigger] cascades(design, zero, equation, repair.levels@, stages)
            &&& stages.len() == BAND_COUNT + 1
            &&& stages.first() == excerpt
            &&& stages.last().len() == excerpt.len()
            &&& blends_all(weigh, plus, excerpt, stages.last(), start, after)
        }
}

impl<T: Copy> DeEsser<T> {
    /// The next correction to be applied, if there is one.
    pub fn next_repair(&self) -> (repair: Option<Repair>)
        requires
            self.wf(),
        ensures
            if self.schedule().up_to_date() {
                repair is None
            } else {
                repair == Some(self.schedule().repairs[self.schedule().performed as int])
            },
    {
        if self.pending.len() > 0 {
            Some(self.pending[0])
        } else {
            None
        }
    }

    /// Applies the next correction to the samples it covers.
    ///
    /// `design(band, level)` are the coefficients of the filter that cuts `band`
    /// by what `level` exceeds the threshold, `zero` and `equation` are its
    /// empty memory and its arithmetic (see [`Biquad`]); `weigh(a, b, n, d)` is
    /// `(a - b) * n / d`; `plus` is the addition of samples.
    pub fn repair<
        C: Copy,
        S: Copy,
        O: Fn(usize, u32) -> C,
        E: Fn(C, T, S, S, S, S) -> (S, S, T),
        W: Fn(T, T, usize, usize) -> T,
        A: Fn(T, T) -> T,
    >(&mut self, design: &O, zero: S, equation: &E, weigh: &W, plus: &A)
        requires
            old(self).wf(),
            !old(self).schedule().up_to_date(),
            forall|band: usize, level: u32| call_requires(*design, (band, level)),
            forall|c: C, x: T, x1: S, x2: S, y1: S, y2: S|
                call_requires(*equation, (c, x, x1, x2, y1, y2)),
            forall|a: T, b: T, n: usize, d: usize| call_requires(*weigh, (a, b, n, d)),
            forall|a: T, b: T| call_requires(*plus, (a, b)),
        ensures
            final(self).wf(),
            final(self).schedule() == (Schedule {
                performed: old(self).schedule().performed + 1,
                ..old(self).schedule()
            }),
            final(self).kernels() == old(self).kernels(),
            final(self).silence() == old(self).silence(),
            final(self).taken() == old(self).taken(),
            final(self).handed_out() == old(self).handed_out(),
            repairs(
                *design,
                zero,
                *equation,
                *weigh,
                *plus,
                old(self).schedule().repairs[old(self).schedule().performed as int],
                old(self).corrected(),
                final(self).corrected(),
            ),
            // What has been handed out is final.
            old(self).schedule().emitted <= old(self).schedule().repairs[
                old(self).schedule().performed as int
            ].start,
            final(self).corrected().take(old(self).schedule().emitted as int)
                == old(self).corrected().take(old(self).schedule().emitted as int),
            // No excerpt is longer than the longest event.
            old(self).schedule().repairs[old(self).schedule().performed as int].end
                - old(self).schedule().repairs[old(self).schedule().performed as int].start
                <= MAX_EXCERPT,
    {
        let ghost before = self.model@;
        let ghost signal = self.signal@;
        proof {
            crate::safety::lemma_perform(before);
            crate::accounting::lemma_output_accounted(
                before,
                before.emitted,
                before.performed + 1,
            );
        }
        let repair = self.pending[0];
        assert(repair == before.repairs[before.performed as int]);
        let _ = self.pending.pop_front();
        let start = repair.start;
        let end = repair.end;
        let length = (end - start) as usize;

        let excerpt = self.read_excerpt(start, length);
        let ghost original = excerpt@;
        let filtered = cascade(&excerpt, &repair.levels, design, zero, equation);
        let ghost stages = choose|stages: Seq<Seq<T>>|
            {
                &&& #[trigger] cascades(*design, zero, *equation, repair.levels@, stages)
                &&& stages.len() == BAND_COUNT + 1
                &&& stages.first() == excerpt@
                &&& stages.last() == filtered@
            };

        // Fade the correction in and out so that it cannot click.
        let mut offset: usize = 0;
        while offset < length
            invariant
                offset <= length,
                length == end - start,
                before == old(self).model@,
                before.wf(),
                signal == old(self).signal@,
                before.emitted <= start < end <= before.written,
                before.written <= before.emitted + RING_CAPACITY,
                excerpt@ == signal.subrange(start as int, end as int),
                filtered@.len() == length,
                signal.len() == before.written,
                self.ring.wf(),
                self.ring.size() == RING_CAPACITY,
                self.ring.written() == before.written,
                forall|a: T, b: T, n: usize, d: usize| call_requires(*weigh, (a, b, n, d)),
                forall|a: T, b: T| call_requires(*plus, (a, b)),
                forall|i: int|
                    self.ring.holds(i) && !(start <= i < start + offset)
                        ==> #[trigger] self.ring.sample(i) == signal[i],
                forall|k: int|
                    0 <= k < offset ==> #[trigger] blends(
                        *weigh,
                        *plus,
                        excerpt@,
                        filtered@,
                        k,
                        self.ring.sample(start + k),
                    ),
                *self == (DeEsser { ring: self.ring, pending: self.pending, ..*old(self) }),
                self.pending@ == old(self).pending@.drop_first(),
            decreases length - offset,
        {
            let weight = trapezoid(offset, length, CROSSFADE as usize);
            let delta = weigh(filtered[offset], excerpt[offset], weight.0, weight.1);
            let ghost ring = self.ring;
            assert(ring.holds(start + offset));
            assert(ring.sample(start + offset) == excerpt@[offset as int]);
            self.ring.add(start + offset as u64, delta, plus);
            proof {
                assert(blends(
                    *weigh,
                    *plus,
                    excerpt@,
                    filtered@,
                    offset as int,
                    self.ring.sample(start + offset),
                ));
                assert forall|k: int| 0 <= k < offset + 1 implies #[trigger] blends(
                    *weigh,
                    *plus,
                    excerpt@,
                    filtered@,
                    k,
                    self.ring.sample(start + k),
                ) by {
                    if k < offset {
                        assert(ring.holds(start + k));
                        assert(self.ring.sample(start + k) == ring.sample(start + k));
                    }
                }
            }
            offset = offset + 1;
        }
        proof {
            let after = Seq::new(
                signal.len(),
                |i: int|
                    if start <= i < end {
                        self.ring.sample(i)
                    } else {
                        signal[i]
                    },
            );
            self.signal@ = after;
            self.model@ = Schedule { performed: before.performed + 1, ..before };
            assert(self.pending@ =~= before.repairs.skip(before.performed as int + 1));
            assert(after.take(before.emitted as int) =~= signal.take(before.emitted as int));
            assert forall|k: int| 0 <= k < original.len() implies #[trigger] blends(
                *weigh,
                *plus,
                original,
                stages.last(),
                k,
                after[start + k],
            ) by {
                assert(blends(
                    *weigh,
                    *plus,
                    excerpt@,
                    filtered@,
                    k,
                    self.ring.sample(start + k),
                ));
            }
            assert(repairs(*design, zero, *equation, *weigh, *plus, repair, signal, after));
            assert forall|i: int| 0 <= i < before.written && !touched(
                self.model@,
                i,
            ) implies #[trigger] self.signal@[i] == self.input@[i] by {
                assert(self.model@.repairs[before.performed as int] == repair);
                assert(!(start <= i < end));
                assert(!touched(before, i)) by {
                    if touched(before, i) {
                        let k = choose|k: int|
                            0 <= k < before.performed && (#[trigger] before.repairs[k]).start <= i
                                < before.repairs[k].end;
                        assert(self.model@.repairs[k].start <= i);
                    }
                }
                assert(signal[i] == self.input@[i]);
            }
        }
    }

    /// Copies `length` samples from the ring.
    fn read_excerpt(&self, start: u64, length: usize) -> (excerpt: Vec<T>)
        requires
            self.ring.wf(),
            forall|i: int| start <= i < start + length ==> self.ring.holds(i),
            start + length <= u64::MAX,
        ensures
            excerpt@.len() == length,
            forall|k: int|
                0 <= k < length ==> #[trigger] excerpt@[k] == self.ring.sample(start + k),
    {
        let mut excerpt: Vec<T> = Vec::with_capacity(length);
        let mut offset: usize = 0;
        while offset < length
            invariant
                offset <= length,
                excerpt@.len() == offset,
                self.ring.wf(),
                forall|i: int| start <= i < start + length ==> self.ring.holds(i),
                start + length <= u64::MAX,
                forall|k: int|
                    0 <= k < offset ==> #[trigger] excerpt@[k] == self.ring.sample(start + k),
            decreases length - offset,
        {
            excerpt.push(self.ring.get(start + offset as u64));
            offset = offset + 1;
        }
        excerpt
    }
}

/// Passes an excerpt through the filters of all bands that fired, from the
/// lowest band upwards.
fn cascade<
    C: Copy,
    S: Copy,
    T: Copy,
    O: Fn(usize, u32) -> C,
    E: Fn(C, T, S, S, S, S) -> (S, S, T),
>(
    excerpt: &Vec<T>,
    levels: &[u32; BAND_COUNT],
    design: &O,
    zero: S,
    equation: &E,
) -> (filtered: Vec<T>)
    requires
        forall|band: usize, level: u32| call_requires(*design, (band, level)),
        forall|c: C, x: T, x1: S, x2: S, y1: S, y2: S|
            call_requires(*equation, (c, x, x1, x2, y1, y2)),
    ensures
        filtered@.len() == excerpt@.len(),
        exists|stages: Seq<Seq<T>>|
            {
                &&& #[trigger] cascades(*design, zero, *equation, levels@, stages)
                &&& stages.len() == BAND_COUNT + 1
                &&& stages.first() == excerpt@
                &&& stages.last() == filtered@
            },
{
    let mut filtered: Vec<T> = Vec::with_capacity(excerpt.len());
    let mut index: usize = 0;
    while index < excerpt.len()
        invariant
            index <= excerpt@.len(),
            filtered@ == excerpt@.take(index as int),
        decreases excerpt@.len() - index,
    {
        filtered.push(excerpt[index]);
        index = index + 1;
        assert(filtered@ =~= excerpt@.take(index as int));
    }
    assert(filtered@ =~= excerpt@);
    let ghost mut stages = seq![excerpt@];
    let mut band: usize = 0;
    while band < BAND_COUNT
        invariant
            band <= BAND_COUNT,
            filtered@.len() == excerpt@.len(),
            stages.len() == band + 1,
            stages.first() == excerpt@,
            stages.last() == filtered@,
            cascades(*design, zero, *equation, levels@, stages),
            forall|band: usize, level: u32| call_requires(*design, (band, level)),
            forall|c: C, x: T, x1: S, x2: S, y1: S, y2: S|
                call_requires(*equation, (c, x, x1, x2, y1, y2)),
        decreases BAND_COUNT - band,
    {
        let level = levels[band];
        let ghost before = filtered@;
        if level > 0 {
            let mut biquad = Biquad::new(design(band, level), zero);
            biquad.process_in_place(zero, &mut filtered, equation);
        }
        proof {
            let longer = stages.push(filtered@);
            assert(longer[band as int] == before && longer[band + 1] == filtered@);
            assert(cuts_band(*design, zero, *equation, levels@, longer, band as int));
            assert forall|k: int| 0 <= k < longer.len() - 1 implies #[trigger] cuts_band(
                *design,
                zero,
                *equation,
                levels@,
                longer,
                k,
            ) by {
                if k < band {
                    assert(cuts_band(*design, zero, *equation, levels@, stages, k));
                    assert(longer[k] == stages[k] && longer[k + 1] == stages[k + 1]);
                }
            }
            stages = longer;
        }
        band = band + 1;
    }
    filtered
}

// ---------------------------------------------------------------------------
// Laws
// ---------------------------------------------------------------------------

/// At all times, what has been handed out is the beginning of the corrected
/// signal: no correction ever comes too late.
pub proof fn law_handed_out_samples_are_final<T>(deesser: DeEsser<T>)
    requires
        deesser.wf(),
    ensures
        deesser.schedule().ready(),
        deesser.schedule().accounted(),
        deesser.taken().len() == deesser.schedule().written,
        deesser.corrected().len() == deesser.schedule().written,
        deesser.handed_out() == deesser.corrected().take(deesser.schedule().emitted as int),
{
}

/// When [`DeEsser::next`] says that it has finished, the whole corrected signal
/// has been handed out, and it is exactly as long as the input.
pub proof fn law_length_is_preserved<T>(deesser: DeEsser<T>)
    requires
        deesser.wf(),
        deesser.schedule().done,
        deesser.schedule().up_to_date(),
        deesser.schedule().emitted >= deesser.schedule().safe_limit(),
    ensures
        deesser.handed_out() == deesser.corrected(),
        deesser.handed_out().len() == deesser.taken().len(),
{
    assert(deesser.corrected().take(deesser.corrected().len() as int) =~= deesser.corrected());
}

/// Nothing but sibilants is changed: a sample that differs from the input is no
/// further away from a loud step than a crossfade is long.
pub proof fn law_surroundings_are_unchanged<T>(deesser: DeEsser<T>, i: int)
    requires
        deesser.wf(),
        0 <= i < deesser.taken().len(),
        deesser.corrected()[i] != deesser.taken()[i],
    ensures
        exists|band: int, step: int|
            0 <= band < BAND_COUNT && #[trigger] deesser.schedule().is_loud_around(band, step, i),
{
    let schedule = deesser.schedule();
    assert(touched(schedule, i));
    let k = choose|k: int|
        0 <= k < schedule.performed && (#[trigger] schedule.repairs[k]).start <= i
            < schedule.repairs[k].end;
    crate::accounting::law_repairs_stay_around_loud_steps(schedule, k, i);
}

/// A quiet signal passes through unchanged.
pub proof fn law_quiet_signal_passes_through<T>(deesser: DeEsser<T>)
    requires
        deesser.wf(),
        forall|band: int, n: int|
            0 <= band < BAND_COUNT && deesser.schedule().latencies[band] <= n
                < deesser.schedule().heard[band].len()
                ==> #[trigger] deesser.schedule().heard[band][n] <= deesser.schedule().threshold,
    ensures
        deesser.corrected() == deesser.taken(),
        deesser.handed_out() == deesser.taken().take(deesser.schedule().emitted as int),
{
    crate::accounting::law_quiet_signal_needs_no_repair(deesser.schedule());
    assert forall|i: int| 0 <= i < deesser.taken().len() implies deesser.corrected()[i]
        == deesser.taken()[i] by {
        assert(!touched(deesser.schedule(), i));
    }
    assert(deesser.corrected() =~= deesser.taken());
}

} // verus!
