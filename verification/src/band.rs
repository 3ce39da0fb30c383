//! The detector of one sub band: from the levels of a band-pass filtered
//! signal to runs of loud steps.
//!
//! A *level* stands for the magnitude of a sample.  Levels are integers, and
//! all that is ever done with them is to compare them: a louder sample has a
//! greater level.  The bit pattern of a non-negative IEEE number is such an
//! integer; see [`level_of`].

use vstd::prelude::*;

verus! {

/// Detector block length in samples: 10 ms at 44100 Hz.
pub const STEP: u64 = 441;

/// Longest run of consecutive loud steps that is treated as one click (1 s).
/// A longer stretch is simply split into several clicks, which also makes the
/// gain follow the signal a little more closely.
pub const MAX_RUN_STEPS: u32 = 100;

/// Bit pattern of the positive infinity of IEEE single precision.
pub const INFINITY_BITS: u32 = 0x7f80_0000;

/// The level of the sample with the IEEE single precision bit pattern `bits`:
/// the pattern without its sign.  What is not a number has no magnitude.
pub open spec fn level(bits: u32) -> u32 {
    if bits % 0x8000_0000 <= INFINITY_BITS {
        bits % 0x8000_0000
    } else {
        0
    }
}

/// The level of a sample, from its bit pattern in IEEE single precision.
pub fn level_of(bits: u32) -> (result: u32)
    ensures
        result == level(bits),
{
    let magnitude: u32 = bits % 0x8000_0000;
    if magnitude <= INFINITY_BITS {
        magnitude
    } else {
        0
    }
}

/// A run of consecutive steps above the threshold, in one sub band.
#[derive(Clone, Copy, PartialEq, Eq, Structural, Debug)]
pub struct Run {
    pub start_step: u64,
    pub steps: u32,
    /// Largest step peak seen so far.
    pub peak: u32,
}

/// The detection state of one sub band.
#[derive(Clone, Copy, PartialEq, Eq, Structural, Debug)]
pub struct Band {
    /// Filtered samples still to be discarded: the first outputs of the
    /// filter, as many as its group delay, describe input positions before the
    /// start of the file.
    pub warmup: u64,
    /// Peak magnitude within the step currently being accumulated.
    pub peak: u32,
    /// Samples accumulated into the current step.
    pub filled: u64,
    /// Number of steps completed by this band so far.
    pub steps_done: u64,
    /// Run of loud steps currently open, if any.
    pub run: Option<Run>,
}

/// Result of feeding one filtered sample to a band.
#[derive(Clone, Copy, PartialEq, Eq, Structural, Debug)]
pub struct BandUpdate {
    /// A step boundary was crossed, so `steps_done` changed.
    pub step_closed: bool,
    /// A run ended with this step.
    pub finished_run: Option<Run>,
}

/// The greater of two levels.
pub open spec fn louder(a: u32, b: u32) -> u32 {
    if a < b {
        b
    } else {
        a
    }
}

/// The run that a loud step number `index` belongs to, when `open` is the run
/// that was open before it.
pub open spec fn extended(open: Option<Run>, index: u64, envelope: u32) -> Run {
    match open {
        None => Run { start_step: index, steps: 1, peak: envelope },
        Some(run) => Run {
            start_step: run.start_step,
            steps: (run.steps + 1) as u32,
            peak: louder(run.peak, envelope),
        },
    }
}

/// The run that is open after step number `index`.
pub open spec fn open_after(open: Option<Run>, index: u64, envelope: u32, threshold: u32) -> Option<
    Run,
> {
    if envelope <= threshold || extended(open, index, envelope).steps >= MAX_RUN_STEPS {
        None
    } else {
        Some(extended(open, index, envelope))
    }
}

/// The run that ends with step number `index`: a quiet step ends whatever run
/// was open before it, a loud step ends the run that it makes full.
pub open spec fn ended_by(open: Option<Run>, index: u64, envelope: u32, threshold: u32) -> Option<
    Run,
> {
    if envelope <= threshold {
        open
    } else if extended(open, index, envelope).steps >= MAX_RUN_STEPS {
        Some(extended(open, index, envelope))
    } else {
        None
    }
}

impl Band {
    /// A band that has not heard anything yet, behind a filter with a group
    /// delay of `latency` samples.
    pub open spec fn silent(latency: u64) -> Band {
        Band { warmup: latency, peak: 0, filled: 0, steps_done: 0, run: None }
    }

    /// Number of input positions analysed so far.
    pub open spec fn position(self) -> int {
        self.steps_done * STEP + self.filled
    }

    /// The step in progress is not complete, and an open run reaches up to the
    /// last completed step, is not full, and is louder than the threshold.
    pub open spec fn wf(self, threshold: u32) -> bool {
        &&& self.filled < STEP
        &&& self.warmup > 0 ==> self.position() == 0
        &&& self.run matches Some(run) ==> {
            &&& run.start_step + run.steps == self.steps_done
            &&& 1 <= run.steps < MAX_RUN_STEPS
            &&& run.peak > threshold
        }
    }

    /// True if the next accepted sample completes a step.
    pub open spec fn closes_step(self) -> bool {
        self.warmup == 0 && self.filled + 1 >= STEP
    }

    /// The band after one more level.
    pub open spec fn after(self, level: u32, threshold: u32) -> Band {
        if self.warmup > 0 {
            Band { warmup: (self.warmup - 1) as u64, ..self }
        } else if !self.closes_step() {
            Band { peak: louder(self.peak, level), filled: (self.filled + 1) as u64, ..self }
        } else {
            Band {
                warmup: 0,
                peak: 0,
                filled: 0,
                steps_done: (self.steps_done + 1) as u64,
                run: open_after(self.run, self.steps_done, louder(self.peak, level), threshold),
            }
        }
    }

    /// The run that one more level ends.
    pub open spec fn ended(self, level: u32, threshold: u32) -> Option<Run> {
        if self.closes_step() {
            ended_by(self.run, self.steps_done, louder(self.peak, level), threshold)
        } else {
            None
        }
    }

    /// A band that has not heard anything yet, behind a filter with a group
    /// delay of `latency` samples.
    pub fn new(latency: u64) -> (band: Band)
        ensures
            band == Band::silent(latency),
            forall|threshold: u32| #[trigger] band.wf(threshold),
    {
        Band { warmup: latency, peak: 0, filled: 0, steps_done: 0, run: None }
    }

    /// Consumes the level of one output sample of the band-pass filter.
    ///
    /// The output for input position `n` of a symmetric filter actually
    /// describes input position `n - latency`, which is why the first `latency`
    /// outputs are dropped.  From then on every output corresponds to exactly
    /// one input position, so counting them is the same as tracking the
    /// position in the file.
    pub fn accept(&mut self, level: u32, threshold: u32) -> (update: BandUpdate)
        requires
            old(self).wf(threshold),
            old(self).position() < u64::MAX,
        ensures
            *final(self) == old(self).after(level, threshold),
            update.step_closed == old(self).closes_step(),
            update.finished_run == old(self).ended(level, threshold),
            final(self).wf(threshold),
    {
        if self.warmup > 0 {
            self.warmup = self.warmup - 1;
            return BandUpdate { step_closed: false, finished_run: None };
        }
        if self.peak < level {
            self.peak = level;
        }
        self.filled = self.filled + 1;
        if self.filled < STEP {
            return BandUpdate { step_closed: false, finished_run: None };
        }
        // The step is complete: this is one envelope value.

        let envelope = self.peak;
        self.peak = 0;
        self.filled = 0;
        let index = self.steps_done;
        self.steps_done = self.steps_done + 1;

        let finished_run = self.close_step(index, envelope, threshold);
        BandUpdate { step_closed: true, finished_run }
    }

    /// Threshold comparison and run bookkeeping for one envelope value.
    pub fn close_step(&mut self, index: u64, envelope: u32, threshold: u32) -> (finished: Option<Run>)
        requires
            old(self).run matches Some(run) ==> run.steps < MAX_RUN_STEPS,
        ensures
            *final(self) == (Band {
                run: open_after(old(self).run, index, envelope, threshold),
                ..*old(self)
            }),
            finished == ended_by(old(self).run, index, envelope, threshold),
    {
        if envelope <= threshold {
            // Quiet step: whatever run was open ends here.
            return self.run.take();
        }
        let run = match self.run {
            None => Run { start_step: index, steps: 1, peak: envelope },
            Some(run) => Run {
                start_step: run.start_step,
                steps: run.steps + 1,
                peak: if run.peak < envelope {
                    envelope
                } else {
                    run.peak
                },
            },
        };

        // Enforce the length limit.  Note that the current step has already
        // been counted, so the next loud step simply opens a new run - no step
        // is skipped and no time is lost.
        if run.steps >= MAX_RUN_STEPS {
            self.run = None;
            return Some(run);
        }
        self.run = Some(run);
        None
    }
}

// ---------------------------------------------------------------------------
// Laws
// ---------------------------------------------------------------------------

/// The run that is open after the steps with the peaks `envelope`.
pub open spec fn open_run(envelope: Seq<u32>, threshold: u32) -> Option<Run>
    decreases envelope.len(),
{
    if envelope.len() == 0 {
        None
    } else {
        open_after(
            open_run(envelope.drop_last(), threshold),
            (envelope.len() - 1) as u64,
            envelope.last(),
            threshold,
        )
    }
}

/// The runs that have ended with the steps with the peaks `envelope`, in the
/// order in which they ended.
pub open spec fn ended_runs(envelope: Seq<u32>, threshold: u32) -> Seq<Run>
    decreases envelope.len(),
{
    if envelope.len() == 0 {
        Seq::empty()
    } else {
        let before = ended_runs(envelope.drop_last(), threshold);
        match ended_by(
            open_run(envelope.drop_last(), threshold),
            (envelope.len() - 1) as u64,
            envelope.last(),
            threshold,
        ) {
            Some(run) => before.push(run),
            None => before,
        }
    }
}

/// The ended runs, followed by the run that is still open, if there is one.
pub open spec fn all_runs(envelope: Seq<u32>, threshold: u32) -> Seq<Run> {
    match open_run(envelope, threshold) {
        Some(run) => ended_runs(envelope, threshold).push(run),
        None => ended_runs(envelope, threshold),
    }
}

impl Run {
    /// One past the last step of the run.
    pub open spec fn end_step(self) -> int {
        self.start_step + self.steps
    }

    /// True of the steps of the run.
    pub open spec fn covers(self, step: int) -> bool {
        self.start_step <= step < self.end_step()
    }

    /// The run is a stretch of loud steps of `envelope`, at most as long as a
    /// run may be, and carries the greatest of their peaks.
    pub open spec fn is_loud_stretch(self, envelope: Seq<u32>, threshold: u32) -> bool {
        &&& 1 <= self.steps <= MAX_RUN_STEPS
        &&& self.end_step() <= envelope.len()
        &&& forall|k: int|
            self.covers(k) ==> threshold < #[trigger] envelope[k] && envelope[k] <= self.peak
        &&& exists|k: int| self.covers(k) && #[trigger] envelope[k] == self.peak
    }
}

proof fn lemma_longer_envelope(run: Run, envelope: Seq<u32>, threshold: u32)
    requires
        envelope.len() > 0,
        run.is_loud_stretch(envelope.drop_last(), threshold),
    ensures
        run.is_loud_stretch(envelope, threshold),
{
    let shorter = envelope.drop_last();
    let k = choose|k: int| run.covers(k) && #[trigger] shorter[k] == run.peak;
    assert(envelope[k] == run.peak);
    assert forall|k: int| run.covers(k) implies threshold < #[trigger] envelope[k] && envelope[k]
        <= run.peak by {
        assert(shorter[k] == envelope[k]);
    }
}

proof fn lemma_extended_run(open: Option<Run>, envelope: Seq<u32>, threshold: u32)
    requires
        0 < envelope.len() <= u64::MAX,
        envelope.last() > threshold,
        open matches Some(run) ==> {
            &&& run.is_loud_stretch(envelope.drop_last(), threshold)
            &&& run.end_step() == envelope.len() - 1
            &&& run.steps < MAX_RUN_STEPS
        },
    ensures
        ({
            let run = extended(open, (envelope.len() - 1) as u64, envelope.last());
            &&& run.is_loud_stretch(envelope, threshold)
            &&& run.end_step() == envelope.len()
        }),
{
    let last = envelope.len() - 1;
    let run = extended(open, last as u64, envelope.last());
    assert(run.covers(last));
    match open {
        None => {
            assert(envelope[last] == run.peak);
        },
        Some(before) => {
            lemma_longer_envelope(before, envelope, threshold);
            let k = choose|k: int| before.covers(k) && #[trigger] envelope[k] == before.peak;
            if before.peak < envelope.last() {
                assert(envelope[last] == run.peak);
            } else {
                assert(run.covers(k) && envelope[k] == run.peak);
            }
            assert forall|k: int| run.covers(k) implies threshold < #[trigger] envelope[k]
                && envelope[k] <= run.peak by {
                if k < last {
                    assert(before.covers(k));
                }
            }
        },
    }
}

/// The runs are exactly the loud steps: every run is a stretch of loud steps
/// of at most the permitted length and carries their greatest peak, runs do
/// not overlap and come in order, and every loud step is in one of them.  A
/// quiet step leaves no run open.
pub proof fn law_runs_are_the_loud_steps(envelope: Seq<u32>, threshold: u32)
    requires
        envelope.len() <= u64::MAX,
    ensures
        forall|i: int|
            0 <= i < all_runs(envelope, threshold).len() ==> (#[trigger] all_runs(
                envelope,
                threshold,
            )[i]).is_loud_stretch(envelope, threshold),
        forall|i: int, j: int|
            0 <= i < j < all_runs(envelope, threshold).len() ==> (#[trigger] all_runs(
                envelope,
                threshold,
            )[i]).end_step() <= (#[trigger] all_runs(envelope, threshold)[j]).start_step,
        forall|k: int|
            0 <= k < envelope.len() && #[trigger] envelope[k] > threshold ==> exists|i: int|
                0 <= i < all_runs(envelope, threshold).len() && (#[trigger] all_runs(
                    envelope,
                    threshold,
                )[i]).covers(k),
        open_run(envelope, threshold) matches Some(run) ==> run.end_step() == envelope.len()
            && run.steps < MAX_RUN_STEPS,
        envelope.len() > 0 && envelope.last() <= threshold ==> open_run(
            envelope,
            threshold,
        ) is None,
    decreases envelope.len(),
{
    if envelope.len() > 0 {
        let shorter = envelope.drop_last();
        law_runs_are_the_loud_steps(shorter, threshold);
        let last = envelope.len() - 1;
        let open = open_run(shorter, threshold);
        let before = all_runs(shorter, threshold);
        let ended = ended_runs(shorter, threshold);
        let now = all_runs(envelope, threshold);
        match open {
            Some(run) => {
                assert(before[before.len() - 1] == run);
            },
            None => {},
        }
        if envelope.last() <= threshold {
            // The list of runs does not change: an open run has merely ended.
            assert(now =~= before);
            assert forall|i: int| 0 <= i < now.len() implies (#[trigger] now[i]).is_loud_stretch(
                envelope,
                threshold,
            ) by {
                lemma_longer_envelope(before[i], envelope, threshold);
            }
            assert forall|k: int|
                0 <= k < envelope.len() && #[trigger] envelope[k] > threshold implies exists|i: int|
                0 <= i < now.len() && (#[trigger] now[i]).covers(k) by {
                assert(shorter[k] == envelope[k]);
                let i = choose|i: int| 0 <= i < before.len() && (#[trigger] before[i]).covers(k);
                assert(now[i].covers(k));
            }
        } else {
            // The last run of the list has grown, or a new one has started.
            lemma_extended_run(open, envelope, threshold);
            let run = extended(open, last as u64, envelope.last());
            assert(now =~= ended.push(run));
            let count = ended.len() as int;
            assert forall|i: int| 0 <= i < count implies #[trigger] now[i] == before[i] by {}
            assert forall|i: int| 0 <= i < now.len() implies (#[trigger] now[i]).is_loud_stretch(
                envelope,
                threshold,
            ) by {
                if i < count {
                    lemma_longer_envelope(before[i], envelope, threshold);
                }
            }
            assert forall|i: int, j: int| 0 <= i < j < now.len() implies (
            #[trigger] now[i]).end_step() <= (#[trigger] now[j]).start_step by {
                assert(now[i] == before[i]);
                if j < count {
                    assert(now[j] == before[j]);
                } else if open is Some {
                    assert(before[j].start_step == run.start_step);
                } else {
                    assert(before[i].is_loud_stretch(shorter, threshold));
                }
            }
            assert forall|k: int|
                0 <= k < envelope.len() && #[trigger] envelope[k] > threshold implies exists|i: int|
                0 <= i < now.len() && (#[trigger] now[i]).covers(k) by {
                if k < last {
                    assert(shorter[k] == envelope[k]);
                    let i = choose|i: int|
                        0 <= i < before.len() && (#[trigger] before[i]).covers(k);
                    if i < count {
                        assert(now[i].covers(k));
                    } else {
                        assert(now[count].covers(k));
                    }
                } else {
                    assert(now[count].covers(k));
                }
            }
        }
    }
}

/// Every loud step is covered by exactly one run, and no other step is covered.
pub proof fn law_every_loud_step_is_in_one_run(envelope: Seq<u32>, threshold: u32, step: int)
    requires
        envelope.len() <= u64::MAX,
    ensures
        0 <= step < envelope.len() && envelope[step] > threshold <==> exists|i: int|
            0 <= i < all_runs(envelope, threshold).len() && (#[trigger] all_runs(
                envelope,
                threshold,
            )[i]).covers(step),
        forall|i: int, j: int|
            0 <= i < j < all_runs(envelope, threshold).len() ==> !((#[trigger] all_runs(
                envelope,
                threshold,
            )[i]).covers(step) && (#[trigger] all_runs(envelope, threshold)[j]).covers(step)),
{
    law_runs_are_the_loud_steps(envelope, threshold);
    let runs = all_runs(envelope, threshold);
    if exists|i: int| 0 <= i < runs.len() && (#[trigger] runs[i]).covers(step) {
        let i = choose|i: int| 0 <= i < runs.len() && (#[trigger] runs[i]).covers(step);
        assert(runs[i].is_loud_stretch(envelope, threshold));
        assert(threshold < envelope[step]);
    }
}

/// Closing one step after the other, each with its peak, leaves open what
/// [`open_run`] says and ends what [`ended_runs`] says.
pub proof fn law_steps_are_closed_one_by_one(envelope: Seq<u32>, peak: u32, threshold: u32)
    requires
        envelope.len() < u64::MAX,
    ensures
        ({
            let open = open_run(envelope, threshold);
            let index = envelope.len() as u64;
            let longer = envelope.push(peak);
            &&& open_run(longer, threshold) == open_after(open, index, peak, threshold)
            &&& ended_runs(longer, threshold) == match ended_by(open, index, peak, threshold) {
                Some(run) => ended_runs(envelope, threshold).push(run),
                None => ended_runs(envelope, threshold),
            }
        }),
{
    assert(envelope.push(peak).drop_last() =~= envelope);
}

/// The greatest of some levels, 0 if there are none.
pub open spec fn loudest(levels: Seq<u32>) -> u32
    decreases levels.len(),
{
    if levels.len() == 0 {
        0
    } else {
        louder(loudest(levels.drop_last()), levels.last())
    }
}

/// The peaks of the complete steps of a signal: one for each `STEP` levels.
pub open spec fn step_peaks(levels: Seq<u32>) -> Seq<u32> {
    Seq::new(
        levels.len() / STEP as nat,
        |k: int| loudest(levels.subrange(k * STEP, (k + 1) * STEP)),
    )
}

/// The band after it has heard `levels`.
pub open spec fn band_after(latency: u64, levels: Seq<u32>, threshold: u32) -> Band
    decreases levels.len(),
{
    if levels.len() == 0 {
        Band::silent(latency)
    } else {
        band_after(latency, levels.drop_last(), threshold).after(levels.last(), threshold)
    }
}

/// The runs that ended while the band heard `levels`.
pub open spec fn ended_while(latency: u64, levels: Seq<u32>, threshold: u32) -> Seq<Run>
    decreases levels.len(),
{
    if levels.len() == 0 {
        Seq::empty()
    } else {
        let before = ended_while(latency, levels.drop_last(), threshold);
        match band_after(latency, levels.drop_last(), threshold).ended(levels.last(), threshold) {
            Some(run) => before.push(run),
            None => before,
        }
    }
}

/// A band drops the first `latency` levels and cuts the others into steps: it
/// has completed one step for each `STEP` of them, its peak is the loudest of
/// those left over, and its runs are the runs of the peaks of these steps.
pub proof fn law_band_cuts_the_signal_into_steps(latency: u64, levels: Seq<u32>, threshold: u32)
    requires
        levels.len() <= latency + u64::MAX,
    ensures
        ({
            let band = band_after(latency, levels, threshold);
            let ended = ended_while(latency, levels, threshold);
            if levels.len() <= latency {
                band == Band::silent((latency - levels.len()) as u64) && ended.len() == 0
            } else {
                let heard = levels.skip(latency as int);
                &&& band.warmup == 0
                &&& band.steps_done == heard.len() / STEP as nat
                &&& band.filled == heard.len() % STEP as nat
                &&& band.peak == loudest(heard.skip(heard.len() - band.filled))
                &&& band.run == open_run(step_peaks(heard), threshold)
                &&& ended == ended_runs(step_peaks(heard), threshold)
            }
        }),
    decreases levels.len(),
{
    if levels.len() > 0 {
        let shorter = levels.drop_last();
        law_band_cuts_the_signal_into_steps(latency, shorter, threshold);
        if levels.len() > latency {
            let band = band_after(latency, shorter, threshold);
            let heard = levels.skip(latency as int);
            let heard_before = shorter.skip(latency as int);
            assert(heard_before =~= heard.drop_last());
            if shorter.len() == latency {
                assert(heard_before.len() == 0);
                assert(step_peaks(heard_before) =~= Seq::<u32>::empty());
                assert(heard_before.skip(0) =~= Seq::<u32>::empty());
                assert(ended_while(latency, shorter, threshold) =~= Seq::<Run>::empty());
            }
            lemma_one_more_level(heard, band.steps_done as int, band.filled as int);
            let before = step_peaks(heard_before);
            let peak = louder(band.peak, levels.last());
            assert(before.len() == band.steps_done);
            assert(band.run == open_run(before, threshold));
            assert(before.push(peak).drop_last() =~= before);
            assert(ended_while(latency, shorter, threshold) == ended_runs(before, threshold));
        }
    }
}

/// Nothing is louder than the loudest.
pub proof fn lemma_loudest(levels: Seq<u32>, bound: u32)
    requires
        forall|i: int| 0 <= i < levels.len() ==> #[trigger] levels[i] <= bound,
    ensures
        loudest(levels) <= bound,
    decreases levels.len(),
{
    if levels.len() > 0 {
        let shorter = levels.drop_last();
        assert forall|i: int| 0 <= i < shorter.len() implies #[trigger] shorter[i] <= bound by {
            assert(shorter[i] == levels[i]);
        }
        lemma_loudest(shorter, bound);
        assert(levels[levels.len() - 1] <= bound);
    }
}

/// One more level either leaves the steps as they are or completes one.
proof fn lemma_one_more_level(heard: Seq<u32>, steps: int, filled: int)
    requires
        heard.len() > 0,
        steps == (heard.len() - 1) / STEP as int,
        filled == (heard.len() - 1) % STEP as int,
    ensures
        ({
            let before = heard.drop_last();
            let peak = loudest(before.skip(before.len() - filled));
            if filled + 1 < STEP {
                &&& heard.len() / STEP as nat == steps
                &&& heard.len() % STEP as nat == filled + 1
                &&& step_peaks(heard) == step_peaks(before)
                &&& loudest(heard.skip(heard.len() - filled - 1)) == louder(peak, heard.last())
            } else {
                &&& heard.len() / STEP as nat == steps + 1
                &&& heard.len() % STEP as nat == 0
                &&& step_peaks(heard) == step_peaks(before).push(louder(peak, heard.last()))
                &&& heard.skip(heard.len() as int) == Seq::<u32>::empty()
            }
        }),
{
    let before = heard.drop_last();
    let part = heard.skip(heard.len() - filled - 1);
    assert(part.drop_last() =~= before.skip(before.len() - filled));
    assert(part.last() == heard.last());
    assert forall|k: int| 0 <= k < steps implies heard.subrange(k * STEP, (k + 1) * STEP)
        == #[trigger] before.subrange(k * STEP, (k + 1) * STEP) by {
        assert(heard.subrange(k * STEP, (k + 1) * STEP) =~= before.subrange(
            k * STEP,
            (k + 1) * STEP,
        ));
    }
    if filled + 1 < STEP {
        assert(step_peaks(heard) =~= step_peaks(before));
    } else {
        assert(heard.subrange(steps * STEP, (steps + 1) * STEP) =~= part);
        assert(step_peaks(heard) =~= step_peaks(before).push(
            louder(loudest(before.skip(before.len() - filled)), heard.last()),
        ));
    }
}

/// The level of a number is the same whatever its sign, and of two numbers the
/// greater magnitude has the greater level; a level of 0 is silence, or no
/// number at all.
pub proof fn law_levels_are_ordered_like_magnitudes(bits: u32, other: u32)
    ensures
        bits < 0x8000_0000 ==> level((bits + 0x8000_0000) as u32) == level(bits),
        bits <= other <= 0x7f80_0000 ==> level(bits) <= level(other),
        bits < other <= 0x7f80_0000 ==> level(bits) < level(other),
        level(bits) == 0 <==> bits == 0 || bits == 0x8000_0000 || 0x7f80_0000 < bits < 0x8000_0000
            || 0xff80_0000 < bits,
        level(bits) <= 0x7f80_0000,
        bits <= 0x7f80_0000 ==> level(bits) == bits,
{
}

/// The loudest of some levels is one of them, and none is louder.
pub proof fn law_loudest_is_the_greatest(levels: Seq<u32>)
    ensures
        forall|i: int| 0 <= i < levels.len() ==> #[trigger] levels[i] <= loudest(levels),
        levels.len() > 0 ==> exists|i: int|
            0 <= i < levels.len() && #[trigger] levels[i] == loudest(levels),
    decreases levels.len(),
{
    if levels.len() > 0 {
        let shorter = levels.drop_last();
        law_loudest_is_the_greatest(shorter);
        assert(levels[levels.len() - 1] == levels.last());
        assert forall|i: int| 0 <= i < levels.len() implies #[trigger] levels[i] <= loudest(
            levels,
        ) by {
            if i < shorter.len() {
                assert(shorter[i] == levels[i]);
            }
        }
        if loudest(levels) != levels.last() {
            let i = choose|i: int| 0 <= i < shorter.len() && #[trigger] shorter[i] == loudest(shorter);
            assert(levels[i] == loudest(levels));
        }
    }
}

/// The peaks of the steps are the loudest of 441 levels each.
pub proof fn law_a_step_has_the_peak_of_its_levels(levels: Seq<u32>, step: int)
    requires
        0 <= step,
        441 * (step + 1) <= levels.len(),
    ensures
        step < step_peaks(levels).len(),
        forall|n: int|
            441 * step <= n < 441 * (step + 1) ==> #[trigger] levels[n] <= step_peaks(levels)[step],
        exists|n: int|
            441 * step <= n < 441 * (step + 1) && #[trigger] levels[n] == step_peaks(levels)[step],
{
    let part = levels.subrange(step * STEP, (step + 1) * STEP);
    law_loudest_is_the_greatest(part);
    assert forall|n: int| 441 * step <= n < 441 * (step + 1) implies #[trigger] levels[n]
        <= step_peaks(levels)[step] by {
        assert(part[n - 441 * step] == levels[n]);
    }
    let i = choose|i: int| 0 <= i < part.len() && #[trigger] part[i] == loudest(part);
    assert(levels[441 * step + i] == step_peaks(levels)[step]);
}

/// Step `from` is where a stretch of loud steps begins, and step `start` lies in
/// that stretch, a whole number of hundred steps later.
pub open spec fn begins_after(
    envelope: Seq<u32>,
    threshold: u32,
    from: int,
    start: int,
) -> bool {
    &&& 0 <= from <= start < envelope.len()
    &&& from == 0 || envelope[from - 1] <= threshold
    &&& forall|k: int| from <= k <= start ==> threshold < #[trigger] envelope[k]
    &&& (start - from) % 100 == 0
}

/// A click begins with step `start`: with the first step of a stretch of loud
/// steps, and then with every hundredth.
pub open spec fn click_begins(envelope: Seq<u32>, threshold: u32, start: int) -> bool {
    exists|from: int| #[trigger] begins_after(envelope, threshold, from, start)
}

/// A click of `steps` steps: it lasts as long as the steps are loud, but no
/// longer than a hundred of them.
pub open spec fn is_click(envelope: Seq<u32>, threshold: u32, start: int, steps: int) -> bool {
    &&& click_begins(envelope, threshold, start)
    &&& 1 <= steps <= 100
    &&& start + steps <= envelope.len()
    &&& forall|k: int| start <= k < start + steps ==> threshold < #[trigger] envelope[k]
    &&& steps < 100 && start + steps < envelope.len() ==> envelope[start + steps] <= threshold
}

/// Of a signal with one more step, a click that has ended is the same.
proof fn lemma_click_stays(envelope: Seq<u32>, threshold: u32, start: int, steps: int)
    requires
        envelope.len() > 0,
        is_click(envelope.drop_last(), threshold, start, steps),
        start + steps < envelope.len() - 1 || steps == 100 || envelope.last() <= threshold,
    ensures
        is_click(envelope, threshold, start, steps),
{
    let shorter = envelope.drop_last();
    let from = choose|from: int| #[trigger] begins_after(shorter, threshold, from, start);
    assert forall|k: int| from <= k <= start implies threshold < #[trigger] envelope[k] by {
        assert(shorter[k] == envelope[k]);
    }
    assert forall|k: int| start <= k < start + steps implies threshold < #[trigger] envelope[k] by {
        assert(shorter[k] == envelope[k]);
    }
    assert(begins_after(envelope, threshold, from, start));
}

/// A click that reaches up to the last step but one, and is not full, goes on
/// with a loud step.
proof fn lemma_click_grows(envelope: Seq<u32>, threshold: u32, start: int, steps: int)
    requires
        envelope.len() > 0,
        is_click(envelope.drop_last(), threshold, start, steps),
        start + steps == envelope.len() - 1,
        steps < 100,
        envelope.last() > threshold,
    ensures
        is_click(envelope, threshold, start, steps + 1),
{
    let shorter = envelope.drop_last();
    let from = choose|from: int| #[trigger] begins_after(shorter, threshold, from, start);
    assert forall|k: int| from <= k <= start implies threshold < #[trigger] envelope[k] by {
        assert(shorter[k] == envelope[k]);
    }
    assert forall|k: int| start <= k < start + steps + 1 implies threshold
        < #[trigger] envelope[k] by {
        if k < shorter.len() {
            assert(shorter[k] == envelope[k]);
        }
    }
    assert(begins_after(envelope, threshold, from, start));
}

/// What [`law_clicks_are_as_long_as_they_can_be`] says of each run.
spec fn all_clicks(runs: Seq<Run>, envelope: Seq<u32>, threshold: u32) -> bool {
    forall|i: int|
        0 <= i < runs.len() ==> is_click(
            envelope,
            threshold,
            (#[trigger] runs[i]).start_step as int,
            runs[i].steps as int,
        )
}

/// Every run is a click.
proof fn lemma_runs_are_clicks(envelope: Seq<u32>, threshold: u32)
    requires
        envelope.len() <= u64::MAX,
    ensures
        all_clicks(all_runs(envelope, threshold), envelope, threshold),
        envelope.len() > 0 && envelope.last() > threshold && open_run(envelope, threshold) is None
            ==> {
            let runs = ended_runs(envelope, threshold);
            runs.len() > 0 && runs.last().steps == 100 && runs.last().end_step() == envelope.len()
        },
    decreases envelope.len(), 1int,
{
    if envelope.len() > 0 {
        let shorter = envelope.drop_last();
        let last = envelope.len() - 1;
        lemma_runs_are_clicks(shorter, threshold);
        law_runs_are_the_loud_steps(shorter, threshold);
        let open = open_run(shorter, threshold);
        let before = all_runs(shorter, threshold);
        let ended = ended_runs(shorter, threshold);
        let now = all_runs(envelope, threshold);
        if open is Some {
            assert(before[before.len() - 1] == open.unwrap());
        }
        if envelope.last() <= threshold {
            assert(now =~= before);
            assert forall|i: int| 0 <= i < now.len() implies is_click(
                envelope,
                threshold,
                (#[trigger] now[i]).start_step as int,
                now[i].steps as int,
            ) by {
                assert(is_click(
                    shorter,
                    threshold,
                    before[i].start_step as int,
                    before[i].steps as int,
                ));
                lemma_click_stays(
                    envelope,
                    threshold,
                    before[i].start_step as int,
                    before[i].steps as int,
                );
            }
        } else {
            let run = extended(open, last as u64, envelope.last());
            let count = ended.len() as int;
            assert(now =~= ended.push(run));
            assert forall|i: int| 0 <= i < count implies is_click(
                envelope,
                threshold,
                (#[trigger] now[i]).start_step as int,
                now[i].steps as int,
            ) by {
                let click = before[i];
                assert(now[i] == click);
                assert(is_click(shorter, threshold, click.start_step as int, click.steps as int));
                if click.end_step() == last && click.steps < 100 {
                    lemma_last_ended(shorter, threshold, i);
                }
                assert(click.is_loud_stretch(shorter, threshold));
                lemma_click_stays(
                    envelope,
                    threshold,
                    click.start_step as int,
                    click.steps as int,
                );
            }
            match open {
                Some(grown) => {
                    assert(is_click(
                        shorter,
                        threshold,
                        grown.start_step as int,
                        grown.steps as int,
                    ));
                    lemma_click_grows(
                        envelope,
                        threshold,
                        grown.start_step as int,
                        grown.steps as int,
                    );
                },
                None => {
                    lemma_click_starts(envelope, threshold);
                },
            }
        }
    }
}

/// A run that has ended short of the permitted length has ended before the last
/// step, if that is loud.
proof fn lemma_last_ended(envelope: Seq<u32>, threshold: u32, i: int)
    requires
        0 < envelope.len() <= u64::MAX,
        0 <= i < ended_runs(envelope, threshold).len(),
        ended_runs(envelope, threshold)[i].end_step() == envelope.len(),
    ensures
        ended_runs(envelope, threshold)[i].steps == 100,
    decreases envelope.len(), 2int,
{
    let runs = ended_runs(envelope, threshold);
    let all = all_runs(envelope, threshold);
    law_runs_are_the_loud_steps(envelope, threshold);
    lemma_runs_are_clicks(envelope, threshold);
    assert(all[i] == runs[i]);
    assert(runs[i].is_loud_stretch(envelope, threshold));
    assert(runs[i].covers(envelope.len() - 1));
    assert(threshold < envelope[envelope.len() - 1]);
    if open_run(envelope, threshold) is Some {
        let j = all.len() - 1;
        assert(all[j].is_loud_stretch(envelope, threshold));
        assert(all[i].end_step() <= all[j].start_step);
    } else {
        assert(all[runs.len() - 1] == runs.last());
        if i < runs.len() - 1 {
            assert(all[i].end_step() <= all[runs.len() - 1].start_step);
        }
    }
}

/// A loud step after a quiet one, or after a run of the permitted length, begins
/// a click.
proof fn lemma_click_starts(envelope: Seq<u32>, threshold: u32)
    requires
        0 < envelope.len() <= u64::MAX,
        envelope.last() > threshold,
        open_run(envelope.drop_last(), threshold) is None,
    ensures
        is_click(envelope, threshold, envelope.len() - 1, 1),
    decreases envelope.len(), 0int,
{
    let shorter = envelope.drop_last();
    let last = envelope.len() - 1;
    lemma_runs_are_clicks(shorter, threshold);
    if last == 0 || shorter.last() <= threshold {
        assert(begins_after(envelope, threshold, last, last));
    } else {
        let runs = ended_runs(shorter, threshold);
        let run = runs.last();
        let start = run.start_step as int;
        assert(run == all_runs(shorter, threshold)[runs.len() - 1]);
        assert(is_click(shorter, threshold, start, 100));
        let from = choose|from: int| #[trigger] begins_after(shorter, threshold, from, start);
        assert forall|k: int| from <= k <= last implies threshold < #[trigger] envelope[k] by {
            if k < last {
                assert(shorter[k] == envelope[k]);
            }
        }
        assert(begins_after(envelope, threshold, from, last));
    }
}

/// Where a click begins is decided by the loud steps alone: it is where its
/// stretch of loud steps begins, or a multiple of a hundred steps later; and it
/// lasts until the stretch ends or a hundred steps are full.  There is a run for
/// each click, and no other.
pub proof fn law_clicks_are_as_long_as_they_can_be(envelope: Seq<u32>, threshold: u32)
    requires
        envelope.len() <= u64::MAX,
    ensures
        forall|i: int|
            0 <= i < all_runs(envelope, threshold).len() ==> is_click(
                envelope,
                threshold,
                (#[trigger] all_runs(envelope, threshold)[i]).start_step as int,
                all_runs(envelope, threshold)[i].steps as int,
            ),
        forall|start: int| #[trigger]
            click_begins(envelope, threshold, start) ==> exists|i: int|
                0 <= i < all_runs(envelope, threshold).len() && (#[trigger] all_runs(
                    envelope,
                    threshold,
                )[i]).start_step == start,
{
    let runs = all_runs(envelope, threshold);
    lemma_runs_are_clicks(envelope, threshold);
    law_runs_are_the_loud_steps(envelope, threshold);
    assert forall|start: int| #[trigger] click_begins(envelope, threshold, start) implies exists|
        i: int,
    |
        0 <= i < runs.len() && (#[trigger] runs[i]).start_step == start by {
        let from = choose|from: int| #[trigger] begins_after(envelope, threshold, from, start);
        assert(threshold < envelope[start]);
        let i = choose|i: int| 0 <= i < runs.len() && (#[trigger] runs[i]).covers(start);
        let run = runs[i];
        let first = run.start_step as int;
        assert(is_click(envelope, threshold, first, run.steps as int));
        let other = choose|other: int| #[trigger] begins_after(envelope, threshold, other, first);
        lemma_same_stretch(envelope, threshold, other, first, from, start);
        assert(run.start_step == start);
    }
}

/// Two steps of a stretch have the same beginning, so that less than a hundred
/// steps apart only one of them can begin a click.
proof fn lemma_same_stretch(
    envelope: Seq<u32>,
    threshold: u32,
    other: int,
    first: int,
    from: int,
    start: int,
)
    requires
        begins_after(envelope, threshold, other, first),
        begins_after(envelope, threshold, from, start),
        first <= start < first + 100,
        forall|k: int| first <= k <= start ==> threshold < #[trigger] envelope[k],
    ensures
        first == start,
{
    if other < from {
        assert(threshold < envelope[from - 1]);
    }
    if from < other {
        assert(threshold < envelope[other - 1]);
    }
    assert(other == from);
}

} // verus!
