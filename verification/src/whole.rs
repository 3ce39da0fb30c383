//! What the de-esser does to a whole signal, said without its workings.
//!
//! Everything here is stated of the samples and levels themselves, at their
//! positions: which products a filter adds up, which steps are loud, which
//! samples a correction changes and how.  [`deess`] sends a whole signal through
//! a [`DeEsser`](crate::deesser::DeEsser) and promises just that.

use crate::deesser::{Action, DeEsser};
use crate::dsp::Biquad;
use crate::event::{Repair, BAND_COUNT};
use crate::schedule::{Schedule, MAX_LATENCY, MAX_SAMPLES};
use vstd::prelude::*;

verus! {

// ---------------------------------------------------------------------------
// Hearing
// ---------------------------------------------------------------------------

/// Sample number `i` of `signal`, which has silence on both sides.
pub open spec fn sample_at<T>(signal: Seq<T>, zero: T, i: int) -> T {
    if 0 <= i < signal.len() {
        signal[i]
    } else {
        zero
    }
}

/// The product of tap number `m` and the sample that lies `m` samples before
/// sample number `n` is added to the sum so far.
pub open spec fn adds_tap<T, F: Fn(T, T, T) -> T>(
    multiply_add: F,
    taps: Seq<T>,
    zero: T,
    signal: Seq<T>,
    n: int,
    sums: Seq<T>,
    m: int,
) -> bool {
    call_ensures(multiply_add, (sums[m], taps[m], sample_at(signal, zero, n - m)), sums[m + 1])
}

/// `sums` lead from nothing to the filtered sample number `n`, one tap after the
/// other.
pub open spec fn adds_taps<T, F: Fn(T, T, T) -> T>(
    multiply_add: F,
    taps: Seq<T>,
    zero: T,
    signal: Seq<T>,
    n: int,
    sums: Seq<T>,
) -> bool {
    &&& sums.len() == taps.len() + 1
    &&& sums[0] == zero
    &&& forall|m: int|
        0 <= m < taps.len() ==> #[trigger] adds_tap(multiply_add, taps, zero, signal, n, sums, m)
}

/// `level` is the level of the filtered sample number `n`.
pub open spec fn is_level_at<T, F: Fn(T, T, T) -> T, L: Fn(T) -> u32>(
    multiply_add: F,
    measure: L,
    taps: Seq<T>,
    zero: T,
    signal: Seq<T>,
    n: int,
    level: u32,
) -> bool {
    exists|sums: Seq<T>|
        {
            &&& #[trigger] adds_taps(multiply_add, taps, zero, signal, n, sums)
            &&& call_ensures(measure, (sums[taps.len() as int],), level)
        }
}

/// Each band has heard its filter's output for the first samples of `signal` and
/// the silence after it: level number `n` is that of the filtered sample
/// number `n`, for every `n`.
pub open spec fn hears_signal<T, F: Fn(T, T, T) -> T, L: Fn(T) -> u32>(
    multiply_add: F,
    measure: L,
    kernels: Seq<Seq<T>>,
    zero: T,
    signal: Seq<T>,
    heard: Seq<Seq<u32>>,
) -> bool {
    forall|band: int, n: int|
        0 <= band < 10 && 0 <= n < heard[band].len() ==> #[trigger] is_level_at(
            multiply_add,
            measure,
            kernels[band],
            zero,
            signal,
            n,
            heard[band][n],
        )
}

/// What a filter makes of the last sample of `longer` is what it makes of that
/// sample of `signal`, if both are the same up to there.
pub proof fn lemma_hears_at<T, F: Fn(T, T, T) -> T, L: Fn(T) -> u32>(
    multiply_add: F,
    measure: L,
    taps: Seq<T>,
    zero: T,
    longer: Seq<T>,
    signal: Seq<T>,
    level: u32,
)
    requires
        crate::deesser::hears(multiply_add, measure, zero, taps, longer, level),
        forall|i: int|
            0 <= i < longer.len() ==> #[trigger] longer[i] == sample_at(signal, zero, i),
    ensures
        is_level_at(multiply_add, measure, taps, zero, signal, longer.len() - 1, level),
{
    let n = longer.len() - 1;
    let window = crate::dsp::recent(longer, zero, taps.len());
    let sum = choose|sum: T|
        {
            &&& #[trigger] crate::dsp::sums_to(multiply_add, taps, window, zero, sum)
            &&& call_ensures(measure, (sum,), level)
        };
    let sums = choose|sums: Seq<T>|
        {
            &&& #[trigger] crate::dsp::adds_up(multiply_add, taps, window, sums)
            &&& sums.len() == taps.len() + 1
            &&& sums.first() == zero
            &&& sums.last() == sum
        };
    assert forall|m: int| 0 <= m < taps.len() implies #[trigger] adds_tap(
        multiply_add,
        taps,
        zero,
        signal,
        n,
        sums,
        m,
    ) by {
        assert(crate::dsp::adds_product(multiply_add, taps, window, sums, m));
        if m <= n {
            assert(window[m] == longer[n - m]);
        }
    }
    assert(adds_taps(multiply_add, taps, zero, signal, n, sums));
}

/// What a filter has made of a sample does not change when more samples come.
proof fn lemma_level_stays<T, F: Fn(T, T, T) -> T, L: Fn(T) -> u32>(
    multiply_add: F,
    measure: L,
    taps: Seq<T>,
    zero: T,
    signal: Seq<T>,
    sample: T,
    n: int,
    level: u32,
)
    requires
        is_level_at(multiply_add, measure, taps, zero, signal, n, level),
        n < signal.len(),
    ensures
        is_level_at(multiply_add, measure, taps, zero, signal.push(sample), n, level),
{
    let longer = signal.push(sample);
    let sums = choose|sums: Seq<T>|
        {
            &&& #[trigger] adds_taps(multiply_add, taps, zero, signal, n, sums)
            &&& call_ensures(measure, (sums[taps.len() as int],), level)
        };
    assert forall|m: int| 0 <= m < taps.len() implies #[trigger] adds_tap(
        multiply_add,
        taps,
        zero,
        longer,
        n,
        sums,
        m,
    ) by {
        assert(adds_tap(multiply_add, taps, zero, signal, n, sums, m));
    }
    assert(adds_taps(multiply_add, taps, zero, longer, n, sums));
}

/// Every level that a band has heard is that of its filter's output at the same
/// position of the input, and one more sample keeps that so.
pub proof fn law_every_sample_is_filtered<T, F: Fn(T, T, T) -> T, L: Fn(T) -> u32>(
    multiply_add: F,
    measure: L,
    kernels: Seq<Seq<T>>,
    zero: T,
    signal: Seq<T>,
    sample: T,
    heard: Seq<Seq<u32>>,
    levels: Seq<u32>,
    after: Seq<Seq<u32>>,
)
    requires
        kernels.len() == 10,
        hears_signal(multiply_add, measure, kernels, zero, signal, heard),
        forall|band: int|
            0 <= band < 10 ==> (#[trigger] heard[band]).len() == signal.len() && after[band]
                == heard[band].push(levels[band]),
        crate::deesser::hears_each(
            multiply_add,
            measure,
            zero,
            kernels,
            signal.push(sample),
            levels,
        ),
    ensures
        hears_signal(multiply_add, measure, kernels, zero, signal.push(sample), after),
{
    let longer = signal.push(sample);
    assert forall|band: int, n: int|
        0 <= band < 10 && 0 <= n < after[band].len() implies #[trigger] is_level_at(
        multiply_add,
        measure,
        kernels[band],
        zero,
        longer,
        n,
        after[band][n],
    ) by {
        assert(heard[band].len() == signal.len());
        if n < signal.len() {
            assert(is_level_at(
                multiply_add,
                measure,
                kernels[band],
                zero,
                signal,
                n,
                heard[band][n],
            ));
            lemma_level_stays(
                multiply_add,
                measure,
                kernels[band],
                zero,
                signal,
                sample,
                n,
                heard[band][n],
            );
        } else {
            assert(crate::deesser::hears(
                multiply_add,
                measure,
                zero,
                kernels[band],
                longer,
                levels[band],
            ));
            lemma_hears_at(
                multiply_add,
                measure,
                kernels[band],
                zero,
                longer,
                longer,
                levels[band],
            );
        }
    }
}

/// At the end of the input every band hears its filter's output for the silence
/// that follows.
pub proof fn law_the_silence_after_the_input_is_filtered<
    T,
    F: Fn(T, T, T) -> T,
    L: Fn(T) -> u32,
>(
    multiply_add: F,
    measure: L,
    kernels: Seq<Seq<T>>,
    zero: T,
    signal: Seq<T>,
    heard: Seq<Seq<u32>>,
    tails: Seq<Seq<u32>>,
    after: Seq<Seq<u32>>,
)
    requires
        kernels.len() == 10,
        hears_signal(multiply_add, measure, kernels, zero, signal, heard),
        forall|band: int|
            0 <= band < 10 ==> (#[trigger] heard[band]).len() == signal.len() && after[band]
                == heard[band] + tails[band],
        crate::deesser::hears_silence(multiply_add, measure, zero, kernels, signal, tails),
    ensures
        hears_signal(multiply_add, measure, kernels, zero, signal, after),
{
    assert forall|band: int, n: int|
        0 <= band < 10 && 0 <= n < after[band].len() implies #[trigger] is_level_at(
        multiply_add,
        measure,
        kernels[band],
        zero,
        signal,
        n,
        after[band][n],
    ) by {
        assert(heard[band].len() == signal.len());
        if n < signal.len() {
            assert(is_level_at(
                multiply_add,
                measure,
                kernels[band],
                zero,
                signal,
                n,
                heard[band][n],
            ));
        } else {
            let k = n - signal.len();
            let longer = crate::deesser::followed(signal, zero, (k + 1) as nat);
            assert(crate::deesser::hears_tail(
                multiply_add,
                measure,
                zero,
                kernels[band],
                signal,
                tails[band],
            ));
            assert(crate::deesser::hears(
                multiply_add,
                measure,
                zero,
                kernels[band],
                longer,
                tails[band][k],
            ));
            lemma_hears_at(
                multiply_add,
                measure,
                kernels[band],
                zero,
                longer,
                signal,
                tails[band][k],
            );
        }
    }
}

// ---------------------------------------------------------------------------
// Repairing
// ---------------------------------------------------------------------------

/// Sample number `i` is filtered: `xs` and `ys` are what goes into the filter and
/// what comes out of it in the precision of its memory, with the two values
/// before the first sample in front.
pub open spec fn cuts_sample<C, S, T, E: Fn(C, T, S, S, S, S) -> (S, S, T)>(
    equation: E,
    coefficients: C,
    xs: Seq<S>,
    ys: Seq<S>,
    before: Seq<T>,
    after: Seq<T>,
    i: int,
) -> bool {
    call_ensures(
        equation,
        (coefficients, before[i], xs[i + 1], xs[i], ys[i + 1], ys[i]),
        (xs[i + 2], ys[i + 2], after[i]),
    )
}

/// `after` is `before` behind a filter whose memory is empty at first: each sample
/// comes from the sample, the two samples before it, and the two results before
/// it.
pub open spec fn is_recursion<C, S, T, E: Fn(C, T, S, S, S, S) -> (S, S, T)>(
    equation: E,
    coefficients: C,
    memory: S,
    xs: Seq<S>,
    ys: Seq<S>,
    before: Seq<T>,
    after: Seq<T>,
) -> bool {
    &&& after.len() == before.len()
    &&& xs.len() == before.len() + 2
    &&& ys.len() == before.len() + 2
    &&& xs[0] == memory && xs[1] == memory && ys[0] == memory && ys[1] == memory
    &&& forall|i: int|
        0 <= i < before.len() ==> #[trigger] cuts_sample(
            equation,
            coefficients,
            xs,
            ys,
            before,
            after,
            i,
        )
}

/// `after` is `before` behind the filter that is designed for `band` and `level`.
pub open spec fn is_cut<
    C,
    S,
    T,
    O: Fn(usize, u32) -> C,
    E: Fn(C, T, S, S, S, S) -> (S, S, T),
>(
    design: O,
    memory: S,
    equation: E,
    band: int,
    level: u32,
    before: Seq<T>,
    after: Seq<T>,
) -> bool {
    exists|coefficients: C, xs: Seq<S>, ys: Seq<S>|
        {
            &&& #[trigger] is_recursion(equation, coefficients, memory, xs, ys, before, after)
            &&& call_ensures(design, (band as usize, level), coefficients)
        }
}

/// Band number `band` is cut if and only if it fired.
pub open spec fn passes_band<
    C,
    S,
    T,
    O: Fn(usize, u32) -> C,
    E: Fn(C, T, S, S, S, S) -> (S, S, T),
>(
    design: O,
    memory: S,
    equation: E,
    levels: Seq<u32>,
    stages: Seq<Seq<T>>,
    band: int,
) -> bool {
    &&& levels[band] == 0 ==> stages[band + 1] == stages[band]
    &&& levels[band] > 0 ==> is_cut(
        design,
        memory,
        equation,
        band,
        levels[band],
        stages[band],
        stages[band + 1],
    )
}

/// `stages` lead from an excerpt to the excerpt behind the filters of all bands
/// that fired, from the lowest to the highest.
pub open spec fn is_cascade<
    C,
    S,
    T,
    O: Fn(usize, u32) -> C,
    E: Fn(C, T, S, S, S, S) -> (S, S, T),
>(design: O, memory: S, equation: E, levels: Seq<u32>, stages: Seq<Seq<T>>) -> bool {
    &&& stages.len() == 11
    &&& forall|band: int|
        0 <= band < 10 ==> #[trigger] passes_band(
            design,
            memory,
            equation,
            levels,
            stages,
            band,
        )
}

/// `result` is `original` plus the weighted difference between `filtered` and
/// `original`.
///
/// In an excerpt of more than 440 samples the weight grows from 0 by one part in
/// 220 with each sample, until it is 1, and falls in the same way at the end; in a
/// shorter one it is 1 throughout.
pub open spec fn is_blended<T, W: Fn(T, T, usize, usize) -> T, A: Fn(T, T) -> T>(
    weigh: W,
    plus: A,
    original: T,
    filtered: T,
    offset: int,
    length: int,
    result: T,
) -> bool {
    exists|difference: T|
        {
            &&& call_ensures(
                weigh,
                if length > 440 && offset <= 220 {
                    (filtered, original, offset as usize, 220usize)
                } else if length > 440 && length - offset <= 220 {
                    (filtered, original, (length - offset) as usize, 220usize)
                } else {
                    (filtered, original, 1usize, 1usize)
                },
                difference,
            )
            &&& #[trigger] call_ensures(plus, (original, difference), result)
        }
}

/// Every sample of the excerpt from `start` to `end` is blended with the sample of
/// `filtered` at the same place, and no other sample is changed.
pub open spec fn is_blend<T, W: Fn(T, T, usize, usize) -> T, A: Fn(T, T) -> T>(
    weigh: W,
    plus: A,
    start: int,
    end: int,
    filtered: Seq<T>,
    before: Seq<T>,
    after: Seq<T>,
) -> bool {
    &&& after.len() == before.len()
    &&& filtered.len() == end - start
    &&& forall|i: int|
        0 <= i < before.len() && !(start <= i < end) ==> #[trigger] after[i] == before[i]
    &&& forall|i: int|
        start <= i < end ==> is_blended(
            weigh,
            plus,
            before[i],
            filtered[i - start],
            i - start,
            end - start,
            #[trigger] after[i],
        )
}

/// `repair` turns the signal `before` into `after`: the excerpt is blended with
/// what the filters of all bands that fired make of it.
pub open spec fn is_repaired<
    C,
    S,
    T,
    O: Fn(usize, u32) -> C,
    E: Fn(C, T, S, S, S, S) -> (S, S, T),
    W: Fn(T, T, usize, usize) -> T,
    A: Fn(T, T) -> T,
>(
    design: O,
    memory: S,
    equation: E,
    weigh: W,
    plus: A,
    repair: Repair,
    before: Seq<T>,
    after: Seq<T>,
) -> bool {
    exists|stages: Seq<Seq<T>>|
        {
            &&& #[trigger] is_cascade(design, memory, equation, repair.levels@, stages)
            &&& stages[0] == before.subrange(repair.start as int, repair.end as int)
            &&& is_blend(
                weigh,
                plus,
                repair.start as int,
                repair.end as int,
                stages[10],
                before,
                after,
            )
        }
}

proof fn lemma_same_coefficients<C, S, T, E: Fn(C, T, S, S, S, S) -> (S, S, T)>(
    equation: E,
    filters: Seq<Biquad<C, S>>,
    before: Seq<T>,
    after: Seq<T>,
    i: int,
)
    requires
        crate::dsp::filters_all(equation, filters, before, after),
        0 <= i <= before.len(),
    ensures
        filters[i].coefficients == filters[0].coefficients,
    decreases i,
{
    if i > 0 {
        lemma_same_coefficients(equation, filters, before, after, i - 1);
        assert(crate::dsp::filters_sample(equation, filters, before, after, i - 1));
    }
}

/// A filter that goes through a signal with an empty memory follows its difference
/// equation: each result comes from the sample, the two samples before it, and
/// the two results before it.
pub proof fn law_filtering_is_a_recursion<C, S, T, E: Fn(C, T, S, S, S, S) -> (S, S, T)>(
    equation: E,
    coefficients: C,
    memory: S,
    filters: Seq<Biquad<C, S>>,
    before: Seq<T>,
    after: Seq<T>,
)
    requires
        crate::dsp::filters_all(equation, filters, before, after),
        filters.first() == Biquad::zeroed(coefficients, memory),
    ensures
        exists|xs: Seq<S>, ys: Seq<S>| #[trigger]
            is_recursion(equation, coefficients, memory, xs, ys, before, after),
{
    let xs = Seq::new(
        (before.len() + 2) as nat,
        |j: int|
            if j == 0 {
                filters[0].x2
            } else {
                filters[j - 1].x1
            },
    );
    let ys = Seq::new(
        (before.len() + 2) as nat,
        |j: int|
            if j == 0 {
                filters[0].y2
            } else {
                filters[j - 1].y1
            },
    );
    assert forall|i: int| 0 <= i < before.len() implies #[trigger] cuts_sample(
        equation,
        coefficients,
        xs,
        ys,
        before,
        after,
        i,
    ) by {
        assert(crate::dsp::filters_sample(equation, filters, before, after, i));
        lemma_same_coefficients(equation, filters, before, after, i);
        if i > 0 {
            assert(crate::dsp::filters_sample(equation, filters, before, after, i - 1));
        }
        assert(xs[i + 2] == filters[i + 1].x1 && ys[i + 2] == filters[i + 1].y1);
        assert(xs[i + 1] == filters[i].x1 && ys[i + 1] == filters[i].y1);
        assert(xs[i] == filters[i].x2 && ys[i] == filters[i].y2);
    }
    assert(is_recursion(equation, coefficients, memory, xs, ys, before, after));
}

/// A repair cuts every band that fired, whatever its level, and no other: behind
/// each band that fired the excerpt has gone through a filter that is designed
/// for that band and that level.  The result is faded in and out, and nothing
/// outside the excerpt is changed.
pub proof fn law_every_band_that_fired_is_cut<
    C,
    S,
    T,
    O: Fn(usize, u32) -> C,
    E: Fn(C, T, S, S, S, S) -> (S, S, T),
    W: Fn(T, T, usize, usize) -> T,
    A: Fn(T, T) -> T,
>(
    design: O,
    memory: S,
    equation: E,
    weigh: W,
    plus: A,
    repair: Repair,
    before: Seq<T>,
    after: Seq<T>,
)
    requires
        repair.start <= repair.end <= before.len(),
        crate::deesser::repairs(
            design,
            memory,
            equation,
            weigh,
            plus,
            repair,
            before,
            after,
        ),
    ensures
        is_repaired(design, memory, equation, weigh, plus, repair, before, after),
{
    let start = repair.start as int;
    let end = repair.end as int;
    let levels = repair.levels@;
    let excerpt = before.subrange(start, end);
    let stages = choose|stages: Seq<Seq<T>>|
        {
            &&& #[trigger] crate::deesser::cascades(design, memory, equation, levels, stages)
            &&& stages.len() == 11
            &&& stages.first() == excerpt
            &&& stages.last().len() == excerpt.len()
            &&& crate::deesser::blends_all(weigh, plus, excerpt, stages.last(), start, after)
        };
    assert forall|band: int| 0 <= band < 10 implies #[trigger] passes_band(
        design,
        memory,
        equation,
        levels,
        stages,
        band,
    ) by {
        assert(crate::deesser::cuts_band(design, memory, equation, levels, stages, band));
        if levels[band] > 0 {
            let filters = choose|filters: Seq<Biquad<C, S>>|
                {
                    &&& #[trigger] crate::dsp::filters_all(
                        equation,
                        filters,
                        stages[band],
                        stages[band + 1],
                    )
                    &&& filters.first() == Biquad::zeroed(filters.first().coefficients, memory)
                    &&& call_ensures(
                        design,
                        (band as usize, levels[band]),
                        filters.first().coefficients,
                    )
                };
            let coefficients = filters.first().coefficients;
            law_filtering_is_a_recursion(
                equation,
                coefficients,
                memory,
                filters,
                stages[band],
                stages[band + 1],
            );
            let (xs, ys) = choose|xs: Seq<S>, ys: Seq<S>| #[trigger]
                is_recursion(
                    equation,
                    coefficients,
                    memory,
                    xs,
                    ys,
                    stages[band],
                    stages[band + 1],
                );
            assert(is_recursion(
                equation,
                coefficients,
                memory,
                xs,
                ys,
                stages[band],
                stages[band + 1],
            ));
        }
    }
    assert(is_cascade(design, memory, equation, levels, stages));
    assert forall|i: int| start <= i < end implies is_blended(
        weigh,
        plus,
        before[i],
        stages[10][i - start],
        i - start,
        end - start,
        #[trigger] after[i],
    ) by {
        let offset = i - start;
        assert(crate::deesser::blends(
            weigh,
            plus,
            excerpt,
            stages.last(),
            offset,
            after[start + offset],
        ));
    }
}

/// Bands that did not fire change nothing.
proof fn lemma_silent_bands<
    C,
    S,
    T,
    O: Fn(usize, u32) -> C,
    E: Fn(C, T, S, S, S, S) -> (S, S, T),
>(
    design: O,
    memory: S,
    equation: E,
    levels: Seq<u32>,
    stages: Seq<Seq<T>>,
    from: int,
    to: int,
)
    requires
        is_cascade(design, memory, equation, levels, stages),
        0 <= from <= to <= 10,
        forall|band: int| from <= band < to ==> #[trigger] levels[band] == 0,
    ensures
        stages[to] == stages[from],
    decreases to - from,
{
    if from < to {
        lemma_silent_bands(design, memory, equation, levels, stages, from, to - 1);
        assert(passes_band(design, memory, equation, levels, stages, to - 1));
        assert(levels[to - 1] == 0);
    }
}

/// If a single band fired, with whatever level, the excerpt is blended with what
/// the filter that is designed for that band and that level makes of it.
pub proof fn law_a_single_band_is_cut<
    C,
    S,
    T,
    O: Fn(usize, u32) -> C,
    E: Fn(C, T, S, S, S, S) -> (S, S, T),
    W: Fn(T, T, usize, usize) -> T,
    A: Fn(T, T) -> T,
>(
    design: O,
    memory: S,
    equation: E,
    weigh: W,
    plus: A,
    repair: Repair,
    band: int,
    before: Seq<T>,
    after: Seq<T>,
)
    requires
        repair.start <= repair.end <= before.len(),
        crate::deesser::repairs(
            design,
            memory,
            equation,
            weigh,
            plus,
            repair,
            before,
            after,
        ),
        0 <= band < 10,
        repair.levels@[band] > 0,
        forall|other: int|
            0 <= other < 10 && other != band ==> #[trigger] repair.levels@[other] == 0,
    ensures
        exists|filtered: Seq<T>|
            {
                &&& #[trigger] is_cut(
                    design,
                    memory,
                    equation,
                    band,
                    repair.levels@[band],
                    before.subrange(repair.start as int, repair.end as int),
                    filtered,
                )
                &&& is_blend(
                    weigh,
                    plus,
                    repair.start as int,
                    repair.end as int,
                    filtered,
                    before,
                    after,
                )
            },
{
    law_every_band_that_fired_is_cut(
        design,
        memory,
        equation,
        weigh,
        plus,
        repair,
        before,
        after,
    );
    let levels = repair.levels@;
    let stages = choose|stages: Seq<Seq<T>>|
        {
            &&& #[trigger] is_cascade(design, memory, equation, levels, stages)
            &&& stages[0] == before.subrange(repair.start as int, repair.end as int)
            &&& is_blend(
                weigh,
                plus,
                repair.start as int,
                repair.end as int,
                stages[10],
                before,
                after,
            )
        };
    lemma_silent_bands(design, memory, equation, levels, stages, 0, band);
    lemma_silent_bands(design, memory, equation, levels, stages, band + 1, 10);
    assert(passes_band(design, memory, equation, levels, stages, band));
    assert(is_cut(design, memory, equation, band, levels[band], stages[0], stages[10]));
}

// ---------------------------------------------------------------------------
// Deciding
// ---------------------------------------------------------------------------

/// Step number `step` is loud: one of its 441 levels exceeds the threshold.  The
/// levels come `latency` samples late.
pub open spec fn is_loud(levels: Seq<u32>, latency: int, threshold: u32, step: int) -> bool {
    &&& 0 <= step
    &&& latency + 441 * (step + 1) <= levels.len()
    &&& exists|n: int|
        latency + 441 * step <= n < latency + 441 * (step + 1) && #[trigger] levels[n] > threshold
}

/// All steps from `from` to `start` are loud, the step before them is not, and
/// `start` is a whole number of hundred steps after `from`.
pub open spec fn is_stretch(
    levels: Seq<u32>,
    latency: int,
    threshold: u32,
    from: int,
    start: int,
) -> bool {
    &&& 0 <= from <= start
    &&& !is_loud(levels, latency, threshold, from - 1)
    &&& forall|k: int| from <= k <= start ==> #[trigger] is_loud(levels, latency, threshold, k)
    &&& (start - from) % 100 == 0
}

/// A click begins with step number `start`: a stretch of loud steps does, or a
/// multiple of a hundred of its steps have passed.
pub open spec fn begins_click(levels: Seq<u32>, latency: int, threshold: u32, start: int) -> bool {
    exists|from: int| #[trigger] is_stretch(levels, latency, threshold, from, start)
}

/// The click that begins with step number `start` has `steps` steps: it ends with
/// the stretch of loud steps, or after a hundred steps.
pub open spec fn is_click(
    levels: Seq<u32>,
    latency: int,
    threshold: u32,
    start: int,
    steps: int,
) -> bool {
    &&& begins_click(levels, latency, threshold, start)
    &&& 1 <= steps <= 100
    &&& forall|k: int|
        start <= k < start + steps ==> #[trigger] is_loud(levels, latency, threshold, k)
    &&& steps < 100 ==> !is_loud(levels, latency, threshold, start + steps)
}

/// `peak` is the greatest level of `steps` steps from step number `start` on.
pub open spec fn is_peak(
    levels: Seq<u32>,
    latency: int,
    start: int,
    steps: int,
    peak: u32,
) -> bool {
    &&& forall|n: int|
        latency + 441 * start <= n < latency + 441 * (start + steps) ==> #[trigger] levels[n]
            <= peak
    &&& exists|n: int|
        latency + 441 * start <= n < latency + 441 * (start + steps) && #[trigger] levels[n]
            == peak
}

/// A band has a click of at most `longest` steps from step number `start` on, and
/// `level` is its peak; or it has none there, and `level` is 0.
pub open spec fn has_level(
    levels: Seq<u32>,
    latency: int,
    threshold: u32,
    start: int,
    longest: int,
    level: u32,
) -> bool {
    if begins_click(levels, latency, threshold, start) {
        exists|steps: int|
            {
                &&& #[trigger] is_click(levels, latency, threshold, start, steps)
                &&& steps <= longest
                &&& is_peak(levels, latency, start, steps, level)
            }
    } else {
        level == 0
    }
}

/// `repair` corrects the clicks that begin with step number `start`, the longest
/// of which has `steps` steps: it cuts each band that has one by its peak, and
/// reaches from 220 samples before the first step to no more than 220 samples
/// after the last, as far as there are samples.
pub open spec fn corrects(
    heard: Seq<Seq<u32>>,
    latencies: Seq<u64>,
    threshold: u32,
    written: int,
    start: int,
    steps: int,
    repair: Repair,
) -> bool {
    &&& forall|band: int|
        0 <= band < 10 ==> #[trigger] has_level(
            heard[band],
            latencies[band] as int,
            threshold,
            start,
            steps,
            repair.levels@[band],
        )
    &&& exists|band: int|
        0 <= band < 10 && #[trigger] is_click(
            heard[band],
            latencies[band] as int,
            threshold,
            start,
            steps,
        )
    &&& 441 * start >= 220 ==> repair.start == 441 * start - 220
    &&& 441 * start < 220 ==> repair.start == 0
    &&& repair.start < repair.end <= written
    &&& repair.end <= 441 * (start + steps) + 220
    &&& repair.end >= 441 * (start + steps) || repair.end == written
}

/// `repairs` are what the levels call for: one for each step with which clicks
/// begin.
pub open spec fn is_plan(
    heard: Seq<Seq<u32>>,
    latencies: Seq<u64>,
    threshold: u32,
    written: int,
    starts: Seq<int>,
    lengths: Seq<int>,
    repairs: Seq<Repair>,
) -> bool {
    &&& starts.len() == repairs.len()
    &&& lengths.len() == repairs.len()
    &&& forall|k: int|
        0 <= k < repairs.len() ==> #[trigger] corrects(
            heard,
            latencies,
            threshold,
            written,
            starts[k],
            lengths[k],
            repairs[k],
        )
    &&& forall|j: int, k: int|
        0 <= j < k < starts.len() ==> #[trigger] starts[j] != #[trigger] starts[k]
    &&& forall|band: int, start: int|
        0 <= band < 10 && #[trigger] begins_click(
            heard[band],
            latencies[band] as int,
            threshold,
            start,
        ) ==> starts.contains(start)
}

/// A step is loud if its peak is.
proof fn lemma_loud(s: Schedule, band: int, step: int)
    ensures
        is_loud(s.heard[band], s.latencies[band] as int, s.threshold, step) <==> 0 <= step
            < s.envelope(band).len() && s.envelope(band)[step] > s.threshold,
{
    let levels = s.heard[band];
    let latency = s.latencies[band] as int;
    if levels.len() > latency {
        let late = levels.skip(latency);
        if 0 <= step && latency + 441 * (step + 1) <= levels.len() {
            crate::band::law_a_step_has_the_peak_of_its_levels(late, step);
            let peak = s.envelope(band)[step];
            if is_loud(levels, latency, s.threshold, step) {
                let n = choose|n: int|
                    latency + 441 * step <= n < latency + 441 * (step + 1) && #[trigger] levels[n]
                        > s.threshold;
                assert(late[n - latency] <= peak);
            }
            if peak > s.threshold {
                let n = choose|n: int|
                    441 * step <= n < 441 * (step + 1) && #[trigger] late[n] == peak;
                assert(levels[latency + n] > s.threshold);
            }
        }
    }
}

/// Clicks begin where the peaks of the steps say.
proof fn lemma_begins(s: Schedule, band: int, start: int)
    ensures
        begins_click(s.heard[band], s.latencies[band] as int, s.threshold, start)
            <==> crate::band::click_begins(s.envelope(band), s.threshold, start),
{
    let levels = s.heard[band];
    let latency = s.latencies[band] as int;
    let envelope = s.envelope(band);
    if begins_click(levels, latency, s.threshold, start) {
        let from = choose|from: int| #[trigger]
            is_stretch(levels, latency, s.threshold, from, start);
        assert(is_loud(levels, latency, s.threshold, start));
        lemma_loud(s, band, start);
        lemma_loud(s, band, from - 1);
        assert forall|k: int| from <= k <= start implies s.threshold < #[trigger] envelope[k] by {
            assert(is_loud(levels, latency, s.threshold, k));
            lemma_loud(s, band, k);
        }
        assert(crate::band::begins_after(envelope, s.threshold, from, start));
    }
    if crate::band::click_begins(envelope, s.threshold, start) {
        let from = choose|from: int| #[trigger]
            crate::band::begins_after(envelope, s.threshold, from, start);
        lemma_loud(s, band, from - 1);
        assert forall|k: int| from <= k <= start implies #[trigger] is_loud(
            levels,
            latency,
            s.threshold,
            k,
        ) by {
            lemma_loud(s, band, k);
        }
        assert(is_stretch(levels, latency, s.threshold, from, start));
    }
}

/// A click of a band that has heard everything is a click of its levels, and its
/// peak is theirs.
proof fn lemma_click(s: Schedule, band: int, j: int)
    requires
        s.ready(),
        s.accounted(),
        s.done,
        0 <= band < 10,
        0 <= j < s.clicks[band].len(),
    ensures
        ({
            let click = s.clicks[band][j];
            let levels = s.heard[band];
            let latency = s.latencies[band] as int;
            &&& is_click(
                levels,
                latency,
                s.threshold,
                click.start_step as int,
                click.steps as int,
            )
            &&& is_peak(levels, latency, click.start_step as int, click.steps as int, click.peak)
        }),
{
    let click = s.clicks[band][j];
    let levels = s.heard[band];
    let latency = s.latencies[band] as int;
    let envelope = s.envelope(band);
    let start = click.start_step as int;
    let steps = click.steps as int;
    crate::accounting::lemma_clicks_are_runs(s, band);
    crate::accounting::law_every_step_is_analysed(s, band);
    crate::band::law_clicks_are_as_long_as_they_can_be(envelope, s.threshold);
    assert(click == crate::band::all_runs(envelope, s.threshold)[j]);
    assert(crate::band::is_click(envelope, s.threshold, start, steps));
    lemma_begins(s, band, start);
    assert forall|k: int| start <= k < start + steps implies #[trigger] is_loud(
        levels,
        latency,
        s.threshold,
        k,
    ) by {
        lemma_loud(s, band, k);
    }
    lemma_loud(s, band, start + steps);
    assert(click.is_loud_stretch(envelope, s.threshold));
    lemma_peak(s, band, click);
}

proof fn lemma_peak(s: Schedule, band: int, click: crate::band::Run)
    requires
        click.is_loud_stretch(s.envelope(band), s.threshold),
    ensures
        is_peak(
            s.heard[band],
            s.latencies[band] as int,
            click.start_step as int,
            click.steps as int,
            click.peak,
        ),
{
    let levels = s.heard[band];
    let latency = s.latencies[band] as int;
    let envelope = s.envelope(band);
    let late = levels.skip(latency);
    let start = click.start_step as int;
    let steps = click.steps as int;
    assert forall|n: int|
        latency + 441 * start <= n < latency + 441 * (start + steps) implies #[trigger] levels[n]
        <= click.peak by {
        let step = (n - latency) / 441;
        assert(click.covers(step));
        assert(envelope[step] <= click.peak);
        crate::band::law_a_step_has_the_peak_of_its_levels(late, step);
        assert(late[n - latency] == levels[n]);
    }
    let step = choose|step: int| click.covers(step) && #[trigger] envelope[step] == click.peak;
    crate::band::law_a_step_has_the_peak_of_its_levels(late, step);
    let n = choose|n: int|
        441 * step <= n < 441 * (step + 1) && #[trigger] late[n] == envelope[step];
    assert(levels[latency + n] == click.peak);
}

/// What a repair does in one band.
proof fn lemma_has_level(s: Schedule, k: int, band: int)
    requires
        s.ready(),
        s.accounted(),
        s.done,
        0 <= band < 10,
        0 <= k < s.repairs.len(),
    ensures
        has_level(
            s.heard[band],
            s.latencies[band] as int,
            s.threshold,
            s.closed[k].start_step as int,
            s.closed[k].steps as int,
            s.repairs[k].levels@[band],
        ),
{
    let levels = s.heard[band];
    let latency = s.latencies[band] as int;
    let start = s.closed[k].start_step as int;
    let envelope = s.envelope(band);
    crate::accounting::law_every_repair_is_made_of_clicks(s, k);
    crate::accounting::lemma_clicks_are_runs(s, band);
    crate::accounting::law_every_step_is_analysed(s, band);
    lemma_begins(s, band, start);
    if begins_click(levels, latency, s.threshold, start) {
        crate::band::law_clicks_are_as_long_as_they_can_be(envelope, s.threshold);
        let runs = crate::band::all_runs(envelope, s.threshold);
        let j = choose|j: int| 0 <= j < runs.len() && (#[trigger] runs[j]).start_step == start;
        assert(s.starts_in(band, j, s.closed[k].start_step));
        lemma_click(s, band, j);
        assert(is_click(levels, latency, s.threshold, start, s.clicks[band][j].steps as int));
    } else if s.repairs[k].levels@[band] > 0 {
        let j = choose|j: int| #[trigger] s.starts_in(band, j, s.closed[k].start_step);
        lemma_click(s, band, j);
    }
}

/// The levels alone decide what is repaired: when the input has ended there is
/// exactly one repair for each step with which a click begins in some band.  It
/// cuts each band by the peak of its click, and lasts as long as the longest of
/// the clicks.
pub proof fn law_levels_decide_what_is_repaired(s: Schedule)
    requires
        s.ready(),
        s.accounted(),
        s.done,
    ensures
        exists|starts: Seq<int>, lengths: Seq<int>| #[trigger]
            is_plan(
                s.heard,
                s.latencies,
                s.threshold,
                s.written as int,
                starts,
                lengths,
                s.repairs,
            ),
{
    let starts = Seq::new(s.repairs.len(), |k: int| s.closed[k].start_step as int);
    let lengths = Seq::new(s.repairs.len(), |k: int| s.closed[k].steps as int);
    assert forall|k: int| 0 <= k < s.repairs.len() implies #[trigger] corrects(
        s.heard,
        s.latencies,
        s.threshold,
        s.written as int,
        starts[k],
        lengths[k],
        s.repairs[k],
    ) by {
        lemma_corrects(s, k);
    }
    assert forall|j: int, k: int| 0 <= j < k < starts.len() implies #[trigger] starts[j]
        != #[trigger] starts[k] by {
        assert(s.closed[j].start_step != s.closed[k].start_step);
    }
    assert forall|band: int, start: int|
        0 <= band < 10 && #[trigger] begins_click(
            s.heard[band],
            s.latencies[band] as int,
            s.threshold,
            start,
        ) implies starts.contains(start) by {
        let k = lemma_is_repaired(s, band, start);
        assert(starts[k] == start);
    }
    assert(is_plan(
        s.heard,
        s.latencies,
        s.threshold,
        s.written as int,
        starts,
        lengths,
        s.repairs,
    ));
}

proof fn lemma_corrects(s: Schedule, k: int)
    requires
        s.ready(),
        s.accounted(),
        s.done,
        0 <= k < s.repairs.len(),
    ensures
        corrects(
            s.heard,
            s.latencies,
            s.threshold,
            s.written as int,
            s.closed[k].start_step as int,
            s.closed[k].steps as int,
            s.repairs[k],
        ),
{
    let start = s.closed[k].start_step;
    let steps = s.closed[k].steps;
    crate::accounting::law_every_repair_is_made_of_clicks(s, k);
    assert(s.repair_ok(k)) by {
        let _ = s.repairs[k];
    }
    assert forall|band: int| 0 <= band < 10 implies #[trigger] has_level(
        s.heard[band],
        s.latencies[band] as int,
        s.threshold,
        start as int,
        steps as int,
        s.repairs[k].levels@[band],
    ) by {
        lemma_has_level(s, k, band);
    }
    let (band, j) = choose|band: int, j: int|
        0 <= band < 10 && #[trigger] s.starts_in(band, j, start) && s.clicks[band][j].steps
            == steps;
    lemma_click(s, band, j);
    assert(is_click(
        s.heard[band],
        s.latencies[band] as int,
        s.threshold,
        start as int,
        steps as int,
    ));
}

/// The repair of the clicks that begin with step number `start`.
proof fn lemma_is_repaired(s: Schedule, band: int, start: int) -> (k: int)
    requires
        s.ready(),
        s.accounted(),
        s.done,
        0 <= band < 10,
        begins_click(s.heard[band], s.latencies[band] as int, s.threshold, start),
    ensures
        0 <= k < s.repairs.len(),
        s.closed[k].start_step == start,
{
    let envelope = s.envelope(band);
    crate::accounting::lemma_clicks_are_runs(s, band);
    crate::accounting::law_every_step_is_analysed(s, band);
    lemma_begins(s, band, start);
    crate::band::law_clicks_are_as_long_as_they_can_be(envelope, s.threshold);
    let runs = crate::band::all_runs(envelope, s.threshold);
    let j = choose|j: int| 0 <= j < runs.len() && (#[trigger] runs[j]).start_step == start;
    assert(s.has_booked(band, j));
    let event = choose|event: crate::event::Event| #[trigger]
        s.knows(event) && crate::accounting::accounts_for(event, band, s.clicks[band][j]);
    assert(s.closed.contains(event));
    choose|k: int| 0 <= k < s.closed.len() && s.closed[k] == event
}

// ---------------------------------------------------------------------------
// The whole signal
// ---------------------------------------------------------------------------

/// What was found in a whole signal, and what became of it.
pub struct Account<T> {
    /// The delay of the filter of each band.
    pub latencies: Seq<u64>,
    /// The levels that each band heard.
    pub heard: Seq<Seq<u32>>,
    /// The step with which the clicks of each repair begin.
    pub starts: Seq<int>,
    /// The number of steps of the longest of these clicks.
    pub lengths: Seq<int>,
    /// The repairs, in the order in which they were applied.
    pub repairs: Seq<Repair>,
    /// The whole signal before the first repair, after the first, after the
    /// second, and so on.
    pub signals: Seq<Seq<T>>,
}

impl<T> Account<T> {
    /// Each band heard its filter's output for every sample, up to the end of the
    /// last step and as much later as the filter delays the signal.
    pub open spec fn is_heard<F: Fn(T, T, T) -> T, L: Fn(T) -> u32>(
        self,
        multiply_add: F,
        measure: L,
        kernels: Seq<Vec<T>>,
        silence: T,
        input: Seq<T>,
    ) -> bool {
        &&& self.heard.len() == 10
        &&& self.latencies.len() == 10
        &&& forall|band: int| #![trigger self.heard[band]]
            0 <= band < 10 ==> {
                &&& self.latencies[band] == kernels[band]@.len() as int / 2
                &&& self.heard[band].len() == self.latencies[band] + 441 * ((input.len() + 440)
                    / 441)
            }
        &&& forall|band: int, n: int|
            0 <= band < 10 && 0 <= n < self.heard[band].len() ==> #[trigger] is_level_at(
                multiply_add,
                measure,
                kernels[band]@,
                silence,
                input,
                n,
                self.heard[band][n],
            )
    }

    /// The repairs are what the levels call for.
    pub open spec fn is_planned(self, threshold: u32, written: nat) -> bool {
        is_plan(
            self.heard,
            self.latencies,
            threshold,
            written as int,
            self.starts,
            self.lengths,
            self.repairs,
        )
    }

    /// The repairs lead from the input to the output, one after the other.
    pub open spec fn is_performed<
        C,
        S,
        O: Fn(usize, u32) -> C,
        E: Fn(C, T, S, S, S, S) -> (S, S, T),
        W: Fn(T, T, usize, usize) -> T,
        A: Fn(T, T) -> T,
    >(
        self,
        design: O,
        memory: S,
        equation: E,
        weigh: W,
        plus: A,
        input: Seq<T>,
        output: Seq<T>,
    ) -> bool {
        &&& self.signals.len() == self.repairs.len() + 1
        &&& self.signals.first() == input
        &&& self.signals.last() == output
        &&& all_repaired(
            design,
            memory,
            equation,
            weigh,
            plus,
            self.repairs,
            self.signals,
            self.repairs.len() as int,
        )
    }
}

/// The first `count` repairs lead from each signal to the next.
pub open spec fn all_repaired<
    C,
    S,
    T,
    O: Fn(usize, u32) -> C,
    E: Fn(C, T, S, S, S, S) -> (S, S, T),
    W: Fn(T, T, usize, usize) -> T,
    A: Fn(T, T) -> T,
>(
    design: O,
    memory: S,
    equation: E,
    weigh: W,
    plus: A,
    repairs: Seq<Repair>,
    signals: Seq<Seq<T>>,
    count: int,
) -> bool {
    forall|k: int|
        0 <= k < count ==> #[trigger] is_repaired(
            design,
            memory,
            equation,
            weigh,
            plus,
            repairs[k],
            signals[k],
            signals[k + 1],
        )
}

/// A repair does not depend on what comes after it.
proof fn lemma_repaired_within<
    C,
    S,
    T,
    O: Fn(usize, u32) -> C,
    E: Fn(C, T, S, S, S, S) -> (S, S, T),
    W: Fn(T, T, usize, usize) -> T,
    A: Fn(T, T) -> T,
>(
    design: O,
    memory: S,
    equation: E,
    weigh: W,
    plus: A,
    repair: Repair,
    before: Seq<T>,
    after: Seq<T>,
    rest: Seq<T>,
)
    requires
        repair.start <= repair.end <= before.len(),
        is_repaired(design, memory, equation, weigh, plus, repair, before, after),
    ensures
        is_repaired(design, memory, equation, weigh, plus, repair, before + rest, after + rest),
{
    let start = repair.start as int;
    let end = repair.end as int;
    let stages = choose|stages: Seq<Seq<T>>|
        {
            &&& #[trigger] is_cascade(design, memory, equation, repair.levels@, stages)
            &&& stages[0] == before.subrange(start, end)
            &&& is_blend(weigh, plus, start, end, stages[10], before, after)
        };
    assert((before + rest).subrange(start, end) =~= before.subrange(start, end));
    assert forall|i: int| start <= i < end implies is_blended(
        weigh,
        plus,
        (before + rest)[i],
        stages[10][i - start],
        i - start,
        end - start,
        #[trigger] (after + rest)[i],
    ) by {
        assert((after + rest)[i] == after[i]);
    }
    assert(is_blend(weigh, plus, start, end, stages[10], before + rest, after + rest));
}

/// Repairs that have been applied stay what they are.
proof fn lemma_still_repaired<
    C,
    S,
    T,
    O: Fn(usize, u32) -> C,
    E: Fn(C, T, S, S, S, S) -> (S, S, T),
    W: Fn(T, T, usize, usize) -> T,
    A: Fn(T, T) -> T,
>(
    design: O,
    memory: S,
    equation: E,
    weigh: W,
    plus: A,
    repairs: Seq<Repair>,
    more: Seq<Repair>,
    signals: Seq<Seq<T>>,
    count: int,
)
    requires
        all_repaired(design, memory, equation, weigh, plus, repairs, signals, count),
        forall|k: int| 0 <= k < count ==> #[trigger] more[k] == repairs[k],
    ensures
        all_repaired(design, memory, equation, weigh, plus, more, signals, count),
{
    assert forall|k: int| 0 <= k < count implies #[trigger] is_repaired(
        design,
        memory,
        equation,
        weigh,
        plus,
        more[k],
        signals[k],
        signals[k + 1],
    ) by {
        assert(more[k] == repairs[k]);
        assert(is_repaired(
            design,
            memory,
            equation,
            weigh,
            plus,
            repairs[k],
            signals[k],
            signals[k + 1],
        ));
    }
}

/// One more repair.
proof fn lemma_one_more_repaired<
    C,
    S,
    T,
    O: Fn(usize, u32) -> C,
    E: Fn(C, T, S, S, S, S) -> (S, S, T),
    W: Fn(T, T, usize, usize) -> T,
    A: Fn(T, T) -> T,
>(
    design: O,
    memory: S,
    equation: E,
    weigh: W,
    plus: A,
    repairs: Seq<Repair>,
    signals: Seq<Seq<T>>,
    next: Seq<T>,
)
    requires
        0 < signals.len() <= repairs.len(),
        all_repaired(
            design,
            memory,
            equation,
            weigh,
            plus,
            repairs,
            signals,
            signals.len() - 1,
        ),
        is_repaired(
            design,
            memory,
            equation,
            weigh,
            plus,
            repairs[signals.len() - 1],
            signals.last(),
            next,
        ),
    ensures
        all_repaired(
            design,
            memory,
            equation,
            weigh,
            plus,
            repairs,
            signals.push(next),
            signals.len() as int,
        ),
{
    let longer = signals.push(next);
    assert forall|k: int| 0 <= k < signals.len() implies #[trigger] is_repaired(
        design,
        memory,
        equation,
        weigh,
        plus,
        repairs[k],
        longer[k],
        longer[k + 1],
    ) by {
        if k < signals.len() - 1 {
            assert(is_repaired(
                design,
                memory,
                equation,
                weigh,
                plus,
                repairs[k],
                signals[k],
                signals[k + 1],
            ));
        }
    }
}

/// Sends a whole signal through a de-esser; returns the output, and the repairs
/// that were made, in the order in which they were.
///
/// See [`DeEsser`] for what the parameters stand for.  The output is the input
/// with all repairs applied that its levels call for.
pub fn deess<
    T: Copy,
    C: Copy,
    S: Copy,
    F: Fn(T, T, T) -> T,
    L: Fn(T) -> u32,
    O: Fn(usize, u32) -> C,
    E: Fn(C, T, S, S, S, S) -> (S, S, T),
    W: Fn(T, T, usize, usize) -> T,
    A: Fn(T, T) -> T,
>(
    kernels: Vec<Vec<T>>,
    threshold: u32,
    silence: T,
    input: &Vec<T>,
    multiply_add: &F,
    measure: &L,
    design: &O,
    memory: S,
    equation: &E,
    weigh: &W,
    plus: &A,
) -> (result: (Vec<T>, Vec<Repair>))
    requires
        kernels@.len() == 10,
        forall|i: int|
            0 <= i < 10 ==> 0 < (#[trigger] kernels@[i])@.len() && kernels@[i]@.len() / 2
                <= 43_880,
        input@.len() <= 18_446_744_073_709_550_955,
        forall|a: T, b: T, c: T| call_requires(*multiply_add, (a, b, c)),
        forall|a: T| call_requires(*measure, (a,)),
        forall|band: usize, level: u32| call_requires(*design, (band, level)),
        forall|c: C, x: T, x1: S, x2: S, y1: S, y2: S|
            call_requires(*equation, (c, x, x1, x2, y1, y2)),
        forall|a: T, b: T, n: usize, d: usize| call_requires(*weigh, (a, b, n, d)),
        forall|a: T, b: T| call_requires(*plus, (a, b)),
    ensures
        result.0@.len() == input@.len(),
        exists|account: Account<T>|
            {
                &&& account.repairs == result.1@
                &&& account.is_heard(*multiply_add, *measure, kernels@, silence, input@)
                &&& #[trigger] account.is_planned(threshold, input@.len())
                &&& account.is_performed(
                    *design,
                    memory,
                    *equation,
                    *weigh,
                    *plus,
                    input@,
                    result.0@,
                )
            },
{
    let ghost taps = crate::deesser::taps_of(kernels@);
    let mut deesser = DeEsser::new(kernels, threshold, silence);
    let mut output: Vec<T> = Vec::new();
    let mut made: Vec<Repair> = Vec::new();
    let mut taken: usize = 0;
    let ghost mut signals: Seq<Seq<T>> = seq![input@];
    proof {
        assert(deesser.corrected() + input@.skip(0) =~= input@);
        assert(deesser.taken() =~= input@.take(0));
        assert forall|band: int, n: int|
            0 <= band < 10 && 0 <= n
                < deesser.schedule().heard[band].len() implies #[trigger] is_level_at(
            *multiply_add,
            *measure,
            taps[band],
            silence,
            deesser.taken(),
            n,
            deesser.schedule().heard[band][n],
        ) by {}
    }
    loop
        invariant
            deesser.wf(),
            taken <= input@.len() <= MAX_SAMPLES,
            kernels@.len() == BAND_COUNT,
            forall|i: int|
                0 <= i < BAND_COUNT ==> 0 < (#[trigger] kernels@[i])@.len() && kernels@[i]@.len()
                    / 2 <= MAX_LATENCY,
            deesser.kernels() == taps,
            taps == crate::deesser::taps_of(kernels@),
            deesser.silence() == silence,
            deesser.schedule().threshold == threshold,
            deesser.schedule().latencies == crate::deesser::latencies_of(taps),
            deesser.schedule().written == taken,
            deesser.schedule().done ==> taken == input@.len(),
            deesser.taken() == input@.take(taken as int),
            deesser.handed_out() == output@,
            deesser.schedule().performed <= deesser.schedule().repairs.len(),
            made@ == deesser.schedule().repairs.take(deesser.schedule().performed as int),
            hears_signal(
                *multiply_add,
                *measure,
                taps,
                silence,
                deesser.taken(),
                deesser.schedule().heard,
            ),
            signals.len() == deesser.schedule().performed + 1,
            signals.first() == input@,
            signals.last() == deesser.corrected() + input@.skip(taken as int),
            all_repaired(
                *design,
                memory,
                *equation,
                *weigh,
                *plus,
                deesser.schedule().repairs,
                signals,
                deesser.schedule().performed as int,
            ),
            forall|a: T, b: T, c: T| call_requires(*multiply_add, (a, b, c)),
            forall|a: T| call_requires(*measure, (a,)),
            forall|band: usize, level: u32| call_requires(*design, (band, level)),
            forall|c: C, x: T, x1: S, x2: S, y1: S, y2: S|
                call_requires(*equation, (c, x, x1, x2, y1, y2)),
            forall|a: T, b: T, n: usize, d: usize| call_requires(*weigh, (a, b, n, d)),
            forall|a: T, b: T| call_requires(*plus, (a, b)),
        decreases
                if deesser.schedule().done {
                    0int
                } else {
                    1
                },
                input@.len() - taken,
                deesser.schedule().repairs.len() - deesser.schedule().performed,
                deesser.schedule().written - deesser.schedule().emitted,
    {
        let ghost before = deesser;
        proof {
            crate::deesser::law_handed_out_samples_are_final(before);
        }
        match deesser.next() {
            Action::Emit(sample) => {
                output.push(sample);
            },
            Action::Repair => {
                let ghost waiting = deesser;
                if let Some(repair) = deesser.next_repair() {
                    made.push(repair);
                }
                deesser.repair(design, memory, equation, weigh, plus);
                proof {
                    let schedule = waiting.schedule();
                    assert(made@ =~= schedule.repairs.take(schedule.performed as int + 1));
                    let repair = schedule.repairs[schedule.performed as int];
                    assert(schedule.repair_ok(schedule.performed as int)) by {
                        let _ = schedule.repairs[schedule.performed as int];
                    }
                    law_every_band_that_fired_is_cut(
                        *design,
                        memory,
                        *equation,
                        *weigh,
                        *plus,
                        repair,
                        waiting.corrected(),
                        deesser.corrected(),
                    );
                    lemma_repaired_within(
                        *design,
                        memory,
                        *equation,
                        *weigh,
                        *plus,
                        repair,
                        waiting.corrected(),
                        deesser.corrected(),
                        input@.skip(taken as int),
                    );
                    let next = deesser.corrected() + input@.skip(taken as int);
                    lemma_one_more_repaired(
                        *design,
                        memory,
                        *equation,
                        *weigh,
                        *plus,
                        schedule.repairs,
                        signals,
                        next,
                    );
                    signals = signals.push(next);
                }
            },
            Action::Input => {
                let ghost waiting = deesser;
                if taken < input.len() {
                    deesser.push_input(input[taken], multiply_add, measure);
                    proof {
                        let schedule = waiting.schedule();
                        let levels = choose|levels: Seq<u32>|
                            {
                                &&& #[trigger] crate::deesser::hears_each(
                                    *multiply_add,
                                    *measure,
                                    silence,
                                    taps,
                                    deesser.taken(),
                                    levels,
                                )
                                &&& deesser.schedule() == schedule.push(levels)
                            };
                        crate::safety::lemma_push(schedule, levels);
                        crate::safety::lemma_push_repairs(schedule, levels);
                        lemma_still_repaired(
                            *design,
                            memory,
                            *equation,
                            *weigh,
                            *plus,
                            schedule.repairs,
                            deesser.schedule().repairs,
                            signals,
                            schedule.performed as int,
                        );
                        assert(made@ =~= deesser.schedule().repairs.take(
                            schedule.performed as int,
                        ));
                        assert(input@.take(taken + 1) =~= input@.take(taken as int).push(
                            input@[taken as int],
                        ));
                        assert(deesser.corrected() + input@.skip(taken + 1)
                            =~= waiting.corrected() + input@.skip(taken as int));
                    }
                    taken = taken + 1;
                } else {
                    deesser.finish_stream(multiply_add, measure);
                    proof {
                        let schedule = waiting.schedule();
                        let tails = choose|tails: Seq<Seq<u32>>|
                            {
                                &&& #[trigger] crate::deesser::hears_silence(
                                    *multiply_add,
                                    *measure,
                                    silence,
                                    taps,
                                    waiting.taken(),
                                    tails,
                                )
                                &&& crate::safety::tails_ok(
                                    schedule.latencies,
                                    schedule.written,
                                    tails,
                                )
                                &&& deesser.schedule() == schedule.finish(tails)
                            };
                        crate::safety::lemma_finish(schedule, tails);
                        crate::safety::lemma_finish_repairs(schedule, tails);
                        lemma_still_repaired(
                            *design,
                            memory,
                            *equation,
                            *weigh,
                            *plus,
                            schedule.repairs,
                            deesser.schedule().repairs,
                            signals,
                            schedule.performed as int,
                        );
                        assert(made@ =~= deesser.schedule().repairs.take(
                            schedule.performed as int,
                        ));
                    }
                }
            },
            Action::Finished => {
                proof {
                    let schedule = deesser.schedule();
                    crate::deesser::law_length_is_preserved(deesser);
                    law_levels_decide_what_is_repaired(schedule);
                    let (starts, lengths) = choose|starts: Seq<int>, lengths: Seq<int>| #[trigger]
                        is_plan(
                            schedule.heard,
                            schedule.latencies,
                            threshold,
                            schedule.written as int,
                            starts,
                            lengths,
                            schedule.repairs,
                        );
                    let account = Account {
                        latencies: schedule.latencies,
                        heard: schedule.heard,
                        starts,
                        lengths,
                        repairs: schedule.repairs,
                        signals,
                    };
                    assert(made@ =~= schedule.repairs);
                    assert(input@.take(taken as int) =~= input@);
                    assert(output@ + input@.skip(taken as int) =~= output@);
                    assert forall|band: int, n: int|
                        0 <= band < 10 && 0 <= n
                            < account.heard[band].len() implies #[trigger] is_level_at(
                        *multiply_add,
                        *measure,
                        kernels@[band]@,
                        silence,
                        input@,
                        n,
                        account.heard[band][n],
                    ) by {
                        assert(is_level_at(
                            *multiply_add,
                            *measure,
                            taps[band],
                            silence,
                            deesser.taken(),
                            n,
                            schedule.heard[band][n],
                        ));
                    }
                    assert forall|band: int|
                        #![trigger account.heard[band]]
                        0 <= band < 10 implies account.latencies[band]
                        == kernels@[band]@.len() as int / 2 && account.heard[band].len()
                        == account.latencies[band] + 441 * ((input@.len() + 440) / 441) by {
                        assert(taps[band] == kernels@[band]@);
                        assert(kernels@[band]@.len() / 2 <= MAX_LATENCY);
                    }
                    assert(account.is_heard(*multiply_add, *measure, kernels@, silence, input@));
                    assert(account.is_planned(threshold, input@.len()));
                }
                return (output, made);
            },
        }
    }
}

} // verus!
