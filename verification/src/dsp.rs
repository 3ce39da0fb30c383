//! Signal processing building blocks: the FIR filter used by the detector, and
//! the IIR filter used by the repair stage.
//!
//! The arithmetic of the samples is a parameter.  What is settled here is
//! which samples meet which coefficients, and in which order.

use vstd::prelude::*;

verus! {

// ---------------------------------------------------------------------------
// FIR filter
// ---------------------------------------------------------------------------

/// The product number `m` is added to the sum so far, where
/// `multiply_add(a, b, c)` is `a + b * c`.
pub open spec fn adds_product<T, F: Fn(T, T, T) -> T>(
    multiply_add: F,
    taps: Seq<T>,
    window: Seq<T>,
    sums: Seq<T>,
    m: int,
) -> bool {
    call_ensures(multiply_add, (sums[m], taps[m], window[m]), sums[m + 1])
}

/// `sums` are the sums of the first products of `taps` and `window`, each one
/// the sum before it and one more product.
pub open spec fn adds_up<T, F: Fn(T, T, T) -> T>(
    multiply_add: F,
    taps: Seq<T>,
    window: Seq<T>,
    sums: Seq<T>,
) -> bool {
    &&& 1 <= sums.len() <= taps.len() + 1
    &&& forall|m: int|
        0 <= m < sums.len() - 1 ==> #[trigger] adds_product(multiply_add, taps, window, sums, m)
}

/// `sum` is the sum of the products of `taps` and `window`, added up one after
/// the other, starting from `zero`.
pub open spec fn sums_to<T, F: Fn(T, T, T) -> T>(
    multiply_add: F,
    taps: Seq<T>,
    window: Seq<T>,
    zero: T,
    sum: T,
) -> bool {
    exists|sums: Seq<T>|
        {
            &&& #[trigger] adds_up(multiply_add, taps, window, sums)
            &&& sums.len() == taps.len() + 1
            &&& sums.first() == zero
            &&& sums.last() == sum
        }
}

/// The last `len` samples of `signal`, newest first, where `zero` stands before
/// the first sample.
pub open spec fn recent<T>(signal: Seq<T>, zero: T, len: nat) -> Seq<T> {
    Seq::new(
        len,
        |age: int|
            if age < signal.len() {
                signal[signal.len() - 1 - age]
            } else {
                zero
            },
    )
}

/// A window that moves on by one sample.
pub proof fn lemma_recent<T>(signal: Seq<T>, zero: T, len: nat, sample: T)
    requires
        len > 0,
    ensures
        recent(signal.push(sample), zero, len) == seq![sample] + recent(
            signal,
            zero,
            len,
        ).drop_last(),
{
    assert(recent(signal.push(sample), zero, len) =~= seq![sample] + recent(
        signal,
        zero,
        len,
    ).drop_last());
}

/// A direct form FIR filter: `y[n] = sum(taps[m] * x[n-m])`.
///
/// The history is kept in a circular buffer, so no samples are ever moved
/// around.  Cost is one multiply-add per tap per sample.
pub struct Fir<T> {
    taps: Vec<T>,
    history: Vec<T>,
    /// Index in `history` where the next sample will be stored.
    newest: usize,
}

/// Where in a circular buffer of `len` entries the sample is found that was
/// stored `age` samples before the last one, when the next sample goes to
/// `next`.
spec fn stored_at(next: int, len: int, age: int) -> int {
    if age < next {
        next - 1 - age
    } else {
        next + len - 1 - age
    }
}

impl<T> Fir<T> {
    /// The coefficients; the first multiplies the newest sample.
    pub closed spec fn coefficients(&self) -> Seq<T> {
        self.taps@
    }

    /// The last samples, as many as there are coefficients, newest first.
    pub closed spec fn window(&self) -> Seq<T> {
        Seq::new(
            self.history@.len(),
            |age: int| self.history@[stored_at(self.newest as int, self.history@.len() as int, age)],
        )
    }

    /// There is one entry of history for each coefficient, and at least one.
    pub closed spec fn wf(&self) -> bool {
        &&& self.taps@.len() == self.history@.len()
        &&& self.newest < self.history@.len()
    }

    /// A filter has coefficients.
    pub proof fn lemma_not_empty(&self)
        requires
            self.wf(),
        ensures
            self.coefficients().len() > 0,
            self.window().len() == self.coefficients().len(),
    {
    }
}

impl<T: Copy> Fir<T> {
    /// A filter that has heard nothing but silence.
    pub fn new(taps: Vec<T>, zero: T) -> (fir: Fir<T>)
        requires
            taps@.len() > 0,
        ensures
            fir.wf(),
            fir.coefficients() == taps@,
            fir.window() == Seq::new(taps@.len(), |age: int| zero),
    {
        let mut history: Vec<T> = Vec::with_capacity(taps.len());
        let mut filled: usize = 0;
        while filled < taps.len()
            invariant
                filled <= taps@.len(),
                history@ == Seq::new(filled as nat, |i: int| zero),
            decreases taps@.len() - filled,
        {
            history.push(zero);
            filled = filled + 1;
            assert(history@ =~= Seq::new(filled as nat, |i: int| zero));
        }
        let fir = Fir { taps, history, newest: 0 };
        assert(fir.window() =~= Seq::new(taps@.len(), |age: int| zero));
        fir
    }

    /// Feeds one sample and returns one output sample.
    pub fn process<F: Fn(T, T, T) -> T>(&mut self, sample: T, zero: T, multiply_add: &F) -> (sum: T)
        requires
            old(self).wf(),
            forall|a: T, b: T, c: T| call_requires(*multiply_add, (a, b, c)),
        ensures
            final(self).wf(),
            final(self).coefficients() == old(self).coefficients(),
            final(self).window() == seq![sample] + old(self).window().drop_last(),
            sums_to(
                *multiply_add,
                final(self).coefficients(),
                final(self).window(),
                zero,
                sum,
            ),
    {
        let len: usize = self.history.len();
        let here: usize = self.newest;
        self.history[here] = sample;
        let ghost next: int = if here + 1 == len {
            0
        } else {
            here + 1
        };
        let ghost window = Seq::new(
            len as nat,
            |age: int| self.history@[stored_at(next, len as int, age)],
        );
        proof {
            assert forall|age: int| 0 <= age < len implies #[trigger] window[age] == (seq![sample]
                + old(self).window().drop_last())[age] by {
                if age > 0 {
                    assert(stored_at(next, len as int, age) == stored_at(
                        here as int,
                        len as int,
                        age - 1,
                    ));
                }
            }
            assert(window =~= seq![sample] + old(self).window().drop_last());
        }

        // Walk the taps forwards and the history backwards in time.
        let mut acc = zero;
        let ghost mut sums = seq![zero];
        let mut index: usize = here;
        let mut m: usize = 0;
        while m < len
            invariant
                m <= len,
                len == self.history@.len() == self.taps@.len() == window.len(),
                0 <= next < len,
                m < len ==> index == stored_at(next, len as int, m as int),
                window == Seq::new(
                    len as nat,
                    |age: int| self.history@[stored_at(next, len as int, age)],
                ),
                forall|a: T, b: T, c: T| call_requires(*multiply_add, (a, b, c)),
                adds_up(*multiply_add, self.taps@, window, sums),
                sums.len() == m + 1,
                sums.first() == zero,
                sums.last() == acc,
            decreases len - m,
        {
            assert(window[m as int] == self.history@[index as int]);
            let sum = multiply_add(acc, self.taps[m], self.history[index]);
            proof {
                let longer = sums.push(sum);
                assert forall|k: int| 0 <= k < longer.len() - 1 implies #[trigger] adds_product(
                    *multiply_add,
                    self.taps@,
                    window,
                    longer,
                    k,
                ) by {
                    if k < m {
                        assert(adds_product(*multiply_add, self.taps@, window, sums, k));
                    }
                }
                sums = longer;
            }
            acc = sum;
            index = if index == 0 {
                len - 1
            } else {
                index - 1
            };
            m = m + 1;
        }

        self.newest = if here + 1 == len {
            0
        } else {
            here + 1
        };
        assert(self.window() =~= window);
        assert(adds_up(*multiply_add, self.coefficients(), self.window(), sums));
        acc
    }
}

// ---------------------------------------------------------------------------
// Biquad
// ---------------------------------------------------------------------------

/// A second order IIR section in direct form I:
///
/// ```text
///     y[n] = b0*x[n] + b1*x[n-1] + b2*x[n-2] - a1*y[n-1] - a2*y[n-2]
/// ```
///
/// The arithmetic is a parameter: `equation(c, x, x1, x2, y1, y2)` evaluates the
/// difference equation with the coefficients `c`, and returns `x` and `y` in the
/// precision of the memory, and `y` as a sample.
pub struct Biquad<C, S> {
    pub coefficients: C,
    pub x1: S,
    pub x2: S,
    pub y1: S,
    pub y2: S,
}

impl<C, S> Biquad<C, S> {
    /// A filter with an empty memory.
    pub open spec fn zeroed(coefficients: C, zero: S) -> Biquad<C, S> {
        Biquad { coefficients, x1: zero, x2: zero, y1: zero, y2: zero }
    }

    /// The filter turns `sample` into `output` and becomes `next`.
    pub open spec fn steps<T, E: Fn(C, T, S, S, S, S) -> (S, S, T)>(
        self,
        equation: E,
        sample: T,
        next: Biquad<C, S>,
        output: T,
    ) -> bool {
        &&& call_ensures(
            equation,
            (self.coefficients, sample, self.x1, self.x2, self.y1, self.y2),
            (next.x1, next.y1, output),
        )
        &&& next.x2 == self.x1
        &&& next.y2 == self.y1
        &&& next.coefficients == self.coefficients
    }
}

/// `filters[i]` turns the sample number `i` of `input` into that of `output`
/// and becomes the next one.
pub open spec fn filters_sample<C, S, T, E: Fn(C, T, S, S, S, S) -> (S, S, T)>(
    equation: E,
    filters: Seq<Biquad<C, S>>,
    input: Seq<T>,
    output: Seq<T>,
    i: int,
) -> bool {
    filters[i].steps(equation, input[i], filters[i + 1], output[i])
}

/// A filter turns `input` into `output`, one sample after the other, and goes
/// through the states `filters` on the way.
pub open spec fn filters_all<C, S, T, E: Fn(C, T, S, S, S, S) -> (S, S, T)>(
    equation: E,
    filters: Seq<Biquad<C, S>>,
    input: Seq<T>,
    output: Seq<T>,
) -> bool {
    &&& output.len() == input.len()
    &&& filters.len() == input.len() + 1
    &&& forall|i: int|
        0 <= i < input.len() ==> #[trigger] filters_sample(equation, filters, input, output, i)
}

impl<C: Copy, S: Copy> Biquad<C, S> {
    /// A filter with an empty memory.
    pub fn new(coefficients: C, zero: S) -> (biquad: Biquad<C, S>)
        ensures
            biquad == Biquad::zeroed(coefficients, zero),
    {
        Biquad { coefficients, x1: zero, x2: zero, y1: zero, y2: zero }
    }

    /// Filters one sample.
    pub fn process<T, E: Fn(C, T, S, S, S, S) -> (S, S, T)>(
        &mut self,
        sample: T,
        equation: &E,
    ) -> (output: T)
        requires
            forall|c: C, x: T, x1: S, x2: S, y1: S, y2: S|
                call_requires(*equation, (c, x, x1, x2, y1, y2)),
        ensures
            old(self).steps(*equation, sample, *final(self), output),
    {
        let (x0, y0, output) = equation(
            self.coefficients,
            sample,
            self.x1,
            self.x2,
            self.y1,
            self.y2,
        );
        self.x2 = self.x1;
        self.x1 = x0;
        self.y2 = self.y1;
        self.y1 = y0;
        output
    }

    /// Filters a whole buffer in place, starting from a zeroed state.
    ///
    /// The repair stage always filters short, independent excerpts, so each
    /// one starts with an empty filter memory.  The resulting start-up
    /// transient is hidden by the crossfade that is applied afterwards.
    pub fn process_in_place<T: Copy, E: Fn(C, T, S, S, S, S) -> (S, S, T)>(
        &mut self,
        zero: S,
        buffer: &mut Vec<T>,
        equation: &E,
    )
        requires
            forall|c: C, x: T, x1: S, x2: S, y1: S, y2: S|
                call_requires(*equation, (c, x, x1, x2, y1, y2)),
        ensures
            exists|filters: Seq<Biquad<C, S>>|
                {
                    &&& #[trigger] filters_all(*equation, filters, old(buffer)@, final(buffer)@)
                    &&& filters.first() == Biquad::zeroed(old(self).coefficients, zero)
                    &&& filters.last() == *final(self)
                },
    {
        self.x1 = zero;
        self.x2 = zero;
        self.y1 = zero;
        self.y2 = zero;
        let ghost input = buffer@;
        let ghost mut filters = seq![*self];
        let mut index: usize = 0;
        while index < buffer.len()
            invariant
                index <= buffer@.len() == input.len(),
                forall|i: int| index <= i < input.len() ==> buffer@[i] == #[trigger] input[i],
                forall|c: C, x: T, x1: S, x2: S, y1: S, y2: S|
                    call_requires(*equation, (c, x, x1, x2, y1, y2)),
                filters.len() == index + 1,
                filters.first() == Biquad::zeroed(old(self).coefficients, zero),
                filters.last() == *self,
                forall|i: int|
                    0 <= i < index ==> #[trigger] filters_sample(
                        *equation,
                        filters,
                        input,
                        buffer@,
                        i,
                    ),
            decreases buffer@.len() - index,
        {
            let ghost so_far = buffer@;
            assert(buffer@[index as int] == input[index as int]);
            let output = self.process(buffer[index], equation);
            buffer[index] = output;
            proof {
                let longer = filters.push(*self);
                assert forall|i: int| 0 <= i < index + 1 implies #[trigger] filters_sample(
                    *equation,
                    longer,
                    input,
                    buffer@,
                    i,
                ) by {
                    if i < index {
                        assert(filters_sample(*equation, filters, input, so_far, i));
                    }
                }
                filters = longer;
            }
            index = index + 1;
        }
        assert(filters_all(*equation, filters, input, buffer@));
    }
}

} // verus!
