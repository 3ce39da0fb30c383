//! A fixed size ring buffer of samples addressed by *absolute* sample index.
//!
//! The de-esser needs to look back a little (it repairs audio that it has
//! already seen) and to hold audio until it is certain that nothing will
//! modify it any more.  Addressing by absolute index keeps the bookkeeping
//! readable: positions of clicks, events and groups are all plain sample
//! counters from the beginning of the file, and this buffer only answers
//! questions about samples that have not been dropped.
//!
//! The capacity is fixed at construction, so memory use is independent of the
//! length of the input.

use vstd::prelude::*;

verus! {

pub struct SampleRing<T> {
    data: Vec<T>,
    /// Absolute index that the next pushed sample will get.
    write_index: u64,
}

/// Where the sample with the absolute index `index` is stored.
spec fn slot_of(index: int, capacity: int) -> int {
    index % capacity
}

/// Two samples that are stored at the same time have different slots.
proof fn lemma_slots_differ(i: int, j: int, capacity: int)
    requires
        0 < capacity,
        0 <= i < j < i + capacity,
    ensures
        slot_of(i, capacity) != slot_of(j, capacity),
{
    if i % capacity == j % capacity {
        vstd::arithmetic::div_mod::lemma_fundamental_div_mod(i, capacity);
        vstd::arithmetic::div_mod::lemma_fundamental_div_mod(j, capacity);
        let p = i / capacity;
        let q = j / capacity;
        assert(j - i == capacity * q - capacity * p);
        assert(capacity * q - capacity * p == capacity * (q - p)) by (nonlinear_arith);
        assert(0 < capacity * (q - p) < capacity ==> false) by (nonlinear_arith)
            requires
                capacity > 0,
        ;
    }
}

impl<T> SampleRing<T> {
    /// Number of samples the ring can hold.
    pub closed spec fn size(&self) -> nat {
        self.data@.len()
    }

    /// Number of samples pushed so far.
    pub closed spec fn written(&self) -> nat {
        self.write_index as nat
    }

    /// The capacity is a positive number that a `u64` can hold.
    pub closed spec fn wf(&self) -> bool {
        0 < self.data@.len() <= u64::MAX
    }

    /// Absolute index of the oldest sample still available.
    pub open spec fn oldest(&self) -> nat {
        if self.written() < self.size() {
            0
        } else {
            (self.written() - self.size()) as nat
        }
    }

    /// True if `index` is still stored.
    pub open spec fn holds(&self, index: int) -> bool {
        self.oldest() <= index < self.written()
    }

    /// The sample with the absolute index `index`, if it is still stored.
    pub closed spec fn sample(&self, index: int) -> T {
        self.data@[slot_of(index, self.data@.len() as int)]
    }
}

impl<T: Copy> SampleRing<T> {
    /// An empty ring; `zero` only fills the memory.
    pub fn new(capacity: usize, zero: T) -> (ring: SampleRing<T>)
        requires
            capacity > 0,
        ensures
            ring.wf(),
            ring.size() == capacity,
            ring.written() == 0,
    {
        let mut data: Vec<T> = Vec::with_capacity(capacity);
        let mut filled: usize = 0;
        while filled < capacity
            invariant
                filled <= capacity,
                data@.len() == filled,
            decreases capacity - filled,
        {
            data.push(zero);
            filled = filled + 1;
        }
        SampleRing { data, write_index: 0 }
    }

    pub fn capacity(&self) -> (capacity: usize)
        ensures
            capacity == self.size(),
    {
        self.data.len()
    }

    /// Absolute index of the sample that will be written next, i.e. one past
    /// the newest sample currently stored.
    pub fn write_index(&self) -> (index: u64)
        ensures
            index == self.written(),
    {
        self.write_index
    }

    /// Absolute index of the oldest sample still available.
    pub fn oldest_index(&self) -> (index: u64)
        ensures
            index == self.oldest(),
    {
        self.write_index.saturating_sub(self.data.len() as u64)
    }

    /// True if `index` is still stored.
    pub fn contains(&self, index: u64) -> (stored: bool)
        ensures
            stored == self.holds(index as int),
    {
        index >= self.oldest_index() && index < self.write_index
    }

    /// Appends a sample, overwriting the oldest one if the ring is full.
    ///
    /// The caller is responsible for having consumed anything it still needs.
    pub fn push(&mut self, sample: T)
        requires
            old(self).wf(),
            old(self).written() < u64::MAX,
        ensures
            final(self).wf(),
            final(self).size() == old(self).size(),
            final(self).written() == old(self).written() + 1,
            final(self).sample(old(self).written() as int) == sample,
            forall|index: int|
                final(self).holds(index) && index < old(self).written()
                    ==> #[trigger] final(self).sample(index) == old(self).sample(index),
    {
        let slot = self.slot(self.write_index);
        self.data[slot] = sample;
        proof {
            let capacity = self.data@.len() as int;
            let newest = self.write_index as int;
            assert forall|index: int|
                0 <= index && newest - capacity < index < newest implies #[trigger] slot_of(
                index,
                capacity,
            ) != slot by {
                lemma_slots_differ(index, newest, capacity);
            }
        }
        self.write_index = self.write_index + 1;
    }

    pub fn get(&self, index: u64) -> (sample: T)
        requires
            self.wf(),
            self.holds(index as int),
        ensures
            sample == self.sample(index as int),
    {
        self.data[self.slot(index)]
    }

    /// Adds `delta` to a sample that is still buffered.  This is how the
    /// repair stage applies its correction.
    ///
    /// `plus` is the addition of samples.
    pub fn add<F: Fn(T, T) -> T>(&mut self, index: u64, delta: T, plus: &F)
        requires
            old(self).wf(),
            old(self).holds(index as int),
            call_requires(*plus, (old(self).sample(index as int), delta)),
        ensures
            final(self).wf(),
            final(self).size() == old(self).size(),
            final(self).written() == old(self).written(),
            call_ensures(
                *plus,
                (old(self).sample(index as int), delta),
                final(self).sample(index as int),
            ),
            forall|other: int|
                old(self).holds(other) && other != index ==> #[trigger] final(self).sample(other)
                    == old(self).sample(other),
    {
        let slot = self.slot(index);
        let sum = plus(self.data[slot], delta);
        self.data[slot] = sum;
        proof {
            let capacity = self.data@.len() as int;
            assert forall|other: int| old(self).holds(other) && other != index implies #[trigger] slot_of(
                other,
                capacity,
            ) != slot by {
                if other < index {
                    lemma_slots_differ(other, index as int, capacity);
                } else {
                    lemma_slots_differ(index as int, other, capacity);
                }
            }
        }
    }

    fn slot(&self, index: u64) -> (slot: usize)
        requires
            self.wf(),
        ensures
            slot == slot_of(index as int, self.data@.len() as int),
            slot < self.data@.len(),
    {
        (index % self.data.len() as u64) as usize
    }
}

/// A ring holds the samples that were pushed last, as many as fit into it.
pub proof fn law_the_latest_samples_are_stored<T>(ring: SampleRing<T>, index: int)
    ensures
        ring.holds(index) <==> 0 <= index < ring.written() && ring.written() <= index
            + ring.size(),
        ring.written() <= ring.size() ==> ring.oldest() == 0,
        ring.written() >= ring.size() ==> ring.oldest() + ring.size() == ring.written(),
{
}

} // verus!
