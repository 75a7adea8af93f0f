use vstd::prelude::*;

use crate::measurement::{Latency, Measurement};

verus! {

/// How many measurements a buffer keeps unless told otherwise.
pub const DEFAULT_CAPACITY: usize = 1000;

/// The last `k` items of `s`, in order (all of them where there are fewer).
pub open spec fn window(s: Seq<Measurement>, k: nat) -> Seq<Measurement> {
    if s.len() <= k {
        s
    } else {
        s.subrange(s.len() - k, s.len() as int)
    }
}

/// What a buffer of capacity `k` holds after `ms` were appended to it, one
/// at a time, starting empty.
pub open spec fn appended_one_by_one(ms: Seq<Measurement>, k: nat) -> Seq<Measurement>
    decreases ms.len(),
{
    if ms.len() == 0 {
        Seq::empty()
    } else {
        window(appended_one_by_one(ms.drop_last(), k).push(ms.last()), k)
    }
}

/// Appending to a window and trimming again is trimming once.
pub proof fn lemma_window_push(s: Seq<Measurement>, x: Measurement, k: nat)
    requires
        k > 0,
    ensures
        window(window(s, k).push(x), k) == window(s.push(x), k),
{
    assert(window(window(s, k).push(x), k) =~= window(s.push(x), k));
}

/// Appending measurements one at a time to an empty buffer of capacity `k`
/// leaves `min(N, k)` of them: the last ones appended, in their order.
pub proof fn lemma_buffer_keeps_last(ms: Seq<Measurement>, k: nat)
    requires
        k > 0,
    ensures
        appended_one_by_one(ms, k) == window(ms, k),
        appended_one_by_one(ms, k).len() == if ms.len() < k { ms.len() } else { k },
        forall|i: int|
            0 <= i < appended_one_by_one(ms, k).len() ==> #[trigger] appended_one_by_one(ms, k)[i]
                == ms[ms.len() - appended_one_by_one(ms, k).len() + i],
    decreases ms.len(),
{
    if ms.len() > 0 {
        lemma_buffer_keeps_last(ms.drop_last(), k);
        lemma_window_push(ms.drop_last(), ms.last(), k);
        assert(ms.drop_last().push(ms.last()) =~= ms);
    } else {
        assert(window(ms, k) =~= Seq::<Measurement>::empty());
    }
}

/// The recent history of measurements, oldest first, never longer than its
/// capacity: appending past the capacity drops the oldest.
pub struct SampleBuffer {
    items: Vec<Measurement>,
    max_capacity: usize,
}

impl View for SampleBuffer {
    type V = Seq<Measurement>;

    closed spec fn view(&self) -> Seq<Measurement> {
        self.items@
    }
}

impl SampleBuffer {
    pub closed spec fn capacity(&self) -> nat {
        self.max_capacity as nat
    }

    pub closed spec fn wf(&self) -> bool {
        self.max_capacity > 0 && self.items@.len() <= self.max_capacity
    }

    pub fn new(max_capacity: usize) -> (r: SampleBuffer)
        requires
            max_capacity > 0,
        ensures
            r.wf(),
            r@ == Seq::<Measurement>::empty(),
            r.capacity() == max_capacity,
    {
        SampleBuffer { items: Vec::new(), max_capacity }
    }

    pub fn with_default_capacity() -> (r: SampleBuffer)
        ensures
            r.wf(),
            r@ == Seq::<Measurement>::empty(),
            r.capacity() == DEFAULT_CAPACITY,
    {
        SampleBuffer::new(DEFAULT_CAPACITY)
    }

    pub fn len(&self) -> (r: usize)
        ensures
            r == self@.len(),
    {
        self.items.len()
    }

    pub fn max_capacity(&self) -> (r: usize)
        ensures
            r == self.capacity(),
    {
        self.max_capacity
    }

    /// Appends `m`, dropping the oldest measurement where the buffer is full.
    pub fn push(&mut self, m: Measurement)
        requires
            old(self).wf(),
        ensures
            final(self).wf(),
            final(self).capacity() == old(self).capacity(),
            final(self)@ == window(old(self)@.push(m), old(self).capacity()),
    {
        let ghost before = self.items@;
        if self.items.len() >= self.max_capacity {
            self.items.remove(0);
        }
        self.items.push(m);
        assert(self.items@ =~= window(before.push(m), self.max_capacity as nat));
    }

    /// Appends every measurement of `batch` in order, as repeated `push`
    /// would: what stays is the last `capacity` of the old contents and the
    /// batch together.
    pub fn absorb(&mut self, batch: Vec<Measurement>)
        requires
            old(self).wf(),
        ensures
            final(self).wf(),
            final(self).capacity() == old(self).capacity(),
            final(self)@ == window(old(self)@ + batch@, old(self).capacity()),
    {
        let ghost start = self@;
        let ghost k = self.capacity();
        assert(start + batch@.subrange(0, 0) =~= start);
        assert(window(start, k) == start);
        let mut i: usize = 0;
        while i < batch.len()
            invariant
                self.wf(),
                self.capacity() == k,
                k > 0,
                i <= batch@.len(),
                self@ == window(start + batch@.subrange(0, i as int), k),
            decreases batch@.len() - i,
        {
            let m = batch[i];
            proof {
                lemma_window_push(start + batch@.subrange(0, i as int), m, k);
                assert((start + batch@.subrange(0, i as int)).push(m) =~= start + batch@.subrange(
                    0,
                    i + 1,
                ));
            }
            self.push(m);
            i += 1;
        }
        assert(batch@.subrange(0, batch@.len() as int) =~= batch@);
    }

    /// The latencies held, oldest first: the series that a chart plots
    /// against their position.
    pub fn values(&self) -> (r: Vec<Latency>)
        ensures
            r@.len() == self@.len(),
            forall|i: int| 0 <= i < r@.len() ==> #[trigger] r@[i] == self@[i].latency,
    {
        let mut r: Vec<Latency> = Vec::new();
        let mut i: usize = 0;
        while i < self.items.len()
            invariant
                i <= self.items@.len(),
                r@.len() == i,
                forall|j: int| 0 <= j < i ==> #[trigger] r@[j] == self.items@[j].latency,
            decreases self.items@.len() - i,
        {
            r.push(self.items[i].latency);
            i += 1;
        }
        r
    }
}

} // verus!
