//! Flat buffer of latency samples for the measured hot path: recording is
//! one store, and the samples are aggregated only after the run.

use vstd::prelude::*;

verus! {

/// A fixed number of sample slots, filled front to back.
pub struct LatencyBuffer {
    samples: Vec<u64>,
    idx: usize,
}

impl LatencyBuffer {
    /// Number of sample slots.
    pub closed spec fn slot_count(&self) -> nat {
        self.samples@.len()
    }

    /// The samples recorded so far, oldest first.
    pub closed spec fn recorded(&self) -> Seq<u64> {
        self.samples@.take(self.idx as int)
    }

    /// No more samples are recorded than there are slots.
    pub closed spec fn wf(&self) -> bool {
        self.idx <= self.samples@.len()
    }

    /// A buffer of `n` slots with nothing recorded.
    pub fn with_capacity(n: usize) -> (r: Self)
        ensures
            r.wf(),
            r.slot_count() == n,
            r.recorded() == Seq::<u64>::empty(),
    {
        let r = LatencyBuffer { samples: vec![0u64; n], idx: 0 };
        assert(r.recorded() =~= Seq::<u64>::empty());
        r
    }

    /// Records one sample in the next free slot.
    #[inline(always)]
    pub fn record(&mut self, cycles: u64)
        requires
            old(self).wf(),
            old(self).recorded().len() < old(self).slot_count(),
        ensures
            final(self).wf(),
            final(self).slot_count() == old(self).slot_count(),
            final(self).recorded() == old(self).recorded().push(cycles),
    {
        let ghost before = self.samples@;
        assert(before.take(self.idx as int).len() == self.idx);
        let slots = self.samples.len();
        assert(self.idx < slots);
        self.samples.set(self.idx, cycles);
        self.idx = self.idx + 1;
        assert(self.recorded() =~= before.take(self.idx - 1).push(cycles));
    }

    /// The samples recorded so far, oldest first.
    pub fn finish(&self) -> (r: &[u64])
        requires
            self.wf(),
        ensures
            r@ == self.recorded(),
    {
        let all = self.samples.as_slice();
        let r = &all[0..self.idx];
        assert(r@ =~= self.recorded());
        r
    }

    /// Forgets the recorded samples; the slots stay.
    pub fn reset(&mut self)
        requires
            old(self).wf(),
        ensures
            final(self).wf(),
            final(self).slot_count() == old(self).slot_count(),
            final(self).recorded() == Seq::<u64>::empty(),
    {
        self.idx = 0;
        assert(self.recorded() =~= Seq::<u64>::empty());
    }

    /// Number of sample slots.
    pub fn capacity(&self) -> (r: usize)
        ensures
            r == self.slot_count(),
    {
        self.samples.len()
    }

    /// Number of recorded samples.
    pub fn len(&self) -> (r: usize)
        requires
            self.wf(),
        ensures
            r == self.recorded().len(),
    {
        assert(self.recorded().len() == self.idx);
        self.idx
    }

    /// Whether nothing is recorded.
    pub fn is_empty(&self) -> (r: bool)
        requires
            self.wf(),
        ensures
            r == (self.recorded().len() == 0),
    {
        assert(self.recorded().len() == self.idx);
        self.idx == 0
    }
}

/// Recording `cs` one after another, starting from a buffer with nothing
/// recorded (fresh or just reset), leaves exactly `cs` recorded, in the
/// order they were recorded: `bufs[i]` is the buffer before the `i`-th
/// record.
pub proof fn lemma_records_in_order(bufs: Seq<LatencyBuffer>, cs: Seq<u64>)
    requires
        bufs.len() == cs.len() + 1,
        bufs[0].recorded() == Seq::<u64>::empty(),
        forall|i: int|
            0 <= i < cs.len() ==> #[trigger] bufs[i + 1].recorded() == bufs[i].recorded().push(cs[i]),
    ensures
        bufs.last().recorded() == cs,
    decreases cs.len(),
{
    if cs.len() == 0 {
        assert(cs =~= Seq::<u64>::empty());
    } else {
        let n = cs.len() - 1;
        assert forall|i: int| 0 <= i < n implies #[trigger] bufs.drop_last()[i + 1].recorded()
            == bufs.drop_last()[i].recorded().push(cs.drop_last()[i]) by {
            assert(bufs[i + 1].recorded() == bufs[i].recorded().push(cs[i]));
        }
        lemma_records_in_order(bufs.drop_last(), cs.drop_last());
        assert(bufs[n + 1].recorded() == bufs[n].recorded().push(cs[n]));
        assert(cs.drop_last().push(cs[n]) =~= cs);
    }
}

} // verus!
