//! Model of the decoupled write pipeline: a bounded FIFO queue of byte
//! chunks between the accepting side and the worker that owns the
//! destination. The model carries the full history of accepted chunks
//! and shows that draining writes them in exactly the accepted order.

use vstd::prelude::*;

use crate::sparse::push_bytes;

verus! {

/// What sequential unbuffered writes of the same chunks produce.
pub open spec fn sequential_output(chunks: Seq<Seq<u8>>) -> Seq<u8> {
    chunks.flatten()
}

/// The pipeline state: pending chunks not yet written, the bytes the
/// destination holds, and (ghost) every chunk ever accepted, in order.
pub struct WritePipeline {
    queue: Vec<Vec<u8>>,
    capacity: usize,
    sink: Vec<u8>,
    accepted: Ghost<Seq<Seq<u8>>>,
}

impl WritePipeline {
    /// Every accepted chunk is either already on the sink or still
    /// pending, with no reordering: the sink followed by the pending
    /// chunks is exactly the accepted history.
    pub closed spec fn wf(self) -> bool {
        &&& self.sink@ + self.queue.deep_view().flatten() == self.accepted@.flatten()
        &&& self.queue@.len() <= self.capacity
        &&& self.capacity >= 1
    }

    /// Chunks accepted so far, in order.
    pub closed spec fn accepted(self) -> Seq<Seq<u8>> {
        self.accepted@
    }

    /// Bytes the destination holds.
    pub closed spec fn sink(self) -> Seq<u8> {
        self.sink@
    }

    /// Chunks accepted but not yet written.
    pub closed spec fn pending(self) -> Seq<Seq<u8>> {
        self.queue.deep_view()
    }

    /// The queue bound.
    pub closed spec fn cap(self) -> int {
        self.capacity as int
    }

    /// The bytes the destination holds so far.
    pub fn sink_bytes(&self) -> (r: &Vec<u8>)
        ensures
            r@ == self.sink(),
    {
        &self.sink
    }

    /// How many chunks are pending.
    pub fn pending_count(&self) -> (r: usize)
        ensures
            r == self.pending().len(),
    {
        proof {
            assert(self.queue.deep_view().len() == self.queue@.len());
        }
        self.queue.len()
    }

    /// An empty pipeline with the given queue bound.
    pub fn new(capacity: usize) -> (r: Self)
        requires
            capacity >= 1,
        ensures
            r.wf(),
            r.cap() == capacity,
            r.accepted() == Seq::<Seq<u8>>::empty(),
            r.pending() == Seq::<Seq<u8>>::empty(),
            r.sink() == Seq::<u8>::empty(),
    {
        let r = WritePipeline {
            queue: Vec::new(),
            capacity,
            sink: Vec::new(),
            accepted: Ghost(Seq::empty()),
        };
        proof {
            assert(r.queue.deep_view() =~= Seq::<Seq<u8>>::empty());
            assert(Seq::<Seq<u8>>::empty().flatten() =~= Seq::<u8>::empty());
            assert(r.sink@ + r.queue.deep_view().flatten() =~= r.accepted@.flatten());
        }
        r
    }

    /// Offers a chunk. A full queue refuses it and hands it back: that
    /// is the backpressure that blocks the calling thread until the
    /// worker has drained; an accepted chunk joins the pending queue
    /// and the history.
    pub fn try_enqueue(&mut self, chunk: Vec<u8>) -> (r: Option<Vec<u8>>)
        requires
            old(self).wf(),
        ensures
            final(self).wf(),
            final(self).cap() == old(self).cap(),
            final(self).sink() == old(self).sink(),
            old(self).pending().len() < old(self).cap() ==> {
                &&& r is None
                &&& final(self).accepted() == old(self).accepted().push(chunk@)
                &&& final(self).pending() == old(self).pending().push(chunk@)
            },
            old(self).pending().len() >= old(self).cap() ==> {
                &&& r == Some(chunk)
                &&& final(self).accepted() == old(self).accepted()
                &&& final(self).pending() == old(self).pending()
            },
    {
        if self.queue.len() < self.capacity {
            let ghost oldq = self.queue.deep_view();
            let ghost olda = self.accepted@;
            let ghost c = chunk@;
            self.queue.push(chunk);
            proof {
                self.accepted@ = olda.push(c);
                assert(self.queue.deep_view() =~~= oldq.push(c));
                olda.lemma_flatten_push(c);
                oldq.lemma_flatten_push(c);
                assert(self.sink@ + oldq.push(c).flatten() =~= olda.push(c).flatten());
            }
            None
        } else {
            Some(chunk)
        }
    }

    /// The worker writes the oldest pending chunk to the destination.
    /// With nothing pending, nothing changes.
    pub fn drain_one(&mut self)
        requires
            old(self).wf(),
        ensures
            final(self).wf(),
            final(self).cap() == old(self).cap(),
            final(self).accepted() == old(self).accepted(),
            old(self).pending().len() > 0 ==> {
                &&& final(self).sink() == old(self).sink() + old(self).pending()[0]
                &&& final(self).pending() == old(self).pending().drop_first()
            },
            old(self).pending().len() == 0 ==> {
                &&& final(self).sink() == old(self).sink()
                &&& final(self).pending() == old(self).pending()
            },
    {
        if self.queue.len() == 0 {
            return ;
        }
        let ghost oldq = self.queue.deep_view();
        let ghost olds = self.sink@;
        let chunk = self.queue.remove(0);
        proof {
            assert(self.queue.deep_view() =~~= oldq.drop_first());
            assert(chunk@ == oldq[0]);
        }
        push_bytes(&mut self.sink, chunk.as_slice());
        proof {
            assert(oldq.flatten() == oldq.first() + oldq.drop_first().flatten());
            assert((olds + oldq[0]) + oldq.drop_first().flatten() =~= olds + oldq.flatten());
        }
    }

    /// Closing the queue and waiting for the worker: everything
    /// pending is written. The destination then holds exactly the
    /// accepted chunks, in the order they were accepted — byte for
    /// byte what sequential unbuffered writes would have produced.
    pub fn finish(&mut self)
        requires
            old(self).wf(),
        ensures
            final(self).wf(),
            final(self).accepted() == old(self).accepted(),
            final(self).pending().len() == 0,
            final(self).sink() == sequential_output(final(self).accepted()),
    {
        while self.queue.len() > 0
            invariant
                self.wf(),
                self.accepted() == old(self).accepted(),
            decreases self.queue@.len(),
        {
            let ghost before = self.pending().len();
            self.drain_one();
            proof {
                assert(self.pending().len() < before);
            }
        }
        proof {
            assert(self.queue.deep_view() =~= Seq::<Seq<u8>>::empty());
            assert(Seq::<Seq<u8>>::empty().flatten() =~= Seq::<u8>::empty());
            assert(self.sink@ =~= self.accepted@.flatten());
        }
    }
}

/// Write order is preserved under saturation: whatever interleaving of
/// accepted writes and worker drains led to a state, once nothing is
/// pending the destination is byte-identical to sequential unbuffered
/// writes of the accepted chunks. Enqueuing more chunks than the bound
/// only forces refusals (backpressure); it never reorders.
pub proof fn lemma_pipeline_preserves_order(p: WritePipeline)
    requires
        p.wf(),
        p.pending().len() == 0,
    ensures
        p.sink() == sequential_output(p.accepted()),
{
    assert(p.pending().flatten() =~= Seq::<u8>::empty());
    assert(p.sink() + p.pending().flatten() =~= p.sink());
}

} // verus!
