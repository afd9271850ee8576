//! The dispatch governor: document batching and queue-depth backpressure.
//!
//! Documents accumulate into a batch of a fixed size; a full batch is
//! flushed to every scan engine.  Before any further accumulation the
//! caller reads every engine's pending-batch depth and asks the governor
//! whether dispatch may proceed: it may exactly when the greatest depth
//! is below the configured ceiling, and must wait otherwise.  The wait
//! itself — sleep, re-read the depths, ask again — is the caller's loop;
//! the governor's answer is what never lets a flush through while the
//! ceiling is reached.
use vstd::prelude::*;

use crate::document::Document;
use crate::document::DocumentModel;

verus! {

/// How many documents one batch holds before it is flushed.
pub const DOCUMENT_BATCH_SIZE: usize = 64;

/// The greatest pending-batch depth in a set of engine reports, and zero
/// when there are none (an idle worker is never blocked).
pub open spec fn max_depth(depths: Seq<isize>) -> int
    decreases depths.len(),
{
    if depths.len() == 0 {
        0
    } else {
        let rest = max_depth(depths.drop_last());
        if depths.last() > rest {
            depths.last() as int
        } else {
            rest
        }
    }
}

/// The greatest pending-batch depth across all scan engines.
pub fn max_queue_size(depths: &Vec<isize>) -> (r: isize)
    ensures
        r == max_depth(depths@),
        r >= 0,
{
    let mut acc: isize = 0;
    let mut i: usize = 0;
    proof {
        assert(depths@.subrange(0, 0) =~= Seq::<isize>::empty());
    }
    while i < depths.len()
        invariant
            i <= depths@.len(),
            acc == max_depth(depths@.subrange(0, i as int)),
            acc >= 0,
        decreases depths@.len() - i,
    {
        let d = depths[i];
        proof {
            let pre = depths@.subrange(0, i + 1);
            assert(pre.drop_last() =~= depths@.subrange(0, i as int));
            assert(pre.last() == d);
        }
        if d > acc {
            acc = d;
        }
        i = i + 1;
    }
    proof {
        assert(depths@.subrange(0, depths@.len() as int) =~= depths@);
    }
    acc
}

/// What the governor says about dispatching now.
pub enum DispatchDecision {
    /// The greatest pending depth is below the ceiling: flush away.
    Proceed,
    /// The ceiling is reached: sleep, re-read the depths, and ask again.
    Wait,
}

/// The backpressure rule: for any ceiling, dispatch proceeds exactly when
/// the greatest observed pending-batch depth is below it — so no flush is
/// ever issued while the depth is at or above the ceiling, and dispatch
/// resumes as soon as the depth drops under it.
pub fn dispatch_decision(depths: &Vec<isize>, ceiling: isize) -> (d: DispatchDecision)
    ensures
        d is Proceed <==> max_depth(depths@) < ceiling,
{
    let current = max_queue_size(depths);
    if current < ceiling {
        DispatchDecision::Proceed
    } else {
        DispatchDecision::Wait
    }
}

/// The governor's in-memory batch of documents awaiting dispatch.
pub struct DispatchGovernor {
    batch: Vec<Document>,
    batch_size: usize,
}

impl DispatchGovernor {
    /// The documents currently accumulated, oldest first.
    pub closed spec fn pending(&self) -> Seq<DocumentModel> {
        self.batch.deep_view()
    }

    /// The configured batch size.
    pub closed spec fn size(&self) -> int {
        self.batch_size as int
    }

    /// A governor is well formed while its batch has room left: a full
    /// batch is always handed out at once.
    pub closed spec fn wf(&self) -> bool {
        1 <= self.batch_size && self.batch@.len() < self.batch_size
    }

    /// A fresh governor with an empty batch.
    pub fn new(batch_size: usize) -> (g: DispatchGovernor)
        requires
            batch_size >= 1,
        ensures
            g.wf(),
            g.pending() == Seq::<DocumentModel>::empty(),
            g.size() == batch_size,
    {
        let g = DispatchGovernor { batch: Vec::new(), batch_size };
        proof {
            assert(g.pending() =~= Seq::<DocumentModel>::empty());
        }
        g
    }

    /// Take in one document.  When that fills the batch, the full batch
    /// comes back for dispatch and accumulation starts over; otherwise
    /// the document joins the pending batch.
    pub fn push(&mut self, d: Document) -> (flushed: Option<Vec<Document>>)
        requires
            old(self).wf(),
        ensures
            final(self).wf(),
            final(self).size() == old(self).size(),
            match flushed {
                Some(b) => {
                    &&& b.deep_view() == old(self).pending().push(d@)
                    &&& b@.len() == old(self).size()
                    &&& final(self).pending() == Seq::<DocumentModel>::empty()
                },
                None => {
                    &&& final(self).pending() == old(self).pending().push(d@)
                    &&& old(self).pending().len() + 1 < old(self).size()
                },
            },
    {
        let ghost dm = d@;
        let ghost old_dv = self.batch.deep_view();
        self.batch.push(d);
        proof {
            assert(self.batch.deep_view() =~~= old_dv.push(dm));
        }
        if self.batch.len() >= self.batch_size {
            let out = self.batch.split_off(0);
            proof {
                assert(out.deep_view() =~~= old_dv.push(dm));
                assert(self.batch.deep_view() =~~= Seq::<DocumentModel>::empty());
            }
            Some(out)
        } else {
            None
        }
    }

    /// Hand back whatever is pending, for the final partial flush at the
    /// end of an archive.
    pub fn flush(&mut self) -> (b: Vec<Document>)
        requires
            old(self).wf(),
        ensures
            final(self).wf(),
            final(self).size() == old(self).size(),
            b.deep_view() == old(self).pending(),
            final(self).pending() == Seq::<DocumentModel>::empty(),
    {
        let out = self.batch.split_off(0);
        proof {
            assert(out.deep_view() =~~= old(self).pending());
            assert(self.batch.deep_view() =~~= Seq::<DocumentModel>::empty());
        }
        out
    }
}

} // verus!
