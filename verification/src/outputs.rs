//! The output aggregator: merging what the scan engines produced.
//!
//! Each scan engine hands back batches of outputs; the aggregator merges
//! them into one batch, in order, and a nonempty merged batch is
//! serialized and delivered to the master.  The output's own shape is the
//! scan engine's business: here it is an opaque payload.
use vstd::prelude::*;

verus! {

/// One match output, as the scan engine produced it: an opaque payload
/// carried through to the master.
pub struct Output {
    pub data: Vec<u8>,
}

impl View for Output {
    type V = Seq<u8>;

    open spec fn view(&self) -> Seq<u8> {
        self.data@
    }
}

impl DeepView for Output {
    type V = Seq<u8>;

    open spec fn deep_view(&self) -> Seq<u8> {
        self.data@
    }
}

/// A batch of outputs awaiting delivery.
pub struct OutputBatch {
    pub outputs: Vec<Output>,
}

impl View for OutputBatch {
    type V = Seq<Seq<u8>>;

    open spec fn view(&self) -> Seq<Seq<u8>> {
        self.outputs.deep_view()
    }
}

impl DeepView for OutputBatch {
    type V = Seq<Seq<u8>>;

    open spec fn deep_view(&self) -> Seq<Seq<u8>> {
        self.outputs.deep_view()
    }
}

/// The concatenation of a sequence of batches, in order.
pub open spec fn concat_batches(bs: Seq<Seq<Seq<u8>>>) -> Seq<Seq<u8>>
    decreases bs.len(),
{
    if bs.len() == 0 {
        Seq::<Seq<u8>>::empty()
    } else {
        bs[0] + concat_batches(bs.drop_first())
    }
}

impl OutputBatch {
    /// A batch with nothing in it.
    pub fn new() -> (b: OutputBatch)
        ensures
            b@ == Seq::<Seq<u8>>::empty(),
    {
        let b = OutputBatch { outputs: Vec::new() };
        proof {
            assert(b@ =~= Seq::<Seq<u8>>::empty());
        }
        b
    }

    /// How many outputs the batch holds.
    pub fn len(&self) -> (n: usize)
        ensures
            n == self@.len(),
    {
        self.outputs.len()
    }

    /// Whether the batch holds anything worth delivering.
    pub fn is_empty(&self) -> (r: bool)
        ensures
            r <==> self@.len() == 0,
    {
        self.outputs.len() == 0
    }

    /// Merge another batch into this one: its outputs follow this
    /// batch's outputs, in their order.
    pub fn merge_with(&mut self, other: OutputBatch)
        ensures
            final(self)@ == old(self)@ + other@,
    {
        let mut incoming = other;
        let ghost arriving = incoming@;
        self.outputs.append(&mut incoming.outputs);
        proof {
            assert(self@ =~~= old(self)@ + arriving);
        }
    }
}

/// Merging an empty batch into a batch leaves it exactly as it was, with
/// the order of its outputs preserved.
pub proof fn lemma_merge_empty_identity(b: Seq<Seq<u8>>)
    ensures
        b + Seq::<Seq<u8>>::empty() == b,
        Seq::<Seq<u8>>::empty() + b == b,
{
    assert(b + Seq::<Seq<u8>>::empty() =~= b);
    assert(Seq::<Seq<u8>>::empty() + b =~= b);
}

/// Merge the batches polled from every scan engine into one, in order.
pub fn merge_output_batches(batches: Vec<OutputBatch>) -> (merged: OutputBatch)
    ensures
        merged@ == concat_batches(batches.deep_view()),
{
    let ghost full = batches.deep_view();
    let mut rest = batches;
    let mut merged = OutputBatch::new();
    proof {
        assert(rest.deep_view() =~~= full);
        assert(merged@ + concat_batches(full) =~= concat_batches(full));
    }
    while rest.len() > 0
        invariant
            concat_batches(full) == merged@ + concat_batches(rest.deep_view()),
        decreases rest@.len(),
    {
        let ghost before = rest.deep_view();
        let ghost merged_before = merged@;
        let head = rest.remove(0);
        proof {
            assert(head@ == before[0]);
            assert(rest.deep_view() =~~= before.drop_first());
        }
        merged.merge_with(head);
        proof {
            assert(merged_before + (before[0] + concat_batches(before.drop_first())) =~= (
            merged_before + before[0]) + concat_batches(before.drop_first()));
        }
    }
    proof {
        assert(rest.deep_view() =~~= Seq::<Seq<Seq<u8>>>::empty());
        assert(merged@ + Seq::<Seq<u8>>::empty() =~= merged@);
    }
    merged
}

} // verus!
