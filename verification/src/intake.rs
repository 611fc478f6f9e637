//! Ingestion: taking discovered records off the discovery channel and into the
//! index, a bounded batch per redraw cycle.
//!
//! Taking never waits. A cycle stops at the first moment the channel has
//! nothing to give, be it empty or closed, and after `BATCH_LIMIT` records at
//! the latest; what is left stays queued for the next cycle.

use crate::entry::{Entry, EntryView};
use crate::index::{lemma_absorb_grows, CandidateIndex};
use std::sync::mpsc::Receiver;
use vstd::prelude::*;

verus! {

/// The greatest number of records that one cycle takes off the channel.
pub const BATCH_LIMIT: usize = 60;

/// The receiving end of a channel of the standard library.
#[verifier::external_type_specification]
#[verifier::external_body]
#[verifier::reject_recursive_types(T)]
pub struct ExReceiver<T>(std::sync::mpsc::Receiver<T>);

/// Calls `Receiver::try_recv`, which never blocks: it gives the next record
/// that is queued, or nothing if the channel is empty or its sender is gone.
/// What it gives depends on the sender's progress, so nothing is stated of it.
#[verifier::external_body]
fn poll(source: &Receiver<Entry>) -> (next: Option<Entry>) {
    source.try_recv().ok()
}

/// Takes the records that are queued on `source`, at most `BATCH_LIMIT` of
/// them, and stores each in `index` under its search key, in the order of
/// their arrival. Returns how many were taken.
pub fn drain(index: &mut CandidateIndex, source: &Receiver<Entry>) -> (taken: usize)
    ensures
        taken <= BATCH_LIMIT,
        exists|batch: Seq<EntryView>|
            batch.len() == taken && final(index)@ == #[trigger] old(index)@.absorb(batch),
        final(index)@.wf(),
        old(index)@.len() <= final(index)@.len() <= old(index)@.len() + taken,
        forall|key: Seq<char>| old(index)@.has(key) ==> final(index)@.has(key),
{
    let mut taken: usize = 0;
    let ghost mut batch: Seq<EntryView> = Seq::empty();
    proof {
        use_type_invariant(&*index);
        index.lemma_well_formed();
    }
    while taken < BATCH_LIMIT
        invariant
            taken <= BATCH_LIMIT,
            batch.len() == taken,
            forall|i: int| 0 <= i < batch.len() ==> !(#[trigger] batch[i]).is_blank(),
            old(index)@.wf(),
            index@ == old(index)@.absorb(batch),
        decreases BATCH_LIMIT - taken,
    {
        match poll(source) {
            Some(entry) => {
                proof {
                    use_type_invariant(&entry);
                    let more = batch.push(entry@);
                    assert(more.drop_last() =~= batch);
                    batch = more;
                }
                index.ingest(entry);
                taken += 1;
            },
            None => {
                proof {
                    lemma_absorb_grows(old(index)@, batch);
                }
                return taken;
            },
        }
    }
    proof {
        lemma_absorb_grows(old(index)@, batch);
    }
    taken
}

} // verus!
