//! One launcher session: the index and the handoff, driven once per redraw
//! cycle.
//!
//! A cycle takes a bounded batch of discovered records into the index, ranks
//! the whole index anew for the current query, and decides whether the cycle
//! hands a command to the process launcher.

use crate::entry::{text_view, Entry, EntryView};
use crate::handoff::{handed, Cycle, Handoff};
use crate::index::{CandidateIndex, IndexView};
use crate::intake::{drain, BATCH_LIMIT};
use crate::rank::{is_ranking, RankedMatch};
use std::sync::mpsc::Receiver;
use vstd::prelude::*;

verus! {

/// The mathematical value of a session.
pub struct SessionView {
    pub index: IndexView,
    pub spent: bool,
}

/// What one cycle did: how many records it took in, the ranking for the query,
/// and the command it hands over, if any.
#[derive(Debug)]
pub struct Outcome {
    pub taken: usize,
    pub ranking: Vec<RankedMatch>,
    pub command: Option<String>,
}

/// With an empty index nothing is ranked, so no commit hands anything over.
pub proof fn lemma_empty_index_hands_nothing(
    query: Seq<char>,
    ranking: Seq<RankedMatch>,
    spent: bool,
    accepted: bool,
)
    requires
        is_ranking(ranking, IndexView::empty().scores(query)),
    ensures
        ranking.len() == 0,
        handed(spent, Cycle { accepted, top: IndexView::empty().top(ranking) }) is None,
{
    if ranking.len() > 0 {
        assert(ranking[0].slot < IndexView::empty().scores(query).len());
    }
}

/// The state of a session.
pub struct Session {
    index: CandidateIndex,
    handoff: Handoff,
}

impl View for Session {
    type V = SessionView;

    closed spec fn view(&self) -> SessionView {
        SessionView { index: self.index@, spent: self.handoff.spent() }
    }
}

impl Session {
    /// The session at startup: an empty index, and nothing handed over.
    pub fn new() -> (session: Session)
        ensures
            session@ == (SessionView { index: IndexView::empty(), spent: false }),
    {
        Session { index: CandidateIndex::new(), handoff: Handoff::new() }
    }

    /// The index of the session.
    pub fn index(&self) -> (index: &CandidateIndex)
        ensures
            index@ == self@.index,
    {
        &self.index
    }

    /// Whether the session has handed a command over.
    pub fn is_spent(&self) -> (spent: bool)
        ensures
            spent == self@.spent,
    {
        self.handoff.is_spent()
    }

    /// Runs one cycle. Takes at most `BATCH_LIMIT` records off `source` into
    /// the index, without waiting; ranks the index for `query`; and, if the
    /// user `accepted`, hands over the command of the top-ranked record,
    /// unless there is none or a command was handed over before.
    pub fn update(&mut self, source: &Receiver<Entry>, query: &str, accepted: bool) -> (outcome: Outcome)
        ensures
            outcome.taken <= BATCH_LIMIT,
            exists|batch: Seq<EntryView>|
                batch.len() == outcome.taken && final(self)@.index == #[trigger] old(self)@.index.absorb(
                    batch,
                ),
            final(self)@.index.wf(),
            forall|key: Seq<char>| old(self)@.index.has(key) ==> final(self)@.index.has(key),
            is_ranking(outcome.ranking@, final(self)@.index.scores(query@)),
            text_view(outcome.command) == handed(
                old(self)@.spent,
                Cycle { accepted, top: final(self)@.index.top(outcome.ranking@) },
            ),
            final(self)@.spent == (old(self)@.spent || outcome.command is Some),
    {
        let taken = drain(&mut self.index, source);
        let ghost batch = choose|batch: Seq<EntryView>|
            batch.len() == taken && self@.index == #[trigger] old(self)@.index.absorb(batch);
        let ranking = self.index.rank(query);
        let top = self.index.top(&ranking);
        let command = self.handoff.commit(accepted, top);
        assert(self@.index == old(self)@.index.absorb(batch));
        Outcome { taken, ranking, command }
    }
}

} // verus!
