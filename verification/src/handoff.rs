//! The launch handoff: which command, if any, a commit hands to the process
//! launcher.
//!
//! A commit hands over the command of the top-ranked record, if there is such a
//! record and its command is not empty. The handoff is spent by the first
//! command it hands over: at most one command ever leaves it.

use crate::entry::{text_view, Entry, EntryView};
use vstd::prelude::*;

verus! {

/// The record that an optional reference holds.
pub open spec fn record_view(top: Option<&Entry>) -> Option<EntryView> {
    match top {
        Some(entry) => Some(entry@),
        None => None,
    }
}

/// The command that the top-ranked record offers for launch: its command,
/// unless there is no such record, it has no command, or the command is empty.
pub open spec fn offer(top: Option<EntryView>) -> Option<Seq<char>> {
    match top {
        Some(record) => match record.command {
            Some(command) => if command.len() > 0 {
                Some(command)
            } else {
                None
            },
            None => None,
        },
        None => None,
    }
}

/// One redraw cycle as the handoff sees it: whether the user accepted (and did
/// not cancel), and the top-ranked record at that time.
pub struct Cycle {
    pub accepted: bool,
    pub top: Option<EntryView>,
}

/// The command that a cycle hands over, given whether the handoff was spent
/// before.
pub open spec fn handed(spent: bool, cycle: Cycle) -> Option<Seq<char>> {
    if spent || !cycle.accepted {
        None
    } else {
        offer(cycle.top)
    }
}

/// Whether the handoff is spent after the given cycles.
pub open spec fn spent_after(spent: bool, cycles: Seq<Cycle>) -> bool
    decreases cycles.len(),
{
    if cycles.len() == 0 {
        spent
    } else {
        let before = spent_after(spent, cycles.drop_last());
        before || handed(before, cycles.last()) is Some
    }
}

/// The command that cycle `at` of a fresh handoff hands over.
pub open spec fn handed_at(cycles: Seq<Cycle>, at: int) -> Option<Seq<char>> {
    handed(spent_after(false, cycles.take(at)), cycles[at])
}

/// A spent handoff stays spent.
pub proof fn lemma_stays_spent(cycles: Seq<Cycle>)
    ensures
        spent_after(true, cycles),
    decreases cycles.len(),
{
    if cycles.len() > 0 {
        lemma_stays_spent(cycles.drop_last());
    }
}

/// Once a cycle has handed a command over, the handoff is spent in every later
/// cycle.
proof fn lemma_spent_since(cycles: Seq<Cycle>, at: int, later: int)
    requires
        0 <= at < later <= cycles.len(),
        handed_at(cycles, at) is Some,
    ensures
        spent_after(false, cycles.take(later)),
    decreases later - at,
{
    let upto = cycles.take(later);
    assert(upto.drop_last() =~= cycles.take(later - 1));
    assert(upto.last() == cycles[later - 1]);
    if later - 1 > at {
        lemma_spent_since(cycles, at, later - 1);
    }
}

/// At most one command is ever handed over: after the cycle that hands one
/// over, no cycle hands over another.
pub proof fn lemma_at_most_once(cycles: Seq<Cycle>, at: int, later: int)
    requires
        0 <= at < later < cycles.len(),
        handed_at(cycles, at) is Some,
    ensures
        handed_at(cycles, later) is None,
{
    lemma_spent_since(cycles, at, later);
}

/// A commit without a top-ranked record, as with an empty index, hands nothing
/// over and leaves the handoff as it was.
pub proof fn lemma_nothing_to_launch(spent: bool, accepted: bool)
    ensures
        handed(spent, Cycle { accepted, top: None }) is None,
{
}

/// The state of the launch handoff.
#[derive(Debug)]
pub struct Handoff {
    spent: bool,
}

impl Handoff {
    /// Whether a command has been handed over.
    pub closed spec fn spent(&self) -> bool {
        self.spent
    }

    /// The handoff at startup: nothing handed over yet.
    pub fn new() -> (handoff: Handoff)
        ensures
            !handoff.spent(),
    {
        Handoff { spent: false }
    }

    /// Tells whether a command has been handed over.
    pub fn is_spent(&self) -> (spent: bool)
        ensures
            spent == self.spent(),
    {
        self.spent
    }

    /// Decides what one cycle hands to the process launcher. `accepted` says
    /// that the user accepted and did not cancel; `top` is the top-ranked
    /// record, if the ranking has one. The command of that record is handed
    /// over if the handoff is not spent and the command is not empty, and the
    /// handoff is spent from then on.
    pub fn commit(&mut self, accepted: bool, top: Option<&Entry>) -> (command: Option<String>)
        ensures
            text_view(command) == handed(
                old(self).spent(),
                Cycle { accepted, top: record_view(top) },
            ),
            final(self).spent() == (old(self).spent() || command is Some),
    {
        if self.spent || !accepted {
            return None;
        }
        match top {
            Some(entry) => match entry.command() {
                Some(command) => {
                    if command.as_str().unicode_len() > 0 {
                        self.spent = true;
                        Some(command.clone())
                    } else {
                        None
                    }
                },
                None => None,
            },
            None => None,
        }
    }
}

/// Tells whether the user's input in one cycle is a commit: the search field
/// gave up the focus, and the cancel key was not what ended the input.
pub fn is_accept(lost_focus: bool, cancelled: bool) -> (accepted: bool)
    ensures
        accepted == (lost_focus && !cancelled),
{
    lost_focus && !cancelled
}

} // verus!
