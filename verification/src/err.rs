//! The structured error of the launch step: a trace of what was being done and
//! why it failed.
//!
//! Failures of discovery and parsing never leave the library. A launch that
//! cannot be made is reported with a `Trace`, carried by the standard `Result`.

use vstd::prelude::*;
use vstd::string::*;

verus! {

/// The operation that a failure arose in.
#[derive(Clone, Copy, Debug, PartialEq, Eq, Structural)]
pub enum Operation {
    /// Splitting the command into words.
    Tokenize,
    /// Picking the program to run from the words.
    Resolve,
    /// Starting the program.
    Spawn,
    /// Waiting for the program to end.
    Wait,
}

/// The mathematical value of a trace entry.
pub struct TraceEntryView {
    pub operation: Operation,
    pub cause: Seq<char>,
}

/// The name of an operation in a report.
pub open spec fn operation_name(operation: Operation) -> Seq<char> {
    match operation {
        Operation::Tokenize => "tokenize"@,
        Operation::Resolve => "resolve"@,
        Operation::Spawn => "spawn"@,
        Operation::Wait => "wait"@,
    }
}

impl TraceEntryView {
    /// The entry as one line of a report: the operation, a colon, the cause.
    pub open spec fn line(self) -> Seq<char> {
        operation_name(self.operation) + ": "@ + self.cause
    }
}

/// The report of a trace: one line per entry, each ended by a line feed.
pub open spec fn report(entries: Seq<TraceEntryView>) -> Seq<char>
    decreases entries.len(),
{
    if entries.len() == 0 {
        Seq::empty()
    } else {
        report(entries.drop_last()) + entries.last().line() + seq!['\n']
    }
}

/// One step of a trace: the operation that failed, and the underlying cause in
/// words.
#[derive(Debug)]
pub struct TraceEntry {
    operation: Operation,
    cause: String,
}

impl View for TraceEntry {
    type V = TraceEntryView;

    closed spec fn view(&self) -> TraceEntryView {
        TraceEntryView { operation: self.operation, cause: self.cause@ }
    }
}

impl TraceEntry {
    /// Records that `operation` failed because of `cause`.
    pub fn new(operation: Operation, cause: String) -> (entry: TraceEntry)
        ensures
            entry@ == (TraceEntryView { operation, cause: cause@ }),
    {
        TraceEntry { operation, cause }
    }

    /// The operation that failed.
    pub fn operation(&self) -> (operation: Operation)
        ensures
            operation == self@.operation,
    {
        self.operation
    }

    /// The underlying cause, in words.
    pub fn cause(&self) -> (cause: &String)
        ensures
            cause@ == self@.cause,
    {
        &self.cause
    }

    /// Renders the entry as one line of a report.
    pub fn describe(&self) -> (line: String)
        ensures
            line@ == self@.line(),
    {
        let name = match self.operation {
            Operation::Tokenize => "tokenize",
            Operation::Resolve => "resolve",
            Operation::Spawn => "spawn",
            Operation::Wait => "wait",
        };
        let mut line = String::from_str(name);
        line.append(": ");
        line.append(self.cause.as_str());
        line
    }
}

/// The trace of a failure: its entries, the first recorded first.
#[derive(Debug)]
pub struct Trace(pub Vec<TraceEntry>);

impl View for Trace {
    type V = Seq<TraceEntryView>;

    open spec fn view(&self) -> Seq<TraceEntryView> {
        self.0@.map_values(|entry: TraceEntry| entry@)
    }
}

impl Trace {
    /// The trace that holds one entry.
    pub fn of(entry: TraceEntry) -> (trace: Trace)
        ensures
            trace@ == seq![entry@],
    {
        let trace = Trace(vec![entry]);
        assert(trace@ =~= seq![entry@]);
        trace
    }

    /// The trace of one failure.
    pub fn single(operation: Operation, cause: String) -> (trace: Trace)
        ensures
            trace@ == seq![TraceEntryView { operation, cause: cause@ }],
    {
        Trace::of(TraceEntry::new(operation, cause))
    }

    /// Renders the trace as a report, one line per entry.
    pub fn describe(&self) -> (text: String)
        ensures
            text@ == report(self@),
    {
        let mut text = String::new();
        let mut at: usize = 0;
        while at < self.0.len()
            invariant
                at <= self.0.len(),
                text@ == report(self@.take(at as int)),
            decreases self.0.len() - at,
        {
            let line = self.0[at].describe();
            proof {
                reveal_strlit("\n");
                let more = self@.take(at as int + 1);
                assert(more.drop_last() =~= self@.take(at as int));
                assert(more.last() == self.0[at as int]@);
                assert("\n"@ =~= seq!['\n']);
            }
            text.append(line.as_str());
            text.append("\n");
            at += 1;
        }
        assert(self@.take(at as int) =~= self@);
        text
    }
}

} // verus!
