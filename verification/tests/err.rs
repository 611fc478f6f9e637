use launcher::err::{Operation, Trace, TraceEntry};

#[test]
fn an_entry_keeps_operation_and_cause() {
    let entry = TraceEntry::new(Operation::Spawn, "No such file or directory".to_string());
    assert_eq!(entry.operation(), Operation::Spawn);
    assert_eq!(entry.cause(), "No such file or directory");
}

#[test]
fn an_entry_is_described_on_one_line() {
    let cases = [
        (Operation::Tokenize, "tokenize: why"),
        (Operation::Resolve, "resolve: why"),
        (Operation::Spawn, "spawn: why"),
        (Operation::Wait, "wait: why"),
    ];
    for (operation, line) in cases {
        assert_eq!(TraceEntry::new(operation, "why".to_string()).describe(), line);
    }
    assert_eq!(TraceEntry::new(Operation::Wait, String::new()).describe(), "wait: ");
}

#[test]
fn a_trace_of_one_failure_holds_one_entry() {
    let trace = Trace::single(Operation::Wait, "interrupted".to_string());
    assert_eq!(trace.0.len(), 1);
    assert_eq!(trace.0[0].operation(), Operation::Wait);
    assert_eq!(trace.0[0].cause(), "interrupted");
    let trace = Trace::of(TraceEntry::new(Operation::Resolve, "nothing".to_string()));
    assert_eq!(trace.0.len(), 1);
    assert_eq!(trace.0[0].operation(), Operation::Resolve);
}

#[test]
fn a_trace_is_reported_line_by_line() {
    let trace = Trace(vec![
        TraceEntry::new(Operation::Spawn, "firefox: not found".to_string()),
        TraceEntry::new(Operation::Wait, "gone".to_string()),
    ]);
    assert_eq!(trace.describe(), "spawn: firefox: not found\nwait: gone\n");
    assert_eq!(Trace(vec![]).describe(), "");
}
