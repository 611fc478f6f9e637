use launcher::err::Operation;
use launcher::launch::{exit_code, is_placeholder_word, plan_launch, plan_words, strip_placeholders};

fn words(all: &[&str]) -> Vec<String> {
    all.iter().map(|word| word.to_string()).collect()
}

#[test]
fn the_firefox_command_is_planned_without_its_placeholder() {
    let plan = plan_launch("firefox %u").unwrap();
    assert_eq!(plan.program, "firefox");
    assert_eq!(plan.arguments, Vec::<String>::new());
}

#[test]
fn arguments_follow_the_program() {
    let plan = plan_launch("env LANG=C  gimp --new-instance %U file").unwrap();
    assert_eq!(plan.program, "env");
    assert_eq!(plan.arguments, ["LANG=C", "gimp", "--new-instance", "file"]);
}

#[test]
fn the_words_are_those_of_the_shell_parser() {
    for command in ["a b c", "sh -c 'echo \"hi there\"'", "one\\ word two", "tab\\tbed", "x # comment", "  lead  "] {
        let parsed = shellish_parse::parse(command, shellish_parse::ParseOptions::default()).unwrap();
        let plan = plan_launch(command).unwrap();
        assert_eq!(plan.program, parsed[0], "{:?}", command);
        assert_eq!(plan.arguments, parsed[1..], "{:?}", command);
    }
}

#[test]
fn quoted_words_stay_together() {
    let plan = plan_launch("sh -c 'echo \"hi there\"' \"%u\"").unwrap();
    assert_eq!(plan.program, "sh");
    assert_eq!(plan.arguments, ["-c", "echo \"hi there\""]);
}

#[test]
fn a_command_that_cannot_be_split_fails_in_tokenize() {
    for command in ["sh -c 'unterminated", "trailing \\", "bad \\q escape", "\"open"] {
        let trace = plan_launch(command).unwrap_err();
        assert_eq!(trace.0.len(), 1, "{:?}", command);
        assert_eq!(trace.0[0].operation(), Operation::Tokenize, "{:?}", command);
        let cause = shellish_parse::parse(command, shellish_parse::ParseOptions::default()).unwrap_err();
        assert_eq!(*trace.0[0].cause(), cause.to_string(), "{:?}", command);
    }
}

#[test]
fn the_cause_of_a_tokenize_failure_is_in_words() {
    let trace = plan_launch("sh -c 'unterminated").unwrap_err();
    assert_eq!(trace.0[0].cause(), "dangling string");
    assert_eq!(trace.describe(), "tokenize: dangling string\n");
    let trace = plan_launch("trailing \\").unwrap_err();
    assert_eq!(trace.describe(), "tokenize: dangling backslash\n");
}

#[test]
fn a_command_without_a_program_fails_in_resolve() {
    for command in ["", "   ", "%u", "%U %u", "# only a comment"] {
        let trace = plan_launch(command).unwrap_err();
        assert_eq!(trace.0.len(), 1, "{:?}", command);
        assert_eq!(trace.0[0].operation(), Operation::Resolve, "{:?}", command);
    }
    assert_eq!(plan_launch("").unwrap_err().describe(), "resolve: the command names no program\n");
}

#[test]
fn plan_words_takes_the_first_kept_word_as_program() {
    let plan = plan_words(words(&["%U", "run", "%u", "a", "%U", "b"])).unwrap();
    assert_eq!(plan.program, "run");
    assert_eq!(plan.arguments, ["a", "b"]);
    assert!(plan_words(words(&[])).is_err());
    assert!(plan_words(words(&["%u", "%U"])).is_err());
    let plan = plan_words(words(&[""])).unwrap();
    assert_eq!(plan.program, "");
}

#[test]
fn only_the_two_url_placeholders_are_stripped() {
    assert_eq!(
        strip_placeholders(words(&["%U", "a", "%u", "%f", "%F", "%%", "%", "%Ux", "x%u", "%u", " %u"])),
        ["a", "%f", "%F", "%%", "%", "%Ux", "x%u", " %u"]
    );
    assert_eq!(strip_placeholders(words(&[])), Vec::<String>::new());
    assert!(is_placeholder_word(&"%U".to_string()));
    assert!(is_placeholder_word(&"%u".to_string()));
    assert!(!is_placeholder_word(&"%f".to_string()));
    assert!(!is_placeholder_word(&"".to_string()));
    assert!(!is_placeholder_word(&"%".to_string()));
}

#[test]
fn the_exit_code_is_that_of_the_child() {
    assert_eq!(exit_code(Some(0)), 0);
    assert_eq!(exit_code(Some(3)), 3);
    assert_eq!(exit_code(Some(-1)), -1);
    assert_eq!(exit_code(Some(i32::MAX)), i32::MAX);
    assert_eq!(exit_code(None), 0);
}
