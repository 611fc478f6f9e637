//! The launch step: from the command of the chosen record to the program to
//! run and its arguments, and from the child's end to the launcher's exit code.
//!
//! The command is split into words by the `shellish_parse` crate. The words
//! `%U` and `%u` stand for file arguments that the launcher never supplies and
//! are left out; the first of the remaining words names the program.

use crate::err::{Operation, Trace, TraceEntryView};
use crate::text::texts;
use shellish_parse::{ParseError, ParseOptions};
use vstd::prelude::*;
use vstd::string::*;

verus! {

/// The error of `shellish_parse::parse`.
#[verifier::external_type_specification]
#[verifier::external_body]
pub struct ExParseError(shellish_parse::ParseError);

/// The words into which `shellish_parse::parse`, with its default options,
/// splits `command`; none where it reports an error.
pub uninterp spec fn shell_words(command: Seq<char>) -> Option<Seq<Seq<char>>>;

/// The word is a placeholder for a file argument.
pub open spec fn is_placeholder(word: Seq<char>) -> bool {
    word == "%U"@ || word == "%u"@
}

/// The words without the placeholders.
pub open spec fn strip(words: Seq<Seq<char>>) -> Seq<Seq<char>> {
    words.filter(|word: Seq<char>| !is_placeholder(word))
}

/// The mathematical value of a launch plan.
pub struct PlanView {
    pub program: Seq<char>,
    pub arguments: Seq<Seq<char>>,
}

/// The plan that the words of a command give: the first word that is no
/// placeholder names the program, the other such words are its arguments.
/// There is none where no word is left.
pub open spec fn plan_of(words: Seq<Seq<char>>) -> Option<PlanView> {
    let kept = strip(words);
    if kept.len() == 0 {
        None
    } else {
        Some(PlanView { program: kept[0], arguments: kept.skip(1) })
    }
}

/// The cause that is reported where a command names no program.
pub const NO_PROGRAM: &'static str = "the command names no program";

/// The trace of a command that names no program: one failure, in the operation
/// `Resolve`.
pub open spec fn no_program() -> Seq<TraceEntryView> {
    seq![TraceEntryView { operation: Operation::Resolve, cause: NO_PROGRAM@ }]
}

/// The exit code of the launcher, given that of the child if it ended with one.
pub open spec fn exit_code_of(child: Option<i32>) -> i32 {
    match child {
        Some(code) => code,
        None => 0,
    }
}

/// What to run: the program and its arguments.
#[derive(Debug)]
pub struct LaunchPlan {
    pub program: String,
    pub arguments: Vec<String>,
}

impl View for LaunchPlan {
    type V = PlanView;

    open spec fn view(&self) -> PlanView {
        PlanView { program: self.program@, arguments: texts(self.arguments@) }
    }
}

/// Calls `shellish_parse::parse` with the default options. The call computes
/// its result from the text alone; the contract gives the words their name,
/// and says that an error is returned exactly where there are none.
#[verifier::external_body]
fn split_command(command: &str) -> (result: Result<Vec<String>, ParseError>)
    ensures
        (match result {
            Ok(words) => shell_words(command@) == Some(texts(words@)),
            Err(_) => shell_words(command@) is None,
        }),
{
    shellish_parse::parse(command, ParseOptions::default())
}

/// Renders a `shellish_parse::ParseError` as text, by its `Display`.
#[verifier::external_body]
fn explain(error: &ParseError) -> (cause: String) {
    format!("{}", error)
}

/// Tells whether `word` is a placeholder for a file argument.
pub fn is_placeholder_word(word: &String) -> (placeholder: bool)
    ensures
        placeholder == is_placeholder(word@),
{
    let upper = String::from_str("%U");
    let lower = String::from_str("%u");
    *word == upper || *word == lower
}

/// Leaves the placeholders out of the words of a command.
pub fn strip_placeholders(words: Vec<String>) -> (kept: Vec<String>)
    ensures
        texts(kept@) == strip(texts(words@)),
{
    let mut kept: Vec<String> = Vec::new();
    let mut at: usize = 0;
    let ghost keep = |word: Seq<char>| !is_placeholder(word);
    while at < words.len()
        invariant
            at <= words.len(),
            keep == |word: Seq<char>| !is_placeholder(word),
            texts(kept@) == texts(words@).take(at as int).filter(keep),
        decreases words.len() - at,
    {
        proof {
            reveal(Seq::filter);
            let more = texts(words@).take(at as int + 1);
            assert(more.drop_last() =~= texts(words@).take(at as int));
            assert(more.last() == words@[at as int]@);
        }
        if !is_placeholder_word(&words[at]) {
            let ghost before = kept@;
            kept.push(words[at].clone());
            assert(texts(kept@) =~= texts(before).push(words@[at as int]@));
        }
        at += 1;
    }
    assert(texts(words@).take(at as int) =~= texts(words@));
    kept
}

/// Makes the launch plan from the words of a command. Fails, in the operation
/// `Resolve`, exactly where no word names a program.
pub fn plan_words(words: Vec<String>) -> (result: Result<LaunchPlan, Trace>)
    ensures
        (match result {
            Ok(plan) => plan_of(texts(words@)) == Some(plan@),
            Err(trace) => plan_of(texts(words@)) is None && trace@ == no_program(),
        }),
{
    let mut kept = strip_placeholders(words);
    if kept.len() == 0 {
        Err(Trace::single(Operation::Resolve, String::from_str(NO_PROGRAM)))
    } else {
        let ghost all = kept@;
        let program = kept.remove(0);
        assert(texts(kept@) =~= texts(all).skip(1));
        Ok(LaunchPlan { program, arguments: kept })
    }
}

/// Makes the launch plan of a command: splits it into words and plans from
/// them. Fails in the operation `Tokenize` exactly where the command cannot be
/// split, and in `Resolve` where its words name no program.
pub fn plan_launch(command: &str) -> (result: Result<LaunchPlan, Trace>)
    ensures
        (match result {
            Ok(plan) => shell_words(command@) matches Some(words) && plan_of(words) == Some(plan@),
            Err(trace) => match shell_words(command@) {
                Some(words) => plan_of(words) is None && trace@ == no_program(),
                None => trace@.len() == 1 && trace@[0].operation == Operation::Tokenize,
            },
        }),
{
    match split_command(command) {
        Ok(words) => plan_words(words),
        Err(error) => Err(Trace::single(Operation::Tokenize, explain(&error))),
    }
}

/// Gives the launcher's own exit code: that of the child if it ended with one,
/// and zero otherwise.
pub fn exit_code(child: Option<i32>) -> (code: i32)
    ensures
        code == exit_code_of(child),
{
    match child {
        Some(code) => code,
        None => 0,
    }
}

} // verus!
