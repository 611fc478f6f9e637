//! The descriptor parser: from the text of one descriptor file to at most one
//! candidate record.
//!
//! A descriptor is read line by line. A line that holds `=` assigns the text
//! after the first `=`, trimmed, to the key before it; any other line says
//! nothing. Of the keys, `Name`, `Exec` and `Icon` keep their first value,
//! `Comment` keeps its last, and a line `NoDisplay=true` anywhere hides the
//! whole file.

use crate::entry::{text_view, Entry, EntryView};
use crate::text::{
    chars_of, drop_spaces, find, find_char, is_space, join, lemma_find_at, lemma_split_join, same_text,
    skip_spaces, split, split_from, text_of, trim, trim_slice,
};
use vstd::prelude::*;
use vstd::slice::*;

verus! {

/// The lines of a text: its pieces between line feeds. A carriage return before
/// a line feed stays in its line, where trimming removes it from the value.
pub open spec fn lines(text: Seq<char>) -> Seq<Seq<char>> {
    split(text, '\n')
}

/// The key and the trimmed value that a line assigns, if it holds `=`.
pub open spec fn assignment(line: Seq<char>) -> Option<(Seq<char>, Seq<char>)> {
    let at = find(line, 0, '=');
    if at < line.len() {
        Some((line.subrange(0, at), trim(line.subrange(at + 1, line.len() as int))))
    } else {
        None
    }
}

/// The value that `line` assigns to `key`, if it assigns to that key.
pub open spec fn value_of(line: Seq<char>, key: Seq<char>) -> Option<Seq<char>> {
    match assignment(line) {
        Some((k, value)) => if k == key {
            Some(value)
        } else {
            None
        },
        None => None,
    }
}

/// The value of the first line that assigns to `key`.
pub open spec fn first_value(lines: Seq<Seq<char>>, key: Seq<char>) -> Option<Seq<char>>
    decreases lines.len(),
{
    if lines.len() == 0 {
        None
    } else {
        match first_value(lines.drop_last(), key) {
            Some(value) => Some(value),
            None => value_of(lines.last(), key),
        }
    }
}

/// The value of the last line that assigns to `key`.
pub open spec fn last_value(lines: Seq<Seq<char>>, key: Seq<char>) -> Option<Seq<char>>
    decreases lines.len(),
{
    if lines.len() == 0 {
        None
    } else {
        match value_of(lines.last(), key) {
            Some(value) => Some(value),
            None => last_value(lines.drop_last(), key),
        }
    }
}

/// The line assigns `true` to `NoDisplay`.
pub open spec fn hides(line: Seq<char>) -> bool {
    value_of(line, "NoDisplay"@) == Some("true"@)
}

/// Some line hides the file.
pub open spec fn hidden(lines: Seq<Seq<char>>) -> bool {
    exists|at: int| 0 <= at < lines.len() && hides(#[trigger] lines[at])
}

/// The fields that the lines assign.
pub open spec fn fields(lines: Seq<Seq<char>>) -> EntryView {
    EntryView {
        name: first_value(lines, "Name"@),
        command: first_value(lines, "Exec"@),
        icon: first_value(lines, "Icon"@),
        comment: last_value(lines, "Comment"@),
    }
}

/// The record that a descriptor text yields: none if a line hides the file or
/// no field is assigned.
pub open spec fn described(text: Seq<char>) -> Option<EntryView> {
    let all = lines(text);
    if hidden(all) || fields(all).is_blank() {
        None
    } else {
        Some(fields(all))
    }
}

/// A descriptor in which some line reads `NoDisplay=true` yields no record,
/// whatever its other lines assign.
pub proof fn lemma_hidden_yields_nothing(text: Seq<char>, at: int)
    requires
        0 <= at < lines(text).len(),
        hides(lines(text)[at]),
    ensures
        described(text) is None,
{
}

/// The line `NoDisplay=true` hides the file it stands in.
pub proof fn lemma_no_display_line()
    ensures
        hides("NoDisplay=true"@),
{
    let line = "NoDisplay=true"@;
    reveal_strlit("NoDisplay=true");
    reveal_strlit("NoDisplay");
    reveal_strlit("true");
    lemma_find_at(line, 0, '=', 9);
    let value = line.subrange(10, 14);
    assert(!is_space(value[0]) && !is_space(value[3]));
    assert(skip_spaces(value, 0) == 0);
    assert(drop_spaces(value, 0, 4) == 4);
    assert(trim(value) =~= "true"@);
    assert(line.subrange(0, 9) =~= "NoDisplay"@);
}

/// A descriptor made of any lines, one of which hides the file, yields no
/// record: it does not matter what stands before or after that line.
pub proof fn lemma_hidden_anywhere(before: Seq<Seq<char>>, line: Seq<char>, after: Seq<Seq<char>>)
    requires
        hides(line),
        forall|j: int| 0 <= j < line.len() ==> line[j] != '\n',
        forall|i: int, j: int| 0 <= i < before.len() && 0 <= j < before[i].len() ==> before[i][j] != '\n',
        forall|i: int, j: int| 0 <= i < after.len() && 0 <= j < after[i].len() ==> after[i][j] != '\n',
    ensures
        described(join(before + seq![line] + after, '\n')) is None,
{
    let all = before + seq![line] + after;
    assert forall|i: int, j: int| 0 <= i < all.len() && 0 <= j < all[i].len() implies #[trigger] all[i][j]
        != '\n' by {
        if i < before.len() {
            assert(all[i] == before[i]);
        } else if i == before.len() {
            assert(all[i] == line);
        } else {
            assert(all[i] == after[i - before.len() - 1]);
        }
    }
    lemma_split_join(all, '\n');
    assert(hides(all[before.len() as int]));
}

/// Where no line assigns to `key`, the key has no value.
pub proof fn lemma_unassigned(lines: Seq<Seq<char>>, key: Seq<char>)
    requires
        forall|j: int| 0 <= j < lines.len() ==> value_of(#[trigger] lines[j], key) is None,
    ensures
        first_value(lines, key) is None,
        last_value(lines, key) is None,
    decreases lines.len(),
{
    if lines.len() > 0 {
        lemma_unassigned(lines.drop_last(), key);
    }
}

/// Of several lines that assign to `key`, `first_value` is what the first of
/// them assigns.
pub proof fn lemma_first_value(lines: Seq<Seq<char>>, key: Seq<char>, at: int)
    requires
        0 <= at < lines.len(),
        value_of(lines[at], key) is Some,
        forall|j: int| 0 <= j < at ==> value_of(#[trigger] lines[j], key) is None,
    ensures
        first_value(lines, key) == value_of(lines[at], key),
    decreases lines.len(),
{
    if at == lines.len() - 1 {
        lemma_unassigned(lines.drop_last(), key);
    } else {
        lemma_first_value(lines.drop_last(), key, at);
    }
}

/// Of several lines that assign to `key`, `last_value` is what the last of them
/// assigns.
pub proof fn lemma_last_value(lines: Seq<Seq<char>>, key: Seq<char>, at: int)
    requires
        0 <= at < lines.len(),
        value_of(lines[at], key) is Some,
        forall|j: int| at < j < lines.len() ==> value_of(#[trigger] lines[j], key) is None,
    ensures
        last_value(lines, key) == value_of(lines[at], key),
    decreases lines.len(),
{
    if at < lines.len() - 1 {
        lemma_last_value(lines.drop_last(), key, at);
    }
}

/// Precedence among repeated keys: in a descriptor that no line hides, the
/// record's name is what the first `Name` line assigns, and its comment is
/// what the last `Comment` line assigns.
pub proof fn lemma_precedence(text: Seq<char>, name_at: int, comment_at: int)
    requires
        !hidden(lines(text)),
        0 <= name_at < lines(text).len(),
        value_of(lines(text)[name_at], "Name"@) is Some,
        forall|j: int| 0 <= j < name_at ==> value_of(#[trigger] lines(text)[j], "Name"@) is None,
        0 <= comment_at < lines(text).len(),
        value_of(lines(text)[comment_at], "Comment"@) is Some,
        forall|j: int|
            comment_at < j < lines(text).len() ==> value_of(#[trigger] lines(text)[j], "Comment"@)
                is None,
    ensures
        described(text) matches Some(record) && record.name == value_of(
            lines(text)[name_at],
            "Name"@,
        ) && record.comment == value_of(lines(text)[comment_at], "Comment"@),
{
    lemma_first_value(lines(text), "Name"@, name_at);
    lemma_last_value(lines(text), "Comment"@, comment_at);
}

/// The line assigns to none of `Name`, `Exec`, `Icon` and `Comment`.
pub open spec fn unrecognized(line: Seq<char>) -> bool {
    &&& value_of(line, "Name"@) is None
    &&& value_of(line, "Exec"@) is None
    &&& value_of(line, "Icon"@) is None
    &&& value_of(line, "Comment"@) is None
}

/// A descriptor none of whose lines assigns to `Name`, `Exec`, `Icon` or
/// `Comment` yields no record.
pub proof fn lemma_unrecognized_yields_nothing(text: Seq<char>)
    requires
        forall|j: int| 0 <= j < lines(text).len() ==> unrecognized(#[trigger] lines(text)[j]),
    ensures
        described(text) is None,
{
    let all = lines(text);
    lemma_unassigned(all, "Name"@);
    lemma_unassigned(all, "Exec"@);
    lemma_unassigned(all, "Icon"@);
    lemma_unassigned(all, "Comment"@);
}

/// A record that a descriptor yields has a field that is set.
pub proof fn lemma_described_not_blank(text: Seq<char>)
    ensures
        described(text) matches Some(record) ==> !record.is_blank(),
{
}

/// What one more line adds to the lines read so far.
proof fn lemma_next_line(seen: Seq<Seq<char>>, line: Seq<char>, key: Seq<char>)
    ensures
        first_value(seen.push(line), key) == (match first_value(seen, key) {
            Some(value) => Some(value),
            None => value_of(line, key),
        }),
        last_value(seen.push(line), key) == (match value_of(line, key) {
            Some(value) => Some(value),
            None => last_value(seen, key),
        }),
        hidden(seen.push(line)) == (hidden(seen) || hides(line)),
{
    let more = seen.push(line);
    assert(more.drop_last() =~= seen);
    assert(more.last() == line);
    if hidden(seen) {
        let at = choose|at: int| 0 <= at < seen.len() && hides(#[trigger] seen[at]);
        assert(hides(more[at]));
    }
    if hides(line) {
        assert(hides(more[seen.len() as int]));
    }
    if hidden(more) {
        let at = choose|at: int| 0 <= at < more.len() && hides(#[trigger] more[at]);
        if at < seen.len() {
            assert(hides(seen[at]));
        }
    }
}

/// The five keys are different texts.
proof fn lemma_keys_differ()
    ensures
        "Name"@ != "Exec"@,
        "Name"@ != "Icon"@,
        "Name"@ != "Comment"@,
        "Name"@ != "NoDisplay"@,
        "Exec"@ != "Icon"@,
        "Exec"@ != "Comment"@,
        "Exec"@ != "NoDisplay"@,
        "Icon"@ != "Comment"@,
        "Icon"@ != "NoDisplay"@,
        "Comment"@ != "NoDisplay"@,
{
    reveal_strlit("Name");
    reveal_strlit("Exec");
    reveal_strlit("Icon");
    reveal_strlit("Comment");
    reveal_strlit("NoDisplay");
    assert("Name"@[0] == 'N');
    assert("Exec"@[0] == 'E');
    assert("Icon"@[0] == 'I');
    assert("Comment"@[0] == 'C');
    assert("NoDisplay"@[1] == 'o');
    assert("Name"@[1] == 'a');
}

/// Parses the text of one descriptor file into at most one candidate record.
pub fn parse_entry(content: &str) -> (entry: Option<Entry>)
    ensures
        entry is Some <==> described(content@) is Some,
        entry matches Some(e) ==> described(content@) == Some(e@),
{
    let glyphs = chars_of(content);
    let text = glyphs.as_slice();
    let name_key = chars_of("Name");
    let exec_key = chars_of("Exec");
    let icon_key = chars_of("Icon");
    let comment_key = chars_of("Comment");
    let no_display_key = chars_of("NoDisplay");
    let true_word = chars_of("true");
    let mut name: Option<String> = None;
    let mut command: Option<String> = None;
    let mut icon: Option<String> = None;
    let mut comment: Option<String> = None;
    let mut from: usize = 0;
    let mut done = false;
    let ghost mut seen: Seq<Seq<char>> = Seq::empty();
    while !done
        invariant
            text@ == content@,
            name_key@ == "Name"@,
            exec_key@ == "Exec"@,
            icon_key@ == "Icon"@,
            comment_key@ == "Comment"@,
            no_display_key@ == "NoDisplay"@,
            true_word@ == "true"@,
            from <= text.len(),
            !done ==> lines(text@) == seen + split_from(text@, from as int, '\n'),
            done ==> lines(text@) == seen,
            !hidden(seen),
            text_view(name) == first_value(seen, "Name"@),
            text_view(command) == first_value(seen, "Exec"@),
            text_view(icon) == first_value(seen, "Icon"@),
            text_view(comment) == last_value(seen, "Comment"@),
        decreases
                (if done {
                    0
                } else {
                    1 + text.len() - from
                }),
    {
        let to = find_char(text, from, '\n');
        let line = slice_subrange(text, from, to);
        let at = find_char(line, 0, '=');
        proof {
            lemma_keys_differ();
            lemma_next_line(seen, line@, "Name"@);
            lemma_next_line(seen, line@, "Exec"@);
            lemma_next_line(seen, line@, "Icon"@);
            lemma_next_line(seen, line@, "Comment"@);
            assert(lines(text@)[seen.len() as int] == line@);
        }
        if at < line.len() {
            let key = slice_subrange(line, 0, at);
            let value = trim_slice(slice_subrange(line, at + 1, line.len()));
            assert(assignment(line@) == Some((key@, value@)));
            if same_text(key, name_key.as_slice()) {
                if name.is_none() {
                    name = Some(text_of(value));
                }
            } else if same_text(key, exec_key.as_slice()) {
                if command.is_none() {
                    command = Some(text_of(value));
                }
            } else if same_text(key, icon_key.as_slice()) {
                if icon.is_none() {
                    icon = Some(text_of(value));
                }
            } else if same_text(key, comment_key.as_slice()) {
                comment = Some(text_of(value));
            } else if same_text(key, no_display_key.as_slice()) && same_text(
                value,
                true_word.as_slice(),
            ) {
                assert(hides(line@));
                return None;
            }
        }
        proof {
            seen = seen.push(line@);
        }
        if to < text.len() {
            from = to + 1;
        } else {
            done = true;
        }
    }
    Entry::new(name, command, icon, comment)
}

} // verus!
