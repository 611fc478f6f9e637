//! The candidate record that one descriptor file yields, and its search key.

use vstd::prelude::*;
use vstd::string::*;

verus! {

/// The mathematical value of a candidate record: four optional texts.
pub struct EntryView {
    pub name: Option<Seq<char>>,
    pub command: Option<Seq<char>>,
    pub icon: Option<Seq<char>>,
    pub comment: Option<Seq<char>>,
}

impl EntryView {
    /// No field is set. Such a record is never materialized.
    pub open spec fn is_blank(self) -> bool {
        self.name is None && self.command is None && self.icon is None && self.comment is None
    }

    /// The text by which the record is indexed and matched: the name, then the
    /// comment, with `|` between them where the name part is not empty.
    pub open spec fn search_key(self) -> Seq<char> {
        let head = match self.name {
            Some(name) => name,
            None => Seq::<char>::empty(),
        };
        match self.comment {
            Some(comment) => if head.len() > 0 {
                head + seq!['|'] + comment
            } else {
                comment
            },
            None => head,
        }
    }
}

/// The text that an optional string holds.
pub open spec fn text_view(field: Option<String>) -> Option<Seq<char>> {
    match field {
        Some(text) => Some(text@),
        None => None,
    }
}

/// A candidate record. At least one of its fields is set.
#[derive(Debug, PartialEq, Eq)]
pub struct Entry {
    name: Option<String>,
    command: Option<String>,
    icon: Option<String>,
    comment: Option<String>,
}

impl View for Entry {
    type V = EntryView;

    closed spec fn view(&self) -> EntryView {
        EntryView {
            name: text_view(self.name),
            command: text_view(self.command),
            icon: text_view(self.icon),
            comment: text_view(self.comment),
        }
    }
}

impl Entry {
    /// The invariant of the type: some field is set.
    #[verifier::type_invariant]
    pub open spec fn materialized(&self) -> bool {
        !self@.is_blank()
    }

    /// Builds a record from its fields; there is none where no field is set.
    pub fn new(
        name: Option<String>,
        command: Option<String>,
        icon: Option<String>,
        comment: Option<String>,
    ) -> (entry: Option<Entry>)
        ensures
            entry is None <==> (name is None && command is None && icon is None && comment is None),
            entry matches Some(e) ==> e@ == (EntryView {
                name: text_view(name),
                command: text_view(command),
                icon: text_view(icon),
                comment: text_view(comment),
            }),
    {
        if name.is_none() && command.is_none() && icon.is_none() && comment.is_none() {
            None
        } else {
            Some(Entry { name, command, icon, comment })
        }
    }

    /// The application's name.
    pub fn name(&self) -> (field: &Option<String>)
        ensures
            text_view(*field) == self@.name,
    {
        &self.name
    }

    /// The command template that launches the application: the value of the
    /// `Exec` key.
    pub fn command(&self) -> (field: &Option<String>)
        ensures
            text_view(*field) == self@.command,
    {
        &self.command
    }

    /// The application's icon, carried and not interpreted.
    pub fn icon(&self) -> (field: &Option<String>)
        ensures
            text_view(*field) == self@.icon,
    {
        &self.icon
    }

    /// The application's description.
    pub fn comment(&self) -> (field: &Option<String>)
        ensures
            text_view(*field) == self@.comment,
    {
        &self.comment
    }

    /// Derives the search key of the record.
    pub fn search_key(&self) -> (key: String)
        ensures
            key@ == self@.search_key(),
    {
        let mut key = String::new();
        if let Some(name) = &self.name {
            key.append(name.as_str());
        }
        if let Some(comment) = &self.comment {
            if key.as_str().unicode_len() > 0 {
                proof {
                    reveal_strlit("|");
                }
                key.append("|");
            }
            key.append(comment.as_str());
        }
        assert(key@ =~= self@.search_key());
        key
    }
}

} // verus!
