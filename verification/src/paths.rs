//! The directories to scan for descriptor files.
//!
//! The directories come from a colon-separated list in the environment, each
//! entry with the subdirectory `applications` below it, then from the user's
//! data directory, and last from one fixed directory. Looking at the file
//! system is not done here: the caller probes each candidate and reports what
//! it found.

use crate::text::{chars_of, find_char, split, split_from, text_of, texts};
use vstd::prelude::*;
use vstd::slice::*;
use vstd::string::*;

verus! {

/// The name of the subdirectory, below each data directory, that holds the
/// descriptor files.
pub const APPLICATIONS: &'static str = "applications";

/// The directory that is scanned whatever the environment says.
pub const FALLBACK_ROOT: &'static str = "/run/current-system/sw/share/applications";

/// What the caller found at a candidate directory.
#[derive(Debug)]
pub struct Probe {
    pub path: String,
    pub exists: bool,
    pub is_dir: bool,
}

/// The mathematical value of a probe.
pub struct ProbeView {
    pub path: Seq<char>,
    pub exists: bool,
    pub is_dir: bool,
}

impl View for Probe {
    type V = ProbeView;

    open spec fn view(&self) -> ProbeView {
        ProbeView { path: self.path@, exists: self.exists, is_dir: self.is_dir }
    }
}

/// The views of a sequence of probes.
pub open spec fn probes(listed: Seq<Probe>) -> Seq<ProbeView> {
    listed.map_values(|probe: Probe| probe@)
}

/// The listed candidates that exist, in the order of the list.
pub open spec fn listed_roots(listed: Seq<ProbeView>) -> Seq<Seq<char>>
    decreases listed.len(),
{
    if listed.len() == 0 {
        Seq::empty()
    } else if listed.last().exists {
        listed_roots(listed.drop_last()).push(listed.last().path)
    } else {
        listed_roots(listed.drop_last())
    }
}

/// The user's data directory, if it exists and is a directory.
pub open spec fn home_root(home: Option<ProbeView>) -> Seq<Seq<char>> {
    match home {
        Some(probe) => if probe.exists && probe.is_dir {
            seq![probe.path]
        } else {
            Seq::empty()
        },
        None => Seq::empty(),
    }
}

/// The directories to scan: the listed ones that exist, the user's data
/// directory if it is one, and the fixed directory.
pub open spec fn roots_of(listed: Seq<ProbeView>, home: Option<ProbeView>) -> Seq<Seq<char>> {
    listed_roots(listed) + home_root(home) + seq![FALLBACK_ROOT@]
}

/// Splits a colon-separated list of directories into its entries. The empty
/// list has one entry, the empty one.
pub fn split_list(list: &str) -> (entries: Vec<String>)
    ensures
        texts(entries@) == split(list@, ':'),
{
    let glyphs = chars_of(list);
    let text = glyphs.as_slice();
    let mut entries: Vec<String> = Vec::new();
    let mut from: usize = 0;
    let mut done = false;
    while !done
        invariant
            text@ == list@,
            from <= text.len(),
            !done ==> split(text@, ':') == texts(entries@) + split_from(text@, from as int, ':'),
            done ==> split(text@, ':') == texts(entries@),
        decreases
                (if done {
                    0
                } else {
                    1 + text.len() - from
                }),
    {
        let to = find_char(text, from, ':');
        let ghost before = entries@;
        entries.push(text_of(slice_subrange(text, from, to)));
        assert(texts(entries@) =~= texts(before).push(text@.subrange(from as int, to as int)));
        if to < text.len() {
            from = to + 1;
        } else {
            done = true;
        }
    }
    entries
}

/// Chooses the directories to scan from what the caller found: the listed
/// candidates that exist, then the user's data directory if it exists and is a
/// directory, then the fixed directory.
pub fn search_roots(listed: &Vec<Probe>, home: Option<&Probe>) -> (roots: Vec<String>)
    ensures
        texts(roots@) == roots_of(
            probes(listed@),
            match home {
                Some(probe) => Some(probe@),
                None => None,
            },
        ),
{
    let mut roots: Vec<String> = Vec::new();
    let mut at: usize = 0;
    while at < listed.len()
        invariant
            at <= listed.len(),
            texts(roots@) == listed_roots(probes(listed@).take(at as int)),
        decreases listed.len() - at,
    {
        proof {
            let more = probes(listed@).take(at as int + 1);
            assert(more.drop_last() =~= probes(listed@).take(at as int));
            assert(more.last() == listed@[at as int]@);
        }
        if listed[at].exists {
            let ghost before = roots@;
            roots.push(listed[at].path.clone());
            assert(texts(roots@) =~= texts(before).push(listed@[at as int].path@));
        }
        at += 1;
    }
    assert(probes(listed@).take(at as int) =~= probes(listed@));
    let ghost first = roots@;
    match home {
        Some(probe) => {
            if probe.exists && probe.is_dir {
                roots.push(probe.path.clone());
            }
        },
        None => {},
    }
    let ghost second = roots@;
    roots.push(String::from_str(FALLBACK_ROOT));
    assert(texts(roots@) =~= texts(first) + home_root(
        match home {
            Some(probe) => Some(probe@),
            None => None,
        },
    ) + seq![FALLBACK_ROOT@]);
    roots
}

} // verus!
