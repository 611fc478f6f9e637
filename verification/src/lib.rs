//! The core of an application launcher.
//!
//! Descriptor files are parsed into candidate records ([`descriptor`],
//! [`entry`]); the records are taken off the discovery channel in bounded
//! batches ([`intake`]) into an index ordered by search key ([`index`]); a
//! query is matched against the keys as a case-aware fuzzy subsequence
//! ([`matching`]) and the matches are ranked best first ([`rank`]); a commit
//! hands the command of the top match over at most once ([`handoff`]); one
//! redraw cycle does all of this in turn ([`session`]). The command is then
//! turned into a program and its arguments ([`launch`]). What
//! cannot be launched is reported as a trace ([`err`]). The directories to scan
//! are chosen in [`paths`]; [`text`] holds the operations on characters that
//! the rest is built on.
//!
//! Reading directories and files, drawing the window and starting processes
//! are left to the program around this library.

pub mod descriptor;
pub mod entry;
pub mod err;
pub mod handoff;
pub mod index;
pub mod intake;
pub mod launch;
pub mod matching;
pub mod paths;
pub mod rank;
pub mod session;
pub mod text;
