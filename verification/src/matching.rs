//! The matching rule: case-aware fuzzy subsequence matching, and the score of a
//! match.
//!
//! A key matches a query if the characters of the query occur in the key in
//! order, not necessarily side by side. Case is "smart": a query without an
//! upper-case ASCII letter is matched without regard to ASCII case, any other
//! query exactly. Whether a key matches is decided here; how well it matches is
//! scored by the skim algorithm of the `fuzzy_matcher` crate.

use crate::text::chars_of;
use fuzzy_matcher::skim::SkimMatcherV2;
use fuzzy_matcher::FuzzyMatcher;
use vstd::prelude::*;

verus! {

/// The longest text, in characters, that is handed to the scorer. The scorer
/// adds up at most a few dozen points per character in 32-bit arithmetic, so
/// texts up to this length are far from its limits.
pub const SCORE_LIMIT: usize = 0x10_0000;

/// An upper-case ASCII letter.
pub open spec fn is_upper(c: char) -> bool {
    0x41 <= c as int <= 0x5A
}

/// The two characters are equal up to ASCII case.
pub open spec fn alike(a: char, b: char) -> bool {
    ||| a == b
    ||| is_upper(a) && b as int == a as int + 0x20
    ||| is_upper(b) && a as int == b as int + 0x20
}

/// Whether a query is matched exactly: it holds an upper-case ASCII letter.
pub open spec fn case_sensitive(query: Seq<char>) -> bool {
    exists|at: int| 0 <= at < query.len() && is_upper(#[trigger] query[at])
}

/// Whether a character of a key stands for a character of the query.
pub open spec fn agrees(c: char, q: char, sensitive: bool) -> bool {
    if sensitive {
        c == q
    } else {
        alike(c, q)
    }
}

/// `places` says where in `key` each character of `query` is found: one place
/// per character, at a character that agrees with it, the places increasing.
pub open spec fn embeds(key: Seq<char>, query: Seq<char>, sensitive: bool, places: Seq<int>) -> bool {
    &&& places.len() == query.len()
    &&& forall|i: int|
        0 <= i < places.len() ==> 0 <= #[trigger] places[i] < key.len() && agrees(
            key[places[i]],
            query[i],
            sensitive,
        )
    &&& forall|i: int, j: int|
        0 <= i < j < places.len() ==> #[trigger] places[i] < #[trigger] places[j]
}

/// The characters of `query` occur in `key`, in order.
pub open spec fn contains_in_order(key: Seq<char>, query: Seq<char>, sensitive: bool) -> bool {
    exists|places: Seq<int>| embeds(key, query, sensitive, places)
}

/// The matching rule: `key` holds the characters of `query` in order, compared
/// exactly if the query holds an upper-case letter and up to case otherwise.
pub open spec fn fuzzy_contains(key: Seq<char>, query: Seq<char>) -> bool {
    contains_in_order(key, query, case_sensitive(query))
}

/// The score that the skim matcher, in its default configuration with smart
/// case, gives to `choice` for `pattern`; none where it finds no match.
pub uninterp spec fn skim_score(choice: Seq<char>, pattern: Seq<char>) -> Option<i64>;

/// Whether both texts are short enough to be scored.
pub open spec fn scorable(key: Seq<char>, query: Seq<char>) -> bool {
    key.len() <= SCORE_LIMIT && query.len() <= SCORE_LIMIT
}

/// The score of `key` for `query`: that of the scorer where the key matches the
/// query and both can be scored, and none otherwise.
pub open spec fn match_score(key: Seq<char>, query: Seq<char>) -> Option<i64> {
    if fuzzy_contains(key, query) && scorable(key, query) {
        skim_score(key, query)
    } else {
        None
    }
}

/// A query is matched exactly as soon as one of its letters is upper case:
/// putting an upper-case letter into a query makes or keeps it case sensitive,
/// so the way of matching changes exactly where the query had no such letter.
pub proof fn lemma_upper_case_sets_mode(query: Seq<char>, at: int, letter: char)
    requires
        0 <= at < query.len(),
        is_upper(letter),
    ensures
        case_sensitive(query.update(at, letter)),
        case_sensitive(query.update(at, letter)) != case_sensitive(query) <==> !case_sensitive(query),
{
    assert(is_upper(query.update(at, letter)[at]));
}

/// Changing the case of letters of a query that had no upper-case letter never
/// adds a match: what the changed query matches, the query matched before.
pub proof fn lemma_upper_case_narrows(key: Seq<char>, query: Seq<char>, changed: Seq<char>)
    requires
        !case_sensitive(query),
        changed.len() == query.len(),
        forall|i: int| 0 <= i < query.len() ==> alike(#[trigger] query[i], changed[i]),
    ensures
        fuzzy_contains(key, changed) ==> fuzzy_contains(key, query),
{
    if fuzzy_contains(key, changed) {
        let sensitive = case_sensitive(changed);
        let places = choose|places: Seq<int>| embeds(key, changed, sensitive, places);
        assert forall|i: int| 0 <= i < places.len() implies agrees(
            key[#[trigger] places[i]],
            query[i],
            false,
        ) by {
            assert(alike(query[i], changed[i]));
            assert(agrees(key[places[i]], changed[i], sensitive));
            assert(!is_upper(query[i]));
        }
        assert(embeds(key, query, false, places));
    }
}

/// A query without an upper-case letter is matched without regard to case:
/// two keys that are equal up to case match it alike.
pub proof fn lemma_lower_case_ignores_case(key: Seq<char>, other: Seq<char>, query: Seq<char>)
    requires
        !case_sensitive(query),
        key.len() == other.len(),
        forall|i: int| 0 <= i < key.len() ==> alike(#[trigger] key[i], other[i]),
    ensures
        fuzzy_contains(key, query) == fuzzy_contains(other, query),
{
    assert forall|a: Seq<char>, b: Seq<char>|
        a.len() == b.len() && (forall|i: int| 0 <= i < a.len() ==> alike(#[trigger] a[i], b[i]))
            && #[trigger] contains_in_order(a, query, false) implies #[trigger] contains_in_order(
        b,
        query,
        false,
    ) by {
        let places = choose|places: Seq<int>| embeds(a, query, false, places);
        assert forall|i: int| 0 <= i < places.len() implies agrees(
            b[#[trigger] places[i]],
            query[i],
            false,
        ) by {
            assert(alike(a[places[i]], b[places[i]]));
            assert(agrees(a[places[i]], query[i], false));
            assert(!is_upper(query[i]));
        }
        assert(embeds(b, query, false, places));
    }
    if contains_in_order(key, query, false) {
        assert(contains_in_order(other, query, false));
    }
    if contains_in_order(other, query, false) {
        assert forall|i: int| 0 <= i < other.len() implies alike(#[trigger] other[i], key[i]) by {
            assert(alike(key[i], other[i]));
        }
        assert(contains_in_order(key, query, false));
    }
}

/// The empty query matches every key.
pub proof fn lemma_empty_query_matches(key: Seq<char>)
    ensures
        fuzzy_contains(key, Seq::<char>::empty()),
{
    assert(embeds(key, Seq::<char>::empty(), false, Seq::<int>::empty()));
}

/// Tells whether `c` is an upper-case ASCII letter.
pub fn is_upper_char(c: char) -> (upper: bool)
    ensures
        upper == is_upper(c),
{
    'A' <= c && c <= 'Z'
}

/// Tells whether two characters are equal up to ASCII case.
pub fn alike_chars(a: char, b: char) -> (same: bool)
    ensures
        same == alike(a, b),
{
    let x: u32 = a as u32;
    let y: u32 = b as u32;
    a == b || (is_upper_char(a) && y == x + 0x20) || (is_upper_char(b) && x == y + 0x20)
}

/// Tells whether a query is matched exactly.
pub fn is_case_sensitive(query: &[char]) -> (sensitive: bool)
    ensures
        sensitive == case_sensitive(query@),
{
    let mut at: usize = 0;
    while at < query.len()
        invariant
            at <= query.len(),
            forall|i: int| 0 <= i < at ==> !is_upper(#[trigger] query@[i]),
        decreases query.len() - at,
    {
        if is_upper_char(query[at]) {
            return true;
        }
        at += 1;
    }
    false
}

/// Decides the matching rule: whether `key` holds the characters of `query` in
/// order, under smart case.
pub fn is_match(key: &[char], query: &[char]) -> (found: bool)
    ensures
        found == fuzzy_contains(key@, query@),
{
    let sensitive = is_case_sensitive(query);
    let mut k: usize = 0;
    let mut q: usize = 0;
    let ghost mut places: Seq<int> = Seq::empty();
    while k < key.len() && q < query.len()
        invariant
            k <= key.len(),
            q <= query.len(),
            q <= k,
            embeds(key@, query@.take(q as int), sensitive, places),
            forall|i: int| 0 <= i < places.len() ==> #[trigger] places[i] < k,
            forall|other: Seq<int>| #[trigger]
                embeds(key@, query@, sensitive, other) && q < query.len() ==> other[q as int] >= k,
        decreases key.len() - k,
    {
        let agree = if sensitive {
            key[k] == query[q]
        } else {
            alike_chars(key[k], query[q])
        };
        if agree {
            proof {
                let more = places.push(k as int);
                assert forall|i: int| 0 <= i < more.len() implies 0 <= #[trigger] more[i]
                    < key@.len() && agrees(
                    key@[more[i]],
                    query@.take(q as int + 1)[i],
                    sensitive,
                ) by {
                    if i < places.len() {
                        assert(more[i] == places[i]);
                        assert(query@.take(q as int + 1)[i] == query@.take(q as int)[i]);
                    }
                }
                assert forall|other: Seq<int>| #[trigger]
                    embeds(key@, query@, sensitive, other) && q + 1 < query.len() implies other[q
                    as int + 1] >= k + 1 by {
                    assert(other[q as int] < other[q as int + 1]);
                }
                places = more;
            }
            q += 1;
        } else {
            proof {
                assert forall|other: Seq<int>| #[trigger]
                    embeds(key@, query@, sensitive, other) && q < query.len() implies other[q
                    as int] >= k + 1 by {
                    assert(agrees(key@[other[q as int]], query@[q as int], sensitive));
                }
            }
        }
        k += 1;
    }
    if q == query.len() {
        assert(query@.take(q as int) =~= query@);
        true
    } else {
        assert forall|other: Seq<int>| !embeds(key@, query@, sensitive, other) by {
            if embeds(key@, query@, sensitive, other) {
                assert(other[q as int] < key@.len());
            }
        }
        false
    }
}

/// Calls `fuzzy_match` of `fuzzy_matcher`'s `SkimMatcherV2`, configured as by
/// `default().ignore_case().smart_case()`. The call computes a score from the
/// two texts alone; the contract gives that score its name and states nothing
/// else of it. Texts beyond `SCORE_LIMIT` are kept from the call.
#[verifier::external_body]
fn skim_fuzzy_match(choice: &str, pattern: &str) -> (score: Option<i64>)
    requires
        scorable(choice@, pattern@),
    ensures
        score == skim_score(choice@, pattern@),
{
    SkimMatcherV2::default().ignore_case().smart_case().fuzzy_match(choice, pattern)
}

/// Scores a key whose characters are at hand: applies the matching rule to the
/// characters, and asks the scorer only about a key that matches.
pub(crate) fn score_key(key: &str, glyphs: &[char], query: &str, wanted: &[char]) -> (score: Option<i64>)
    requires
        glyphs@ == key@,
        wanted@ == query@,
    ensures
        score == match_score(key@, query@),
{
    if glyphs.len() <= SCORE_LIMIT && wanted.len() <= SCORE_LIMIT && is_match(glyphs, wanted) {
        skim_fuzzy_match(key, query)
    } else {
        None
    }
}

/// Scores `key` for `query`: the scorer's score if the key matches the query
/// and both can be scored, and none otherwise.
pub fn score(key: &str, query: &str) -> (score: Option<i64>)
    ensures
        score == match_score(key@, query@),
{
    let glyphs = chars_of(key);
    let wanted = chars_of(query);
    score_key(key, glyphs.as_slice(), query, wanted.as_slice())
}

} // verus!
