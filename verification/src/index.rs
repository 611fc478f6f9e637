//! The candidate index: an ordered mapping from search key to candidate record.
//!
//! The index holds its keys in strictly increasing lexicographic order, so no
//! key occurs twice. It only grows: a record is inserted under its key and
//! replaces the record that the key held before.

use crate::entry::{Entry, EntryView};
use crate::matching::{fuzzy_contains, match_score, score_key};
use crate::rank::{best, is_ranking, lemma_ranking_unique, outranks, rank_scores, RankedMatch};
use crate::text::{
    chars_of, compare, lemma_precedes_total, lemma_precedes_transitive, precedes, Order,
};
use vstd::prelude::*;

verus! {

/// The mathematical value of an index: its keys in order, and the record that
/// each key holds.
pub struct IndexView {
    pub keys: Seq<Seq<char>>,
    pub records: Seq<EntryView>,
}

/// The number of keys, counted from `from`, that come before the first key
/// that does not precede `key`.
pub open spec fn count_before(keys: Seq<Seq<char>>, key: Seq<char>, from: int) -> int
    decreases keys.len() - from,
{
    if 0 <= from < keys.len() && precedes(keys[from], key) {
        count_before(keys, key, from + 1)
    } else {
        from
    }
}

impl IndexView {
    /// The index without any record.
    pub open spec fn empty() -> IndexView {
        IndexView { keys: Seq::empty(), records: Seq::empty() }
    }

    /// The number of records.
    pub open spec fn len(self) -> nat {
        self.keys.len()
    }

    /// Every key holds one record, the keys strictly increase, and no record
    /// is blank.
    pub open spec fn wf(self) -> bool {
        &&& self.keys.len() == self.records.len()
        &&& forall|i: int, j: int|
            0 <= i < j < self.keys.len() ==> precedes(#[trigger] self.keys[i], #[trigger] self.keys[j])
        &&& forall|i: int| 0 <= i < self.records.len() ==> !(#[trigger] self.records[i]).is_blank()
    }

    /// The place of `key` in the order: the number of keys that precede it.
    pub open spec fn position(self, key: Seq<char>) -> int {
        count_before(self.keys, key, 0)
    }

    /// Whether `key` is in the index.
    pub open spec fn has(self, key: Seq<char>) -> bool {
        let at = self.position(key);
        at < self.keys.len() && self.keys[at] == key
    }

    /// The index as a mapping from key to record.
    pub open spec fn as_map(self) -> Map<Seq<char>, EntryView> {
        Map::new(|key: Seq<char>| self.has(key), |key: Seq<char>| self.records[self.position(key)])
    }

    /// The index after `record` is stored under `key`: in place of the record
    /// that the key held, or else at the key's place in the order.
    pub open spec fn insert(self, key: Seq<char>, record: EntryView) -> IndexView {
        let at = self.position(key);
        if self.has(key) {
            IndexView { keys: self.keys, records: self.records.update(at, record) }
        } else {
            IndexView { keys: self.keys.insert(at, key), records: self.records.insert(at, record) }
        }
    }

    /// The score of each key for `query`, place by place.
    pub open spec fn scores(self, query: Seq<char>) -> Seq<Option<i64>> {
        Seq::new(self.keys.len(), |slot: int| match_score(self.keys[slot], query))
    }

    /// The record that a ranking puts first, if it names one.
    pub open spec fn top(self, ranking: Seq<RankedMatch>) -> Option<EntryView> {
        if ranking.len() > 0 && ranking[0].slot < self.records.len() {
            Some(self.records[ranking[0].slot as int])
        } else {
            None
        }
    }

    /// The index after each of `batch` is stored, in turn, under its search key.
    pub open spec fn absorb(self, batch: Seq<EntryView>) -> IndexView
        decreases batch.len(),
    {
        if batch.len() == 0 {
            self
        } else {
            self.absorb(batch.drop_last()).insert(batch.last().search_key(), batch.last())
        }
    }
}

/// What `count_before` returns on increasing keys: every key before that place
/// precedes `key`, and no key from that place on does.
pub proof fn lemma_position(v: IndexView, key: Seq<char>)
    requires
        v.wf(),
    ensures
        0 <= v.position(key) <= v.keys.len(),
        forall|i: int| 0 <= i < v.position(key) ==> precedes(#[trigger] v.keys[i], key),
        forall|i: int| v.position(key) <= i < v.keys.len() ==> !precedes(#[trigger] v.keys[i], key),
        forall|i: int|
            v.position(key) <= i < v.keys.len() && v.keys[i] != key ==> precedes(
                key,
                #[trigger] v.keys[i],
            ),
        forall|i: int| 0 <= i < v.keys.len() && #[trigger] v.keys[i] == key ==> i == v.position(key),
{
    lemma_count_before(v.keys, key, 0);
    let at = v.position(key);
    assert forall|i: int| at <= i < v.keys.len() implies !precedes(#[trigger] v.keys[i], key) by {
        if at < i && precedes(v.keys[i], key) {
            lemma_precedes_transitive(v.keys[at], v.keys[i], key);
        }
    }
    assert forall|i: int| at <= i < v.keys.len() && v.keys[i] != key implies precedes(
        key,
        #[trigger] v.keys[i],
    ) by {
        lemma_precedes_total(v.keys[i], key);
    }
    assert forall|i: int| 0 <= i < v.keys.len() && #[trigger] v.keys[i] == key implies i == at by {
        lemma_precedes_total(key, key);
        if at < i {
            lemma_precedes_total(v.keys[at], key);
            lemma_precedes_total(v.keys[at], v.keys[i]);
        }
    }
}

/// What `count_before` returns, stated without recursion.
proof fn lemma_count_before(keys: Seq<Seq<char>>, key: Seq<char>, from: int)
    requires
        0 <= from <= keys.len(),
    ensures
        from <= count_before(keys, key, from) <= keys.len(),
        forall|i: int| from <= i < count_before(keys, key, from) ==> precedes(#[trigger] keys[i], key),
        count_before(keys, key, from) < keys.len() ==> !precedes(
            keys[count_before(keys, key, from)],
            key,
        ),
    decreases keys.len() - from,
{
    if from < keys.len() && precedes(keys[from], key) {
        lemma_count_before(keys, key, from + 1);
    }
}

/// A place that splits increasing keys into those that precede `key` and those
/// that do not is the key's position.
pub proof fn lemma_position_is(v: IndexView, key: Seq<char>, at: int)
    requires
        v.wf(),
        0 <= at <= v.keys.len(),
        forall|i: int| 0 <= i < at ==> precedes(#[trigger] v.keys[i], key),
        at < v.keys.len() ==> !precedes(v.keys[at], key),
    ensures
        v.position(key) == at,
{
    lemma_position(v, key);
    let p = v.position(key);
    if p < at {
        assert(precedes(v.keys[p], key));
    } else if at < p {
        assert(precedes(v.keys[at], key));
    }
}

/// Storing a record that is not blank keeps the index well formed; the key is
/// then in the index, at the place it had or would have had.
pub proof fn lemma_insert_wf(v: IndexView, key: Seq<char>, record: EntryView)
    requires
        v.wf(),
        !record.is_blank(),
    ensures
        v.insert(key, record).wf(),
        v.insert(key, record).has(key),
        v.insert(key, record).position(key) == v.position(key),
        v.insert(key, record).len() == (if v.has(key) {
            v.len()
        } else {
            v.len() + 1
        }),
{
    lemma_position(v, key);
    let at = v.position(key);
    let w = v.insert(key, record);
    if !v.has(key) {
        assert forall|i: int, j: int| 0 <= i < j < w.keys.len() implies precedes(
            #[trigger] w.keys[i],
            #[trigger] w.keys[j],
        ) by {
            // The places that `i` and `j` had before `key` came in between.
            let a = if i < at {
                i
            } else {
                i - 1
            };
            let b = if j < at {
                j
            } else {
                j - 1
            };
            if i != at && j != at {
                assert(precedes(v.keys[a], v.keys[b]));
            } else if i == at {
                assert(w.keys[j] == v.keys[b]);
            } else {
                assert(w.keys[i] == v.keys[a]);
            }
        }
        assert forall|i: int| 0 <= i < w.records.len() implies !(#[trigger] w.records[i]).is_blank() by {
            if i < at {
                assert(w.records[i] == v.records[i]);
            } else if i > at {
                assert(w.records[i] == v.records[i - 1]);
            }
        }
    }
    lemma_precedes_total(key, key);
    assert forall|i: int| 0 <= i < at implies precedes(#[trigger] w.keys[i], key) by {
        assert(w.keys[i] == v.keys[i]);
    }
    lemma_position_is(w, key, at);
}

/// Where a new key comes into the index, every other key keeps its place if it
/// precedes the new key, and moves up by one if it follows.
proof fn lemma_position_after_insert(v: IndexView, key: Seq<char>, record: EntryView, k: Seq<char>)
    requires
        v.wf(),
        !record.is_blank(),
        !v.has(key),
        k != key,
    ensures
        precedes(key, k) ==> v.insert(key, record).position(k) == v.position(k) + 1 && v.position(key)
            <= v.position(k),
        !precedes(key, k) ==> v.insert(key, record).position(k) == v.position(k) && v.position(k)
            <= v.position(key),
{
    let w = v.insert(key, record);
    let at = v.position(key);
    let p = v.position(k);
    lemma_insert_wf(v, key, record);
    lemma_position(v, key);
    lemma_position(v, k);
    lemma_precedes_total(k, key);
    if precedes(key, k) {
        if p < at {
            lemma_precedes_transitive(v.keys[p], key, k);
        }
        assert forall|i: int| 0 <= i < p + 1 implies precedes(#[trigger] w.keys[i], k) by {
            if i < at {
                assert(w.keys[i] == v.keys[i]);
            } else if i > at {
                assert(w.keys[i] == v.keys[i - 1]);
            }
        }
        if p + 1 < w.keys.len() {
            assert(w.keys[p + 1] == v.keys[p]);
        }
        lemma_position_is(w, k, p + 1);
    } else {
        if at < p {
            lemma_precedes_total(v.keys[at], key);
            lemma_precedes_transitive(key, v.keys[at], k);
        }
        assert forall|i: int| 0 <= i < p implies precedes(#[trigger] w.keys[i], k) by {
            assert(w.keys[i] == v.keys[i]);
        }
        if p < at {
            assert(w.keys[p] == v.keys[p]);
        }
        lemma_position_is(w, k, p);
    }
}

/// Storing a record under a key is an insertion into the mapping: the key then
/// holds the new record, and every other key holds what it held.
pub proof fn lemma_insert_map(v: IndexView, key: Seq<char>, record: EntryView)
    requires
        v.wf(),
        !record.is_blank(),
    ensures
        v.insert(key, record).as_map() == v.as_map().insert(key, record),
{
    let w = v.insert(key, record);
    let at = v.position(key);
    lemma_insert_wf(v, key, record);
    lemma_position(v, key);
    assert forall|k: Seq<char>| k != key implies (w.has(k) == v.has(k) && (v.has(k)
        ==> w.records[w.position(k)] == v.records[v.position(k)])) by {
        let p = v.position(k);
        lemma_position(v, k);
        if !v.has(key) {
            lemma_position_after_insert(v, key, record, k);
            if precedes(key, k) {
                if p < v.keys.len() {
                    assert(w.keys[p + 1] == v.keys[p]);
                    assert(w.records[p + 1] == v.records[p]);
                }
            } else if p < at {
                assert(w.keys[p] == v.keys[p]);
            }
        }
    }
    assert(w.as_map() =~= v.as_map().insert(key, record));
}

/// The index only grows: storing a record loses no key, and adds at most the
/// key it is stored under.
pub proof fn lemma_insert_grows(v: IndexView, key: Seq<char>, record: EntryView)
    requires
        v.wf(),
        !record.is_blank(),
    ensures
        forall|k: Seq<char>| v.insert(key, record).has(k) == (v.has(k) || k == key),
{
    lemma_insert_map(v, key, record);
    let w = v.insert(key, record);
    assert forall|k: Seq<char>| w.has(k) == (v.has(k) || k == key) by {
        assert(w.as_map().dom().contains(k) == w.has(k));
        assert(v.as_map().dom().contains(k) == v.has(k));
        assert(v.as_map().insert(key, record).dom().contains(k) == (v.has(k) || k == key));
    }
}

/// Storing a batch of records keeps the index well formed and loses no key;
/// the index grows by at most the size of the batch.
pub proof fn lemma_absorb_grows(v: IndexView, batch: Seq<EntryView>)
    requires
        v.wf(),
        forall|i: int| 0 <= i < batch.len() ==> !(#[trigger] batch[i]).is_blank(),
    ensures
        v.absorb(batch).wf(),
        v.len() <= v.absorb(batch).len() <= v.len() + batch.len(),
        forall|k: Seq<char>| v.has(k) ==> v.absorb(batch).has(k),
    decreases batch.len(),
{
    if batch.len() > 0 {
        let rest = batch.drop_last();
        lemma_absorb_grows(v, rest);
        let before = v.absorb(rest);
        let last = batch.last();
        lemma_insert_wf(before, last.search_key(), last);
        lemma_insert_grows(before, last.search_key(), last);
    }
}

/// Ranking is deterministic: two rankings of the same index for the same query
/// hold the same matches in the same order.
pub proof fn lemma_rank_deterministic(
    index: IndexView,
    query: Seq<char>,
    first: Seq<RankedMatch>,
    second: Seq<RankedMatch>,
)
    requires
        is_ranking(first, index.scores(query)),
        is_ranking(second, index.scores(query)),
    ensures
        first == second,
{
    lemma_ranking_unique(first, second, index.scores(query));
}

/// Ties are broken by the order of the keys: of two ranked records with the
/// same score, the one that stands first has the key that precedes the other.
pub proof fn lemma_ties_by_key(
    index: IndexView,
    query: Seq<char>,
    out: Seq<RankedMatch>,
    first: int,
    second: int,
)
    requires
        index.wf(),
        is_ranking(out, index.scores(query)),
        0 <= first < second < out.len(),
        out[first].score == out[second].score,
    ensures
        precedes(index.keys[out[first].slot as int], index.keys[out[second].slot as int]),
{
    assert(outranks(out[first], out[second]));
}

/// A ranking holds only records whose key matches the query: the key holds the
/// characters of the query in order, under the query's way of matching.
pub proof fn lemma_ranked_keys_match(index: IndexView, query: Seq<char>, out: Seq<RankedMatch>, at: int)
    requires
        is_ranking(out, index.scores(query)),
        0 <= at < out.len(),
    ensures
        out[at].slot < index.len(),
        fuzzy_contains(index.keys[out[at].slot as int], query),
{
}

/// One stored record: the key as a string and as decoded characters, and the
/// record itself.
struct Slot {
    key: String,
    glyphs: Vec<char>,
    entry: Entry,
}

/// The live index of candidate records, ordered by search key.
pub struct CandidateIndex {
    slots: Vec<Slot>,
}

impl View for CandidateIndex {
    type V = IndexView;

    closed spec fn view(&self) -> IndexView {
        IndexView {
            keys: Seq::new(self.slots.len() as nat, |i: int| self.slots[i].key@),
            records: Seq::new(self.slots.len() as nat, |i: int| self.slots[i].entry@),
        }
    }
}

impl CandidateIndex {
    /// The invariant of the type: the index is well formed, and every key is
    /// held with its characters decoded.
    #[verifier::type_invariant]
    pub closed spec fn well_formed(&self) -> bool {
        &&& self@.wf()
        &&& forall|i: int|
            0 <= i < self.slots.len() ==> (#[trigger] self.slots[i]).glyphs@ == self.slots[i].key@
    }

    /// What the invariant of the type says of the index's value.
    pub proof fn lemma_well_formed(&self)
        requires
            self.well_formed(),
        ensures
            self@.wf(),
    {
    }

    /// Creates the empty index.
    pub fn new() -> (index: CandidateIndex)
        ensures
            index@ == IndexView::empty(),
    {
        let index = CandidateIndex { slots: Vec::new() };
        assert(index@.keys =~= Seq::empty());
        assert(index@.records =~= Seq::empty());
        index
    }

    /// The number of records in the index.
    pub fn len(&self) -> (n: usize)
        ensures
            n == self@.len(),
    {
        self.slots.len()
    }

    /// Whether the index holds no record.
    pub fn is_empty(&self) -> (empty: bool)
        ensures
            empty == (self@.len() == 0),
    {
        self.slots.len() == 0
    }

    /// The key at place `slot` of the order; none where the index is shorter.
    pub fn key_at(&self, slot: usize) -> (key: Option<&String>)
        ensures
            key is Some <==> slot < self@.len(),
            key matches Some(k) ==> k@ == self@.keys[slot as int],
    {
        if slot < self.slots.len() {
            Some(&self.slots[slot].key)
        } else {
            None
        }
    }

    /// The record at place `slot` of the order; none where the index is shorter.
    pub fn entry_at(&self, slot: usize) -> (entry: Option<&Entry>)
        ensures
            entry is Some <==> slot < self@.len(),
            entry matches Some(e) ==> e@ == self@.records[slot as int],
    {
        if slot < self.slots.len() {
            Some(&self.slots[slot].entry)
        } else {
            None
        }
    }

    /// Finds the place of `key` in the order by bisection.
    fn locate(&self, key: &[char]) -> (at: usize)
        ensures
            at == self@.position(key@),
            at <= self@.len(),
    {
        proof {
            use_type_invariant(self);
        }
        let mut low: usize = 0;
        let mut high: usize = self.slots.len();
        while low < high
            invariant
                low <= high <= self.slots.len(),
                self@.wf(),
                self@.len() == self.slots.len(),
                forall|i: int|
                    0 <= i < self.slots.len() ==> (#[trigger] self.slots[i]).glyphs@
                        == self@.keys[i],
                forall|i: int| 0 <= i < low ==> precedes(#[trigger] self@.keys[i], key@),
                high < self.slots.len() ==> !precedes(self@.keys[high as int], key@),
            decreases high - low,
        {
            let mid = low + (high - low) / 2;
            match compare(self.slots[mid].glyphs.as_slice(), key) {
                Order::Before => {
                    proof {
                        assert forall|i: int| 0 <= i < mid + 1 implies precedes(
                            #[trigger] self@.keys[i],
                            key@,
                        ) by {
                            if i < mid {
                                lemma_precedes_transitive(
                                    self@.keys[i],
                                    self@.keys[mid as int],
                                    key@,
                                );
                            }
                        }
                    }
                    low = mid + 1;
                },
                _ => {
                    proof {
                        lemma_precedes_total(self@.keys[mid as int], key@);
                    }
                    high = mid;
                },
            }
        }
        proof {
            lemma_position_is(self@, key@, low as int);
        }
        low
    }

    /// Looks `key` up: the place that holds it, if it is in the index.
    pub fn find(&self, key: &str) -> (slot: Option<usize>)
        ensures
            slot is Some <==> self@.has(key@),
            slot matches Some(at) ==> at == self@.position(key@) && at < self@.len()
                && self@.keys[at as int] == key@,
    {
        proof {
            use_type_invariant(self);
        }
        let glyphs = chars_of(key);
        let at = self.locate(glyphs.as_slice());
        if at < self.slots.len() {
            match compare(self.slots[at].glyphs.as_slice(), glyphs.as_slice()) {
                Order::Same => Some(at),
                _ => None,
            }
        } else {
            None
        }
    }

    /// Scores every key for `query`: place by place, the score of the key if it
    /// matches, and none if it does not.
    pub fn scores(&self, query: &str) -> (scores: Vec<Option<i64>>)
        ensures
            scores@ == self@.scores(query@),
    {
        proof {
            use_type_invariant(self);
        }
        let wanted = chars_of(query);
        let mut scores: Vec<Option<i64>> = Vec::new();
        let mut slot: usize = 0;
        while slot < self.slots.len()
            invariant
                slot <= self.slots.len(),
                wanted@ == query@,
                self@.len() == self.slots.len(),
                forall|i: int|
                    0 <= i < self.slots.len() ==> (#[trigger] self.slots[i]).glyphs@
                        == self.slots[i].key@ && self.slots[i].key@ == self@.keys[i],
                scores@.len() == slot,
                forall|i: int| 0 <= i < slot ==> #[trigger] scores@[i] == match_score(self@.keys[i], query@),
            decreases self.slots.len() - slot,
        {
            let held = &self.slots[slot];
            let score = score_key(held.key.as_str(), held.glyphs.as_slice(), query, wanted.as_slice());
            scores.push(score);
            slot += 1;
        }
        assert(scores@ =~= self@.scores(query@));
        scores
    }

    /// Ranks the records whose keys match `query`, best first. Every record
    /// that is returned has a key that holds the characters of the query in
    /// order; records with the same score stand in the order of their keys.
    pub fn rank(&self, query: &str) -> (out: Vec<RankedMatch>)
        ensures
            is_ranking(out@, self@.scores(query@)),
            forall|i: int|
                0 <= i < out@.len() ==> (#[trigger] out@[i]).slot < self@.len() && fuzzy_contains(
                    self@.keys[out@[i].slot as int],
                    query@,
                ),
    {
        let scores = self.scores(query);
        rank_scores(&scores)
    }

    /// The one record that a commit may launch: the record that `ranking` puts
    /// first, if it puts any first.
    pub fn top(&self, ranking: &Vec<RankedMatch>) -> (top: Option<&Entry>)
        ensures
            (match top {
                Some(entry) => self@.top(ranking@) == Some(entry@),
                None => self@.top(ranking@) is None,
            }),
    {
        match best(ranking) {
            Some(found) => self.entry_at(found.slot),
            None => None,
        }
    }

    /// Stores `entry` under `key`. A record that the key held before is
    /// replaced: the last writer wins.
    pub fn insert(&mut self, key: String, entry: Entry)
        ensures
            final(self)@ == old(self)@.insert(key@, entry@),
            final(self)@.as_map() == old(self)@.as_map().insert(key@, entry@),
            final(self)@.wf(),
    {
        proof {
            use_type_invariant(&*self);
            use_type_invariant(&entry);
            lemma_insert_wf(self@, key@, entry@);
            lemma_insert_map(self@, key@, entry@);
        }
        let glyphs = chars_of(key.as_str());
        let at = self.locate(glyphs.as_slice());
        let held = if at < self.slots.len() {
            match compare(self.slots[at].glyphs.as_slice(), glyphs.as_slice()) {
                Order::Same => true,
                _ => false,
            }
        } else {
            false
        };
        let ghost before = self@;
        let ghost after = before.insert(key@, entry@);
        let slot = Slot { key, glyphs, entry };
        // The slots are taken out while they change, and put back in order.
        let mut slots: Vec<Slot> = Vec::new();
        assert(Seq::new(0, |i: int| slots[i].key@) =~= Seq::empty());
        assert(Seq::new(0, |i: int| slots[i].entry@) =~= Seq::empty());
        core::mem::swap(&mut self.slots, &mut slots);
        if held {
            slots.set(at, slot);
        } else {
            slots.insert(at, slot);
        }
        assert(Seq::new(slots.len() as nat, |i: int| slots[i].key@) =~= after.keys);
        assert(Seq::new(slots.len() as nat, |i: int| slots[i].entry@) =~= after.records);
        self.slots = slots;
    }

    /// Stores `entry` under the search key that is derived from it.
    pub fn ingest(&mut self, entry: Entry)
        ensures
            final(self)@ == old(self)@.insert(entry@.search_key(), entry@),
            final(self)@.wf(),
    {
        let key = entry.search_key();
        self.insert(key, entry);
    }
}

} // verus!
