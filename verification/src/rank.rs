//! Ranking: the matches of a query, best first.
//!
//! A ranking lists every place of the index whose key has a score, each once,
//! by falling score; places with the same score stand in the order of the
//! index. It is made anew for every query and holds no record itself: a match
//! names its record by its place.

use vstd::prelude::*;

verus! {

/// One match: the place of a record in the index, and the score of its key.
#[derive(Clone, Copy, Debug, PartialEq, Eq, Structural)]
pub struct RankedMatch {
    pub score: i64,
    pub slot: usize,
}

/// `a` stands before `b` in a ranking: it has the higher score, or the same
/// score and the earlier place.
pub open spec fn outranks(a: RankedMatch, b: RankedMatch) -> bool {
    a.score > b.score || (a.score == b.score && a.slot < b.slot)
}

/// `out` is the ranking of `scores`: each match names a place that has the
/// score it carries, the matches stand in ranking order, and every place that
/// has a score is named.
pub open spec fn is_ranking(out: Seq<RankedMatch>, scores: Seq<Option<i64>>) -> bool {
    &&& forall|i: int|
        0 <= i < out.len() ==> (#[trigger] out[i]).slot < scores.len() && scores[out[i].slot as int]
            == Some(out[i].score)
    &&& forall|i: int, j: int| 0 <= i < j < out.len() ==> outranks(#[trigger] out[i], #[trigger] out[j])
    &&& forall|slot: int|
        0 <= slot < scores.len() && (#[trigger] scores[slot]) is Some ==> exists|i: int|
            0 <= i < out.len() && (#[trigger] out[i]).slot == slot
}

/// Two rankings of the same scores agree on their first `upto` matches.
proof fn lemma_rankings_agree(
    a: Seq<RankedMatch>,
    b: Seq<RankedMatch>,
    scores: Seq<Option<i64>>,
    upto: int,
)
    requires
        is_ranking(a, scores),
        is_ranking(b, scores),
        0 <= upto <= a.len(),
    ensures
        upto <= b.len(),
        forall|k: int| 0 <= k < upto ==> a[k] == b[k],
    decreases upto,
{
    if upto > 0 {
        lemma_rankings_agree(a, b, scores, upto - 1);
        let i = upto - 1;
        // `a[i]` stands somewhere in `b`, and not before place `i`.
        assert(scores[a[i].slot as int] is Some);
        let j = choose|j: int| 0 <= j < b.len() && (#[trigger] b[j]).slot == a[i].slot;
        assert(b[j] == a[i]);
        if j < i {
            assert(a[j] == b[j]);
            assert(outranks(a[j], a[i]));
        }
        // So `b` has a place `i`, and `b[i]` stands somewhere in `a`, not before `i`.
        assert(scores[b[i].slot as int] is Some);
        let h = choose|h: int| 0 <= h < a.len() && (#[trigger] a[h]).slot == b[i].slot;
        assert(a[h] == b[i]);
        if h < i {
            assert(a[h] == b[h]);
            assert(outranks(b[h], b[i]));
        }
        if j > i {
            assert(outranks(b[i], b[j]));
            if h > i {
                assert(outranks(a[i], a[h]));
            }
        }
    }
}

/// The scores determine their ranking: ranking the same scores again gives the
/// same matches in the same order.
pub proof fn lemma_ranking_unique(a: Seq<RankedMatch>, b: Seq<RankedMatch>, scores: Seq<Option<i64>>)
    requires
        is_ranking(a, scores),
        is_ranking(b, scores),
    ensures
        a == b,
{
    lemma_rankings_agree(a, b, scores, a.len() as int);
    lemma_rankings_agree(b, a, scores, b.len() as int);
    assert(a =~= b);
}

/// The first match of a ranking has the highest score of all.
pub proof fn lemma_best_first(out: Seq<RankedMatch>, scores: Seq<Option<i64>>, slot: int)
    requires
        is_ranking(out, scores),
        0 <= slot < scores.len(),
        scores[slot] is Some,
    ensures
        out.len() > 0,
        out[0].score >= scores[slot]->0,
{
    let i = choose|i: int| 0 <= i < out.len() && (#[trigger] out[i]).slot == slot;
    if i > 0 {
        assert(outranks(out[0], out[i]));
    }
}

/// Finds where a match with `score` and a place later than all in `out` goes:
/// behind the matches whose score is at least `score`.
fn place_for(out: &Vec<RankedMatch>, score: i64) -> (at: usize)
    requires
        forall|i: int, j: int| 0 <= i < j < out.len() ==> outranks(#[trigger] out[i], #[trigger] out[j]),
    ensures
        at <= out.len(),
        forall|i: int| 0 <= i < at ==> (#[trigger] out[i]).score >= score,
        forall|i: int| at <= i < out.len() ==> (#[trigger] out[i]).score < score,
{
    let mut low: usize = 0;
    let mut high: usize = out.len();
    while low < high
        invariant
            low <= high <= out.len(),
            forall|i: int, j: int|
                0 <= i < j < out.len() ==> outranks(#[trigger] out[i], #[trigger] out[j]),
            forall|i: int| 0 <= i < low ==> (#[trigger] out[i]).score >= score,
            forall|i: int| high <= i < out.len() ==> (#[trigger] out[i]).score < score,
        decreases high - low,
    {
        let mid = low + (high - low) / 2;
        if out[mid].score >= score {
            assert forall|i: int| 0 <= i < mid + 1 implies (#[trigger] out[i]).score >= score by {
                if i < mid {
                    assert(outranks(out[i], out[mid as int]));
                }
            }
            low = mid + 1;
        } else {
            assert forall|i: int| mid <= i < out.len() implies (#[trigger] out[i]).score < score by {
                if mid < i {
                    assert(outranks(out[mid as int], out[i]));
                }
            }
            high = mid;
        }
    }
    low
}

/// A ranking stays one when a place without score is added to the scores.
proof fn lemma_rank_none(out: Seq<RankedMatch>, scores: Seq<Option<i64>>)
    requires
        is_ranking(out, scores),
    ensures
        is_ranking(out, scores.push(None)),
{
    let more = scores.push(None);
    assert forall|i: int| 0 <= i < out.len() implies (#[trigger] out[i]).slot < more.len()
        && more[out[i].slot as int] == Some(out[i].score) by {
        assert(scores[out[i].slot as int] == Some(out[i].score));
    }
    assert forall|slot: int| 0 <= slot < more.len() && (#[trigger] more[slot]) is Some implies exists|
        i: int,
    | 0 <= i < out.len() && (#[trigger] out[i]).slot == slot by {
        assert(scores[slot] is Some);
    }
}

/// A ranking stays one when a place with a score is added to the scores and
/// its match is put behind the matches that score at least as high.
proof fn lemma_rank_some(out: Seq<RankedMatch>, scores: Seq<Option<i64>>, score: i64, at: int)
    requires
        is_ranking(out, scores),
        scores.len() <= usize::MAX,
        0 <= at <= out.len(),
        forall|i: int| 0 <= i < at ==> (#[trigger] out[i]).score >= score,
        forall|i: int| at <= i < out.len() ==> (#[trigger] out[i]).score < score,
    ensures
        is_ranking(
            out.insert(at, RankedMatch { score, slot: scores.len() as usize }),
            scores.push(Some(score)),
        ),
{
    let found = RankedMatch { score, slot: scores.len() as usize };
    let grown = out.insert(at, found);
    let more = scores.push(Some(score));
    assert forall|i: int| 0 <= i < grown.len() implies (#[trigger] grown[i]).slot < more.len()
        && more[grown[i].slot as int] == Some(grown[i].score) by {
        if i < at {
            assert(grown[i] == out[i]);
        } else if i > at {
            assert(grown[i] == out[i - 1]);
        }
    }
    assert forall|i: int, j: int| 0 <= i < j < grown.len() implies outranks(
        #[trigger] grown[i],
        #[trigger] grown[j],
    ) by {
        // The places that `i` and `j` had before the match came in between.
        let a = if i < at {
            i
        } else {
            i - 1
        };
        let b = if j < at {
            j
        } else {
            j - 1
        };
        if i != at && j != at {
            assert(outranks(out[a], out[b]));
        } else if j == at {
            assert(grown[i] == out[a] && out[a].slot < scores.len());
        } else {
            assert(grown[j] == out[b]);
        }
    }
    assert forall|slot: int| 0 <= slot < more.len() && (#[trigger] more[slot]) is Some implies exists|
        i: int,
    | 0 <= i < grown.len() && (#[trigger] grown[i]).slot == slot by {
        if slot == scores.len() {
            assert(grown[at].slot == slot);
        } else {
            assert(scores[slot] is Some);
            let i = choose|i: int| 0 <= i < out.len() && (#[trigger] out[i]).slot == slot;
            if i < at {
                assert(grown[i].slot == slot);
            } else {
                assert(grown[i + 1].slot == slot);
            }
        }
    }
}

/// Ranks the places of an index by the scores of their keys: `scores[slot]` is
/// the score of the key at place `slot`, or none if the key does not match.
pub fn rank_scores(scores: &Vec<Option<i64>>) -> (out: Vec<RankedMatch>)
    ensures
        is_ranking(out@, scores@),
{
    let mut out: Vec<RankedMatch> = Vec::new();
    let mut slot: usize = 0;
    while slot < scores.len()
        invariant
            slot <= scores.len(),
            is_ranking(out@, scores@.take(slot as int)),
        decreases scores.len() - slot,
    {
        assert(scores@.take(slot as int + 1) =~= scores@.take(slot as int).push(scores@[slot as int]));
        match scores[slot] {
            Some(score) => {
                let at = place_for(&out, score);
                proof {
                    lemma_rank_some(out@, scores@.take(slot as int), score, at as int);
                }
                out.insert(at, RankedMatch { score, slot });
            },
            None => {
                proof {
                    lemma_rank_none(out@, scores@.take(slot as int));
                }
            },
        }
        slot += 1;
    }
    assert(scores@.take(slot as int) =~= scores@);
    out
}

/// The one match that a commit may launch: the first of the ranking.
pub fn best(ranking: &Vec<RankedMatch>) -> (top: Option<RankedMatch>)
    ensures
        top == (if ranking@.len() > 0 {
            Some(ranking@[0])
        } else {
            None
        }),
{
    if ranking.len() > 0 {
        Some(ranking[0])
    } else {
        None
    }
}

} // verus!
