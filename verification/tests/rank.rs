use launcher::descriptor::parse_entry;
use launcher::index::CandidateIndex;
use launcher::matching::score;
use launcher::rank::{best, rank_scores, RankedMatch};

fn hit(score: i64, slot: usize) -> RankedMatch {
    RankedMatch { score, slot }
}

fn index_of(files: &[&str]) -> CandidateIndex {
    let mut index = CandidateIndex::new();
    for file in files {
        index.ingest(parse_entry(file).unwrap());
    }
    index
}

#[test]
fn ranking_of_nothing_is_empty() {
    assert_eq!(rank_scores(&vec![]), vec![]);
    assert_eq!(rank_scores(&vec![None, None, None]), vec![]);
}

#[test]
fn ranking_lists_the_best_score_first() {
    let scores = vec![Some(5), None, Some(7), Some(-3), None, Some(6)];
    assert_eq!(rank_scores(&scores), vec![hit(7, 2), hit(6, 5), hit(5, 0), hit(-3, 3)]);
}

#[test]
fn equal_scores_keep_the_order_of_the_index() {
    let scores = vec![Some(5), Some(9), Some(5), None, Some(9), Some(5)];
    assert_eq!(rank_scores(&scores), vec![hit(9, 1), hit(9, 4), hit(5, 0), hit(5, 2), hit(5, 5)]);
}

#[test]
fn extreme_scores_are_ranked_like_any_other() {
    let scores = vec![Some(i64::MIN), Some(i64::MAX), Some(0), Some(i64::MIN)];
    assert_eq!(
        rank_scores(&scores),
        vec![hit(i64::MAX, 1), hit(0, 2), hit(i64::MIN, 0), hit(i64::MIN, 3)]
    );
}

#[test]
fn ranking_orders_as_a_stable_sort_by_falling_score() {
    let scores: Vec<Option<i64>> = (0..200u64)
        .map(|i| {
            let mixed = i.wrapping_mul(2654435761) % 17;
            if mixed % 5 == 0 {
                None
            } else {
                Some(mixed as i64 - 8)
            }
        })
        .collect();
    let mut want: Vec<RankedMatch> = scores
        .iter()
        .enumerate()
        .filter_map(|(slot, score)| score.map(|score| hit(score, slot)))
        .collect();
    want.sort_by_key(|found| -found.score);
    assert_eq!(rank_scores(&scores), want);
}

#[test]
fn best_is_the_first_of_the_ranking() {
    assert_eq!(best(&vec![]), None);
    assert_eq!(best(&vec![hit(7, 2), hit(6, 5)]), Some(hit(7, 2)));
}

#[test]
fn ranking_an_index_returns_only_matching_keys() {
    let index = index_of(&[
        "Name=Firefox\nComment=Browse the web\nExec=firefox %u\n",
        "Name=Files\nComment=Access and organize files\nExec=nautilus\n",
        "Name=Terminal\nExec=kgx\n",
        "Name=Text Editor\nComment=Edit text files\nExec=gedit %U\n",
    ]);
    let ranking = index.rank("fi");
    let mut names: Vec<&str> = ranking
        .iter()
        .map(|found| index.entry_at(found.slot).unwrap().name().as_deref().unwrap())
        .collect();
    for found in &ranking {
        let key = index.key_at(found.slot).unwrap();
        assert!(key.to_lowercase().contains('f'));
        assert_eq!(Some(found.score), score(key, "fi"));
    }
    names.sort();
    assert_eq!(names, ["Files", "Firefox", "Text Editor"]);
}

#[test]
fn ranking_an_index_puts_the_tightest_match_first() {
    let index = index_of(&[
        "Name=Files\nComment=Access and organize files\n",
        "Name=Firefox\nComment=Browse the web\n",
        "Name=Terminal\n",
    ]);
    let ranking = index.rank("fire");
    assert_eq!(ranking.len(), 2);
    assert_eq!(index.key_at(ranking[0].slot).unwrap(), "Firefox|Browse the web");
    assert_eq!(index.key_at(ranking[1].slot).unwrap(), "Files|Access and organize files");
    assert!(ranking[0].score > ranking[1].score);
    let ranking = index.rank("fil");
    assert_eq!(index.key_at(ranking[0].slot).unwrap(), "Files|Access and organize files");
}

#[test]
fn ranking_with_an_upper_case_letter_is_case_sensitive() {
    let index = index_of(&["Name=Firefox\nComment=Browse the web\nExec=firefox %u\n"]);
    assert_eq!(index.rank("ffx").len(), 1);
    assert_eq!(index.rank("ffx")[0], hit(51, 0));
    assert_eq!(index.rank("FFX").len(), 0);
    assert_eq!(index.rank("Ffx").len(), 1);
}

#[test]
fn ranking_twice_gives_the_same_result() {
    let index = index_of(&[
        "Name=Files\nComment=Access and organize files\n",
        "Name=Firefox\nComment=Browse the web\n",
        "Name=Fonts\n",
        "Name=Terminal\n",
    ]);
    for query in ["", "f", "fi", "F", "e", "zzz"] {
        assert_eq!(index.rank(query), index.rank(query), "{:?}", query);
    }
}

#[test]
fn the_empty_query_ranks_every_record_in_key_order() {
    let index = index_of(&["Name=b\n", "Name=c\n", "Name=a\n"]);
    assert_eq!(index.rank(""), vec![hit(0, 0), hit(0, 1), hit(0, 2)]);
    assert_eq!(index.key_at(0).unwrap(), "a");
    assert_eq!(index.scores(""), vec![Some(0), Some(0), Some(0)]);
}

#[test]
fn ranking_an_empty_index_is_empty() {
    let index = CandidateIndex::new();
    assert_eq!(index.rank("anything"), vec![]);
    assert_eq!(index.rank(""), vec![]);
    assert_eq!(best(&index.rank("")), None);
}

#[test]
fn scores_stand_place_by_place() {
    let index = index_of(&["Name=beta\n", "Name=alpha\n", "Name=gamma\n"]);
    let scores = index.scores("al");
    assert_eq!(scores.len(), 3);
    assert_eq!(scores[0], score("alpha", "al"));
    assert!(scores[0].is_some());
    assert_eq!(scores[1], None);
    assert_eq!(scores[2], None);
}

#[test]
fn the_firefox_example_from_file_to_match() {
    let entry = parse_entry("Name=Firefox\nComment=Browse the web\nExec=firefox %u\n").unwrap();
    assert_eq!(entry.name().as_deref(), Some("Firefox"));
    assert_eq!(entry.command().as_deref(), Some("firefox %u"));
    assert_eq!(entry.comment().as_deref(), Some("Browse the web"));
    assert_eq!(entry.icon().as_deref(), None);
    assert_eq!(entry.search_key(), "Firefox|Browse the web");
    let mut index = CandidateIndex::new();
    index.ingest(entry);
    assert_eq!(index.key_at(0).unwrap(), "Firefox|Browse the web");
    let ranking = index.rank("ffx");
    assert_eq!(ranking.len(), 1);
    assert_eq!(ranking[0].slot, 0);
    assert!(index.rank("FFX").is_empty());
}
