use subtle::catalog::{File, SearchCandidate};
use subtle::grouping::group;
use subtle::ranking::{filter_by_language, join_with_pipe, rank, sort_by_score, RankedGroup};
use subtle::scorer::{score, score_from_distance, Score};

fn candidate(release: &str, language: &str, ids: &[i32]) -> SearchCandidate {
    SearchCandidate {
        release: release.to_string(),
        language: language.to_string(),
        download_count: 10,
        files: ids
            .iter()
            .map(|&id| File { file_id: id, cd_number: 1, file_name: format!("{}.srt", id) })
            .collect(),
    }
}

#[test]
fn score_identity_and_bounds() {
    let s = score("Some.Movie", "Some.Movie");
    assert_eq!(s.matching, s.length);
    let e = score("", "");
    assert_eq!(e, Score { matching: 1, length: 1 });
    let k = score("kitten", "sitting");
    assert_eq!(k, Score { matching: 4, length: 7 });
    let z = score("abc", "");
    assert_eq!(z, Score { matching: 0, length: 3 });
    assert!(z.matching <= z.length && z.length > 0);
}

#[test]
fn score_is_case_sensitive_and_counts_chars() {
    assert_eq!(score("abc", "ABC"), Score { matching: 0, length: 3 });
    assert_eq!(score("é", "e"), Score { matching: 0, length: 1 });
}

#[test]
fn score_from_known_distance() {
    assert_eq!(score_from_distance(3, 6, 7), Score { matching: 4, length: 7 });
    assert_eq!(score_from_distance(0, 0, 0), Score { matching: 1, length: 1 });
}

#[test]
fn score_comparison_is_by_value() {
    let half = Score { matching: 1, length: 2 };
    let two_quarters = Score { matching: 2, length: 4 };
    let third = Score { matching: 1, length: 3 };
    assert!(half.at_least(&two_quarters));
    assert!(two_quarters.at_least(&half));
    assert!(half.at_least(&third));
    assert!(!third.at_least(&half));
}

#[test]
fn grouping_keeps_every_candidate_once() {
    let cands = vec![
        candidate("A", "en", &[1]),
        candidate("B", "fr", &[2]),
        candidate("A", "de", &[3]),
        candidate("C", "en", &[4]),
        candidate("B", "en", &[5]),
    ];
    let groups = group(&cands);
    assert_eq!(groups.len(), 3);
    assert_eq!(groups[0].release, "A");
    assert_eq!(groups[0].members, vec![0, 2]);
    assert_eq!(groups[1].release, "B");
    assert_eq!(groups[1].members, vec![1, 4]);
    assert_eq!(groups[2].release, "C");
    assert_eq!(groups[2].members, vec![3]);
    let total: usize = groups.iter().map(|g| g.members.len()).sum();
    assert_eq!(total, cands.len());
}

#[test]
fn grouping_is_exact_on_labels() {
    let cands = vec![candidate("a", "en", &[]), candidate("A", "en", &[]), candidate("a ", "en", &[])];
    assert_eq!(group(&cands).len(), 3);
    assert_eq!(group(&Vec::new()).len(), 0);
}

#[test]
fn scenario_query_prefers_closest_release() {
    let query = "Some.Movie.2020.1080p";
    let cands = vec![
        candidate("Some.Movie.2020.720p", "fr", &[2]),
        candidate("Some.Movie.2020.1080p", "en", &[1]),
    ];
    let r = rank(query, cands, &Vec::new(), false);
    assert_eq!(r.entries.len(), 2);
    assert_eq!(r.entries[0].release, "Some.Movie.2020.1080p");
    assert_eq!(r.entries[0].label, "Some.Movie.2020.1080p  [en]");
    assert_eq!(r.entries[1].label, "Some.Movie.2020.720p  [fr]");
    assert_eq!(r.entries[0].members.len(), 1);
    assert_eq!(r.entries[1].members.len(), 1);
    assert_eq!(r.entries[0].score.matching, r.entries[0].score.length);
}

#[test]
fn popularity_order_keeps_grouping_order() {
    let query = "Some.Movie.2020.1080p";
    let cands = vec![
        candidate("Some.Movie.2020.720p", "fr", &[2]),
        candidate("Some.Movie.2020.1080p", "en", &[1]),
    ];
    let r = rank(query, cands, &Vec::new(), true);
    assert_eq!(r.entries[0].release, "Some.Movie.2020.720p");
    assert_eq!(r.entries[1].release, "Some.Movie.2020.1080p");
}

#[test]
fn scenario_language_filter_drops_other_languages() {
    let cands = vec![
        candidate("X.2020", "en", &[1]),
        candidate("Y.2020", "fr", &[2]),
        candidate("X.2020", "en", &[3]),
    ];
    let kept = filter_by_language(cands, &vec!["en".to_string()]);
    assert_eq!(kept.len(), 2);
    assert!(kept.iter().all(|c| c.language == "en"));

    let cands = vec![
        candidate("X.2020", "en", &[1]),
        candidate("Y.2020", "fr", &[2]),
        candidate("X.2020", "en", &[3]),
    ];
    let r = rank("X.2020", cands, &vec!["en".to_string()], false);
    assert_eq!(r.candidates.len(), 2);
    assert_eq!(r.entries.len(), 1);
    assert_eq!(r.entries[0].release, "X.2020");
    assert_eq!(r.entries[0].label, "X.2020  [en]");
    for e in &r.entries {
        for &m in &e.members {
            assert_ne!(r.candidates[m].language, "fr");
        }
    }
}

#[test]
fn filter_that_matches_nothing_gives_empty_ranking() {
    let cands = vec![candidate("X", "en", &[1])];
    let r = rank("X", cands, &vec!["tr".to_string()], false);
    assert!(r.candidates.is_empty());
    assert!(r.entries.is_empty());
    let r = rank("X", Vec::new(), &Vec::new(), false);
    assert!(r.entries.is_empty());
}

#[test]
fn label_lists_distinct_languages_in_group_order() {
    let cands = vec![
        candidate("R", "fr", &[1]),
        candidate("R", "en", &[2]),
        candidate("R", "fr", &[3]),
    ];
    let r = rank("R", cands, &Vec::new(), false);
    assert_eq!(r.entries.len(), 1);
    assert_eq!(r.entries[0].label, "R  [fr|en]");
    assert_eq!(r.entries[0].members, vec![0, 1, 2]);
}

#[test]
fn join_puts_pipes_between() {
    assert_eq!(join_with_pipe(&vec![]), "");
    assert_eq!(join_with_pipe(&vec!["a".to_string()]), "a");
    assert_eq!(join_with_pipe(&vec!["a".to_string(), "b".to_string(), "c".to_string()]), "a|b|c");
}

fn entry(release: &str, matching: usize, length: usize) -> RankedGroup {
    RankedGroup {
        label: release.to_string(),
        release: release.to_string(),
        members: vec![],
        score: Score { matching, length },
    }
}

#[test]
fn sort_is_descending_and_stable() {
    let items = vec![
        entry("a", 1, 2),
        entry("b", 3, 4),
        entry("c", 2, 4),
        entry("d", 9, 10),
        entry("e", 3, 4),
    ];
    let sorted = sort_by_score(items);
    let order: Vec<&str> = sorted.iter().map(|e| e.release.as_str()).collect();
    assert_eq!(order, vec!["d", "b", "e", "a", "c"]);
}

#[test]
fn ranking_twice_gives_same_order() {
    let make = || {
        vec![
            candidate("Movie.2019.WEB", "en", &[1]),
            candidate("Movie.2019.BluRay", "en", &[2]),
            candidate("Movie.2019", "de", &[3]),
            candidate("Other", "en", &[4]),
        ]
    };
    let a = rank("Movie.2019", make(), &Vec::new(), false);
    let b = rank("Movie.2019", make(), &Vec::new(), false);
    let la: Vec<String> = a.entries.iter().map(|e| e.label.clone()).collect();
    let lb: Vec<String> = b.entries.iter().map(|e| e.label.clone()).collect();
    assert_eq!(la, lb);
    assert_eq!(a.entries[0].release, "Movie.2019");
}
