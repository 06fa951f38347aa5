use subtle::catalog::{File, SearchCandidate};
use subtle::ranking::{rank, Ranking};
use subtle::selection::{
    file_labels, group_files, make_file_label, start, step, SelectionAction, SelectionEvent,
    SelectionState,
};

fn ranking() -> Ranking {
    let cands = vec![
        SearchCandidate {
            release: "Show.S01E01".to_string(),
            language: "en".to_string(),
            download_count: 5,
            files: vec![
                File { file_id: 11, cd_number: 1, file_name: "a.srt".to_string() },
                File { file_id: 12, cd_number: 2, file_name: "b.srt".to_string() },
            ],
        },
        SearchCandidate {
            release: "Show.S01E01".to_string(),
            language: "fr".to_string(),
            download_count: 3,
            files: vec![File { file_id: -7, cd_number: 1, file_name: "c.srt".to_string() }],
        },
    ];
    rank("Show.S01E01", cands, &Vec::new(), false)
}

#[test]
fn session_starts_listing_groups() {
    let (s, a) = start();
    assert_eq!(s, SelectionState::ListingGroups);
    assert!(matches!(a, SelectionAction::PresentGroups));
}

#[test]
fn cancel_from_group_list_exits() {
    let r = ranking();
    let (s, a) = step(&r, SelectionState::ListingGroups, SelectionEvent::Cancelled);
    assert_eq!(s, SelectionState::Exiting);
    assert!(matches!(a, SelectionAction::Finish));
}

#[test]
fn cancel_from_file_list_goes_back_once() {
    let r = ranking();
    let (s, a) = step(&r, SelectionState::ConfirmingFile { group: 0 }, SelectionEvent::Cancelled);
    assert_eq!(s, SelectionState::ListingGroups);
    assert!(matches!(a, SelectionAction::PresentGroups));
    let (s, _) = step(&r, s, SelectionEvent::Cancelled);
    assert_eq!(s, SelectionState::Exiting);
}

#[test]
fn choosing_walks_to_link_resolution() {
    let r = ranking();
    let (s, a) = step(&r, SelectionState::ListingGroups, SelectionEvent::Chosen(0));
    assert_eq!(s, SelectionState::ConfirmingFile { group: 0 });
    assert!(matches!(a, SelectionAction::PresentFiles { group: 0 }));
    let (s, a) = step(&r, s, SelectionEvent::Chosen(2));
    assert_eq!(s, SelectionState::Downloading { group: 0, file: 2 });
    assert!(matches!(a, SelectionAction::ResolveLink { file_id: -7 }));
    let (s, a) = step(&r, s, SelectionEvent::LinkResolved("https://x/y.zip".to_string()));
    assert_eq!(s, SelectionState::Exiting);
    match a {
        SelectionAction::Download { url } => assert_eq!(url, "https://x/y.zip"),
        other => panic!("unexpected action {:?}", other),
    }
}

#[test]
fn scenario_missing_link_reports_failure_without_download() {
    let r = ranking();
    let (s, a) = step(
        &r,
        SelectionState::Downloading { group: 0, file: 0 },
        SelectionEvent::LinkMissing,
    );
    assert_eq!(s, SelectionState::Exiting);
    assert!(matches!(a, SelectionAction::ReportFailure));
}

#[test]
fn out_of_range_choice_represents_the_list() {
    let r = ranking();
    let (s, a) = step(&r, SelectionState::ListingGroups, SelectionEvent::Chosen(5));
    assert_eq!(s, SelectionState::ListingGroups);
    assert!(matches!(a, SelectionAction::PresentGroups));
    let (s, a) = step(&r, SelectionState::ConfirmingFile { group: 0 }, SelectionEvent::Chosen(3));
    assert_eq!(s, SelectionState::ConfirmingFile { group: 0 });
    assert!(matches!(a, SelectionAction::PresentFiles { group: 0 }));
}

#[test]
fn exiting_is_terminal() {
    let r = ranking();
    let (s, a) = step(&r, SelectionState::Exiting, SelectionEvent::Chosen(0));
    assert_eq!(s, SelectionState::Exiting);
    assert!(matches!(a, SelectionAction::Finish));
}

#[test]
fn group_files_are_listed_member_by_member() {
    let r = ranking();
    let refs = group_files(&r, 0);
    let pairs: Vec<(usize, usize)> = refs.iter().map(|f| (f.candidate, f.file)).collect();
    assert_eq!(pairs, vec![(0, 0), (0, 1), (1, 0)]);
    let labels = file_labels(&r, 0);
    assert_eq!(labels, vec!["a.srt [id: 11]", "b.srt [id: 12]", "c.srt [id: -7]"]);
}

#[test]
fn file_label_format() {
    let f = File { file_id: 4022, cd_number: 1, file_name: "Movie.srt".to_string() };
    assert_eq!(make_file_label(&f), "Movie.srt [id: 4022]");
}
