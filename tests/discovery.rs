use sos_ratings::discovery::{page_team_ids, team_id_from_ref, Discovery, Page};

fn team_ref(id: &str) -> String {
    format!(
        "http://sports.core.api.espn.com/v2/sports/football/leagues/college-football/seasons/2024/teams/{}?lang=en&region=us",
        id
    )
}

fn page(page_index: u64, page_count: u64, ids: &[&str]) -> Page {
    Page { page_index, page_count, refs: ids.iter().map(|i| team_ref(i)).collect() }
}

#[test]
fn reads_id_before_query() {
    assert_eq!(team_id_from_ref(&team_ref("333")), Some(333));
    assert_eq!(team_id_from_ref("a/b/42?x"), Some(42));
    assert_eq!(team_id_from_ref("/7?"), Some(7));
}

#[test]
fn plus_sign_and_bounds() {
    assert_eq!(team_id_from_ref("teams/+12?q"), Some(12));
    assert_eq!(team_id_from_ref("teams/4294967295?q"), Some(4294967295));
    assert_eq!(team_id_from_ref("teams/4294967296?q"), None);
    assert_eq!(team_id_from_ref("teams/-1?q"), None);
    assert_eq!(team_id_from_ref("teams/+?q"), None);
}

#[test]
fn malformed_refs_are_rejected() {
    assert_eq!(team_id_from_ref("teams/333"), None);
    assert_eq!(team_id_from_ref("333?lang=en"), None);
    assert_eq!(team_id_from_ref("teams/?lang=en"), None);
    assert_eq!(team_id_from_ref("teams/3a3?lang=en"), None);
    assert_eq!(team_id_from_ref(""), None);
}

#[test]
fn last_slash_and_first_question_mark() {
    assert_eq!(team_id_from_ref("a/1/2?x/3?y"), Some(3));
    assert_eq!(team_id_from_ref("a/1?b/2?c?d"), Some(2));
}

#[test]
fn malformed_ref_dropped_among_others() {
    let refs = vec![team_ref("5"), "not a reference".to_string(), team_ref("x9"), team_ref("8")];
    assert_eq!(page_team_ids(&refs), vec![5, 8]);
}

#[test]
fn two_pages_give_union() {
    let pages = vec![page(1, 2, &["1", "2"]), page(2, 2, &["3"])];
    let mut d = Discovery::new();
    let mut requested = vec![];
    for p in &pages {
        requested.push(d.next_page());
        if d.accept_page(p) {
            break;
        }
    }
    assert_eq!(requested, vec![1, 2]);
    assert_eq!(d.team_ids(), &vec![1, 2, 3]);
}

#[test]
fn empty_page_does_not_end_walk() {
    let mut d = Discovery::new();
    assert!(!d.accept_page(&page(1, 3, &[])));
    assert!(!d.accept_page(&page(2, 3, &["4"])));
    assert!(d.accept_page(&page(3, 3, &[])));
    assert_eq!(d.team_ids(), &vec![4]);
    assert_eq!(d.next_page(), 4);
}

#[test]
fn single_page_listing() {
    let mut d = Discovery::new();
    assert_eq!(d.next_page(), 1);
    assert!(d.accept_page(&page(1, 1, &["10", "20"])));
    assert_eq!(d.team_ids(), &vec![10, 20]);
}

#[test]
fn walk_over_two_pages() {
    let pages = vec![page(1, 2, &["1", "2"]), page(2, 2, &["3"])];
    assert_eq!(Discovery::walk_pages(&pages), Some(vec![1, 2, 3]));
}

#[test]
fn walk_stops_at_reported_last_page() {
    let pages = vec![page(1, 1, &["1"]), page(2, 2, &["3"])];
    assert_eq!(Discovery::walk_pages(&pages), Some(vec![1]));
}

#[test]
fn walk_without_last_page() {
    let pages = vec![page(1, 3, &["1"]), page(2, 3, &["3"])];
    assert_eq!(Discovery::walk_pages(&pages), None);
    assert_eq!(Discovery::walk_pages(&vec![]), None);
}
