use fixme_report::resolver::{IssueResolver, Step};

#[test]
fn unseen_issue_is_fetched() {
    let mut resolver = IssueResolver::new();
    assert_eq!(resolver.request(7698), Step::Fetch(7698));
}

#[test]
fn second_request_is_answered_from_the_cache() {
    let mut resolver = IssueResolver::new();
    assert_eq!(resolver.request(81658), Step::Fetch(81658));
    assert_eq!(resolver.complete(Some("Closed".to_string())), Some("Closed".to_string()));
    assert_eq!(resolver.request(81658), Step::Done("Closed".to_string()));
    assert_eq!(resolver.request(81658), Step::Done("Closed".to_string()));
}

#[test]
fn failed_lookup_is_kept_as_empty_status_and_not_repeated() {
    let mut resolver = IssueResolver::new();
    assert_eq!(resolver.request(404), Step::Fetch(404));
    assert_eq!(resolver.complete(None), Some(String::new()));
    assert_eq!(resolver.request(404), Step::Done(String::new()));
}

#[test]
fn failed_lookup_leaves_other_issues_alone() {
    let mut resolver = IssueResolver::new();
    assert_eq!(resolver.request(1000), Step::Fetch(1000));
    assert_eq!(resolver.complete(Some("Open".to_string())), Some("Open".to_string()));
    assert_eq!(resolver.request(2000), Step::Fetch(2000));
    assert_eq!(resolver.complete(None), Some(String::new()));
    assert_eq!(resolver.request(1000), Step::Done("Open".to_string()));
    assert_eq!(resolver.request(3000), Step::Fetch(3000));
    assert_eq!(resolver.complete(Some("Open".to_string())), Some("Open".to_string()));
    assert_eq!(resolver.request(2000), Step::Done(String::new()));
}

#[test]
fn no_second_lookup_starts_while_one_is_in_flight() {
    let mut resolver = IssueResolver::new();
    assert_eq!(resolver.request(1), Step::Fetch(1));
    assert_eq!(resolver.request(2), Step::Busy);
    assert_eq!(resolver.request(1), Step::Busy);
    assert_eq!(resolver.complete(Some("Open".to_string())), Some("Open".to_string()));
    assert_eq!(resolver.request(1), Step::Done("Open".to_string()));
    assert_eq!(resolver.request(2), Step::Fetch(2));
}

#[test]
fn known_status_is_handed_out_while_a_lookup_is_in_flight() {
    let mut resolver = IssueResolver::new();
    assert_eq!(resolver.request(1), Step::Fetch(1));
    assert_eq!(resolver.complete(Some("Closed".to_string())), Some("Closed".to_string()));
    assert_eq!(resolver.request(2), Step::Fetch(2));
    assert_eq!(resolver.request(1), Step::Done("Closed".to_string()));
}

#[test]
fn outcome_without_a_lookup_in_flight_changes_nothing() {
    let mut resolver = IssueResolver::new();
    assert_eq!(resolver.complete(Some("Open".to_string())), None);
    assert_eq!(resolver.request(5), Step::Fetch(5));
    assert_eq!(resolver.complete(Some("Open".to_string())), Some("Open".to_string()));
    assert_eq!(resolver.complete(Some("Closed".to_string())), None);
    assert_eq!(resolver.request(5), Step::Done("Open".to_string()));
}

#[test]
fn calls_are_made_in_the_order_of_first_encounter() {
    let mut resolver = IssueResolver::new();
    let mut fetched = Vec::new();
    for id in [30u64, 10, 30, 20, 10, 30] {
        if let Step::Fetch(asked) = resolver.request(id) {
            fetched.push(asked);
            resolver.complete(Some(format!("state of {asked}")));
        }
    }
    assert_eq!(fetched, vec![30, 10, 20]);
}
