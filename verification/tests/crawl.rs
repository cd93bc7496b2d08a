use math_genealogy::fetch::FetchExhausted;
use math_genealogy::fetch::RetryAction;
use math_genealogy::fetch::RetryPolicy;
use math_genealogy::parser::Id;
use math_genealogy::parser::ScrapeRecord;
use math_genealogy::scheduler::dispatch_decision;
use math_genealogy::scheduler::event_of_error;
use math_genealogy::scheduler::should_scrape_student;
use math_genealogy::scheduler::should_visit;
use math_genealogy::scheduler::visit_step;
use math_genealogy::scheduler::VisitError;
use math_genealogy::scheduler::VisitEvent;
use math_genealogy::scheduler::VisitState;
use math_genealogy::store::Store;

#[test]
fn retry_succeeds_on_third_attempt() {
    let policy = RetryPolicy::new();
    let outcomes = vec![false, false, true];
    assert_eq!(policy.fetch_outcome(&outcomes), Ok(3));
}

#[test]
fn retry_exhausts_after_three_attempts() {
    let policy = RetryPolicy::new();
    let outcomes = vec![false, false, false];
    assert_eq!(policy.fetch_outcome(&outcomes), Err(FetchExhausted));
}

#[test]
fn retry_stops_at_first_success() {
    let policy = RetryPolicy::new();
    assert_eq!(policy.fetch_outcome(&vec![true, false, false]), Ok(1));
    assert_eq!(policy.fetch_outcome(&vec![false, true, false]), Ok(2));
}

#[test]
fn decide_backoff_lies_in_bounds() {
    let policy = RetryPolicy::new();
    assert_eq!(policy.decide(1, true), RetryAction::Done);
    assert_eq!(policy.decide(3, false), RetryAction::GiveUp);
    match policy.decide(1, false) {
        RetryAction::RetryAfterMillis(ms) => {
            assert!((10000..30000).contains(&ms));
        }
        other => panic!("expected a retry, got {:?}", other),
    }
}

#[test]
fn known_node_is_never_fetched() {
    let mut store = Store::new();
    let record = ScrapeRecord {
        name: "Known One".to_string(),
        students: vec![],
        dissertation: None,
        school: None,
        country: None,
        year: None,
        degree: None,
    };
    store.insert_record(Id(42), &record);

    assert!(!should_visit(&store, Id(42)));
    assert!(should_visit(&store, Id(43)));
    assert!(!dispatch_decision(true));
    assert!(dispatch_decision(false));

    // the lifecycle agrees: a known candidate never enters Fetching
    let after = visit_step(VisitState::Unvisited, VisitEvent::OracleKnown);
    assert_eq!(after, VisitState::Unvisited);
    assert_ne!(after, VisitState::Fetching);
}

#[test]
fn student_skip_requires_node_and_edge() {
    let mut store = Store::new();
    let record = ScrapeRecord {
        name: "Advisor".to_string(),
        students: vec![],
        dissertation: None,
        school: None,
        country: None,
        year: None,
        degree: None,
    };
    store.insert_record(Id(10), &record);
    let student = ScrapeRecord {
        name: "Student".to_string(),
        students: vec![],
        dissertation: None,
        school: None,
        country: None,
        year: None,
        degree: None,
    };
    store.insert_record(Id(11), &student);

    // the node exists but the edge does not: still scraped
    assert!(should_scrape_student(&store, Id(10), Id(11)));
    // an unknown student: scraped
    assert!(should_scrape_student(&store, Id(10), Id(12)));

    let mut txn = store.begin();
    txn.insert_advisor_relation(Id(10), Id(11));
    store.commit(txn);
    // both node and edge exist: skipped
    assert!(!should_scrape_student(&store, Id(10), Id(11)));
}

#[test]
fn visit_lifecycle_commits_or_abandons() {
    let mut s = VisitState::Unvisited;
    s = visit_step(s, VisitEvent::OracleUnknown);
    assert_eq!(s, VisitState::Fetching);
    s = visit_step(s, VisitEvent::FetchSucceeded);
    assert_eq!(s, VisitState::Extracting);
    s = visit_step(s, VisitEvent::ExtractSucceeded);
    assert_eq!(s, VisitState::Ingesting);
    s = visit_step(s, VisitEvent::IngestSucceeded);
    assert_eq!(s, VisitState::Committed);

    let failed = visit_step(VisitState::Fetching, VisitEvent::FetchFailed);
    assert_eq!(failed, VisitState::Abandoned);
    let failed = visit_step(VisitState::Extracting, VisitEvent::ExtractFailed);
    assert_eq!(failed, VisitState::Abandoned);
    let failed = visit_step(VisitState::Ingesting, VisitEvent::IngestFailed);
    assert_eq!(failed, VisitState::Abandoned);
}

#[test]
fn every_failure_kind_maps_to_its_event() {
    assert_eq!(event_of_error(&VisitError::FetchExhausted), VisitEvent::FetchFailed);
    assert_eq!(event_of_error(&VisitError::ExtractionFailure), VisitEvent::ExtractFailed);
    assert_eq!(event_of_error(&VisitError::IngestFailure), VisitEvent::IngestFailed);
}
