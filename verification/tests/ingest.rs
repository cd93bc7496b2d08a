use math_genealogy::parser::Id;
use math_genealogy::parser::ScrapeRecord;
use math_genealogy::parser::Student;
use math_genealogy::store::Store;

fn jane_record() -> ScrapeRecord {
    ScrapeRecord {
        name: "Jane Doe".to_string(),
        students: vec![Student {
            name: "John Roe".to_string(),
            id: Some(Id(101)),
            school: None,
            year: None,
        }],
        dissertation: Some("On Widgets".to_string()),
        school: Some("Test University".to_string()),
        country: Some("Testland".to_string()),
        year: Some(1990),
        degree: None,
    }
}

#[test]
fn ingest_concrete_scenario() {
    let mut store = Store::new();
    store.insert_record(Id(100), &jane_record());

    assert!(store.has_mathematician(Id(100)));
    assert!(store.has_mathematician_named(Id(100), &"Jane Doe".to_string()));
    assert!(store.has_mathematician_named(Id(101), &"John Roe".to_string()));
    assert!(store.has_school(&"Test University".to_string()));
    assert!(store.has_country(&"Testland".to_string()));
    assert!(store.has_school_location(&"Test University".to_string(), &"Testland".to_string()));
    assert!(store.has_dissertation(&"On Widgets".to_string(), Id(100)));
    assert!(store.has_graduation_record(Id(100), &"Test University".to_string(), 1990));
    assert!(store.has_advisor_advisee(Id(100), Id(101)));
}

#[test]
fn ingest_twice_is_idempotent() {
    let mut store = Store::new();
    let record = jane_record();
    store.insert_record(Id(100), &record);
    store.insert_record(Id(100), &record);

    assert_eq!(store.node_count(), 2);
    assert_eq!(store.school_count(), 1);
    assert_eq!(store.country_count(), 1);
    assert_eq!(store.school_location_count(), 1);
    assert_eq!(store.dissertation_count(), 1);
    assert_eq!(store.graduation_record_count(), 1);
    assert_eq!(store.advisor_relation_count(), 1);
}

#[test]
fn edge_inserted_many_times_stays_one_row() {
    let mut store = Store::new();
    let record = jane_record();
    store.insert_record(Id(100), &record);
    store.insert_record(Id(100), &record);
    store.insert_record(Id(100), &record);
    assert_eq!(store.advisor_relation_count(), 1);
    assert!(store.has_advisor_advisee(Id(100), Id(101)));

    // the same student listed twice within one record still yields one edge
    let mut doubled = jane_record();
    let again = doubled.students[0].clone();
    doubled.students.push(again);
    let mut store2 = Store::new();
    store2.insert_record(Id(100), &doubled);
    assert_eq!(store2.advisor_relation_count(), 1);
}

#[test]
fn rollback_leaves_no_trace() {
    let mut store = Store::new();
    let mut txn = store.begin();
    // forced failure after the node insert but before the edge insert:
    // the transaction is rolled back instead of committed
    txn.insert_mathematician(Id(7), &"Someone".to_string());
    store.rollback(txn);

    assert!(!store.has_mathematician(Id(7)));
    assert_eq!(store.node_count(), 0);
    assert_eq!(store.advisor_relation_count(), 0);
}

#[test]
fn uncommitted_inserts_are_invisible() {
    let mut store = Store::new();
    let mut txn = store.begin();
    txn.insert_mathematician(Id(8), &"Unseen".to_string());
    txn.insert_advisor_relation(Id(8), Id(9));
    // nothing observable before commit
    assert!(!store.has_mathematician(Id(8)));
    assert!(!store.has_advisor_advisee(Id(8), Id(9)));
    store.commit(txn);
    assert!(store.has_mathematician(Id(8)));
    assert!(store.has_advisor_advisee(Id(8), Id(9)));
}

#[test]
fn double_insert_race_raises_no_error() {
    // two concurrent visits may both decide to ingest the same unknown
    // identifier; the conflict-skip semantics make the second harmless
    let mut store = Store::new();
    let record = jane_record();
    let mut t1 = store.begin();
    t1.insert_mathematician(Id(100), &record.name);
    t1.insert_advisor_relation(Id(100), Id(101));
    let mut t2 = store.begin();
    t2.insert_mathematician(Id(100), &record.name);
    t2.insert_advisor_relation(Id(100), Id(101));
    store.commit(t1);
    store.commit(t2);
    assert_eq!(store.node_count(), 1);
    assert_eq!(store.advisor_relation_count(), 1);
}

#[test]
fn first_write_wins_on_names() {
    let mut store = Store::new();
    let mut first = jane_record();
    first.students = vec![];
    store.insert_record(Id(5), &first);
    let mut second = first.clone();
    second.name = "Jane Altered".to_string();
    store.insert_record(Id(5), &second);

    assert_eq!(store.node_count(), 1);
    assert!(store.has_mathematician_named(Id(5), &"Jane Doe".to_string()));
    assert!(!store.has_mathematician_named(Id(5), &"Jane Altered".to_string()));
}

#[test]
fn partial_record_is_legal() {
    let mut store = Store::new();
    let record = ScrapeRecord {
        name: "Bare Node".to_string(),
        students: vec![],
        dissertation: None,
        school: None,
        country: None,
        year: None,
        degree: None,
    };
    store.insert_record(Id(1), &record);
    assert!(store.has_mathematician(Id(1)));
    assert_eq!(store.node_count(), 1);
    assert_eq!(store.school_count(), 0);
    assert_eq!(store.country_count(), 0);
    assert_eq!(store.school_location_count(), 0);
    assert_eq!(store.dissertation_count(), 0);
    assert_eq!(store.graduation_record_count(), 0);
    assert_eq!(store.advisor_relation_count(), 0);
}

#[test]
fn school_without_year_records_no_graduation() {
    let mut store = Store::new();
    let mut record = jane_record();
    record.year = None;
    store.insert_record(Id(2), &record);
    assert!(store.has_school(&"Test University".to_string()));
    assert_eq!(store.graduation_record_count(), 0);
}

#[test]
fn largest_identifier_and_year_are_stored() {
    let mut store = Store::new();
    let record = ScrapeRecord {
        name: "Edge Case".to_string(),
        students: vec![Student {
            name: "Far Student".to_string(),
            id: Some(Id(2147483647)),
            school: None,
            year: None,
        }],
        dissertation: None,
        school: Some("Somewhere".to_string()),
        country: None,
        year: Some(32767),
        degree: None,
    };
    store.insert_record(Id(2147483646), &record);
    assert!(store.has_mathematician(Id(2147483646)));
    assert!(store.has_mathematician(Id(2147483647)));
    assert!(store.has_graduation_record(Id(2147483646), &"Somewhere".to_string(), 32767));
    assert!(store.has_advisor_advisee(Id(2147483646), Id(2147483647)));
}

#[test]
fn student_without_identifier_is_not_stored() {
    let mut store = Store::new();
    let record = ScrapeRecord {
        name: "Mentor".to_string(),
        students: vec![Student {
            name: "Nameless Stub".to_string(),
            id: None,
            school: None,
            year: None,
        }],
        dissertation: None,
        school: None,
        country: None,
        year: None,
        degree: None,
    };
    store.insert_record(Id(3), &record);
    assert_eq!(store.node_count(), 1);
    assert_eq!(store.advisor_relation_count(), 0);
}
