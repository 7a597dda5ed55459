use locat::store::{bootstrap, CounterStore};

#[test]
fn test_db() {
    let mut db = CounterStore::new();

    let analytics = db.list().unwrap();
    assert_eq!(analytics.len(), 0);

    db.increment("US").unwrap();
    let analytics = db.list().unwrap();
    assert_eq!(analytics.len(), 1);

    db.increment("US").unwrap();
    db.increment("FR").unwrap();
    let analytics = db.list().unwrap();
    assert_eq!(analytics.len(), 2);
    // contains US at count 2
    assert!(analytics.contains(&("US".to_string(), 2)));
    // contains FR at count 1
    assert!(analytics.contains(&("FR".to_string(), 1)));
    // doesn't contain DE
    assert!(!analytics.contains(&("DE".to_string(), 0)));
}

#[test]
fn upsert_first_insert_then_raise() {
    let mut db = CounterStore::new();
    db.increment("US").unwrap();
    assert_eq!(db.list().unwrap(), vec![("US".to_string(), 1)]);
    db.increment("US").unwrap();
    assert_eq!(db.list().unwrap(), vec![("US".to_string(), 2)]);
}

#[test]
fn keys_are_independent() {
    let mut db = CounterStore::new();
    db.increment("US").unwrap();
    db.increment("US").unwrap();
    db.increment("FR").unwrap();
    let mut rows = db.list().unwrap();
    rows.sort();
    assert_eq!(rows, vec![("FR".to_string(), 1), ("US".to_string(), 2)]);
    assert!(!rows.iter().any(|(code, _)| code == "DE"));
    assert!(!rows.iter().any(|(_, count)| *count == 0));
}

#[test]
fn bootstrap_is_idempotent_and_keeps_counts() {
    // A first opening finds no table and starts empty.
    let mut db = bootstrap(None);
    assert_eq!(db.list().unwrap().len(), 0);

    db.increment("US").unwrap();
    db.increment("US").unwrap();

    // A second opening of the same store neither fails nor resets counts.
    let db = bootstrap(Some(db));
    assert_eq!(db.list().unwrap(), vec![("US".to_string(), 2)]);

    // Nor does a third.
    let db = bootstrap(Some(db));
    assert_eq!(db.list().unwrap(), vec![("US".to_string(), 2)]);
}

#[test]
fn any_string_is_accepted_as_key() {
    let mut db = CounterStore::new();
    db.increment("").unwrap();
    db.increment("not-a-country").unwrap();
    db.increment("").unwrap();
    let mut rows = db.list().unwrap();
    rows.sort();
    assert_eq!(
        rows,
        vec![("".to_string(), 2), ("not-a-country".to_string(), 1)]
    );
}
