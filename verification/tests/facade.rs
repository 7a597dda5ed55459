use locat::facade::{report, resolve_and_count, settle_resolution};
use locat::store::{CounterStore, StoreError};

#[test]
fn a_miss_returns_none_and_counts_nothing() {
    let mut store = CounterStore::new();
    let r = resolve_and_count(&mut store, None);
    assert_eq!(r, None);
    assert_eq!(report(&store).unwrap().len(), 0);
}

#[test]
fn a_hit_is_returned_and_counted() {
    let mut store = CounterStore::new();
    let r = resolve_and_count(&mut store, Some("US".to_string()));
    assert_eq!(r, Some("US".to_string()));
    assert_eq!(report(&store).unwrap(), vec![("US".to_string(), 1)]);
}

#[test]
fn a_persistence_failure_never_degrades_resolution() {
    let (r, diagnostic) = settle_resolution(
        Some("US".to_string()),
        Err(StoreError::Backend),
    );
    assert_eq!(r, Some("US".to_string()));
    assert_eq!(diagnostic, Some(StoreError::Backend));
}

#[test]
fn a_successful_count_reports_no_diagnostic() {
    let (r, diagnostic) = settle_resolution(Some("FR".to_string()), Ok(()));
    assert_eq!(r, Some("FR".to_string()));
    assert_eq!(diagnostic, None);
}

#[test]
fn a_miss_with_a_failing_store_still_settles_to_none() {
    let (r, diagnostic) = settle_resolution(None, Err(StoreError::Backend));
    assert_eq!(r, None);
    assert_eq!(diagnostic, Some(StoreError::Backend));
}

#[test]
fn report_reflects_every_count() {
    let mut store = CounterStore::new();
    resolve_and_count(&mut store, Some("US".to_string()));
    resolve_and_count(&mut store, Some("FR".to_string()));
    resolve_and_count(&mut store, None);
    resolve_and_count(&mut store, Some("US".to_string()));
    let mut rows = report(&store).unwrap();
    rows.sort();
    assert_eq!(rows, vec![("FR".to_string(), 1), ("US".to_string(), 2)]);
}
