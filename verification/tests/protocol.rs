use locat::protocol::{handle, handle_all, Reply, Request};
use locat::store::CounterStore;

#[test]
fn increment_request_is_acknowledged() {
    let mut store = CounterStore::new();
    let rep = handle(&mut store, &Request::Increment("US".to_string()));
    assert!(matches!(rep, Reply::Done));
    assert_eq!(store.list().unwrap(), vec![("US".to_string(), 1)]);
}

#[test]
fn list_request_returns_a_snapshot() {
    let mut store = CounterStore::new();
    handle(&mut store, &Request::Increment("US".to_string()));
    handle(&mut store, &Request::Increment("FR".to_string()));
    let rep = handle(&mut store, &Request::List);
    match rep {
        Reply::Rows(mut rows) => {
            rows.sort();
            assert_eq!(rows, vec![("FR".to_string(), 1), ("US".to_string(), 1)]);
        }
        _ => panic!("a list request must be answered with rows"),
    }
}

#[test]
fn hundreds_of_ordered_increments_lose_nothing() {
    let mut store = CounterStore::new();
    let n = 300;
    let reqs: Vec<Request> = (0..n)
        .map(|_| Request::Increment("US".to_string()))
        .collect();
    let reps = handle_all(&mut store, reqs);
    assert_eq!(reps.len(), n);
    assert!(reps.iter().all(|r| matches!(r, Reply::Done)));
    assert_eq!(store.list().unwrap(), vec![("US".to_string(), n as u64)]);
}

#[test]
fn a_queued_list_sees_exactly_the_prefix_before_it() {
    let mut store = CounterStore::new();
    let reqs = vec![
        Request::Increment("US".to_string()),
        Request::List,
        Request::Increment("US".to_string()),
        Request::List,
    ];
    let reps = handle_all(&mut store, reqs);
    assert_eq!(reps.len(), 4);
    match &reps[1] {
        Reply::Rows(rows) => assert_eq!(rows, &vec![("US".to_string(), 1)]),
        _ => panic!("a list request must be answered with rows"),
    }
    match &reps[3] {
        Reply::Rows(rows) => assert_eq!(rows, &vec![("US".to_string(), 2)]),
        _ => panic!("a list request must be answered with rows"),
    }
}
