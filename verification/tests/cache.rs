use loupe::api::{CommitMetadataRequest, Error};
use loupe::cache::{ApiCache, FetchAction};

type Cache = ApiCache<CommitMetadataRequest, Result<String, Error>, u32, &'static str>;

fn key(commit: &str) -> CommitMetadataRequest {
    CommitMetadataRequest { commit: commit.to_string(), file: "bench.json".to_string() }
}

fn is_call(action: &FetchAction<Result<String, Error>, u32>) -> bool {
    matches!(action, FetchAction::Call)
}

fn is_wait(action: &FetchAction<Result<String, Error>, u32>) -> bool {
    matches!(action, FetchAction::Wait)
}

#[test]
fn first_fetch_issues_the_call() {
    let mut cache = Cache::new();
    assert!(is_call(&cache.fetch(&key("a"), 1)));
}

#[test]
fn concurrent_fetches_are_coalesced() {
    let mut cache = Cache::new();
    let mut calls = 0;
    for waiter in 0..5u32 {
        match cache.fetch(&key("a"), waiter) {
            FetchAction::Call => calls += 1,
            FetchAction::Wait => {}
            FetchAction::Deliver(..) => panic!("nothing has resolved yet"),
        }
    }
    assert_eq!(calls, 1);
    let deliveries = cache.complete(&key("a"), Ok("payload".to_string()));
    let expected: Vec<(u32, Result<String, Error>)> =
        (0..5u32).map(|w| (w, Ok("payload".to_string()))).collect();
    assert_eq!(deliveries, expected);
}

#[test]
fn waiters_are_served_in_the_order_they_came() {
    let mut cache = Cache::new();
    for waiter in [7u32, 3, 9, 1] {
        cache.fetch(&key("a"), waiter);
    }
    let order: Vec<u32> =
        cache.complete(&key("a"), Ok(String::new())).into_iter().map(|(w, _)| w).collect();
    assert_eq!(order, vec![7, 3, 9, 1]);
}

#[test]
fn keys_do_not_mix() {
    let mut cache = Cache::new();
    assert!(is_call(&cache.fetch(&key("a"), 1)));
    assert!(is_call(&cache.fetch(&key("b"), 2)));
    assert!(is_wait(&cache.fetch(&key("a"), 3)));
    let other_file = CommitMetadataRequest { commit: "a".to_string(), file: "other".to_string() };
    assert!(is_call(&cache.fetch(&other_file, 4)));
    let of_b = cache.complete(&key("b"), Ok("b".to_string()));
    assert_eq!(of_b, vec![(2, Ok("b".to_string()))]);
    let of_a = cache.complete(&key("a"), Ok("a".to_string()));
    assert_eq!(of_a, vec![(1, Ok("a".to_string())), (3, Ok("a".to_string()))]);
}

#[test]
fn resolved_key_is_served_at_once_and_for_good() {
    let mut cache = Cache::new();
    cache.fetch(&key("a"), 1);
    cache.complete(&key("a"), Ok("payload".to_string()));
    for waiter in 10..20u32 {
        match cache.fetch(&key("a"), waiter) {
            FetchAction::Deliver(w, result) => {
                assert_eq!(w, waiter);
                assert_eq!(result, Ok("payload".to_string()));
            }
            _ => panic!("a resolved key issues no call and queues nobody"),
        }
    }
}

#[test]
fn failure_is_kept_like_a_success() {
    let mut cache = Cache::new();
    cache.fetch(&key("a"), 1);
    let deliveries = cache.complete(&key("a"), Err(Error::Http(500)));
    assert_eq!(deliveries, vec![(1, Err(Error::Http(500)))]);
    match cache.fetch(&key("a"), 2) {
        FetchAction::Deliver(2, Err(Error::Http(500))) => {}
        _ => panic!("the failure is the result of the key"),
    }
}

#[test]
fn second_completion_does_not_replace_the_result() {
    let mut cache = Cache::new();
    cache.fetch(&key("a"), 1);
    cache.complete(&key("a"), Ok("first".to_string()));
    assert!(cache.complete(&key("a"), Ok("second".to_string())).is_empty());
    match cache.fetch(&key("a"), 2) {
        FetchAction::Deliver(_, result) => assert_eq!(result, Ok("first".to_string())),
        _ => panic!("the key has resolved"),
    }
}

#[test]
fn completion_of_unknown_key_resolves_it() {
    let mut cache = Cache::new();
    assert!(cache.complete(&key("a"), Err(Error::Fetch("offline".to_string()))).is_empty());
    match cache.fetch(&key("a"), 1) {
        FetchAction::Deliver(1, Err(Error::Fetch(message))) => assert_eq!(message, "offline"),
        _ => panic!("the key has resolved"),
    }
}

#[test]
fn handle_is_kept_once_while_in_flight() {
    let mut cache = Cache::new();
    assert_eq!(cache.in_flight(&key("a"), "early"), Some("early"));
    cache.fetch(&key("a"), 1);
    assert_eq!(cache.in_flight(&key("a"), "task"), None);
    assert_eq!(cache.in_flight(&key("a"), "again"), Some("again"));
    assert!(is_wait(&cache.fetch(&key("a"), 2)));
    assert_eq!(cache.complete(&key("a"), Ok(String::new())).len(), 2);
    assert_eq!(cache.in_flight(&key("a"), "late"), Some("late"));
}

#[test]
fn request_that_could_not_be_started_is_forgotten() {
    let mut cache = Cache::new();
    assert!(is_call(&cache.fetch(&key("a"), 1)));
    assert!(is_wait(&cache.fetch(&key("a"), 2)));
    assert_eq!(cache.abandon(&key("a")), vec![1, 2]);
    // the key is unknown again: the request is issued anew
    assert!(is_call(&cache.fetch(&key("a"), 3)));
    assert_eq!(cache.in_flight(&key("a"), "task"), None);
    assert_eq!(cache.complete(&key("a"), Ok("late".to_string())), vec![(3, Ok("late".to_string()))]);
}

#[test]
fn started_or_resolved_request_is_not_taken_back() {
    let mut cache = Cache::new();
    assert!(cache.abandon(&key("a")).is_empty());
    cache.fetch(&key("a"), 1);
    cache.fetch(&key("b"), 2);
    assert_eq!(cache.in_flight(&key("a"), "task"), None);
    assert!(cache.abandon(&key("a")).is_empty());
    assert!(is_wait(&cache.fetch(&key("a"), 3)));
    assert_eq!(cache.complete(&key("a"), Ok(String::new())).len(), 2);
    assert!(cache.abandon(&key("a")).is_empty());
    match cache.fetch(&key("a"), 4) {
        FetchAction::Deliver(4, Ok(_)) => {}
        _ => panic!("the key has resolved"),
    }
    // taking back one key leaves the others alone
    assert_eq!(cache.abandon(&key("b")), vec![2]);
    assert!(is_call(&cache.fetch(&key("b"), 5)));
}
