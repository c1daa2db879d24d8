use loupe::api::{CommitListRequest, CommitMetadataRequest, Error};
use loupe::commit::{CommitInfo, Timestamp, UserInfo};
use loupe::collection::{Collection, Step};
use loupe::dataset::{sort_pages, CommitDataSet, COMMITS_PAGE_SIZE};
use loupe::range::Range;

fn commit(sha: &str) -> CommitInfo {
    CommitInfo {
        sha: sha.to_string(),
        author: UserInfo { name: "Ada".to_string(), email: "ada@example.org".to_string() },
        author_date: Timestamp { secs: 1589978096, nanos: 0 },
        committer: UserInfo { name: "Bot".to_string(), email: "bot@example.org".to_string() },
        commit_date: Timestamp { secs: 1589978096, nanos: 0 },
        message: format!("commit {}", sha),
        view_url: format!("https://example.org/{}", sha),
    }
}

fn page(first: u32, len: u32) -> Vec<CommitInfo> {
    (first..first + len).map(|i| commit(&format!("sha{:03}", i))).collect()
}

fn shas(commits: &[CommitInfo]) -> Vec<String> {
    commits.iter().map(|c| c.sha.clone()).collect()
}

fn wait(step: Step) {
    assert!(matches!(step, Step::Wait));
}

fn metadata_requests(step: Step) -> Vec<CommitMetadataRequest> {
    match step {
        Step::FetchMetadata(requests) => requests,
        _ => panic!("the listing is complete: metadata requests are due"),
    }
}

fn done(step: Step) -> Result<CommitDataSet, Error> {
    match step {
        Step::Done(outcome) => outcome,
        _ => panic!("the collection has ended"),
    }
}

#[test]
fn page_size_is_fifty() {
    assert_eq!(COMMITS_PAGE_SIZE, 50);
}

#[test]
fn pages_are_put_in_ascending_order() {
    let sorted = sort_pages(vec![(3, 'c'), (1, 'a'), (2, 'b')]);
    assert_eq!(sorted, vec![(1, 'a'), (2, 'b'), (3, 'c')]);
    assert_eq!(sort_pages(Vec::<(u32, char)>::new()), Vec::new());
    // entries of one page keep their order
    assert_eq!(sort_pages(vec![(2, 'x'), (1, 'y'), (2, 'z'), (1, 'w')]), vec![
        (1, 'y'),
        (1, 'w'),
        (2, 'x'),
        (2, 'z')
    ]);
}

#[test]
fn listing_is_joined_in_page_order_and_sampled() {
    let range = Range::new(None, 100, 50);
    let pages = vec![(2, Ok(page(50, 50))), (1, Ok(page(0, 50)))];
    let commits = CommitDataSet::handle_completed_commits_fetch(&range, pages).unwrap();
    let expected: Vec<String> = (0..50).map(|i| format!("sha{:03}", 2 * i)).collect();
    assert_eq!(shas(&commits), expected);
}

#[test]
fn listing_fails_with_the_first_failure_in_page_order() {
    let range = Range::new(None, 50, 50);
    let pages = vec![
        (3, Err(Error::Http(503))),
        (1, Ok(page(0, 50))),
        (2, Err(Error::Fetch("reset".to_string()))),
    ];
    assert_eq!(
        CommitDataSet::handle_completed_commits_fetch(&range, pages),
        Err(Error::Fetch("reset".to_string()))
    );
}

#[test]
fn listing_without_pages_is_empty() {
    let range = Range::new(None, 50, 50);
    assert_eq!(CommitDataSet::handle_completed_commits_fetch(&range, Vec::new()), Ok(Vec::new()));
}

#[test]
fn one_metadata_request_per_commit() {
    let requests = CommitDataSet::request_commits_metadata("bench.json", &page(0, 3));
    let expected: Vec<CommitMetadataRequest> = ["sha000", "sha001", "sha002"]
        .iter()
        .map(|sha| CommitMetadataRequest { commit: sha.to_string(), file: "bench.json".to_string() })
        .collect();
    assert_eq!(requests, expected);
    assert!(CommitDataSet::request_commits_metadata("bench.json", &Vec::new()).is_empty());
}

#[test]
fn one_not_found_among_five_leaves_four_entries() {
    let commits = page(0, 5);
    let responses: Vec<(String, Result<String, Error>)> = (0..5)
        .map(|i| {
            let sha = format!("sha{:03}", i);
            if i == 2 {
                (sha, Err(Error::Http(404)))
            } else {
                (sha, Ok(format!("{{\"value\": {}}}", i)))
            }
        })
        .collect();
    let dataset = CommitDataSet::handle_completed_metadata_fetch(commits, responses);
    assert_eq!(dataset.commits, page(0, 5));
    assert_eq!(dataset.metadata.len(), 4);
    assert!(dataset.metadata.get("sha002").is_none());
    assert_eq!(dataset.metadata.get("sha000"), Some(&"{\"value\": 0}".to_string()));
    assert_eq!(dataset.metadata.get("sha004"), Some(&"{\"value\": 4}".to_string()));
}

#[test]
fn no_metadata_failure_is_fatal() {
    let responses = vec![
        ("sha000".to_string(), Err(Error::Http(500))),
        ("sha001".to_string(), Err(Error::Fetch("reset".to_string()))),
        ("sha002".to_string(), Err(Error::Http(404))),
    ];
    let dataset = CommitDataSet::handle_completed_metadata_fetch(page(0, 3), responses);
    assert_eq!(dataset.commits.len(), 3);
    assert!(dataset.metadata.is_empty());
}

#[test]
fn collection_asks_for_the_pages_of_the_window() {
    let range = Range::new(Some("main".to_string()), 50, 50);
    let (_, requests): (Collection<()>, _) = CommitDataSet::collect_range("o/r", "bench.json", range);
    let expected: Vec<CommitListRequest> = (1..=2)
        .map(|page| CommitListRequest {
            repo: "o/r".to_string(),
            from: Some("main".to_string()),
            page,
            count: 50,
        })
        .collect();
    assert_eq!(requests, expected);
}

#[test]
fn collection_of_a_wide_window_asks_for_one_page() {
    let (_, requests): (Collection<()>, _) =
        CommitDataSet::collect_range("o/r", "bench.json", Range::new(None, 100, 50));
    assert_eq!(requests.len(), 1);
    assert_eq!(requests[0].page, 1);
    assert_eq!(requests[0].from, None);
}

#[test]
fn collection_runs_through_both_stages() {
    let range = Range::new(None, 50, 50);
    let (mut collection, requests): (Collection<u8>, _) =
        CommitDataSet::collect_range("o/r", "bench.json", range);
    assert_eq!(requests.len(), 2);
    assert_eq!(collection.commits_in_flight(1, 1), None);
    wait(collection.commits_received(2, Ok(page(50, 3))));
    assert_eq!(collection.commits_in_flight(2, 2), Some(2));
    wait(collection.commits_issued());
    let asked = metadata_requests(collection.commits_received(1, Ok(page(0, 50))));
    // 53 commits, stride 1, 50 samples: the first fifty
    assert_eq!(asked.len(), 50);
    assert_eq!(asked[0].commit, "sha000");
    assert_eq!(asked[49].commit, "sha049");
    assert!(asked.iter().all(|r| r.file == "bench.json"));
    assert_eq!(collection.commits_in_flight(1, 3), Some(3));
    wait(collection.commits_received(1, Ok(page(0, 50))));

    for (i, request) in asked.iter().enumerate() {
        let response = if i == 10 {
            Err(Error::Http(404))
        } else if i == 20 {
            Err(Error::Fetch("reset".to_string()))
        } else {
            Ok(format!("payload {}", i))
        };
        assert_eq!(collection.metadata_in_flight(request.commit.clone(), 9), None);
        wait(collection.metadata_received(request.commit.clone(), response));
    }
    let dataset = done(collection.metadata_issued()).unwrap();
    assert_eq!(shas(&dataset.commits), shas(&page(0, 50)));
    assert_eq!(dataset.metadata.len(), 48);
    assert_eq!(dataset.metadata.get("sha000"), Some(&"payload 0".to_string()));
    assert!(dataset.metadata.get("sha010").is_none());
    assert!(dataset.metadata.get("sha020").is_none());
    assert_eq!(dataset.metadata.get("sha049"), Some(&"payload 49".to_string()));

    wait(collection.metadata_issued());
    wait(collection.metadata_received("sha000".to_string(), Ok(String::new())));
    wait(collection.commits_issued());
}

#[test]
fn last_metadata_response_ends_the_collection() {
    let (mut collection, _): (Collection<()>, _) =
        CommitDataSet::collect_range("o/r", "f", Range::new(None, 100, 2));
    wait(collection.commits_issued());
    let asked = metadata_requests(collection.commits_received(1, Ok(page(0, 50))));
    // stride 50: only the first commit of the fifty is reached
    assert_eq!(asked.len(), 1);
    wait(collection.metadata_issued());
    let dataset = done(collection.metadata_received("sha000".to_string(), Ok("x".to_string())));
    let dataset = dataset.unwrap();
    assert_eq!(dataset.commits.len(), 1);
    assert_eq!(dataset.metadata.len(), 1);
}

#[test]
fn failed_page_ends_the_collection_without_metadata_requests() {
    let (mut collection, requests): (Collection<()>, _) =
        CommitDataSet::collect_range("o/r", "f", Range::new(None, 20, 5));
    assert_eq!(requests.len(), 3);
    wait(collection.commits_received(3, Err(Error::Http(500))));
    wait(collection.commits_received(1, Ok(page(0, 50))));
    wait(collection.commits_issued());
    let outcome = done(collection.commits_received(2, Err(Error::Http(403))));
    assert_eq!(outcome.err(), Some(Error::Http(403)));
    // nothing more comes out of a collection that has failed
    wait(collection.commits_received(2, Ok(page(50, 50))));
    wait(collection.commits_issued());
    wait(collection.metadata_issued());
    wait(collection.metadata_received("sha000".to_string(), Ok(String::new())));
    assert_eq!(collection.metadata_in_flight("sha000".to_string(), ()), Some(()));
}

#[test]
fn empty_listing_yields_an_empty_data_set() {
    let (mut collection, _): (Collection<()>, _) =
        CommitDataSet::collect_range("o/r", "f", Range::new(None, 100, 50));
    wait(collection.commits_received(1, Ok(Vec::new())));
    let asked = metadata_requests(collection.commits_issued());
    assert!(asked.is_empty());
    let dataset = done(collection.metadata_issued()).unwrap();
    assert!(dataset.commits.is_empty());
    assert!(dataset.metadata.is_empty());
}

#[test]
fn metadata_stage_ignores_listing_events() {
    let (mut collection, _): (Collection<()>, _) =
        CommitDataSet::collect_range("o/r", "f", Range::new(None, 100, 50));
    wait(collection.commits_issued());
    // stride 2: the first and the third of three commits
    let asked = metadata_requests(collection.commits_received(1, Ok(page(0, 3))));
    assert_eq!(asked.len(), 2);
    wait(collection.commits_issued());
    wait(collection.commits_received(1, Err(Error::Http(500))));
    wait(collection.metadata_received("sha002".to_string(), Ok("b".to_string())));
    wait(collection.metadata_received("sha000".to_string(), Ok("a".to_string())));
    let dataset = done(collection.metadata_issued()).unwrap();
    assert_eq!(dataset.metadata.len(), 2);
}

#[test]
fn collection_stalls_when_a_page_request_cannot_be_issued() {
    let (mut collection, requests): (Collection<()>, _) =
        CommitDataSet::collect_range("o/r", "f", Range::new(None, 50, 50));
    assert_eq!(requests.len(), 2);
    assert!(!collection.is_stalled());
    wait(collection.commits_received(1, Ok(page(0, 50))));
    wait(collection.commits_abandoned());
    assert!(!collection.is_stalled());
    wait(collection.commits_issued());
    assert!(collection.is_stalled());
    wait(collection.commits_issued());
    assert!(collection.is_stalled());
}

#[test]
fn collection_stalls_when_a_metadata_request_cannot_be_issued() {
    let (mut collection, _): (Collection<()>, _) =
        CommitDataSet::collect_range("o/r", "f", Range::new(None, 100, 50));
    wait(collection.commits_issued());
    let asked = metadata_requests(collection.commits_received(1, Ok(page(0, 3))));
    assert_eq!(asked.len(), 2);
    assert!(!collection.is_stalled());
    wait(collection.metadata_abandoned());
    wait(collection.metadata_received("sha002".to_string(), Ok("b".to_string())));
    assert!(!collection.is_stalled());
    wait(collection.metadata_issued());
    assert!(collection.is_stalled());
    // a stray abandonment in the wrong stage changes nothing
    wait(collection.commits_abandoned());
    assert!(collection.is_stalled());
}

#[test]
fn ended_collection_is_not_stalled() {
    let (mut collection, _): (Collection<()>, _) =
        CommitDataSet::collect_range("o/r", "f", Range::new(None, 100, 50));
    wait(collection.commits_issued());
    let outcome = done(collection.commits_received(1, Err(Error::Http(500))));
    assert!(outcome.is_err());
    assert!(!collection.is_stalled());
    wait(collection.commits_abandoned());
    wait(collection.metadata_abandoned());
    assert!(!collection.is_stalled());
}
