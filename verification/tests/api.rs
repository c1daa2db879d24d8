use loupe::api::commit_metadata;
use loupe::api::github::{
    build_commits_base, build_commits_params, build_commits_url, commits_from, commits_response,
    decimal_text, is_nameable, MAX_PART_LEN,
};
use loupe::api::schema::{Commit, CommitData, UserInfo};
use loupe::api::static_metadata;
use loupe::api::{
    clone_text, response_result, same_text, CommitListRequest, CommitMetadataRequest, Error,
};
use loupe::commit::{CommitInfo, Timestamp};
use loupe::keyed::RequestKey;

fn reported(sha: &str, date: &str) -> CommitData {
    committed(sha, date, "2001-01-01T00:00:00Z")
}

fn committed(sha: &str, date: &str, commit_date: &str) -> CommitData {
    CommitData {
        sha: sha.to_string(),
        commit: Commit {
            author: UserInfo {
                name: "Ada".to_string(),
                email: "ada@example.org".to_string(),
                date: date.to_string(),
            },
            committer: UserInfo {
                name: "Bot".to_string(),
                email: "bot@example.org".to_string(),
                date: commit_date.to_string(),
            },
            message: "Speed up\n\nthe parser".to_string(),
        },
        html_url: format!("https://example.org/{}", sha),
    }
}

#[test]
fn success_status_yields_the_body() {
    assert_eq!(response_result(200, Ok::<u8, String>(7)), Ok(7));
    assert_eq!(response_result(204, Ok::<u8, String>(7)), Ok(7));
    assert_eq!(response_result(299, Ok::<u8, String>(7)), Ok(7));
}

#[test]
fn unreadable_body_is_a_fetch_failure() {
    assert_eq!(
        response_result(200, Err::<u8, String>("bad json".to_string())),
        Err(Error::Fetch("bad json".to_string()))
    );
}

#[test]
fn other_status_is_an_http_failure_whatever_the_body() {
    assert_eq!(response_result(404, Ok::<u8, String>(7)), Err(Error::Http(404)));
    assert_eq!(response_result(300, Ok::<u8, String>(7)), Err(Error::Http(300)));
    assert_eq!(response_result(199, Ok::<u8, String>(7)), Err(Error::Http(199)));
    assert_eq!(response_result(500, Err::<u8, String>("x".to_string())), Err(Error::Http(500)));
    assert_eq!(response_result(99, Ok::<u8, String>(7)), Err(Error::Http(99)));
    assert_eq!(response_result(1000, Ok::<u8, String>(7)), Err(Error::Http(1000)));
    assert_eq!(response_result(0, Ok::<u8, String>(7)), Err(Error::Http(0)));
}

#[test]
fn only_status_404_is_not_found() {
    assert!(Error::Http(404).is_not_found());
    assert!(!Error::Http(403).is_not_found());
    assert!(!Error::Http(500).is_not_found());
    assert!(!Error::Fetch("404".to_string()).is_not_found());
}

#[test]
fn error_clone_is_equal() {
    for e in [Error::Fetch("timeout".to_string()), Error::Http(502)] {
        assert_eq!(e.clone(), e);
    }
}

#[test]
fn list_requests_are_the_same_key_when_all_parts_agree() {
    let a = CommitListRequest {
        repo: "o/r".to_string(),
        from: Some("main".to_string()),
        page: 2,
        count: 50,
    };
    assert!(a.same_key(&a.clone_key()));
    assert_eq!(a.clone_key(), a);
    let other_page = CommitListRequest { page: 3, ..a.clone_key() };
    let other_from = CommitListRequest { from: None, ..a.clone_key() };
    let other_repo = CommitListRequest { repo: "o/s".to_string(), ..a.clone_key() };
    let other_count = CommitListRequest { count: 10, ..a.clone_key() };
    for other in [other_page, other_from, other_repo, other_count] {
        assert!(!a.same_key(&other));
    }
}

#[test]
fn metadata_requests_are_the_same_key_when_commit_and_file_agree() {
    let a = CommitMetadataRequest { commit: "abc".to_string(), file: "f.json".to_string() };
    assert!(a.same_key(&a.clone_key()));
    assert!(!a.same_key(&CommitMetadataRequest { commit: "abd".to_string(), ..a.clone_key() }));
    assert!(!a.same_key(&CommitMetadataRequest { file: "g.json".to_string(), ..a.clone_key() }));
}

#[test]
fn optional_texts_compare_by_content() {
    assert!(same_text(&None, &None));
    assert!(same_text(&Some("a".to_string()), &Some("a".to_string())));
    assert!(!same_text(&Some("a".to_string()), &Some("b".to_string())));
    assert!(!same_text(&Some("a".to_string()), &None));
    assert!(!same_text(&None, &Some(String::new())));
    assert_eq!(clone_text(&Some("a".to_string())), Some("a".to_string()));
    assert_eq!(clone_text(&None), None);
}

#[test]
fn decimal_text_writes_numbers() {
    assert_eq!(decimal_text(0), "0");
    assert_eq!(decimal_text(7), "7");
    assert_eq!(decimal_text(10), "10");
    assert_eq!(decimal_text(50), "50");
    assert_eq!(decimal_text(1234567890), "1234567890");
    assert_eq!(decimal_text(u32::MAX), "4294967295");
}

#[test]
fn commits_base_names_the_repository() {
    assert_eq!(build_commits_base("line/decaton"), "https://api.github.com/repos/line/decaton/commits");
}

#[test]
fn commits_params_hold_page_and_size_and_ref() {
    let pair = |k: &str, v: &str| (k.to_string(), v.to_string());
    assert_eq!(build_commits_params(None, 3, 50), vec![pair("page", "3"), pair("per_page", "50")]);
    assert_eq!(
        build_commits_params(Some("main"), 1, 25),
        vec![pair("page", "1"), pair("per_page", "25"), pair("sha", "main")]
    );
}

#[test]
fn commits_url_is_serialized_with_its_query() {
    assert_eq!(
        build_commits_url("line/decaton", None, 2, 50),
        Some("https://api.github.com/repos/line/decaton/commits?page=2&per_page=50".to_string())
    );
    assert_eq!(
        build_commits_url("line/decaton", Some("master"), 1, 50),
        Some(
            "https://api.github.com/repos/line/decaton/commits?page=1&per_page=50&sha=master"
                .to_string()
        )
    );
}

#[test]
fn commits_url_escapes_what_a_query_cannot_hold() {
    assert_eq!(
        build_commits_url("o/r", Some("a b&c"), 1, 50),
        Some("https://api.github.com/repos/o/r/commits?page=1&per_page=50&sha=a+b%26c".to_string())
    );
}

#[test]
fn metadata_url_of_the_site() {
    assert_eq!(
        commit_metadata::build_url("commit-data", "abc123", "bench.json"),
        "https://kawamuray.github.io/decaton/commit-data/abc123/bench.json"
    );
}

#[test]
fn metadata_url_below_a_given_address() {
    assert_eq!(
        static_metadata::build_url("https://example.org/data", "abc123", "bench.json"),
        "https://example.org/data/abc123/bench.json"
    );
    assert_eq!(static_metadata::build_url("", "", ""), "//");
}

#[test]
fn commit_is_read_with_both_its_dates() {
    let data = committed("abc", "2020-05-20T12:34:56Z", "2020-05-21T12:34:57+00:00");
    let commit = CommitInfo::from(data).unwrap();
    assert_eq!(commit.sha, "abc");
    assert_eq!(commit.author.name, "Ada");
    assert_eq!(commit.author.email, "ada@example.org");
    assert_eq!(commit.committer.name, "Bot");
    assert_eq!(commit.committer.email, "bot@example.org");
    assert_eq!(commit.author_date, Timestamp { secs: 1589978096, nanos: 0 });
    assert_eq!(commit.commit_date, Timestamp { secs: 1589978096 + 86_401, nanos: 0 });
    assert_eq!(commit.message, "Speed up\n\nthe parser");
    assert_eq!(commit.view_url, "https://example.org/abc");
}

#[test]
fn commit_date_is_the_committers_date() {
    let commit = CommitInfo::from(reported("abc", "2020-05-20T12:34:56Z")).unwrap();
    assert_eq!(commit.commit_date, Timestamp { secs: 978307200, nanos: 0 });
}

#[test]
fn commit_with_unreadable_commit_date_is_not_read() {
    assert_eq!(CommitInfo::from(committed("abc", "2020-05-20T12:34:56Z", "later")), None);
    assert_eq!(CommitInfo::from(committed("abc", "2020-05-20T12:34:56Z", "")), None);
    assert_eq!(CommitInfo::from(committed("abc", "sooner", "later")), None);
}

#[test]
fn date_is_read_with_offset_and_fraction() {
    let commit = CommitInfo::from(reported("abc", "1970-01-01T01:00:01.5+01:00")).unwrap();
    assert_eq!(commit.author_date, Timestamp { secs: 1, nanos: 500_000_000 });
    let before = CommitInfo::from(reported("abc", "1969-12-31T23:59:59Z")).unwrap();
    assert_eq!(before.author_date, Timestamp { secs: -1, nanos: 0 });
}

#[test]
fn commit_with_unreadable_date_is_not_read() {
    assert_eq!(CommitInfo::from(reported("abc", "yesterday")), None);
    assert_eq!(CommitInfo::from(reported("abc", "")), None);
    assert_eq!(CommitInfo::from(reported("abc", "2020-13-01T00:00:00Z")), None);
}

#[test]
fn dated_commit_takes_the_given_instants() {
    let written = Timestamp { secs: 42, nanos: 7 };
    let committed_at = Timestamp { secs: 43, nanos: 8 };
    let commit = CommitInfo::dated(reported("abc", "not looked at"), written, committed_at);
    assert_eq!(commit.author_date, written);
    assert_eq!(commit.commit_date, committed_at);
    assert_eq!(commit.sha, "abc");
}

#[test]
fn commit_list_is_read_in_order() {
    let list = vec![
        reported("a", "2020-01-01T00:00:00Z"),
        reported("b", "2020-01-02T00:00:00Z"),
    ];
    let commits = commits_from(list).unwrap();
    let shas: Vec<&str> = commits.iter().map(|c| c.sha.as_str()).collect();
    assert_eq!(shas, vec!["a", "b"]);
    assert_eq!(commits[1].author_date.secs - commits[0].author_date.secs, 86_400);
    assert_eq!(commits_from(Vec::new()), Some(Vec::new()));
    assert_eq!(
        commits_from(vec![reported("a", "2020-01-01T00:00:00Z"), reported("b", "soon")]),
        None
    );
}

#[test]
fn listing_response_is_read() {
    let ok = commits_response(200, Ok(vec![reported("a", "2020-01-01T00:00:00Z")]));
    assert_eq!(ok.unwrap().unwrap().len(), 1);
    assert_eq!(
        commits_response(200, Err("eof".to_string())),
        Some(Err(Error::Fetch("eof".to_string())))
    );
    assert_eq!(
        commits_response(403, Ok(vec![reported("a", "never")])),
        Some(Err(Error::Http(403)))
    );
    assert_eq!(commits_response(200, Ok(vec![reported("a", "never")])), None);
}

#[test]
fn reported_commit_clone_is_equal() {
    let data = reported("abc", "2020-05-20T12:34:56Z");
    assert_eq!(data.clone(), data);
}

#[test]
fn names_are_short_enough_up_to_the_limit() {
    assert!(is_nameable("line/decaton", None));
    assert!(is_nameable("line/decaton", Some("master")));
    assert!(is_nameable("", Some("")));
    let room = MAX_PART_LEN - "https://api.github.com/repos//commits".len();
    assert_eq!(room, MAX_PART_LEN - 37);
    assert!(is_nameable(&"r".repeat(room), None));
    assert!(!is_nameable(&"r".repeat(room + 1), None));
    assert!(is_nameable("o/r", Some(&"s".repeat(MAX_PART_LEN))));
    assert!(!is_nameable("o/r", Some(&"s".repeat(MAX_PART_LEN + 1))));
    // the limit counts characters, not bytes
    assert!(is_nameable("o/r", Some(&"\u{e9}".repeat(MAX_PART_LEN))));
}

#[test]
fn longest_names_still_give_an_address() {
    let from = "&".repeat(MAX_PART_LEN);
    let url = build_commits_url("o/r#part", Some(&from), u32::MAX, u32::MAX).unwrap();
    assert!(url.starts_with(
        "https://api.github.com/repos/o/r?page=4294967295&per_page=4294967295&sha=%26%26"
    ));
    assert!(url.ends_with("%26#part/commits"));
    assert_eq!(url.len(), 73 + 3 * MAX_PART_LEN + "#part/commits".len());
}
