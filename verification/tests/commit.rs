use loupe::commit::{CommitInfo, Timestamp, UserInfo};

fn commit(sha: &str, message: &str) -> CommitInfo {
    CommitInfo {
        sha: sha.to_string(),
        author: UserInfo { name: "Ada".to_string(), email: "ada@example.org".to_string() },
        author_date: Timestamp { secs: 1589978096, nanos: 0 },
        committer: UserInfo { name: "Bot".to_string(), email: "bot@example.org".to_string() },
        commit_date: Timestamp { secs: 1589978097, nanos: 5 },
        message: message.to_string(),
        view_url: format!("https://example.org/{}", sha),
    }
}

#[test]
fn short_sha_is_the_first_seven_characters() {
    let c = commit("0123456789abcdef0123456789abcdef01234567", "m");
    assert_eq!(c.sha_short(), "0123456");
    assert_eq!(commit("abcdefg", "m").sha_short(), "abcdefg");
}

#[test]
fn short_sha_counts_bytes() {
    // 'é' takes two bytes: the seventh byte ends the sixth character
    assert_eq!(commit("abcdéfgh", "m").sha_short(), "abcdéf");
}

#[test]
fn headline_is_the_first_line() {
    assert_eq!(commit("a", "Speed up\n\nthe parser").message_headline(), "Speed up");
    assert_eq!(commit("a", "One line").message_headline(), "One line");
    assert_eq!(commit("a", "Trailing\n").message_headline(), "Trailing");
    assert_eq!(commit("a", "\nsecond").message_headline(), "");
    assert_eq!(commit("a", "").message_headline(), "");
    assert_eq!(commit("a", "Größe ändern\nmehr").message_headline(), "Größe ändern");
    assert_eq!(commit("a", "windows\r\nline").message_headline(), "windows\r");
}

#[test]
fn commit_clone_is_equal() {
    let c = commit("abc", "message\nbody");
    assert_eq!(c.clone(), c);
    assert_eq!(c.author.clone(), c.author);
}
