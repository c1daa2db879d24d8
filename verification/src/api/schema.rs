//! The shape in which the hosting service reports a commit.

use crate::commit::{CommitInfo, Timestamp, UserInfo as Person};
use vstd::prelude::*;

verus! {

/// A commit as the listing reports it.
#[derive(Debug, PartialEq, Eq)]
pub struct CommitData {
    pub sha: String,
    pub commit: Commit,
    pub html_url: String,
}

impl Clone for CommitData {
    fn clone(&self) -> (copy: Self)
        ensures
            copy == *self,
    {
        CommitData {
            sha: self.sha.clone(),
            commit: self.commit.clone(),
            html_url: self.html_url.clone(),
        }
    }
}

/// The body of a reported commit.
#[derive(Debug, PartialEq, Eq)]
pub struct Commit {
    pub author: UserInfo,
    pub committer: UserInfo,
    pub message: String,
}

impl Clone for Commit {
    fn clone(&self) -> (copy: Self)
        ensures
            copy == *self,
    {
        Commit {
            author: self.author.clone(),
            committer: self.committer.clone(),
            message: self.message.clone(),
        }
    }
}

/// Who wrote or committed a reported commit, and when: `date` is an
/// RFC 3339 date and time.
#[derive(Debug, PartialEq, Eq)]
pub struct UserInfo {
    pub name: String,
    pub email: String,
    pub date: String,
}

impl Clone for UserInfo {
    fn clone(&self) -> (copy: Self)
        ensures
            copy == *self,
    {
        UserInfo { name: self.name.clone(), email: self.email.clone(), date: self.date.clone() }
    }
}

/// The instant that the RFC 3339 date and time `text` denotes, as the
/// `chrono` crate reads it: the seconds since the Unix epoch and the
/// nanoseconds beyond them; nothing where `text` is no such date and time.
pub uninterp spec fn rfc3339_instant(text: Seq<char>) -> Option<(i64, u32)>;

/// The instant that the RFC 3339 date and time `text` denotes.
pub open spec fn rfc3339_timestamp(text: Seq<char>) -> Option<Timestamp> {
    match rfc3339_instant(text) {
        Some((secs, nanos)) => Some(Timestamp { secs, nanos }),
        None => None,
    }
}

/// Calls `chrono::DateTime::parse_from_rfc3339` and hands back the instant
/// as seconds and nanoseconds since the Unix epoch (`timestamp` and
/// `timestamp_subsec_nanos`), or nothing where the crate rejects `text`.
/// The contract names the result and claims nothing of it but that it
/// depends on the characters of `text` alone.
#[verifier::external_body]
fn parse_rfc3339(text: &str) -> (instant: Option<Timestamp>)
    ensures
        match instant {
            Some(t) => rfc3339_instant(text@) == Some((t.secs, t.nanos)),
            None => rfc3339_instant(text@) is None,
        },
{
    match chrono::DateTime::parse_from_rfc3339(text) {
        Ok(date) => Some(Timestamp { secs: date.timestamp(), nanos: date.timestamp_subsec_nanos() }),
        Err(_) => None,
    }
}

impl CommitInfo {
    /// The commit that `data` reports, written at the instant
    /// `author_date` and committed at the instant `commit_date`.
    pub open spec fn spec_dated(
        data: CommitData,
        author_date: Timestamp,
        commit_date: Timestamp,
    ) -> CommitInfo {
        CommitInfo {
            sha: data.sha,
            author: Person { name: data.commit.author.name, email: data.commit.author.email },
            author_date,
            committer: Person {
                name: data.commit.committer.name,
                email: data.commit.committer.email,
            },
            commit_date,
            message: data.commit.message,
            view_url: data.html_url,
        }
    }

    /// The commit that `data` reports, written at the instant
    /// `author_date` and committed at the instant `commit_date`.
    pub fn dated(data: CommitData, author_date: Timestamp, commit_date: Timestamp) -> (commit:
        CommitInfo)
        ensures
            commit == Self::spec_dated(data, author_date, commit_date),
    {
        CommitInfo {
            sha: data.sha,
            author: Person { name: data.commit.author.name, email: data.commit.author.email },
            author_date,
            committer: Person {
                name: data.commit.committer.name,
                email: data.commit.committer.email,
            },
            commit_date,
            message: data.commit.message,
            view_url: data.html_url,
        }
    }

    /// The commit that `data` reports: written at the author's date and
    /// committed at the committer's date; nothing where one of the two is
    /// no RFC 3339 date and time.
    pub open spec fn spec_from(data: CommitData) -> Option<CommitInfo> {
        match (
            rfc3339_timestamp(data.commit.author.date@),
            rfc3339_timestamp(data.commit.committer.date@),
        ) {
            (Some(author_date), Some(commit_date)) => Some(
                Self::spec_dated(data, author_date, commit_date),
            ),
            _ => None,
        }
    }

    /// Reads a commit as the listing reports it.
    pub fn from(data: CommitData) -> (commit: Option<CommitInfo>)
        ensures
            commit == Self::spec_from(data),
    {
        let author_date = parse_rfc3339(data.commit.author.date.as_str());
        let commit_date = parse_rfc3339(data.commit.committer.date.as_str());
        match (author_date, commit_date) {
            (Some(author_date), Some(commit_date)) => Some(
                Self::dated(data, author_date, commit_date),
            ),
            _ => None,
        }
    }
}

} // verus!
