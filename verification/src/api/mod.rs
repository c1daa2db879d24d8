//! What crosses the boundary to the services that answer requests: the
//! request descriptors, the failures, and the reading of a response.

pub mod commit_metadata;
pub mod github;
pub mod schema;
pub mod static_metadata;

use crate::keyed::{Payload, RequestKey};
use vstd::prelude::*;

verus! {

/// Why a request yielded no response body.
#[derive(Debug, PartialEq, Eq)]
pub enum Error {
    /// The transport failed, or the body could not be read.
    Fetch(String),
    /// The server answered with this status code, which is not a success.
    Http(u16),
}

impl Clone for Error {
    fn clone(&self) -> (copy: Self)
        ensures
            copy == *self,
    {
        match self {
            Error::Fetch(message) => Error::Fetch(message.clone()),
            Error::Http(status) => Error::Http(*status),
        }
    }
}

impl<T: Payload> Payload for Result<T, Error> {
    type Content = Result<T::Content, Error>;

    open spec fn content(&self) -> Result<T::Content, Error> {
        match *self {
            Ok(body) => Ok(body.content()),
            Err(e) => Err(e),
        }
    }

    fn replicate(&self) -> (copy: Self) {
        match self {
            Ok(body) => Ok(body.replicate()),
            Err(e) => Err(e.clone()),
        }
    }
}

/// The status code of "not found".
pub const NOT_FOUND: u16 = 404;

impl Error {
    /// Whether the server reported that what was asked for does not exist.
    pub open spec fn spec_is_not_found(&self) -> bool {
        *self == Error::Http(NOT_FOUND)
    }

    #[verifier::when_used_as_spec(spec_is_not_found)]
    pub fn is_not_found(&self) -> (missing: bool)
        ensures
            missing == self.spec_is_not_found(),
    {
        match self {
            Error::Http(status) => *status == not_found_status(),
            Error::Fetch(_) => false,
        }
    }
}

/// Reads the number of the constant `http::StatusCode::NOT_FOUND`. The
/// contract claims what the crate documents: that it is 404.
#[verifier::external_body]
fn not_found_status() -> (status: u16)
    ensures
        status == NOT_FOUND,
{
    http::StatusCode::NOT_FOUND.as_u16()
}

/// The characters of an optional string.
pub open spec fn option_view(text: Option<String>) -> Option<Seq<char>> {
    match text {
        Some(s) => Some(s@),
        None => None,
    }
}

/// Asks for one page of a commit listing.
#[derive(Debug, PartialEq, Eq)]
pub struct CommitListRequest {
    /// The repository, as `owner/name`.
    pub repo: String,
    /// The ref or commit that the listing starts at; the default branch
    /// when absent.
    pub from: Option<String>,
    /// The page, counted from one.
    pub page: u32,
    /// The number of commits per page.
    pub count: u32,
}

/// The mathematical content of a [`CommitListRequest`].
pub struct CommitListRequestView {
    pub repo: Seq<char>,
    pub from: Option<Seq<char>>,
    pub page: u32,
    pub count: u32,
}

impl View for CommitListRequest {
    type V = CommitListRequestView;

    open spec fn view(&self) -> CommitListRequestView {
        CommitListRequestView {
            repo: self.repo@,
            from: option_view(self.from),
            page: self.page,
            count: self.count,
        }
    }
}

/// Whether two optional strings hold the same characters, or both nothing.
pub fn same_text(a: &Option<String>, b: &Option<String>) -> (same: bool)
    ensures
        same == (option_view(*a) == option_view(*b)),
{
    match (a, b) {
        (Some(x), Some(y)) => *x == *y,
        (None, None) => true,
        _ => false,
    }
}

/// A second optional string with the same characters.
pub fn clone_text(text: &Option<String>) -> (copy: Option<String>)
    ensures
        copy == *text,
{
    match text {
        Some(s) => Some(s.clone()),
        None => None,
    }
}

impl RequestKey for CommitListRequest {
    fn same_key(&self, other: &Self) -> (same: bool) {
        self.repo == other.repo && same_text(&self.from, &other.from) && self.page == other.page
            && self.count == other.count
    }

    fn clone_key(&self) -> (copy: Self) {
        CommitListRequest {
            repo: self.repo.clone(),
            from: clone_text(&self.from),
            page: self.page,
            count: self.count,
        }
    }
}

/// Asks for the metadata file that was recorded for one commit.
#[derive(Debug, PartialEq, Eq)]
pub struct CommitMetadataRequest {
    /// The commit's hash.
    pub commit: String,
    /// The name of the metadata file.
    pub file: String,
}

/// The mathematical content of a [`CommitMetadataRequest`].
pub struct CommitMetadataRequestView {
    pub commit: Seq<char>,
    pub file: Seq<char>,
}

impl View for CommitMetadataRequest {
    type V = CommitMetadataRequestView;

    open spec fn view(&self) -> CommitMetadataRequestView {
        CommitMetadataRequestView { commit: self.commit@, file: self.file@ }
    }
}

impl RequestKey for CommitMetadataRequest {
    fn same_key(&self, other: &Self) -> (same: bool) {
        self.commit == other.commit && self.file == other.file
    }

    fn clone_key(&self) -> (copy: Self) {
        CommitMetadataRequest { commit: self.commit.clone(), file: self.file.clone() }
    }
}

/// Whether `status` is one of the success codes, 200 to 299.
pub open spec fn is_success(status: u16) -> bool {
    200 <= status < 300
}

/// Whether `status` is a status code at all: a number of three digits.
pub open spec fn is_status_code(status: u16) -> bool {
    100 <= status < 1000
}

/// Calls `http::StatusCode::from_u16` and, on the status code it yields,
/// `http::StatusCode::is_success`. The contract claims what the crate
/// documents: that the first accepts exactly the numbers from 100 to 999,
/// and that the second holds exactly of the codes from 200 to 299.
#[verifier::external_body]
fn status_is_success(status: u16) -> (success: Option<bool>)
    ensures
        success == if is_status_code(status) {
            Some(is_success(status))
        } else {
            None
        },
{
    match http::StatusCode::from_u16(status) {
        Ok(code) => Some(code.is_success()),
        Err(_) => None,
    }
}

/// What a response with the status code `status` amounts to, where `data`
/// is its body as far as it could be read, or else the reason why it could
/// not.
pub open spec fn spec_response_result<T>(status: u16, data: Result<T, String>) -> Result<T, Error> {
    if is_success(status) {
        match data {
            Ok(body) => Ok(body),
            Err(reason) => Err(Error::Fetch(reason)),
        }
    } else {
        Err(Error::Http(status))
    }
}

/// Reads a response: a success status yields the body, or a
/// [`Error::Fetch`] where the body could not be read; any other status
/// yields [`Error::Http`] with that status, whatever the body.
pub fn response_result<T>(status: u16, data: Result<T, String>) -> (result: Result<T, Error>)
    ensures
        result == spec_response_result(status, data),
{
    match status_is_success(status) {
        Some(true) => match data {
            Ok(body) => Ok(body),
            Err(reason) => Err(Error::Fetch(reason)),
        },
        _ => Err(Error::Http(status)),
    }
}

} // verus!
