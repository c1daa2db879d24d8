//! The commit listing of the hosting service: the address of a page of the
//! listing, and the reading of what the service answers.

use crate::api::schema::CommitData;
use crate::api::{option_view, response_result, spec_response_result, Error};
use crate::commit::CommitInfo;
use vstd::prelude::*;
use vstd::string::{StrSliceExecFns, StringExecFns};

verus! {

/// The longest address, and the longest name or value of a query, in
/// characters, that are joined into a URL.
pub const MAX_PART_LEN: usize = 1_000_000;

/// The largest number of pairs of a query that are joined into a URL.
pub const MAX_PAIRS: usize = 16;

/// The characters of the address under which the service lists its
/// repositories.
pub open spec fn endpoint() -> Seq<char> {
    "https://api.github.com/repos/"@
}

/// The decimal digit `d`.
pub open spec fn digit(d: int) -> char {
    if d == 0 {
        '0'
    } else if d == 1 {
        '1'
    } else if d == 2 {
        '2'
    } else if d == 3 {
        '3'
    } else if d == 4 {
        '4'
    } else if d == 5 {
        '5'
    } else if d == 6 {
        '6'
    } else if d == 7 {
        '7'
    } else if d == 8 {
        '8'
    } else {
        '9'
    }
}

/// The decimal notation of `n`, without leading zeros.
pub open spec fn decimal(n: nat) -> Seq<char>
    decreases n,
{
    if n < 10 {
        seq![digit(n as int)]
    } else {
        decimal(n / 10).push(digit((n % 10) as int))
    }
}

/// The decimal notation of a 32-bit number has at most ten digits.
pub proof fn lemma_decimal_len(n: nat)
    ensures
        1 <= decimal(n).len(),
        n < 10 ==> decimal(n).len() == 1,
        n <= u32::MAX ==> decimal(n).len() <= 10,
    decreases n,
{
    reveal_with_fuel(decimal, 11);
}

fn digit_text(d: u32) -> (text: &'static str)
    requires
        d < 10,
    ensures
        text@ == seq![digit(d as int)],
{
    proof {
        reveal_strlit("0");
        reveal_strlit("1");
        reveal_strlit("2");
        reveal_strlit("3");
        reveal_strlit("4");
        reveal_strlit("5");
        reveal_strlit("6");
        reveal_strlit("7");
        reveal_strlit("8");
        reveal_strlit("9");
    }
    let text = match d {
        0 => "0",
        1 => "1",
        2 => "2",
        3 => "3",
        4 => "4",
        5 => "5",
        6 => "6",
        7 => "7",
        8 => "8",
        _ => "9",
    };
    assert(text@ =~= seq![digit(d as int)]);
    text
}

/// Writes `n` in decimal notation.
pub fn decimal_text(n: u32) -> (text: String)
    ensures
        text@ == decimal(n as nat),
    decreases n,
{
    if n < 10 {
        String::from_str(digit_text(n))
    } else {
        let mut text = decimal_text(n / 10);
        text.append(digit_text(n % 10));
        text
    }
}

/// The address that the listing of `repo` is found under, before its
/// query.
pub open spec fn commits_base(repo: Seq<char>) -> Seq<char> {
    endpoint() + repo + "/commits"@
}

/// The query of the address of a page: the page, the number of commits
/// per page, and the ref to start from where there is one.
pub open spec fn commits_params(from: Option<Seq<char>>, page: u32, count: u32) -> Seq<
    (Seq<char>, Seq<char>),
> {
    let fixed = seq![("page"@, decimal(page as nat)), ("per_page"@, decimal(count as nat))];
    match from {
        Some(sha) => fixed.push(("sha"@, sha)),
        None => fixed,
    }
}

/// The characters of each name and value of a query.
pub open spec fn pair_views(params: Seq<(String, String)>) -> Seq<(Seq<char>, Seq<char>)> {
    Seq::new(params.len(), |i: int| (params[i].0@, params[i].1@))
}

/// Whether an address and a query are short enough to be joined: the
/// address, and every name and value of the query, has at most
/// [`MAX_PART_LEN`] characters, and the query has at most [`MAX_PAIRS`]
/// pairs.
///
/// A character takes at most four bytes, and a byte is written as at most
/// three where it has to be escaped. The serialization of what is admitted
/// here therefore stays below 12 bytes for each of at most 33 million
/// characters, which is less than a tenth of what 32 bits count.
pub open spec fn joinable(input: Seq<char>, params: Seq<(Seq<char>, Seq<char>)>) -> bool {
    &&& input.len() <= MAX_PART_LEN
    &&& params.len() <= MAX_PAIRS
    &&& forall|i: int|
        0 <= i < params.len() ==> (#[trigger] params[i]).0.len() <= MAX_PART_LEN
            && params[i].1.len() <= MAX_PART_LEN
}

/// The serialization of the absolute URL `input` with `params` appended to
/// its query, as the `url` crate gives it; nothing where `input` is no
/// absolute URL.
pub uninterp spec fn url_with_params(input: Seq<char>, params: Seq<(Seq<char>, Seq<char>)>) -> Option<
    Seq<char>,
>;

/// Calls `url::Url::parse_with_params` and hands back the URL's
/// serialization, or nothing where the crate rejects `input`. The contract
/// names the result and claims nothing of it but that it depends on the
/// characters of the arguments alone. The crate keeps offsets into the
/// serialization in 32 bits, and where the address has a fragment it
/// panics once the serialization with the query no longer fits in them.
/// `joinable` admits one address and at most sixteen pairs, each part of at
/// most a million characters: at twelve bytes to the character that is
/// below 400 million bytes, against the more than four thousand million
/// that 32 bits count.
#[verifier::external_body]
fn parse_with_params(input: &str, params: &Vec<(String, String)>) -> (url: Option<String>)
    requires
        joinable(input@, pair_views(params@)),
    ensures
        option_view(url) == url_with_params(input@, pair_views(params@)),
{
    match url::Url::parse_with_params(input, params) {
        Ok(url) => Some(url.into()),
        Err(_) => None,
    }
}

/// The first part of the address of a listing page.
pub fn build_commits_base(repo: &str) -> (base: String)
    ensures
        base@ == commits_base(repo@),
{
    let mut base = String::from_str("https://api.github.com/repos/");
    base.append(repo);
    base.append("/commits");
    base
}

/// The query of the address of a listing page.
pub fn build_commits_params(from: Option<&str>, page: u32, count: u32) -> (params: Vec<
    (String, String),
>)
    ensures
        pair_views(params@) == commits_params(
            match from {
                Some(sha) => Some(sha@),
                None => None,
            },
            page,
            count,
        ),
{
    let mut params: Vec<(String, String)> = Vec::new();
    params.push((String::from_str("page"), decimal_text(page)));
    params.push((String::from_str("per_page"), decimal_text(count)));
    if let Some(sha) = from {
        params.push((String::from_str("sha"), String::from_str(sha)));
    }
    proof {
        assert(pair_views(params@) =~= commits_params(
            match from {
                Some(sha) => Some(sha@),
                None => None,
            },
            page,
            count,
        ));
    }
    params
}

/// The address of page `page` of the listing of `repo`, as the `url`
/// crate serializes it.
pub open spec fn commits_url(repo: Seq<char>, from: Option<Seq<char>>, page: u32, count: u32) -> Option<
    Seq<char>,
> {
    url_with_params(commits_base(repo), commits_params(from, page, count))
}

/// The characters of an optional string slice.
pub open spec fn text_view(text: Option<&str>) -> Option<Seq<char>> {
    match text {
        Some(s) => Some(s@),
        None => None,
    }
}

/// Whether the names are short enough for an address to be built: the
/// address of the listing and its query can be joined.
pub open spec fn nameable(repo: Seq<char>, from: Option<Seq<char>>) -> bool {
    joinable(commits_base(repo), commits_params(from, 0, 0))
}

/// What `nameable` comes to: the repository's name leaves room for the
/// rest of the address, and the ref is no longer than a part may be.
pub proof fn lemma_nameable(repo: Seq<char>, from: Option<Seq<char>>)
    ensures
        commits_base(repo).len() == repo.len() + 37,
        nameable(repo, from) <==> repo.len() + 37 <= MAX_PART_LEN && (from matches Some(sha)
            ==> sha.len() <= MAX_PART_LEN),
{
    reveal_strlit("https://api.github.com/repos/");
    reveal_strlit("/commits");
    reveal_strlit("page");
    reveal_strlit("per_page");
    reveal_strlit("sha");
    lemma_decimal_len(0);
    let params = commits_params(from, 0, 0);
    if nameable(repo, from) {
        if let Some(sha) = from {
            assert(params[2].1 == sha);
        }
    }
    if repo.len() + 37 <= MAX_PART_LEN && (from matches Some(sha) ==> sha.len() <= MAX_PART_LEN) {
        assert forall|i: int| 0 <= i < params.len() implies (#[trigger] params[i]).0.len()
            <= MAX_PART_LEN && params[i].1.len() <= MAX_PART_LEN by {
            if i == 0 {
            } else if i == 1 {
            } else {
            }
        }
    }
}

proof fn lemma_nameable_is_joinable(repo: Seq<char>, from: Option<Seq<char>>, page: u32, count: u32)
    requires
        nameable(repo, from),
    ensures
        joinable(commits_base(repo), commits_params(from, page, count)),
{
    reveal_strlit("page");
    reveal_strlit("per_page");
    reveal_strlit("sha");
    lemma_decimal_len(page as nat);
    lemma_decimal_len(count as nat);
    let zero = commits_params(from, 0, 0);
    let params = commits_params(from, page, count);
    assert forall|i: int| 0 <= i < params.len() implies (#[trigger] params[i]).0.len()
        <= MAX_PART_LEN && params[i].1.len() <= MAX_PART_LEN by {
        if i == 2 {
            assert(params[2] == zero[2]);
        }
    }
}

/// Whether the names are short enough for an address to be built.
pub fn is_nameable(repo: &str, from: Option<&str>) -> (short: bool)
    ensures
        short == nameable(repo@, text_view(from)),
{
    proof {
        lemma_nameable(repo@, text_view(from));
    }
    let room = repo.unicode_len() <= MAX_PART_LEN - 37;
    match from {
        Some(sha) => room && sha.unicode_len() <= MAX_PART_LEN,
        None => room,
    }
}

/// The address of page `page` of the listing of `repo`, with `count`
/// commits per page, starting at `from`; nothing where no address can be
/// formed of them.
pub fn build_commits_url(repo: &str, from: Option<&str>, page: u32, count: u32) -> (url: Option<
    String,
>)
    requires
        nameable(repo@, text_view(from)),
    ensures
        option_view(url) == commits_url(repo@, text_view(from), page, count),
{
    let base = build_commits_base(repo);
    let params = build_commits_params(from, page, count);
    proof {
        lemma_nameable_is_joinable(repo@, text_view(from), page, count);
    }
    parse_with_params(base.as_str(), &params)
}

/// The commits that `data` reports, in their order; nothing where a
/// commit cannot be read.
pub open spec fn commits_of(data: Seq<CommitData>) -> Option<Seq<CommitInfo>>
    decreases data.len(),
{
    if data.len() == 0 {
        Some(Seq::empty())
    } else {
        match (commits_of(data.drop_last()), CommitInfo::spec_from(data.last())) {
            (Some(earlier), Some(commit)) => Some(earlier.push(commit)),
            _ => None,
        }
    }
}

/// Reads the commits that `data` reports.
pub fn commits_from(data: Vec<CommitData>) -> (commits: Option<Vec<CommitInfo>>)
    ensures
        match commits {
            Some(list) => commits_of(data@) == Some(list@),
            None => commits_of(data@) is None,
        },
{
    let ghost given = data@;
    let mut commits: Vec<CommitInfo> = Vec::new();
    for entry in it: data
        invariant
            it.seq() == given,
            commits_of(given.take(it.index() as int)) == Some(commits@),
    {
        let ghost i = it.index() as int;
        proof {
            assert(given.take(i + 1).drop_last() =~= given.take(i));
            assert(given.take(i + 1).last() == entry);
        }
        match CommitInfo::from(entry) {
            Some(commit) => {
                commits.push(commit);
            },
            None => {
                proof {
                    lemma_unreadable_persists(given, i + 1);
                }
                return None;
            },
        }
    }
    proof {
        assert(given.take(given.len() as int) =~= given);
    }
    Some(commits)
}

/// Once a prefix of the reported commits cannot be read, the whole cannot.
pub proof fn lemma_unreadable_persists(data: Seq<CommitData>, upto: int)
    requires
        0 <= upto <= data.len(),
        commits_of(data.take(upto)) is None,
    ensures
        commits_of(data) is None,
    decreases data.len() - upto,
{
    if upto < data.len() {
        assert(data.take(upto + 1).drop_last() =~= data.take(upto));
        lemma_unreadable_persists(data, upto + 1);
    } else {
        assert(data.take(upto) =~= data);
    }
}

/// What the answer to a listing request amounts to, where `status` is its
/// status code and `data` its decoded body, or else the reason why the
/// body could not be decoded; nothing where a decoded commit cannot be
/// read.
pub open spec fn spec_commits_response(status: u16, data: Result<Vec<CommitData>, String>) -> Option<
    Result<Seq<CommitInfo>, Error>,
> {
    match spec_response_result(status, data) {
        Ok(list) => match commits_of(list@) {
            Some(commits) => Some(Ok(commits)),
            None => None,
        },
        Err(e) => Some(Err(e)),
    }
}

/// Reads the answer to a listing request.
pub fn commits_response(status: u16, data: Result<Vec<CommitData>, String>) -> (response: Option<
    Result<Vec<CommitInfo>, Error>,
>)
    ensures
        match response {
            Some(Ok(commits)) => spec_commits_response(status, data) == Some(
                Ok::<Seq<CommitInfo>, Error>(commits@),
            ),
            Some(Err(e)) => spec_commits_response(status, data) == Some(
                Err::<Seq<CommitInfo>, Error>(e),
            ),
            None => spec_commits_response(status, data) is None,
        },
{
    match response_result(status, data) {
        Ok(list) => match commits_from(list) {
            Some(commits) => Some(Ok(commits)),
            None => None,
        },
        Err(e) => Some(Err(e)),
    }
}

} // verus!
