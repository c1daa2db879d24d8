//! The sampled commits of a window together with the metadata found for
//! them, and how the answers of the two stages of a collection are put
//! together.

use crate::api::{CommitMetadataRequest, CommitMetadataRequestView, Error};
use crate::commit::CommitInfo;
use crate::keyed::{entry_views, key_views};
use crate::range::Range;
use vstd::hash_map::StringHashMap;
use vstd::multiset::Multiset;
use vstd::prelude::*;
use vstd::seq_lib::{lemma_multiset_commutative, to_multiset_remove};

verus! {

/// What one page of the listing yields.
pub type CommitsResponse = Result<Vec<CommitInfo>, Error>;

/// What the metadata request for one commit yields.
pub type MetadataResponse = Result<String, Error>;

/// The number of commits asked for per page of the listing.
pub const COMMITS_PAGE_SIZE: u32 = 50;

/// The commits picked out of a window, and the metadata payload of each
/// commit for which one could be had. A commit without an entry has no
/// metadata.
pub struct CommitDataSet {
    pub commits: Vec<CommitInfo>,
    pub metadata: StringHashMap<String>,
}

/// The position of the entry with the least page number; of the first of
/// them, where several share it.
pub open spec fn lowest_page<X>(pages: Seq<(u32, X)>) -> int
    decreases pages.len(),
{
    if pages.len() <= 1 {
        0
    } else {
        let earlier = lowest_page(pages.drop_last());
        if pages.last().0 < pages[earlier].0 {
            pages.len() - 1
        } else {
            earlier
        }
    }
}

/// `pages` in ascending order of the page number; entries that share a
/// page number keep their order.
pub open spec fn in_page_order<X>(pages: Seq<(u32, X)>) -> Seq<(u32, X)>
    decreases pages.len(),
{
    let at = lowest_page(pages);
    if 0 <= at < pages.len() {
        seq![pages[at]] + in_page_order(pages.remove(at))
    } else {
        Seq::empty()
    }
}

/// `lowest_page` is a position of the sequence, and no entry has a lesser
/// page number than the one that stands there.
pub proof fn lemma_lowest_page<X>(pages: Seq<(u32, X)>)
    requires
        pages.len() > 0,
    ensures
        0 <= lowest_page(pages) < pages.len(),
        forall|j: int| 0 <= j < pages.len() ==> pages[lowest_page(pages)].0 <= (#[trigger] pages[j]).0,
    decreases pages.len(),
{
    if pages.len() > 1 {
        let earlier = pages.drop_last();
        lemma_lowest_page(earlier);
        assert forall|j: int| 0 <= j < pages.len() implies pages[lowest_page(pages)].0 <= (
        #[trigger] pages[j]).0 by {
            if j < earlier.len() {
                assert(earlier[j] == pages[j]);
            }
        }
    }
}

/// `in_page_order` rearranges: it holds the entries of `pages`, each as
/// often as `pages` does, with the page numbers ascending.
pub proof fn lemma_in_page_order<X>(pages: Seq<(u32, X)>)
    ensures
        in_page_order(pages).len() == pages.len(),
        in_page_order(pages).to_multiset() == pages.to_multiset(),
        forall|i: int, j: int|
            0 <= i <= j < pages.len() ==> (#[trigger] in_page_order(pages)[i]).0 <= (
            #[trigger] in_page_order(pages)[j]).0,
    decreases pages.len(),
{
    broadcast use vstd::multiset::group_multiset_axioms;

    let sorted = in_page_order(pages);
    if pages.len() == 0 {
        assert(pages =~= Seq::empty());
    } else {
        lemma_lowest_page(pages);
        let at = lowest_page(pages);
        let rest = pages.remove(at);
        let tail = in_page_order(rest);
        lemma_in_page_order(rest);
        to_multiset_remove(pages, at);
        lemma_multiset_commutative(seq![pages[at]], tail);
        assert(seq![pages[at]].to_multiset() =~= Multiset::singleton(pages[at])) by {
            seq![pages[at]].to_multiset_ensures();
            assert(seq![pages[at]] =~= Seq::<(u32, X)>::empty().push(pages[at]));
            vstd::seq_lib::to_multiset_build(Seq::<(u32, X)>::empty(), pages[at]);
            assert(Seq::<(u32, X)>::empty().to_multiset() =~= Multiset::empty()) by {
                Seq::<(u32, X)>::empty().to_multiset_ensures();
            }
        }
        assert(pages.to_multiset().count(pages[at]) > 0) by {
            pages.to_multiset_ensures();
            assert(pages.contains(pages[at]));
        }
        assert(sorted.to_multiset() =~= pages.to_multiset());
        assert forall|i: int, j: int| 0 <= i <= j < pages.len() implies (#[trigger] sorted[i]).0 <= (
        #[trigger] sorted[j]).0 by {
            if i == 0 && j > 0 {
                // every entry of the tail is an entry of `pages`
                tail.to_multiset_ensures();
                rest.to_multiset_ensures();
                assert(tail.contains(tail[j - 1]));
                assert(rest.to_multiset().count(tail[j - 1]) > 0);
                assert(rest.contains(tail[j - 1]));
                let k = choose|k: int| 0 <= k < rest.len() && rest[k] == tail[j - 1];
                assert(rest[k] == if k < at {
                    pages[k]
                } else {
                    pages[k + 1]
                });
            } else if i > 0 {
                assert(sorted[i] == tail[i - 1]);
                assert(sorted[j] == tail[j - 1]);
            }
        }
    }
}

/// The commits of all `pages`, one page after the other, or the failure of
/// the first page that failed.
pub open spec fn concatenated(pages: Seq<(u32, Result<Vec<CommitInfo>, Error>)>) -> Result<
    Seq<CommitInfo>,
    Error,
>
    decreases pages.len(),
{
    if pages.len() == 0 {
        Ok(Seq::empty())
    } else {
        match concatenated(pages.drop_last()) {
            Err(e) => Err(e),
            Ok(commits) => match pages.last().1 {
                Ok(batch) => Ok(commits + batch@),
                Err(e) => Err(e),
            },
        }
    }
}

/// The metadata found in `responses`: the payload of every commit whose
/// request succeeded, by the commit's hash.
pub open spec fn metadata_of(responses: Seq<(Seq<char>, Result<String, Error>)>) -> Map<
    Seq<char>,
    String,
>
    decreases responses.len(),
{
    if responses.len() == 0 {
        Map::empty()
    } else {
        let earlier = metadata_of(responses.drop_last());
        match responses.last().1 {
            Ok(payload) => earlier.insert(responses.last().0, payload),
            Err(_) => earlier,
        }
    }
}

/// The requests for the metadata file `file` of `commits`, one per commit.
pub open spec fn metadata_requests(file: Seq<char>, commits: Seq<CommitInfo>) -> Seq<
    CommitMetadataRequestView,
> {
    Seq::new(
        commits.len(),
        |i: int| CommitMetadataRequestView { commit: commits[i].sha@, file: file },
    )
}

/// The position of the entry with the least page number.
fn lowest<X>(pages: &Vec<(u32, X)>) -> (at: usize)
    requires
        pages.len() > 0,
    ensures
        at == lowest_page(pages@),
        at < pages.len(),
{
    let mut best: usize = 0;
    let mut i: usize = 1;
    assert(pages@.take(1).len() == 1);
    while i < pages.len()
        invariant
            1 <= i <= pages.len(),
            best == lowest_page(pages@.take(i as int)),
            best < i,
        decreases pages.len() - i,
    {
        proof {
            assert(pages@.take(i + 1).drop_last() =~= pages@.take(i as int));
        }
        if pages[i].0 < pages[best].0 {
            best = i;
        }
        i = i + 1;
    }
    proof {
        assert(pages@.take(pages.len() as int) =~= pages@);
    }
    best
}

/// Puts `pages` in ascending order of the page number.
pub fn sort_pages<X>(pages: Vec<(u32, X)>) -> (sorted: Vec<(u32, X)>)
    ensures
        sorted@ == in_page_order(pages@),
{
    let mut rest = pages;
    let mut sorted: Vec<(u32, X)> = Vec::new();
    while rest.len() > 0
        invariant
            sorted@ + in_page_order(rest@) == in_page_order(pages@),
        decreases rest.len(),
    {
        let ghost before = rest@;
        let at = lowest(&rest);
        let entry = rest.remove(at);
        sorted.push(entry);
        proof {
            assert(in_page_order(before) == seq![before[at as int]] + in_page_order(rest@));
            assert(sorted@ + in_page_order(rest@) =~= sorted@.drop_last() + in_page_order(before));
        }
    }
    proof {
        assert(in_page_order(rest@) =~= Seq::empty());
        assert(sorted@ + Seq::empty() =~= sorted@);
    }
    sorted
}

impl CommitDataSet {
    /// What the listing amounts to once all its pages have reported: the
    /// commits of the pages in page order, sampled by `range`; or the
    /// failure of the first page, in page order, that failed.
    pub open spec fn spec_listing(
        range: Range,
        pages: Seq<(u32, Result<Vec<CommitInfo>, Error>)>,
    ) -> Result<Seq<CommitInfo>, Error> {
        match concatenated(in_page_order(pages)) {
            Ok(commits) => Ok(range.sampled(commits)),
            Err(e) => Err(e),
        }
    }

    /// Assembles the pages of a listing into the working set of commits.
    pub fn handle_completed_commits_fetch(
        range: &Range,
        resp: Vec<(u32, Result<Vec<CommitInfo>, Error>)>,
    ) -> (outcome: Result<Vec<CommitInfo>, Error>)
        requires
            range.samples > 0,
        ensures
            match outcome {
                Ok(commits) => Self::spec_listing(*range, resp@) == Ok::<Seq<CommitInfo>, Error>(
                    commits@,
                ),
                Err(e) => Self::spec_listing(*range, resp@) == Err::<Seq<CommitInfo>, Error>(e),
            },
    {
        let sorted = sort_pages(resp);
        let ghost pages = sorted@;
        let mut commits: Vec<CommitInfo> = Vec::new();
        for page in it: sorted
            invariant
                it.seq() == pages,
                pages == in_page_order(resp@),
                concatenated(pages.take(it.index() as int)) == Ok::<Seq<CommitInfo>, Error>(
                    commits@,
                ),
        {
            let ghost i = it.index() as int;
            proof {
                assert(pages.take(i + 1).drop_last() =~= pages.take(i));
                assert(pages.take(i + 1).last() == page);
            }
            let (_, batch) = page;
            match batch {
                Ok(mut batch) => {
                    commits.append(&mut batch);
                },
                Err(e) => {
                    proof {
                        lemma_failure_persists(pages, i + 1);
                    }
                    return Err(e);
                },
            }
        }
        proof {
            assert(pages.take(pages.len() as int) =~= pages);
        }
        Ok(range.sample(commits))
    }

    /// The metadata requests to issue for `commits`: one per commit, for
    /// the file `file`.
    pub fn request_commits_metadata(file: &str, commits: &Vec<CommitInfo>) -> (requests: Vec<
        CommitMetadataRequest,
    >)
        ensures
            requests@.len() == commits@.len(),
            key_views(requests@) == metadata_requests(file@, commits@),
    {
        let mut requests: Vec<CommitMetadataRequest> = Vec::new();
        let mut i: usize = 0;
        while i < commits.len()
            invariant
                i <= commits.len(),
                requests@.len() == i,
                forall|j: int|
                    0 <= j < i ==> (#[trigger] requests@[j])@ == (CommitMetadataRequestView {
                        commit: commits@[j].sha@,
                        file: file@,
                    }),
            decreases commits.len() - i,
        {
            requests.push(
                CommitMetadataRequest { commit: commits[i].sha.clone(), file: file.to_owned() },
            );
            i = i + 1;
        }
        proof {
            assert(key_views(requests@) =~= metadata_requests(file@, commits@));
        }
        requests
    }

    /// Builds the data set once every metadata request has reported: the
    /// commits as they are, and the payload of every commit whose request
    /// succeeded. A request that failed leaves its commit without metadata.
    pub fn handle_completed_metadata_fetch(
        commits: Vec<CommitInfo>,
        resp: Vec<(String, Result<String, Error>)>,
    ) -> (dataset: Self)
        ensures
            dataset.commits == commits,
            dataset.metadata@ == metadata_of(entry_views(resp@)),
    {
        let ghost responses = entry_views(resp@);
        let ghost given = resp@;
        let mut metadata: StringHashMap<String> = StringHashMap::new();
        for entry in it: resp
            invariant
                it.seq() == given,
                responses == entry_views(given),
                metadata@ == metadata_of(responses.take(it.index() as int)),
        {
            let ghost i = it.index() as int;
            proof {
                assert(responses.take(i + 1).drop_last() =~= responses.take(i));
            }
            let (sha, data) = entry;
            match data {
                Ok(payload) => {
                    metadata.insert(sha, payload);
                },
                Err(_) => {},
            }
        }
        proof {
            assert(responses.take(responses.len() as int) =~= responses);
        }
        CommitDataSet { commits, metadata }
    }
}

/// Once a prefix of the pages holds a failure, every longer prefix yields
/// that same failure.
pub proof fn lemma_failure_persists(
    pages: Seq<(u32, Result<Vec<CommitInfo>, Error>)>,
    upto: int,
)
    requires
        0 <= upto <= pages.len(),
        concatenated(pages.take(upto)) is Err,
    ensures
        concatenated(pages) == concatenated(pages.take(upto)),
    decreases pages.len() - upto,
{
    if upto < pages.len() {
        assert(pages.take(upto + 1).drop_last() =~= pages.take(upto));
        lemma_failure_persists(pages, upto + 1);
    } else {
        assert(pages.take(upto) =~= pages);
    }
}

/// The pages are joined only if every page succeeded; otherwise the
/// outcome is the failure of the first page that failed.
pub proof fn lemma_concatenated(pages: Seq<(u32, Result<Vec<CommitInfo>, Error>)>)
    ensures
        match concatenated(pages) {
            Ok(_) => forall|i: int| 0 <= i < pages.len() ==> (#[trigger] pages[i]).1 is Ok,
            Err(e) => exists|k: int|
                {
                    &&& 0 <= k < pages.len()
                    &&& (#[trigger] pages[k]).1 == Err::<Vec<CommitInfo>, Error>(e)
                    &&& forall|m: int| 0 <= m < k ==> (#[trigger] pages[m]).1 is Ok
                },
        },
    decreases pages.len(),
{
    if pages.len() > 0 {
        let earlier = pages.drop_last();
        lemma_concatenated(earlier);
        match concatenated(earlier) {
            Ok(_) => {
                assert forall|i: int| 0 <= i < earlier.len() implies (#[trigger] pages[i]).1 is Ok by {
                    assert(earlier[i] == pages[i]);
                }
                if let Err(e) = pages.last().1 {
                    let k = pages.len() - 1;
                    assert(pages[k].1 == Err::<Vec<CommitInfo>, Error>(e));
                }
            },
            Err(e) => {
                let k = choose|k: int|
                    {
                        &&& 0 <= k < earlier.len()
                        &&& (#[trigger] earlier[k]).1 == Err::<Vec<CommitInfo>, Error>(e)
                        &&& forall|m: int| 0 <= m < k ==> (#[trigger] earlier[m]).1 is Ok
                    };
                assert(pages[k] == earlier[k]);
                assert forall|m: int| 0 <= m < k implies (#[trigger] pages[m]).1 is Ok by {
                    assert(earlier[m] == pages[m]);
                }
            },
        }
    }
}

/// Fail fast: the listing fails exactly when one of its pages failed, in
/// whatever order the pages reported; and it then fails with the failure of
/// a page before which, by page number, every page succeeded.
pub proof fn lemma_listing_fails_fast(
    range: Range,
    pages: Seq<(u32, Result<Vec<CommitInfo>, Error>)>,
)
    ensures
        CommitDataSet::spec_listing(range, pages) is Err <==> exists|i: int|
            0 <= i < pages.len() && (#[trigger] pages[i]).1 is Err,
        CommitDataSet::spec_listing(range, pages) matches Err(e) ==> exists|i: int|
            {
                &&& 0 <= i < pages.len()
                &&& (#[trigger] pages[i]).1 == Err::<Vec<CommitInfo>, Error>(e)
                &&& forall|j: int|
                    0 <= j < pages.len() && (#[trigger] pages[j]).0 < pages[i].0 ==> pages[j].1 is Ok
            },
{
    let sorted = in_page_order(pages);
    lemma_in_page_order(pages);
    lemma_concatenated(sorted);
    sorted.to_multiset_ensures();
    pages.to_multiset_ensures();
    match concatenated(sorted) {
        Ok(_) => {
            assert forall|i: int| 0 <= i < pages.len() implies !((#[trigger] pages[i]).1 is Err) by {
                assert(pages.contains(pages[i]));
                assert(sorted.to_multiset().count(pages[i]) > 0);
                assert(sorted.contains(pages[i]));
                let m = choose|m: int| 0 <= m < sorted.len() && sorted[m] == pages[i];
                assert(sorted[m].1 is Ok);
            }
        },
        Err(e) => {
            let k = choose|k: int|
                {
                    &&& 0 <= k < sorted.len()
                    &&& (#[trigger] sorted[k]).1 == Err::<Vec<CommitInfo>, Error>(e)
                    &&& forall|m: int| 0 <= m < k ==> (#[trigger] sorted[m]).1 is Ok
                };
            assert(sorted.contains(sorted[k]));
            assert(pages.to_multiset().count(sorted[k]) > 0);
            assert(pages.contains(sorted[k]));
            let i = choose|i: int| 0 <= i < pages.len() && pages[i] == sorted[k];
            assert(pages[i].1 is Err);
            assert forall|j: int|
                0 <= j < pages.len() && (#[trigger] pages[j]).0 < pages[i].0 implies pages[j].1 is Ok by {
                assert(pages.contains(pages[j]));
                assert(sorted.to_multiset().count(pages[j]) > 0);
                assert(sorted.contains(pages[j]));
                let m = choose|m: int| 0 <= m < sorted.len() && sorted[m] == pages[j];
                if m >= k {
                    assert(sorted[k].0 <= sorted[m].0);
                }
                assert(sorted[m].1 is Ok);
            }
        },
    }
}

/// How many of `responses` succeeded.
pub open spec fn successes(responses: Seq<(Seq<char>, Result<String, Error>)>) -> nat
    decreases responses.len(),
{
    if responses.len() == 0 {
        0
    } else {
        successes(responses.drop_last()) + if responses.last().1 is Ok {
            1nat
        } else {
            0nat
        }
    }
}

/// Partial tolerance: the metadata holds an entry exactly for the commits
/// whose request succeeded, whatever became of the others. Where no commit
/// was asked for twice, each entry is the payload that the commit's request
/// yielded, and there are as many entries as requests that succeeded.
pub proof fn lemma_metadata_of(responses: Seq<(Seq<char>, Result<String, Error>)>)
    ensures
        metadata_of(responses).dom().finite(),
        forall|sha: Seq<char>| #[trigger]
            metadata_of(responses).contains_key(sha) <==> exists|i: int|
                0 <= i < responses.len() && (#[trigger] responses[i]).0 == sha && responses[i].1 is Ok,
        entry_shas(responses).no_duplicates() ==> {
            &&& metadata_of(responses).len() == successes(responses)
            &&& forall|i: int|
                0 <= i < responses.len() && (#[trigger] responses[i]).1 is Ok ==> metadata_of(
                    responses,
                )[responses[i].0] == responses[i].1->Ok_0
        },
    decreases responses.len(),
{
    if responses.len() > 0 {
        let earlier = responses.drop_last();
        let last = responses.last();
        lemma_metadata_of(earlier);
        assert forall|sha: Seq<char>| #[trigger]
            metadata_of(responses).contains_key(sha) <==> exists|i: int|
                0 <= i < responses.len() && (#[trigger] responses[i]).0 == sha && responses[i].1 is Ok by {
            if metadata_of(earlier).contains_key(sha) {
                let i = choose|i: int|
                    0 <= i < earlier.len() && (#[trigger] earlier[i]).0 == sha && earlier[i].1 is Ok;
                assert(responses[i] == earlier[i]);
            }
            if last.0 == sha && last.1 is Ok {
                assert(responses[responses.len() - 1] == last);
            }
            if exists|i: int|
                0 <= i < responses.len() && (#[trigger] responses[i]).0 == sha && responses[i].1 is Ok {
                let i = choose|i: int|
                    0 <= i < responses.len() && (#[trigger] responses[i]).0 == sha
                        && responses[i].1 is Ok;
                if i < earlier.len() {
                    assert(earlier[i] == responses[i]);
                }
            }
        }
        if entry_shas(responses).no_duplicates() {
            assert(entry_shas(earlier).no_duplicates()) by {
                assert forall|i: int, j: int|
                    0 <= i < earlier.len() && 0 <= j < earlier.len() && i != j implies entry_shas(
                    earlier,
                )[i] != entry_shas(earlier)[j] by {
                    assert(entry_shas(responses)[i] != entry_shas(responses)[j]);
                }
            }
            assert(!metadata_of(earlier).contains_key(last.0)) by {
                if metadata_of(earlier).contains_key(last.0) {
                    let i = choose|i: int|
                        0 <= i < earlier.len() && (#[trigger] earlier[i]).0 == last.0
                            && earlier[i].1 is Ok;
                    assert(entry_shas(responses)[i] != entry_shas(responses)[responses.len() - 1]);
                }
            }
            assert forall|i: int|
                0 <= i < responses.len() && (#[trigger] responses[i]).1 is Ok implies metadata_of(
                responses,
            )[responses[i].0] == responses[i].1->Ok_0 by {
                if i < earlier.len() {
                    assert(earlier[i] == responses[i]);
                    assert(entry_shas(responses)[i] != entry_shas(responses)[responses.len() - 1]);
                }
            }
        }
    }
}

/// The hashes that `responses` are keyed by, in their order.
pub open spec fn entry_shas(responses: Seq<(Seq<char>, Result<String, Error>)>) -> Seq<Seq<char>> {
    Seq::new(responses.len(), |i: int| responses[i].0)
}

} // verus!
