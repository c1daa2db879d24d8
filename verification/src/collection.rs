//! The two-stage collection of a data set: first the pages of the commit
//! listing, then the metadata of each sampled commit.
//!
//! The collection decides, its driver acts: the driver issues the requests
//! that it is given, and reports what becomes of each of them.

use crate::api::{
    clone_text, option_view, CommitListRequest, CommitListRequestView, CommitMetadataRequest, Error,
};
use crate::commit::CommitInfo;
use crate::dataset::{
    lemma_listing_fails_fast, metadata_of, metadata_requests, CommitDataSet, CommitsResponse,
    MetadataResponse, COMMITS_PAGE_SIZE,
};
use crate::keyed::{entry_views, key_views};
use crate::range::Range;
use crate::sync_group::{SyncGroup, SyncGroupView};
use vstd::prelude::*;

verus! {

/// The page numbers `1, ..., pages`.
pub open spec fn page_numbers(pages: int) -> Seq<u32> {
    Seq::new(pages as nat, |i: int| (i + 1) as u32)
}

/// The requests for the pages `1, ..., pages` of the listing of `repo`
/// from `from` on.
pub open spec fn listing_requests(repo: Seq<char>, from: Option<Seq<char>>, pages: int) -> Seq<
    CommitListRequestView,
> {
    Seq::new(
        pages as nat,
        |i: int|
            CommitListRequestView {
                repo: repo,
                from: from,
                page: (i + 1) as u32,
                count: COMMITS_PAGE_SIZE,
            },
    )
}

/// The hashes of `commits`, in their order.
pub open spec fn shas_of(commits: Seq<CommitInfo>) -> Seq<Seq<char>> {
    Seq::new(commits.len(), |i: int| commits[i].sha@)
}

/// Where a collection stands.
enum Stage<H> {
    Listing(SyncGroup<u32, CommitsResponse, H>),
    ListingFailed,
    Metadata(Vec<CommitInfo>, SyncGroup<String, MetadataResponse, H>),
    Complete,
}

/// Where a collection stands.
pub enum StageView<H> {
    /// The pages of the listing are being fetched; the group joins them.
    Listing(SyncGroupView<u32, CommitsResponse, H>),
    /// A page of the listing failed: the collection has ended in that
    /// failure.
    ListingFailed,
    /// The metadata of these commits is being fetched; the group joins the
    /// responses.
    Metadata(Seq<CommitInfo>, SyncGroupView<Seq<char>, MetadataResponse, H>),
    /// The data set has been delivered.
    Complete,
}

/// The mathematical content of a [`Collection`].
pub struct CollectionView<H> {
    /// The name of the metadata file.
    pub file: Seq<char>,
    /// The window that is collected.
    pub range: Range,
    pub stage: StageView<H>,
}

/// What the driver of a [`Collection`] has to do next.
pub enum Step {
    /// Nothing: more responses are awaited, or the collection has ended.
    Wait,
    /// The listing is complete: issue these metadata requests, report each
    /// response with [`Collection::metadata_received`], and call
    /// [`Collection::metadata_issued`] once all are issued.
    FetchMetadata(Vec<CommitMetadataRequest>),
    /// The collection has ended: hand this to whoever asked for it.
    Done(Result<CommitDataSet, Error>),
}

/// What kind of thing a [`Step`] asks of the driver.
pub enum StepKind {
    Wait,
    FetchMetadata,
    Delivered,
    Failed,
}

impl Step {
    /// The kind of the step: a wait, a request for metadata, the delivery
    /// of a data set, or a failure.
    pub open spec fn kind(self) -> StepKind {
        match self {
            Step::Wait => StepKind::Wait,
            Step::FetchMetadata(_) => StepKind::FetchMetadata,
            Step::Done(Ok(_)) => StepKind::Delivered,
            Step::Done(Err(_)) => StepKind::Failed,
        }
    }

    /// Whether the step asks for the metadata file `file` of each of
    /// `commits`.
    pub open spec fn asks_for(self, file: Seq<char>, commits: Seq<CommitInfo>) -> bool {
        self matches Step::FetchMetadata(requests) && key_views(requests@) == metadata_requests(
            file,
            commits,
        )
    }

    /// Whether the step ends the collection with a data set of `commits`
    /// and `metadata`.
    pub open spec fn delivers(self, commits: Seq<CommitInfo>, metadata: Map<Seq<char>, String>) -> bool {
        self matches Step::Done(Ok(dataset)) && dataset.commits@ == commits && dataset.metadata@
            == metadata
    }

    /// Whether the step ends the collection with the failure `e`.
    pub open spec fn fails_with(self, e: Error) -> bool {
        self matches Step::Done(Err(failure)) && failure == e
    }
}

impl<H> CollectionView<H> {
    /// The collection as it starts: it awaits the pages `1, ..., pages`.
    pub open spec fn started(file: Seq<char>, range: Range) -> Self {
        CollectionView {
            file,
            range,
            stage: StageView::Listing(
                SyncGroupView::created(page_numbers(range.spec_pages_for_batch(COMMITS_PAGE_SIZE))),
            ),
        }
    }

    /// The collection once the listing has yielded `pages`: it has failed
    /// if a page failed, and else awaits the metadata of the sampled
    /// commits.
    pub open spec fn listed(self, pages: Seq<(u32, CommitsResponse)>) -> Self {
        match CommitDataSet::spec_listing(self.range, pages) {
            Ok(commits) => CollectionView {
                stage: StageView::Metadata(commits, SyncGroupView::created(shas_of(commits))),
                ..self
            },
            Err(_) => CollectionView { stage: StageView::ListingFailed, ..self },
        }
    }

    /// The pages that the listing yields if its group, after letting go
    /// once more, hands out its values.
    pub open spec fn listing_yield(group: SyncGroupView<u32, CommitsResponse, H>) -> Option<
        Seq<(u32, CommitsResponse)>,
    > {
        if group.released().fires() {
            Some(group.collected())
        } else {
            None
        }
    }

    /// The responses that the metadata stage yields if its group, after
    /// letting go once more, hands out its values.
    pub open spec fn metadata_yield(group: SyncGroupView<Seq<char>, MetadataResponse, H>) -> Option<
        Seq<(Seq<char>, MetadataResponse)>,
    > {
        if group.released().fires() {
            Some(group.collected())
        } else {
            None
        }
    }

    /// The collection after a party of the listing stage has let go of the
    /// group `reported`, which holds what has been reported so far.
    pub open spec fn listing_progress(self, reported: SyncGroupView<u32, CommitsResponse, H>) -> Self {
        match Self::listing_yield(reported) {
            Some(pages) => self.listed(pages),
            None => CollectionView { stage: StageView::Listing(reported.let_go()), ..self },
        }
    }

    /// The collection after a party of the metadata stage has let go of
    /// the group `reported`, which holds what has been reported so far.
    pub open spec fn metadata_progress(
        self,
        commits: Seq<CommitInfo>,
        reported: SyncGroupView<Seq<char>, MetadataResponse, H>,
    ) -> Self {
        match Self::metadata_yield(reported) {
            Some(_) => CollectionView { stage: StageView::Complete, ..self },
            None => CollectionView {
                stage: StageView::Metadata(commits, reported.let_go()),
                ..self
            },
        }
    }

    /// The collection after page `page` of the listing has reported
    /// `response`.
    pub open spec fn commits_received(self, page: u32, response: CommitsResponse) -> Self {
        match self.stage {
            StageView::Listing(group) => self.listing_progress(group.stored(page, response)),
            _ => self,
        }
    }

    /// The collection after a party of the listing stage has let go
    /// without a value: whoever issued the requests, once all are issued,
    /// or a request that could not be issued.
    pub open spec fn commits_let_go(self) -> Self {
        match self.stage {
            StageView::Listing(group) => self.listing_progress(group),
            _ => self,
        }
    }

    /// The collection after the metadata request for the commit `sha` has
    /// reported `response`.
    pub open spec fn metadata_received(self, sha: Seq<char>, response: MetadataResponse) -> Self {
        match self.stage {
            StageView::Metadata(commits, group) => self.metadata_progress(
                commits,
                group.stored(sha, response),
            ),
            _ => self,
        }
    }

    /// The collection after a party of the metadata stage has let go
    /// without a value: whoever issued the requests, once all are issued,
    /// or a request that could not be issued.
    pub open spec fn metadata_let_go(self) -> Self {
        match self.stage {
            StageView::Metadata(commits, group) => self.metadata_progress(commits, group),
            _ => self,
        }
    }

    /// Whether `step` is what the driver is owed when a party of the
    /// listing stage has let go of the group `reported`.
    pub open spec fn listing_step(self, reported: SyncGroupView<u32, CommitsResponse, H>, step: Step) -> bool {
        match Self::listing_yield(reported) {
            Some(pages) => match CommitDataSet::spec_listing(self.range, pages) {
                Ok(commits) => step.asks_for(self.file, commits),
                Err(e) => step.fails_with(e),
            },
            None => step is Wait,
        }
    }

    /// Whether `step` is what the driver is owed when a party of the
    /// metadata stage has let go of the group `reported`.
    pub open spec fn metadata_step(
        commits: Seq<CommitInfo>,
        reported: SyncGroupView<Seq<char>, MetadataResponse, H>,
        step: Step,
    ) -> bool {
        match Self::metadata_yield(reported) {
            Some(responses) => step.delivers(commits, metadata_of(responses)),
            None => step is Wait,
        }
    }
}

/// The two-stage collection of a [`CommitDataSet`]: first the pages of the
/// commit listing, then the metadata of each sampled commit.
///
/// The collection decides, its driver acts: the driver issues the requests
/// that it is given, and reports what becomes of each of them.
pub struct Collection<H> {
    file: String,
    range: Range,
    stage: Stage<H>,
}

impl<H> View for Stage<H> {
    type V = StageView<H>;

    closed spec fn view(&self) -> StageView<H> {
        match *self {
            Stage::Listing(group) => StageView::Listing(group@),
            Stage::ListingFailed => StageView::ListingFailed,
            Stage::Metadata(commits, group) => StageView::Metadata(commits@, group@),
            Stage::Complete => StageView::Complete,
        }
    }
}

impl<H> View for Collection<H> {
    type V = CollectionView<H>;

    closed spec fn view(&self) -> CollectionView<H> {
        CollectionView { file: self.file@, range: self.range, stage: self.stage@ }
    }
}

impl<H> Collection<H> {
    #[verifier::type_invariant]
    spec fn can_sample(&self) -> bool {
        self.range.samples > 0
    }

    /// Moves on from the listing stage when its group has handed out the
    /// pages.
    fn after_listing(
        &self,
        group: SyncGroup<u32, CommitsResponse, H>,
        fired: Option<Vec<(u32, CommitsResponse)>>,
    ) -> (next: (Stage<H>, Step))
        requires
            self.range.samples > 0,
        ensures
            match fired {
                Some(pages) => {
                    &&& next.0@ == self@.listed(entry_views(pages@)).stage
                    &&& match CommitDataSet::spec_listing(self.range, entry_views(pages@)) {
                        Ok(commits) => next.1.asks_for(self.file@, commits),
                        Err(e) => next.1.fails_with(e),
                    }
                },
                None => next.0@ == StageView::Listing(group@) && next.1 is Wait,
            },
    {
        match fired {
            None => (Stage::Listing(group), Step::Wait),
            Some(pages) => {
                proof {
                    assert(entry_views(pages@) =~= pages@);
                }
                match CommitDataSet::handle_completed_commits_fetch(&self.range, pages) {
                    Err(e) => (Stage::ListingFailed, Step::Done(Err(e))),
                    Ok(commits) => {
                        let requests = CommitDataSet::request_commits_metadata(
                            self.file.as_str(),
                            &commits,
                        );
                        let mut shas: Vec<String> = Vec::new();
                        let mut i: usize = 0;
                        while i < commits.len()
                            invariant
                                i <= commits.len(),
                                shas@.len() == i,
                                forall|j: int| 0 <= j < i ==> (#[trigger] shas@[j])@ == commits@[j].sha@,
                            decreases commits.len() - i,
                        {
                            shas.push(commits[i].sha.clone());
                            i = i + 1;
                        }
                        proof {
                            assert(key_views(shas@) =~= shas_of(commits@));
                        }
                        (Stage::Metadata(commits, SyncGroup::new(shas)), Step::FetchMetadata(requests))
                    },
                }
            },
        }
    }

    /// Ends the metadata stage when its group has handed out the responses.
    fn after_metadata(
        commits: Vec<CommitInfo>,
        group: SyncGroup<String, MetadataResponse, H>,
        fired: Option<Vec<(String, MetadataResponse)>>,
    ) -> (next: (Stage<H>, Step))
        ensures
            match fired {
                Some(responses) => {
                    &&& next.0@ == StageView::<H>::Complete
                    &&& next.1.delivers(commits@, metadata_of(entry_views(responses@)))
                },
                None => next.0@ == StageView::Metadata(commits@, group@) && next.1 is Wait,
            },
    {
        match fired {
            None => (Stage::Metadata(commits, group), Step::Wait),
            Some(responses) => (
                Stage::Complete,
                Step::Done(Ok(CommitDataSet::handle_completed_metadata_fetch(commits, responses))),
            ),
        }
    }

    /// Records the cancellation handle of the request for page `page` of
    /// the listing. A handle that is of no use any more is handed back.
    pub fn commits_in_flight(&mut self, page: u32, task: H) -> (rejected: Option<H>)
        ensures
            final(self)@ == (match old(self)@.stage {
                StageView::Listing(group) => CollectionView {
                    stage: StageView::Listing(group.marked(page, task)),
                    ..old(self)@
                },
                _ => old(self)@,
            }),
            rejected == (match old(self)@.stage {
                StageView::Listing(group) => if group.accepts_handle(page) {
                    None
                } else {
                    Some(task)
                },
                _ => Some(task),
            }),
    {
        proof {
            use_type_invariant(&*self);
        }
        let mut stage: Stage<H> = Stage::Complete;
        core::mem::swap(&mut self.stage, &mut stage);
        let (next, rejected) = match stage {
            Stage::Listing(mut group) => {
                let rejected = group.in_flight(page, task);
                (Stage::Listing(group), rejected)
            },
            other => (other, Some(task)),
        };
        self.stage = next;
        rejected
    }

    /// Takes in what the request for page `page` of the listing has
    /// yielded.
    pub fn commits_received(&mut self, page: u32, response: CommitsResponse) -> (step: Step)
        ensures
            final(self)@ == old(self)@.commits_received(page, response),
            step.kind() == old(self)@.owes(CollectionEvent::CommitsReceived(page, response)),
            match old(self)@.stage {
                StageView::Listing(group) => old(self)@.listing_step(
                    group.stored(page, response),
                    step,
                ),
                _ => step is Wait,
            },
    {
        proof {
            use_type_invariant(&*self);
        }
        let mut stage: Stage<H> = Stage::Complete;
        core::mem::swap(&mut self.stage, &mut stage);
        let (next, step) = match stage {
            Stage::Listing(mut group) => {
                let fired = group.recv(page, response);
                self.after_listing(group, fired)
            },
            other => (other, Step::Wait),
        };
        self.stage = next;
        step
    }

    /// Takes note that every request of the listing has been issued.
    pub fn commits_issued(&mut self) -> (step: Step)
        ensures
            final(self)@ == old(self)@.commits_let_go(),
            step.kind() == old(self)@.owes(CollectionEvent::CommitsIssued),
            match old(self)@.stage {
                StageView::Listing(group) => old(self)@.listing_step(group, step),
                _ => step is Wait,
            },
    {
        proof {
            use_type_invariant(&*self);
        }
        let mut stage: Stage<H> = Stage::Complete;
        core::mem::swap(&mut self.stage, &mut stage);
        let (next, step) = match stage {
            Stage::Listing(mut group) => {
                let fired = group.try_complete();
                self.after_listing(group, fired)
            },
            other => (other, Step::Wait),
        };
        self.stage = next;
        step
    }

    /// Records the cancellation handle of the metadata request for the
    /// commit `sha`. A handle that is of no use any more is handed back.
    pub fn metadata_in_flight(&mut self, sha: String, task: H) -> (rejected: Option<H>)
        ensures
            final(self)@ == (match old(self)@.stage {
                StageView::Metadata(commits, group) => CollectionView {
                    stage: StageView::Metadata(commits, group.marked(sha@, task)),
                    ..old(self)@
                },
                _ => old(self)@,
            }),
            rejected == (match old(self)@.stage {
                StageView::Metadata(_, group) => if group.accepts_handle(sha@) {
                    None
                } else {
                    Some(task)
                },
                _ => Some(task),
            }),
    {
        proof {
            use_type_invariant(&*self);
        }
        let mut stage: Stage<H> = Stage::Complete;
        core::mem::swap(&mut self.stage, &mut stage);
        let (next, rejected) = match stage {
            Stage::Metadata(commits, mut group) => {
                let rejected = group.in_flight(sha, task);
                (Stage::Metadata(commits, group), rejected)
            },
            other => (other, Some(task)),
        };
        self.stage = next;
        rejected
    }

    /// Takes in what the metadata request for the commit `sha` has
    /// yielded.
    pub fn metadata_received(&mut self, sha: String, response: MetadataResponse) -> (step: Step)
        ensures
            final(self)@ == old(self)@.metadata_received(sha@, response),
            step.kind() == old(self)@.owes(CollectionEvent::MetadataReceived(sha@, response)),
            match old(self)@.stage {
                StageView::Metadata(commits, group) => CollectionView::<H>::metadata_step(
                    commits,
                    group.stored(sha@, response),
                    step,
                ),
                _ => step is Wait,
            },
    {
        proof {
            use_type_invariant(&*self);
        }
        let mut stage: Stage<H> = Stage::Complete;
        core::mem::swap(&mut self.stage, &mut stage);
        let (next, step) = match stage {
            Stage::Metadata(commits, mut group) => {
                let fired = group.recv(sha, response);
                Self::after_metadata(commits, group, fired)
            },
            other => (other, Step::Wait),
        };
        self.stage = next;
        step
    }

    /// Takes note that a request of the listing could not be issued: the
    /// party that would have reported its response lets go without one.
    /// The listing can then no longer be completed, and
    /// [`Collection::is_stalled`] says so once every other party has let go.
    pub fn commits_abandoned(&mut self) -> (step: Step)
        ensures
            final(self)@ == old(self)@.commits_let_go(),
            step.kind() == old(self)@.owes(CollectionEvent::CommitsAbandoned),
            match old(self)@.stage {
                StageView::Listing(group) => old(self)@.listing_step(group, step),
                _ => step is Wait,
            },
    {
        self.commits_issued()
    }

    /// Takes note that a metadata request could not be issued: the party
    /// that would have reported its response lets go without one. The
    /// metadata stage can then no longer be completed, and
    /// [`Collection::is_stalled`] says so once every other party has let go.
    pub fn metadata_abandoned(&mut self) -> (step: Step)
        ensures
            final(self)@ == old(self)@.metadata_let_go(),
            step.kind() == old(self)@.owes(CollectionEvent::MetadataAbandoned),
            match old(self)@.stage {
                StageView::Metadata(commits, group) => CollectionView::<H>::metadata_step(
                    commits,
                    group,
                    step,
                ),
                _ => step is Wait,
            },
    {
        self.metadata_issued()
    }

    /// Whether the collection is stuck: every party of its current stage
    /// has let go, and a response is still missing, so that it will end
    /// neither in a data set nor in a failure.
    pub fn is_stalled(&self) -> (stalled: bool)
        ensures
            stalled == self@.stalled(),
    {
        match &self.stage {
            Stage::Listing(group) => group.is_stalled(),
            Stage::Metadata(_, group) => group.is_stalled(),
            _ => false,
        }
    }

    /// Takes note that every metadata request has been issued.
    pub fn metadata_issued(&mut self) -> (step: Step)
        ensures
            final(self)@ == old(self)@.metadata_let_go(),
            step.kind() == old(self)@.owes(CollectionEvent::MetadataIssued),
            match old(self)@.stage {
                StageView::Metadata(commits, group) => CollectionView::<H>::metadata_step(
                    commits,
                    group,
                    step,
                ),
                _ => step is Wait,
            },
    {
        proof {
            use_type_invariant(&*self);
        }
        let mut stage: Stage<H> = Stage::Complete;
        core::mem::swap(&mut self.stage, &mut stage);
        let (next, step) = match stage {
            Stage::Metadata(commits, mut group) => {
                let fired = group.try_complete();
                Self::after_metadata(commits, group, fired)
            },
            other => (other, Step::Wait),
        };
        self.stage = next;
        step
    }
}

impl CommitDataSet {
    /// Starts the collection of the window `range` of the history of
    /// `repo`, with the metadata file `file` for each sampled commit. The
    /// driver issues the requests that are handed out, reports each
    /// response with [`Collection::commits_received`], and calls
    /// [`Collection::commits_issued`] once all are issued.
    pub fn collect_range<H>(repo: &str, file: &str, range: Range) -> (started: (
        Collection<H>,
        Vec<CommitListRequest>,
    ))
        requires
            range.count > 0,
            range.samples > 0,
        ensures
            started.0@ == CollectionView::<H>::started(file@, range),
            started.1@.len() == range.spec_pages_for_batch(COMMITS_PAGE_SIZE),
            key_views(started.1@) == listing_requests(
                repo@,
                option_view(range.from),
                range.spec_pages_for_batch(COMMITS_PAGE_SIZE),
            ),
    {
        let pages: u32 = range.pages_for_batch(COMMITS_PAGE_SIZE);
        let mut numbers: Vec<u32> = Vec::new();
        let mut requests: Vec<CommitListRequest> = Vec::new();
        let mut i: u32 = 1;
        while i <= pages
            invariant
                1 <= i <= pages + 1,
                pages < u32::MAX,
                numbers@.len() == i - 1,
                requests@.len() == i - 1,
                forall|j: int| 0 <= j < i - 1 ==> (#[trigger] numbers@[j]) == j + 1,
                forall|j: int|
                    0 <= j < i - 1 ==> (#[trigger] requests@[j])@ == (CommitListRequestView {
                        repo: repo@,
                        from: option_view(range.from),
                        page: (j + 1) as u32,
                        count: COMMITS_PAGE_SIZE,
                    }),
            decreases pages + 1 - i,
        {
            numbers.push(i);
            requests.push(
                CommitListRequest {
                    repo: repo.to_owned(),
                    from: clone_text(&range.from),
                    page: i,
                    count: COMMITS_PAGE_SIZE,
                },
            );
            i = i + 1;
        }
        proof {
            assert(key_views(numbers@) =~= page_numbers(pages as int));
            assert(key_views(requests@) =~= listing_requests(
                repo@,
                option_view(range.from),
                pages as int,
            ));
        }
        let group: SyncGroup<u32, CommitsResponse, H> = SyncGroup::new(numbers);
        (Collection { file: file.to_owned(), range, stage: Stage::Listing(group) }, requests)
    }
}

/// One report that the driver makes to a [`Collection`].
pub enum CollectionEvent {
    CommitsReceived(u32, CommitsResponse),
    CommitsAbandoned,
    CommitsIssued,
    MetadataReceived(Seq<char>, MetadataResponse),
    MetadataAbandoned,
    MetadataIssued,
}

impl<H> CollectionView<H> {
    /// The collection after `event`.
    pub open spec fn after(self, event: CollectionEvent) -> Self {
        match event {
            CollectionEvent::CommitsReceived(page, response) => self.commits_received(
                page,
                response,
            ),
            CollectionEvent::CommitsAbandoned => self.commits_let_go(),
            CollectionEvent::CommitsIssued => self.commits_let_go(),
            CollectionEvent::MetadataReceived(sha, response) => self.metadata_received(
                sha,
                response,
            ),
            CollectionEvent::MetadataAbandoned => self.metadata_let_go(),
            CollectionEvent::MetadataIssued => self.metadata_let_go(),
        }
    }

    /// The kind of step that the driver is owed when a party of the
    /// listing stage has let go of the group `reported`.
    pub open spec fn listing_owes(self, reported: SyncGroupView<u32, CommitsResponse, H>) -> StepKind {
        match Self::listing_yield(reported) {
            Some(pages) => match CommitDataSet::spec_listing(self.range, pages) {
                Ok(_) => StepKind::FetchMetadata,
                Err(_) => StepKind::Failed,
            },
            None => StepKind::Wait,
        }
    }

    /// The kind of step that the driver is owed when a party of the
    /// metadata stage has let go of the group `reported`.
    pub open spec fn metadata_owes(reported: SyncGroupView<Seq<char>, MetadataResponse, H>) -> StepKind {
        match Self::metadata_yield(reported) {
            Some(_) => StepKind::Delivered,
            None => StepKind::Wait,
        }
    }

    /// The kind of step that the driver is owed on `event`.
    pub open spec fn owes(self, event: CollectionEvent) -> StepKind {
        match (self.stage, event) {
            (StageView::Listing(group), CollectionEvent::CommitsReceived(page, response)) => {
                self.listing_owes(group.stored(page, response))
            },
            (StageView::Listing(group), CollectionEvent::CommitsIssued) => self.listing_owes(group),
            (StageView::Listing(group), CollectionEvent::CommitsAbandoned) => self.listing_owes(
                group,
            ),
            (StageView::Metadata(_, group), CollectionEvent::MetadataReceived(sha, response)) => {
                Self::metadata_owes(group.stored(sha, response))
            },
            (StageView::Metadata(_, group), CollectionEvent::MetadataIssued) => Self::metadata_owes(
                group,
            ),
            (StageView::Metadata(_, group), CollectionEvent::MetadataAbandoned) => {
                Self::metadata_owes(group)
            },
            _ => StepKind::Wait,
        }
    }

    /// The collection after `events`, in their order.
    pub open spec fn after_all(self, events: Seq<CollectionEvent>) -> Self
        decreases events.len(),
    {
        if events.len() == 0 {
            self
        } else {
            self.after_all(events.drop_last()).after(events.last())
        }
    }

    /// How many steps of the kind `kind` the driver is owed while `events`
    /// are reported.
    pub open spec fn count(self, events: Seq<CollectionEvent>, kind: StepKind) -> nat
        decreases events.len(),
    {
        if events.len() == 0 {
            0
        } else {
            self.count(events.drop_last(), kind) + if self.after_all(events.drop_last()).owes(
                events.last(),
            ) == kind {
                1nat
            } else {
                0nat
            }
        }
    }

    /// How far the collection has come: the listing, then the metadata,
    /// then the end.
    pub open spec fn progress(self) -> int {
        match self.stage {
            StageView::Listing(_) => 0,
            StageView::Metadata(_, _) => 1,
            StageView::ListingFailed => 2,
            StageView::Complete => 2,
        }
    }

    /// Whether the collection has ended, in a failure or in a data set.
    pub open spec fn ended(self) -> bool {
        self.stage is ListingFailed || self.stage is Complete
    }

    /// Whether the collection is stuck: the join of its current stage is
    /// held by nobody any more, and yet misses a response.
    pub open spec fn stalled(self) -> bool {
        match self.stage {
            StageView::Listing(group) => group.stalled(),
            StageView::Metadata(_, group) => group.stalled(),
            _ => false,
        }
    }
}

/// Whether `event` reports a response.
pub open spec fn is_report(event: CollectionEvent) -> bool {
    event is CommitsReceived || event is MetadataReceived
}

/// A stalled collection stays stalled: as long as no response is reported
/// to it, it stays in its stage and owes the driver nothing but waits. A
/// collection stalls when a request could not be issued and every other
/// party has let go.
pub proof fn lemma_stalled_collection_waits<H>(
    collection: CollectionView<H>,
    events: Seq<CollectionEvent>,
)
    requires
        collection.stalled(),
        forall|i: int| 0 <= i < events.len() ==> !is_report(#[trigger] events[i]),
    ensures
        collection.after_all(events) == collection,
        collection.count(events, StepKind::FetchMetadata) == 0,
        collection.count(events, StepKind::Failed) == 0,
        collection.count(events, StepKind::Delivered) == 0,
    decreases events.len(),
{
    if events.len() > 0 {
        let earlier = events.drop_last();
        assert forall|i: int| 0 <= i < earlier.len() implies !is_report(#[trigger] earlier[i]) by {
            assert(earlier[i] == events[i]);
        }
        lemma_stalled_collection_waits(collection, earlier);
        assert(events[events.len() - 1] == events.last());
        match collection.stage {
            StageView::Listing(group) => {
                assert(group.released() == group);
            },
            StageView::Metadata(_, group) => {
                assert(group.released() == group);
            },
            _ => {},
        }
    }
}

/// Fail fast, for the collection: when the listing is complete and one of
/// its pages has failed, the collection ends there, without a metadata
/// stage.
pub proof fn lemma_failed_page_ends_collection<H>(
    collection: CollectionView<H>,
    pages: Seq<(u32, CommitsResponse)>,
)
    requires
        exists|i: int| 0 <= i < pages.len() && (#[trigger] pages[i]).1 is Err,
    ensures
        collection.listed(pages).stage is ListingFailed,
        collection.listed(pages).ended(),
{
    lemma_listing_fails_fast(collection.range, pages);
}

/// A collection only moves forward: from the listing to the metadata or to
/// the failure of the listing, and from the metadata to the data set. Its
/// file and its window never change.
pub proof fn lemma_collection_moves_forward<H>(collection: CollectionView<H>, event: CollectionEvent)
    ensures
        collection.after(event).progress() >= collection.progress(),
        collection.after(event).file == collection.file,
        collection.after(event).range == collection.range,
        collection.stage is Listing ==> !(collection.after(event).stage is Complete),
        collection.stage is Metadata ==> !(collection.after(event).stage is ListingFailed),
{
}

/// A collection that has ended stays as it is, whatever is reported to it:
/// the driver is owed nothing more, neither a request nor a second
/// outcome.
pub proof fn lemma_ended_collection_is_final<H>(collection: CollectionView<H>, event: CollectionEvent)
    requires
        collection.ended(),
    ensures
        collection.after(event) == collection,
{
}

/// One outcome, once: whatever is reported to a collection, in whatever
/// order, the steps that the driver is owed follow the stages. A collection
/// in its listing stage asks for metadata at most once and ends at most
/// once; it fails only instead of asking for metadata, and it delivers a
/// data set only after asking for metadata. A collection in its metadata
/// stage asks and fails no more, and delivers at most once. A collection
/// that has ended owes nothing but waits.
pub proof fn lemma_one_outcome<H>(collection: CollectionView<H>, events: Seq<CollectionEvent>)
    ensures
        ({
            let end = collection.after_all(events);
            let asked = collection.count(events, StepKind::FetchMetadata);
            let failed = collection.count(events, StepKind::Failed);
            let delivered = collection.count(events, StepKind::Delivered);
            &&& collection.stage is Listing ==> {
                &&& end.stage is Listing ==> asked == 0 && failed == 0 && delivered == 0
                &&& end.stage is Metadata ==> asked == 1 && failed == 0 && delivered == 0
                &&& end.stage is ListingFailed ==> asked == 0 && failed == 1 && delivered == 0
                &&& end.stage is Complete ==> asked == 1 && failed == 0 && delivered == 1
            }
            &&& collection.stage is Metadata ==> {
                &&& asked == 0 && failed == 0
                &&& end.stage is Metadata && delivered == 0 || end.stage is Complete && delivered
                    == 1
            }
            &&& collection.ended() ==> end == collection && asked == 0 && failed == 0 && delivered
                == 0
        }),
    decreases events.len(),
{
    if events.len() > 0 {
        lemma_one_outcome(collection, events.drop_last());
    }
}

} // verus!
