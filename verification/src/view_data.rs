//! The data that the views draw: the commits and, for each commit that has
//! one, the value extracted from its metadata.

use crate::commit::CommitInfo;
use crate::dataset::CommitDataSet;
use vstd::hash_map::StringHashMap;
use vstd::prelude::*;

verus! {

/// The commits of a data set and the value extracted for each of them.
#[verifier::reject_recursive_types(V)]
pub struct CommitViewData<V> {
    pub commits: Vec<CommitInfo>,
    pub metadata: StringHashMap<V>,
}

/// What the extraction yields for a commit with the hash `sha`, given the
/// metadata of the data set: nothing where the commit has no metadata,
/// else one of the outcomes that `extract` admits on the commit's payload.
pub open spec fn extracts<V, E, F: Fn(&String) -> Result<Option<V>, E>>(
    extract: F,
    metadata: Map<Seq<char>, String>,
    sha: Seq<char>,
    outcome: Result<Option<V>, E>,
) -> bool {
    if metadata.contains_key(sha) {
        call_ensures(extract, (&metadata[sha],), outcome)
    } else {
        outcome == Ok::<Option<V>, E>(None)
    }
}

/// The values of `commits`, by hash, where `outcomes` holds what the
/// extraction has yielded for each commit.
pub open spec fn values_of<V, E>(commits: Seq<CommitInfo>, outcomes: Seq<Result<Option<V>, E>>) -> Map<
    Seq<char>,
    V,
>
    decreases outcomes.len(),
{
    if outcomes.len() == 0 {
        Map::empty()
    } else {
        let earlier = values_of(commits, outcomes.drop_last());
        match outcomes.last() {
            Ok(Some(value)) => earlier.insert(commits[outcomes.len() - 1].sha@, value),
            _ => earlier,
        }
    }
}

impl<V> CommitViewData<V> {
    /// Extracts a value from the metadata of each commit of `ds`, in the
    /// order of the commits. A commit without metadata, or whose metadata
    /// holds no value, has no value; the first extraction that fails ends
    /// the whole in its failure.
    pub fn from_dataset<E, F: Fn(&String) -> Result<Option<V>, E>>(ds: CommitDataSet, extract: F) -> (view:
        Result<Self, E>)
        requires
            forall|payload: &String| call_requires(extract, (payload,)),
        ensures
            match view {
                Ok(data) => exists|outcomes: Seq<Result<Option<V>, E>>|
                    {
                        &&& outcomes.len() == ds.commits@.len()
                        &&& forall|i: int|
                            0 <= i < outcomes.len() ==> (#[trigger] outcomes[i]) is Ok && extracts(
                                extract,
                                ds.metadata@,
                                ds.commits@[i].sha@,
                                outcomes[i],
                            )
                        &&& data.commits == ds.commits
                        &&& data.metadata@ == values_of(ds.commits@, outcomes)
                    },
                Err(e) => exists|outcomes: Seq<Result<Option<V>, E>>|
                    {
                        &&& 0 < outcomes.len() <= ds.commits@.len()
                        &&& forall|i: int|
                            0 <= i < outcomes.len() ==> extracts(
                                extract,
                                ds.metadata@,
                                ds.commits@[i].sha@,
                                #[trigger] outcomes[i],
                            )
                        &&& forall|i: int| 0 <= i < outcomes.len() - 1 ==> (#[trigger] outcomes[i]) is Ok
                        &&& outcomes.last() == Err::<Option<V>, E>(e)
                    },
            },
    {
        let mut meta_vals: StringHashMap<V> = StringHashMap::new();
        let ghost mut outcomes: Seq<Result<Option<V>, E>> = Seq::empty();
        let mut i: usize = 0;
        while i < ds.commits.len()
            invariant
                i <= ds.commits.len(),
                forall|payload: &String| call_requires(extract, (payload,)),
                outcomes.len() == i,
                forall|j: int|
                    0 <= j < outcomes.len() ==> (#[trigger] outcomes[j]) is Ok && extracts(
                        extract,
                        ds.metadata@,
                        ds.commits@[j].sha@,
                        outcomes[j],
                    ),
                meta_vals@ == values_of(ds.commits@, outcomes),
            decreases ds.commits.len() - i,
        {
            let ghost before = outcomes;
            let found = ds.metadata.get(ds.commits[i].sha.as_str());
            match found {
                Some(json) => {
                    match extract(json) {
                        Ok(Some(value)) => {
                            proof {
                                outcomes = outcomes.push(Ok(Some(value)));
                                assert(outcomes.drop_last() =~= before);
                            }
                            meta_vals.insert(ds.commits[i].sha.clone(), value);
                        },
                        Ok(None) => {
                            proof {
                                outcomes = outcomes.push(Ok(None));
                                assert(outcomes.drop_last() =~= before);
                            }
                        },
                        Err(e) => {
                            proof {
                                outcomes = outcomes.push(Err(e));
                                assert(outcomes.drop_last() =~= before);
                                assert forall|j: int| 0 <= j < outcomes.len() implies extracts(
                                    extract,
                                    ds.metadata@,
                                    ds.commits@[j].sha@,
                                    #[trigger] outcomes[j],
                                ) by {
                                    if j < before.len() {
                                        assert(outcomes[j] == before[j]);
                                    }
                                }
                                assert forall|j: int| 0 <= j < outcomes.len() - 1 implies (
                                #[trigger] outcomes[j]) is Ok by {
                                    assert(outcomes[j] == before[j]);
                                }
                                assert(outcomes.last() == Err::<Option<V>, E>(e));
                                assert(0 < outcomes.len() <= ds.commits@.len());
                            }
                            return Err(e);
                        },
                    }
                },
                None => {
                    proof {
                        outcomes = outcomes.push(Ok(None));
                        assert(outcomes.drop_last() =~= before);
                    }
                },
            }
            proof {
                assert forall|j: int| 0 <= j < outcomes.len() implies (#[trigger] outcomes[j]) is Ok
                    && extracts(extract, ds.metadata@, ds.commits@[j].sha@, outcomes[j]) by {
                    if j < before.len() {
                        assert(outcomes[j] == before[j]);
                    }
                }
            }
            i = i + 1;
        }
        Ok(CommitViewData { commits: ds.commits, metadata: meta_vals })
    }
}

} // verus!
