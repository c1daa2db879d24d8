//! Where the metadata of a commit is found below an address given in full.

use vstd::prelude::*;
use vstd::string::StringExecFns;

verus! {

/// The address of the metadata file `file` of `commit` below `data_url`.
pub open spec fn metadata_url(data_url: Seq<char>, commit: Seq<char>, file: Seq<char>) -> Seq<
    char,
> {
    data_url + seq!['/'] + commit + seq!['/'] + file
}

/// Builds the address of the metadata file `file` of `commit` below
/// `data_url`.
pub fn build_url(data_url: &str, commit: &str, file: &str) -> (url: String)
    ensures
        url@ == metadata_url(data_url@, commit@, file@),
{
    proof {
        reveal_strlit("/");
    }
    let mut url = String::from_str(data_url);
    url.append("/");
    url.append(commit);
    url.append("/");
    url.append(file);
    proof {
        assert("/"@ =~= seq!['/']);
    }
    url
}

} // verus!
