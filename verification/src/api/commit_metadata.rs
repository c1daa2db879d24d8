//! Where the metadata that was recorded for a commit is published.

use vstd::prelude::*;
use vstd::string::StringExecFns;

verus! {

/// The characters of the address under which the recorded metadata is
/// published.
pub open spec fn site() -> Seq<char> {
    "https://kawamuray.github.io/decaton/"@
}

/// The address of the metadata file `file` of `commit` below `data_path`.
pub open spec fn metadata_url(data_path: Seq<char>, commit: Seq<char>, file: Seq<char>) -> Seq<
    char,
> {
    site() + data_path + seq!['/'] + commit + seq!['/'] + file
}

/// Builds the address of the metadata file `file` of `commit`, below the
/// directory `data_path` of the site.
pub fn build_url(data_path: &str, commit: &str, file: &str) -> (url: String)
    ensures
        url@ == metadata_url(data_path@, commit@, file@),
{
    proof {
        reveal_strlit("/");
    }
    let mut url = String::from_str("https://kawamuray.github.io/decaton/");
    url.append(data_path);
    url.append("/");
    url.append(commit);
    url.append("/");
    url.append(file);
    proof {
        assert("/"@ =~= seq!['/']);
    }
    url
}

} // verus!
