//! One commit of the history, as the commit listing reports it.

use crate::keyed::Payload;
use vstd::prelude::*;
use vstd::string::StrSliceExecFns;
use vstd::utf8::{
    decode_utf8, encode_utf8, encode_utf8_decode_utf8, encode_utf8_valid_utf8, is_ascii_chars,
    is_ascii_chars_encode_utf8, is_char_boundary, is_char_boundary_iff_not_is_continuation_byte,
    is_char_boundary_start_end_of_seq, is_continuation_byte,
};

verus! {

/// An instant, as seconds and nanoseconds since the Unix epoch (UTC).
#[derive(Debug, Clone, Copy, PartialEq, Eq)]
pub struct Timestamp {
    pub secs: i64,
    pub nanos: u32,
}

/// Who wrote or committed a change.
#[derive(Debug, PartialEq, Eq)]
pub struct UserInfo {
    pub name: String,
    pub email: String,
}

impl Clone for UserInfo {
    fn clone(&self) -> (copy: Self)
        ensures
            copy == *self,
    {
        UserInfo { name: self.name.clone(), email: self.email.clone() }
    }
}

/// A commit: immutable once made from a listing response.
#[derive(Debug, PartialEq, Eq)]
pub struct CommitInfo {
    pub sha: String,
    pub author: UserInfo,
    pub author_date: Timestamp,
    pub committer: UserInfo,
    pub commit_date: Timestamp,
    pub message: String,
    pub view_url: String,
}

impl Clone for CommitInfo {
    fn clone(&self) -> (copy: Self)
        ensures
            copy == *self,
    {
        CommitInfo {
            sha: self.sha.clone(),
            author: self.author.clone(),
            author_date: self.author_date,
            committer: self.committer.clone(),
            commit_date: self.commit_date,
            message: self.message.clone(),
            view_url: self.view_url.clone(),
        }
    }
}

impl Payload for Vec<CommitInfo> {
    type Content = Seq<CommitInfo>;

    open spec fn content(&self) -> Seq<CommitInfo> {
        self@
    }

    fn replicate(&self) -> (copy: Self) {
        let mut copy: Vec<CommitInfo> = Vec::new();
        let mut i: usize = 0;
        while i < self.len()
            invariant
                i <= self.len(),
                copy@ == self@.take(i as int),
            decreases self.len() - i,
        {
            copy.push(self[i].clone());
            proof {
                assert(copy@ =~= self@.take(i + 1));
            }
            i = i + 1;
        }
        proof {
            assert(self@.take(self.len() as int) =~= self@);
        }
        copy
    }
}

/// The number of bytes that the short form of a hash keeps.
pub const SHORT_SHA_LEN: usize = 7;

/// The number of characters before the first line break of `text`; the
/// number of all its characters where there is none.
pub open spec fn headline_len(text: Seq<char>) -> int
    decreases text.len(),
{
    if text.len() == 0 || text[0] == '\n' {
        0
    } else {
        1 + headline_len(text.skip(1))
    }
}

/// `headline_len` counts the characters up to the first line break: none
/// of them is a line break, and a line break follows unless the text ends.
pub proof fn lemma_headline_len(text: Seq<char>)
    ensures
        0 <= headline_len(text) <= text.len(),
        forall|i: int| 0 <= i < headline_len(text) ==> text[i] != '\n',
        headline_len(text) < text.len() ==> text[headline_len(text)] == '\n',
    decreases text.len(),
{
    if text.len() > 0 && text[0] != '\n' {
        let rest = text.skip(1);
        lemma_headline_len(rest);
        assert forall|i: int| 0 <= i < headline_len(text) implies text[i] != '\n' by {
            if i > 0 {
                assert(rest[i - 1] == text[i]);
            }
        }
        if headline_len(text) < text.len() {
            assert(rest[headline_len(rest)] == text[headline_len(text)]);
        }
    }
}

/// A prefix without a line break, followed by a line break or by the end,
/// is the headline.
pub proof fn lemma_headline_found(text: Seq<char>, n: int)
    requires
        0 <= n <= text.len(),
        forall|i: int| 0 <= i < n ==> text[i] != '\n',
        n < text.len() ==> text[n] == '\n',
    ensures
        headline_len(text) == n,
    decreases n,
{
    if n > 0 {
        let rest = text.skip(1);
        assert forall|i: int| 0 <= i < n - 1 implies rest[i] != '\n' by {
            assert(rest[i] == text[i + 1]);
        }
        if n - 1 < rest.len() {
            assert(rest[n - 1] == text[n]);
        }
        lemma_headline_found(rest, n - 1);
    }
}

/// The characters that the first seven bytes of `sha` encode.
pub open spec fn short_form(sha: Seq<char>) -> Seq<char> {
    decode_utf8(encode_utf8(sha).subrange(0, SHORT_SHA_LEN as int))
}

/// A hash of at least seven ASCII characters, as every hexadecimal hash
/// is, has a short form: its first seven characters.
pub proof fn lemma_short_form_of_ascii(sha: Seq<char>)
    requires
        is_ascii_chars(sha),
        sha.len() >= SHORT_SHA_LEN,
    ensures
        is_char_boundary(encode_utf8(sha), SHORT_SHA_LEN as int),
        short_form(sha) == sha.take(SHORT_SHA_LEN as int),
{
    let bytes = encode_utf8(sha);
    let head = sha.take(SHORT_SHA_LEN as int);
    is_ascii_chars_encode_utf8(sha);
    is_ascii_chars_encode_utf8(head);
    encode_utf8_valid_utf8(sha);
    assert(encode_utf8(head) =~= bytes.subrange(0, SHORT_SHA_LEN as int)) by {
        assert forall|i: int| 0 <= i < SHORT_SHA_LEN implies encode_utf8(head)[i]
            == bytes.subrange(0, SHORT_SHA_LEN as int)[i] by {
            assert(head[i] == sha[i]);
        }
    }
    encode_utf8_decode_utf8(head);
    if sha.len() == SHORT_SHA_LEN {
        is_char_boundary_start_end_of_seq(bytes);
    } else {
        let c = sha[SHORT_SHA_LEN as int];
        let b = bytes[SHORT_SHA_LEN as int];
        assert(b == c as u8);
        assert(b < 128);
        assert(!is_continuation_byte(b)) by (bit_vector)
            requires
                b < 128,
        ;
        is_char_boundary_iff_not_is_continuation_byte(bytes, SHORT_SHA_LEN as int);
    }
}

impl CommitInfo {
    /// The short form of the hash: the characters that its first seven
    /// bytes encode. A character ends with the seventh byte.
    pub fn sha_short(&self) -> (short: &str)
        requires
            is_char_boundary(encode_utf8(self.sha@), SHORT_SHA_LEN as int),
        ensures
            short@ == short_form(self.sha@),
    {
        let (short, _) = self.sha.as_str().split_at(SHORT_SHA_LEN);
        proof {
            encode_utf8_decode_utf8(short@);
        }
        short
    }

    /// The first line of the message.
    pub fn message_headline(&self) -> (headline: &str)
        ensures
            headline@ == self.message@.take(headline_len(self.message@)),
    {
        let message = self.message.as_str();
        let total = message.unicode_len();
        let mut n: usize = 0;
        let mut found = false;
        while n < total && !found
            invariant
                n <= total,
                total == message@.len(),
                forall|i: int| 0 <= i < n ==> message@[i] != '\n',
                found ==> n < total && message@[n as int] == '\n',
            decreases total - n + if found { 0int } else { 1int },
        {
            if message.get_char(n) == '\n' {
                found = true;
            } else {
                n = n + 1;
            }
        }
        proof {
            lemma_headline_found(message@, n as int);
        }
        message.substring_char(0, n)
    }
}

} // verus!
