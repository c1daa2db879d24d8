//! The window of history to display, and its deterministic downsampling.

use vstd::arithmetic::div_mod::{
    lemma_fundamental_div_mod, lemma_fundamental_div_mod_converse, lemma_mod_pos_bound,
};
use vstd::prelude::*;

verus! {

/// A window over a commit history.
///
/// `from` is the cursor the window starts at (the default branch when
/// absent), `count` the number of commits the window spans and `samples`
/// the number of commits to pick out of it.
#[derive(Debug, PartialEq, Eq)]
pub struct Range {
    pub from: Option<String>,
    pub count: u32,
    pub samples: u32,
}

impl Clone for Range {
    fn clone(&self) -> (copy: Self)
        ensures
            copy == *self,
    {
        let from = match &self.from {
            Some(cursor) => Some(cursor.clone()),
            None => None,
        };
        Range { from, count: self.count, samples: self.samples }
    }
}

/// The distance between two picked positions: `count / samples`, but never
/// less than one.
pub open spec fn stride_of(count: int, samples: int) -> int {
    if count / samples >= 1 {
        count / samples
    } else {
        1
    }
}

/// How many positions `0, stride, 2 * stride, ...` lie below `len`.
pub open spec fn strided_positions(len: int, stride: int) -> int {
    (len + stride - 1) / stride
}

impl Range {
    /// The window of `count` commits that starts at `from`, of which
    /// `samples` are picked.
    pub fn new(from: Option<String>, count: u32, samples: u32) -> (range: Self)
        ensures
            range.from == from,
            range.count == count,
            range.samples == samples,
    {
        Self { from, count, samples }
    }

    /// The number of pages of `batch_size` commits to request for the
    /// window: the quotient of `batch_size` by `count`, and one more.
    pub open spec fn spec_pages_for_batch(&self, batch_size: u32) -> int {
        batch_size as int / self.count as int + 1
    }

    /// The number of pages of `batch_size` commits to request for the
    /// window. The window must span at least one commit.
    pub fn pages_for_batch(&self, batch_size: u32) -> (pages: u32)
        requires
            self.count > 0,
            self.spec_pages_for_batch(batch_size) <= u32::MAX,
        ensures
            pages == self.spec_pages_for_batch(batch_size),
    {
        (batch_size / self.count) + 1
    }

    /// Rescales the window to `scaled` commits, the rounded product of
    /// `count` and the zoom factor, but never to fewer commits than are
    /// sampled.
    pub fn zoom(&mut self, scaled: u32)
        ensures
            final(self).count == if scaled >= old(self).samples {
                scaled
            } else {
                old(self).samples
            },
            final(self).count >= final(self).samples,
            final(self).samples == old(self).samples,
            final(self).from == old(self).from,
    {
        self.count = if scaled >= self.samples {
            scaled
        } else {
            self.samples
        };
    }

    /// The stride this range samples with.
    pub open spec fn stride(&self) -> int {
        stride_of(self.count as int, self.samples as int)
    }

    /// The number of elements picked out of a sequence of `len` elements.
    pub open spec fn sample_len(&self, len: int) -> int {
        let reachable = strided_positions(len, self.stride());
        if reachable <= self.samples {
            reachable
        } else {
            self.samples as int
        }
    }

    /// The position in the sequence of the `j`-th picked element, counted
    /// from zero.
    pub open spec fn position(&self, j: int) -> int {
        j * self.stride()
    }

    /// The elements picked out of `candidates`: those at the positions
    /// `0, stride, 2 * stride, ...`, at most `samples` of them.
    pub open spec fn sampled<T>(&self, candidates: Seq<T>) -> Seq<T> {
        Seq::new(
            self.sample_len(candidates.len() as int) as nat,
            |j: int| candidates[self.position(j)],
        )
    }

    /// Picks the samples out of `candidates`, in their order. The range
    /// must ask for at least one sample.
    pub fn sample<T>(&self, candidates: Vec<T>) -> (picked: Vec<T>)
        requires
            self.samples > 0,
        ensures
            picked@ == self.sampled(candidates@),
    {
        let per_sample: u32 = self.count / self.samples;
        let stride: usize = if per_sample >= 1 { per_sample as usize } else { 1 };
        let wanted: usize = self.samples as usize;
        let ghost all = candidates@;
        let total: usize = candidates.len();
        let mut picked: Vec<T> = Vec::new();
        let mut i: usize = 0;
        proof {
            lemma_strided_start(stride as int);
        }
        for commit in it: candidates
            invariant
                it.seq() == all,
                all.len() == total,
                i == it.index(),
                stride == self.stride(),
                wanted == self.samples,
                picked.len() == self.sample_len(i as int),
                forall|j: int| 0 <= j < picked.len() ==> picked@[j] == all[self.position(j)],
        {
            proof {
                lemma_strided_step(i as int, stride as int);
            }
            if picked.len() < wanted && i % stride == 0 {
                picked.push(commit);
            }
            i = i + 1;
        }
        picked
    }
}

/// A sequence of `quotient * stride + rest` elements, with `rest` less
/// than the stride, has `quotient` positions, and one more unless `rest` is
/// zero.
pub proof fn lemma_strided_positions(quotient: int, rest: int, stride: int)
    requires
        1 <= stride,
        0 <= rest < stride,
    ensures
        strided_positions(quotient * stride + rest, stride) == if rest == 0 {
            quotient
        } else {
            quotient + 1
        },
{
    let len = quotient * stride + rest;
    if rest == 0 {
        assert(len + stride - 1 == quotient * stride + (stride - 1));
        lemma_fundamental_div_mod_converse(len + stride - 1, stride, quotient, stride - 1);
    } else {
        assert(len + stride - 1 == (quotient + 1) * stride + (rest - 1)) by (nonlinear_arith)
            requires
                len == quotient * stride + rest,
        ;
        lemma_fundamental_div_mod_converse(len + stride - 1, stride, quotient + 1, rest - 1);
    }
}

/// No position lies below zero.
pub proof fn lemma_strided_start(stride: int)
    requires
        1 <= stride,
    ensures
        strided_positions(0, stride) == 0,
{
    assert(0 == 0 * stride + 0);
    lemma_strided_positions(0, 0, stride);
}

/// Extending a sequence by one element adds a position exactly when the old
/// length is a multiple of the stride, and that position is the old length.
pub proof fn lemma_strided_step(len: int, stride: int)
    requires
        0 <= len,
        1 <= stride,
    ensures
        strided_positions(len + 1, stride) == strided_positions(len, stride) + (if len % stride
            == 0 {
            1int
        } else {
            0int
        }),
        len % stride == 0 ==> strided_positions(len, stride) * stride == len,
        0 <= strided_positions(len, stride),
{
    let quotient = len / stride;
    let rest = len % stride;
    lemma_fundamental_div_mod(len, stride);
    lemma_mod_pos_bound(len, stride);
    assert(len == quotient * stride + rest) by (nonlinear_arith)
        requires
            len == stride * quotient + rest,
    ;
    assert(0 <= quotient) by (nonlinear_arith)
        requires
            len == stride * quotient + rest,
            0 <= len,
            rest < stride,
            1 <= stride,
    ;
    lemma_strided_positions(quotient, rest, stride);
    if rest + 1 < stride {
        assert(len + 1 == quotient * stride + (rest + 1));
        lemma_strided_positions(quotient, rest + 1, stride);
    } else {
        assert(len + 1 == (quotient + 1) * stride + 0) by (nonlinear_arith)
            requires
                len == quotient * stride + rest,
                rest + 1 == stride,
        ;
        lemma_strided_positions(quotient + 1, 0, stride);
    }
}

/// Every position that is counted lies within the sequence.
pub proof fn lemma_strided_within(len: int, stride: int, j: int)
    requires
        0 <= len,
        1 <= stride,
        0 <= j < strided_positions(len, stride),
    ensures
        0 <= j * stride < len,
{
    let quotient = len / stride;
    let rest = len % stride;
    lemma_fundamental_div_mod(len, stride);
    lemma_mod_pos_bound(len, stride);
    assert(len == quotient * stride + rest) by (nonlinear_arith)
        requires
            len == stride * quotient + rest,
    ;
    lemma_strided_positions(quotient, rest, stride);
    assert(0 <= j * stride < len) by (nonlinear_arith)
        requires
            len == quotient * stride + rest,
            0 <= rest < stride,
            1 <= stride,
            0 <= j,
            j < if rest == 0 {
                quotient
            } else {
                quotient + 1
            },
    ;
}

/// Sampling: out of a sequence of `len` elements a range with at least one
/// sample picks `min(samples, ceil(len / stride))` elements, where the
/// stride is `max(1, floor(count / samples))`; for a sequence that fills
/// the window, `len` is `count`. The picked elements are those at the
/// positions `0, stride, 2 * stride, ...` of the sequence, so they keep
/// their order, and the first of them is the first element of the sequence.
pub proof fn lemma_sampling<T>(range: Range, candidates: Seq<T>)
    requires
        range.samples > 0,
    ensures
        range.stride() == if range.count / range.samples >= 1 {
            range.count as int / range.samples as int
        } else {
            1
        },
        range.sampled(candidates).len() == if strided_positions(
            candidates.len() as int,
            range.stride(),
        ) <= range.samples {
            strided_positions(candidates.len() as int, range.stride())
        } else {
            range.samples as int
        },
        strided_positions(candidates.len() as int, range.stride()) * range.stride()
            >= candidates.len(),
        (strided_positions(candidates.len() as int, range.stride()) - 1) * range.stride()
            < candidates.len(),
        forall|j: int|
            0 <= j < range.sampled(candidates).len() ==> 0 <= #[trigger] range.position(j)
                < candidates.len(),
        forall|j: int|
            0 <= j < range.sampled(candidates).len() ==> (#[trigger] range.sampled(candidates)[j])
                == candidates[range.position(j)],
        forall|i: int, j: int|
            0 <= i < j < range.sampled(candidates).len() ==> #[trigger] range.position(i)
                < #[trigger] range.position(j),
        candidates.len() > 0 ==> range.sampled(candidates).len() > 0 && range.sampled(
            candidates,
        )[0] == candidates[0],
{
    let stride = range.stride();
    let len = candidates.len() as int;
    let quotient = len / stride;
    let rest = len % stride;
    lemma_fundamental_div_mod(len, stride);
    lemma_mod_pos_bound(len, stride);
    assert(len == quotient * stride + rest) by (nonlinear_arith)
        requires
            len == stride * quotient + rest,
    ;
    lemma_strided_positions(quotient, rest, stride);
    assert(strided_positions(len, stride) * stride >= len && (strided_positions(len, stride) - 1)
        * stride < len) by (nonlinear_arith)
        requires
            len == quotient * stride + rest,
            0 <= rest < stride,
            strided_positions(len, stride) == if rest == 0 {
                quotient
            } else {
                quotient + 1
            },
    ;
    assert forall|j: int| 0 <= j < range.sampled(candidates).len() implies 0
        <= #[trigger] range.position(j) < candidates.len() by {
        lemma_strided_within(len, stride, j);
    }
    assert forall|i: int, j: int|
        0 <= i < j < range.sampled(candidates).len() implies #[trigger] range.position(i)
        < #[trigger] range.position(j) by {
        assert(i * stride < j * stride) by (nonlinear_arith)
            requires
                0 <= i < j,
                1 <= stride,
        ;
    }
    assert(len > 0 ==> strided_positions(len, stride) > 0) by (nonlinear_arith)
        requires
            strided_positions(len, stride) * stride >= len,
            stride >= 1,
    ;
    assert(range.position(0) == 0);
    if len > 0 {
        assert(range.sampled(candidates).len() > 0);
        assert(range.sampled(candidates)[0] == candidates[range.position(0)]);
    }
}

} // verus!
