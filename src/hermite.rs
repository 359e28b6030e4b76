use crate::almanac::Epoch;
use vstd::prelude::*;

verus! {

/// Errors of segment evaluation.
#[derive(Copy, Clone, Debug, PartialEq, Eq, Structural)]
pub enum SegmentError {
    /// The segment's directory is inconsistent: an odd or zero window, or one larger than
    /// the number of states.
    MalformedSegment,
    /// The epoch lies outside the segment's coverage.
    OutOfCoverage,
}

/// The epoch tags never decrease.
pub open spec fn tags_sorted(e: Seq<Epoch>) -> bool {
    forall|a: int, b: int|
        0 <= a <= b < e.len() ==> (#[trigger] e[a]).et_nanoseconds <= (#[trigger] e[b]).et_nanoseconds
}

/// `i` starts the bracket of `t`: the last tag not after `t`, or the one before the last
/// tag when `t` is that tag.
pub open spec fn is_bracket(e: Seq<Epoch>, t: Epoch, i: int) -> bool {
    &&& 0 <= i < e.len() - 1
    &&& e[i].et_nanoseconds <= t.et_nanoseconds
    &&& (i == e.len() - 2 || t.et_nanoseconds < e[i + 1].et_nanoseconds)
}

/// The first state of the window of `window_size` states centred on bracket `i`, kept
/// within the `n` states.
pub open spec fn window_start(i: int, window_size: int, n: int) -> int {
    let centred = i + 1 - window_size / 2;
    if centred < 0 {
        0
    } else if centred > n - window_size {
        n - window_size
    } else {
        centred
    }
}

/// The window size is even, positive and no larger than the number of states.
pub open spec fn window_ok(window_size: int, n: int) -> bool {
    window_size % 2 == 0 && 0 < window_size <= n
}

/// Selects the states of a Hermite segment with unequal steps that interpolate at `t`:
/// returns the index of the first state of the window and the start of the bracket of `t`.
pub fn hermite_window(epochs: &[Epoch], window_size: usize, t: Epoch) -> (r: Result<
    (usize, usize),
    SegmentError,
>)
    requires
        tags_sorted(epochs@),
    ensures
        match r {
            Ok((first, i)) => {
                &&& window_ok(window_size as int, epochs@.len() as int)
                &&& is_bracket(epochs@, t, i as int)
                &&& first == window_start(i as int, window_size as int, epochs@.len() as int)
                &&& first <= i && i + 1 < first + window_size <= epochs@.len()
            },
            Err(SegmentError::MalformedSegment) => !window_ok(
                window_size as int,
                epochs@.len() as int,
            ),
            Err(SegmentError::OutOfCoverage) => window_ok(window_size as int, epochs@.len() as int)
                && (t.et_nanoseconds < epochs@[0].et_nanoseconds || t.et_nanoseconds
                > epochs@.last().et_nanoseconds),
        },
{
    let n = epochs.len();
    if window_size % 2 != 0 || window_size == 0 || window_size > n {
        return Err(SegmentError::MalformedSegment);
    }
    if t.et_nanoseconds < epochs[0].et_nanoseconds || t.et_nanoseconds > epochs[n - 1].et_nanoseconds {
        return Err(SegmentError::OutOfCoverage);
    }
    let mut lo: usize = 0;
    let mut hi: usize = n - 1;
    while hi - lo > 1
        invariant
            n == epochs@.len(),
            2 <= n,
            lo < hi <= n - 1,
            epochs@[lo as int].et_nanoseconds <= t.et_nanoseconds,
            hi == n - 1 || t.et_nanoseconds < epochs@[hi as int].et_nanoseconds,
        decreases hi - lo,
    {
        let mid = lo + (hi - lo) / 2;
        if epochs[mid].et_nanoseconds <= t.et_nanoseconds {
            lo = mid;
        } else {
            hi = mid;
        }
    }
    let half = window_size / 2;
    let first = if lo + 1 < half {
        0
    } else if lo + 1 - half > n - window_size {
        n - window_size
    } else {
        lo + 1 - half
    };
    Ok((first, lo))
}

/// The bracket of an epoch is unique.
pub proof fn lemma_bracket_unique(e: Seq<Epoch>, t: Epoch, i: int, j: int)
    requires
        tags_sorted(e),
        is_bracket(e, t, i),
        is_bracket(e, t, j),
    ensures
        i == j,
{
    if i < j {
        assert(e[i + 1].et_nanoseconds <= e[j].et_nanoseconds);
    } else if j < i {
        assert(e[j + 1].et_nanoseconds <= e[i].et_nanoseconds);
    }
}

} // verus!
