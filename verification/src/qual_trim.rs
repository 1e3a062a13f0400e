//! Quality trimming from either terminus of a read, start or end.
//!
//! The low-quality region may include some bases with quality above the
//! threshold. A running sum of `qual[i] - threshold` is taken from the
//! terminus inwards, and the lowest sum seen is kept with its position. The
//! scan stops as soon as the running sum is positive, and the low-quality
//! region reaches to the position of the lowest sum; of several positions
//! with the lowest sum, the one farthest from the terminus.

use crate::trimming::{Trimming, Window};
use vstd::prelude::*;

verus! {

/// The sum of `qual[i] - threshold` over positions `from..to`.
pub open spec fn score(quals: Seq<u8>, threshold: int, from: int, to: int) -> int
    decreases to - from,
{
    if to <= from {
        0
    } else {
        score(quals, threshold, from, to - 1) + (quals[to - 1] - threshold)
    }
}

/// The running sum of a scan from the end when it has taken position `at`.
pub open spec fn score_from_end(quals: Seq<u8>, threshold: int, at: int) -> int {
    score(quals, threshold, at, quals.len() as int)
}

/// The running sum of a scan from the start when it has taken the positions
/// before `at`.
pub open spec fn score_from_start(quals: Seq<u8>, threshold: int, at: int) -> int {
    score(quals, threshold, 0, at)
}

/// Whether a scan from the end takes position `at` and goes on: no running
/// sum up to there is positive.
pub open spec fn reached_from_end(quals: Seq<u8>, threshold: int, at: int) -> bool {
    &&& 0 <= at <= quals.len()
    &&& forall|i: int| at <= i < quals.len() ==> #[trigger] score_from_end(quals, threshold, i) <= 0
}

/// Whether a scan from the start takes the positions before `at` and goes
/// on.
pub open spec fn reached_from_start(quals: Seq<u8>, threshold: int, at: int) -> bool {
    &&& 0 <= at <= quals.len()
    &&& forall|i: int| 0 < i <= at ==> #[trigger] score_from_start(quals, threshold, i) <= 0
}

/// Whether the low-quality region at the end starts at `cut`: the scan
/// reaches `cut`, no running sum that it sees is lower than the one there,
/// and every one that it sees further on is higher.
pub open spec fn is_end_cut(quals: Seq<u8>, threshold: int, cut: int) -> bool {
    &&& reached_from_end(quals, threshold, cut)
    &&& forall|i: int|
        cut <= i <= quals.len() ==> score_from_end(quals, threshold, cut)
            <= #[trigger] score_from_end(quals, threshold, i)
    &&& forall|i: int|
        i < cut && reached_from_end(quals, threshold, i) ==> score_from_end(quals, threshold, cut)
            < #[trigger] score_from_end(quals, threshold, i)
}

/// Whether the low-quality region at the start ends before `cut`.
pub open spec fn is_start_cut(quals: Seq<u8>, threshold: int, cut: int) -> bool {
    &&& reached_from_start(quals, threshold, cut)
    &&& forall|i: int|
        0 <= i <= cut ==> score_from_start(quals, threshold, cut) <= #[trigger] score_from_start(
            quals,
            threshold,
            i,
        )
    &&& forall|i: int|
        cut < i && reached_from_start(quals, threshold, i) ==> score_from_start(
            quals,
            threshold,
            cut,
        ) < #[trigger] score_from_start(quals, threshold, i)
}

/// Where the low-quality region at the end starts.
pub open spec fn end_cut(quals: Seq<u8>, threshold: int) -> int {
    choose|cut: int| is_end_cut(quals, threshold, cut)
}

/// Where the low-quality region at the start ends.
pub open spec fn start_cut(quals: Seq<u8>, threshold: int) -> int {
    choose|cut: int| is_start_cut(quals, threshold, cut)
}

/// The low-quality region at the end starts at one position only.
pub proof fn lemma_end_cut_unique(quals: Seq<u8>, threshold: int, a: int, b: int)
    requires
        is_end_cut(quals, threshold, a),
        is_end_cut(quals, threshold, b),
    ensures
        a == b,
{
    if a < b {
        assert(score_from_end(quals, threshold, b) < score_from_end(quals, threshold, a));
        assert(score_from_end(quals, threshold, a) <= score_from_end(quals, threshold, b));
    } else if b < a {
        assert(score_from_end(quals, threshold, a) < score_from_end(quals, threshold, b));
        assert(score_from_end(quals, threshold, b) <= score_from_end(quals, threshold, a));
    }
}

/// The low-quality region at the start ends at one position only.
pub proof fn lemma_start_cut_unique(quals: Seq<u8>, threshold: int, a: int, b: int)
    requires
        is_start_cut(quals, threshold, a),
        is_start_cut(quals, threshold, b),
    ensures
        a == b,
{
    if a < b {
        assert(score_from_start(quals, threshold, a) < score_from_start(quals, threshold, b));
        assert(score_from_start(quals, threshold, b) <= score_from_start(quals, threshold, a));
    } else if b < a {
        assert(score_from_start(quals, threshold, b) < score_from_start(quals, threshold, a));
        assert(score_from_start(quals, threshold, a) <= score_from_start(quals, threshold, b));
    }
}

/// A sum over a range is the sum over its first position and the rest.
proof fn lemma_score_split_first(quals: Seq<u8>, threshold: int, from: int, to: int)
    requires
        from < to,
    ensures
        score(quals, threshold, from, to) == (quals[from] - threshold) + score(
            quals,
            threshold,
            from + 1,
            to,
        ),
    decreases to - from,
{
    if from + 1 < to {
        lemma_score_split_first(quals, threshold, from, to - 1);
    } else {
        assert(score(quals, threshold, from, to - 1) == 0);
        assert(score(quals, threshold, from + 1, to) == 0);
    }
}

/// No running sum is below what the lowest quality and the threshold allow.
proof fn lemma_score_bounds(quals: Seq<u8>, threshold: int, from: int, to: int)
    requires
        0 <= from <= to <= quals.len(),
        isize::MIN <= threshold <= isize::MAX,
    ensures
        (to - from) * (-threshold) <= score(quals, threshold, from, to) <= (to - from) * (255
            - threshold),
    decreases to - from,
{
    if from < to {
        lemma_score_bounds(quals, threshold, from, to - 1);
        assert((to - from) * (-threshold) == (to - 1 - from) * (-threshold) + (-threshold))
            by (nonlinear_arith);
        assert((to - from) * (255 - threshold) == (to - 1 - from) * (255 - threshold) + (255
            - threshold)) by (nonlinear_arith);
    } else {
        assert(0 * (-threshold) == 0 && 0 * (255 - threshold) == 0) by (nonlinear_arith);
    }
}

/// Trimming of low-quality bases at the end of a read.
#[derive(Clone, Eq, PartialEq, Ord, PartialOrd, Debug, Hash)]
pub struct QualTrimEnd {
    threshold_i: isize,
}

impl QualTrimEnd {
    /// The quality threshold.
    pub closed spec fn threshold(&self) -> int {
        self.threshold_i as int
    }

    /// Trimming with the quality threshold `threshold`.
    pub fn new(threshold: u8) -> (trim: Self)
        ensures
            trim.threshold() == threshold,
    {
        QualTrimEnd { threshold_i: threshold as isize }
    }

    /// Trimming with a threshold that need not be a quality.
    pub fn with_threshold(threshold: isize) -> (trim: Self)
        ensures
            trim.threshold() == threshold,
    {
        QualTrimEnd { threshold_i: threshold }
    }

    /// The quality threshold.
    pub fn threshold_value(&self) -> (threshold: isize)
        ensures
            threshold == self.threshold(),
    {
        self.threshold_i
    }

    /// Computes the read length remaining after dropping low-quality bases
    /// from the end.
    ///
    /// The remaining length may range from `0` to `quals.len()` inclusive.
    pub fn remaining(&self, quals: &[u8]) -> (left: usize)
        ensures
            left <= quals@.len(),
            is_end_cut(quals@, self.threshold(), left as int),
            left == end_cut(quals@, self.threshold()),
    {
        let threshold = self.threshold_i as i128;
        let ghost thr = self.threshold();
        let mut running_sum: i128 = 0;
        let mut lowest_score: i128 = 0;
        let mut lowest_offset: usize = quals.len();
        let mut i: usize = quals.len();
        let mut open = true;
        while i > 0 && open
            invariant
                quals@.len() <= usize::MAX,
                i <= quals@.len(),
                i <= lowest_offset <= quals@.len(),
                threshold == thr,
                isize::MIN <= thr <= isize::MAX,
                open ==> running_sum == score_from_end(quals@, thr, i as int),
                open ==> running_sum <= 0,
                open ==> reached_from_end(quals@, thr, i as int),
                !open ==> i < quals@.len() && score_from_end(quals@, thr, i as int) > 0,
                reached_from_end(quals@, thr, lowest_offset as int),
                lowest_score == score_from_end(quals@, thr, lowest_offset as int),
                forall|t: int|
                    (if open {
                        i as int
                    } else {
                        i + 1
                    }) <= t <= quals@.len() ==> lowest_score <= #[trigger] score_from_end(
                        quals@,
                        thr,
                        t,
                    ),
                forall|t: int|
                    (if open {
                        i as int
                    } else {
                        i + 1
                    }) <= t < lowest_offset ==> lowest_score < #[trigger] score_from_end(
                        quals@,
                        thr,
                        t,
                    ),
            decreases i + (if open { 1int } else { 0int }),
        {
            proof {
                lemma_score_split_first(quals@, thr, i - 1, quals@.len() as int);
                lemma_score_bounds(quals@, thr, i as int, quals@.len() as int);
                let seen = quals@.len() - i;
                assert((seen + 1) * (-thr) >= -(0xffff_ffff_ffff_ffff * 0x8000_0000_0000_0000)
                    && (seen + 1) * (-thr) == seen * (-thr) + (-thr)) by (nonlinear_arith)
                    requires
                        0 <= seen + 1 <= 0xffff_ffff_ffff_ffff,
                        -0x8000_0000_0000_0000 <= thr <= 0x7fff_ffff_ffff_ffff,
                ;
            }
            i -= 1;
            running_sum = running_sum + (quals[i] as i128 - threshold);
            if running_sum > 0 {
                open = false;
            } else if running_sum <= lowest_score {
                lowest_score = running_sum;
                lowest_offset = i;
            }
        }
        proof {
            let cut = lowest_offset as int;
            assert forall|t: int| t < cut && reached_from_end(quals@, thr, t) implies lowest_score
                < #[trigger] score_from_end(quals@, thr, t) by {
                if !open {
                    if t <= i {
                        assert(score_from_end(quals@, thr, i as int) <= 0);
                    }
                }
            }
            assert(is_end_cut(quals@, thr, cut));
            lemma_end_cut_unique(quals@, thr, cut, end_cut(quals@, thr));
        }
        lowest_offset
    }

    /// Trims the read by what [`remaining`](Self::remaining) returns for the
    /// qualities that are kept. A read without qualities is left as it is.
    pub fn trim(&self, trimming: &mut Trimming)
        requires
            old(trimming)@.qual_covers(),
        ensures
            final(trimming)@ == self.trimmed(old(trimming)@),
            final(trimming)@.wf(),
            final(trimming)@.qual_covers(),
    {
        if let Some(quals) = trimming.qual_curr() {
            let left = self.remaining(quals);
            trimming.trim_from_end(left);
        }
    }

    /// The window that [`trim`](Self::trim) leaves of `window`.
    pub open spec fn trimmed(&self, window: Window) -> Window {
        match window.qual_curr() {
            Some(quals) => window.trimmed_from_end(end_cut(quals, self.threshold()) as nat),
            None => window,
        }
    }
}

/// Trimming of low-quality bases at the start of a read.
#[derive(Clone, Eq, PartialEq, Ord, PartialOrd, Debug, Hash)]
pub struct QualTrimStart {
    threshold_i: isize,
}

impl QualTrimStart {
    /// The quality threshold.
    pub closed spec fn threshold(&self) -> int {
        self.threshold_i as int
    }

    /// Trimming with the quality threshold `threshold`.
    pub fn new(threshold: u8) -> (trim: Self)
        ensures
            trim.threshold() == threshold,
    {
        QualTrimStart { threshold_i: threshold as isize }
    }

    /// Trimming with a threshold that need not be a quality.
    pub fn with_threshold(threshold: isize) -> (trim: Self)
        ensures
            trim.threshold() == threshold,
    {
        QualTrimStart { threshold_i: threshold }
    }

    /// The quality threshold.
    pub fn threshold_value(&self) -> (threshold: isize)
        ensures
            threshold == self.threshold(),
    {
        self.threshold_i
    }

    /// Computes the number of low-quality bases to drop from the start.
    ///
    /// The number may range from `0` to `quals.len()` inclusive.
    pub fn remaining(&self, quals: &[u8]) -> (dropped: usize)
        ensures
            dropped <= quals@.len(),
            is_start_cut(quals@, self.threshold(), dropped as int),
            dropped == start_cut(quals@, self.threshold()),
    {
        let threshold = self.threshold_i as i128;
        let ghost thr = self.threshold();
        let mut running_sum: i128 = 0;
        let mut lowest_score: i128 = 0;
        let mut lowest_offset: usize = 0;
        let mut i: usize = 0;
        let mut open = true;
        let total = quals.len();
        while i < total && open
            invariant
                total == quals@.len(),
                lowest_offset <= i <= quals@.len(),
                threshold == thr,
                isize::MIN <= thr <= isize::MAX,
                open ==> running_sum == score_from_start(quals@, thr, i as int),
                open ==> running_sum <= 0,
                open ==> reached_from_start(quals@, thr, i as int),
                !open ==> i > 0 && score_from_start(quals@, thr, i as int) > 0,
                reached_from_start(quals@, thr, lowest_offset as int),
                lowest_score == score_from_start(quals@, thr, lowest_offset as int),
                forall|t: int|
                    0 <= t <= (if open {
                        i as int
                    } else {
                        i - 1
                    }) ==> lowest_score <= #[trigger] score_from_start(quals@, thr, t),
                forall|t: int|
                    lowest_offset < t <= (if open {
                        i as int
                    } else {
                        i - 1
                    }) ==> lowest_score < #[trigger] score_from_start(quals@, thr, t),
            decreases quals@.len() - i + (if open { 1int } else { 0int }),
        {
            proof {
                lemma_score_bounds(quals@, thr, 0, i as int);
                assert((i + 1) * (-thr) >= -(0xffff_ffff_ffff_ffff * 0x8000_0000_0000_0000) && (i
                    + 1) * (-thr) == i * (-thr) + (-thr)) by (nonlinear_arith)
                    requires
                        0 <= i + 1 <= 0xffff_ffff_ffff_ffff,
                        -0x8000_0000_0000_0000 <= thr <= 0x7fff_ffff_ffff_ffff,
                ;
            }
            running_sum = running_sum + (quals[i] as i128 - threshold);
            i += 1;
            if running_sum > 0 {
                open = false;
            } else if running_sum <= lowest_score {
                lowest_score = running_sum;
                lowest_offset = i;
            }
        }
        proof {
            let cut = lowest_offset as int;
            assert forall|t: int| cut < t && reached_from_start(quals@, thr, t) implies lowest_score
                < #[trigger] score_from_start(quals@, thr, t) by {
                if !open {
                    if t >= i {
                        assert(score_from_start(quals@, thr, i as int) <= 0);
                    }
                }
            }
            assert(is_start_cut(quals@, thr, cut));
            lemma_start_cut_unique(quals@, thr, cut, start_cut(quals@, thr));
        }
        lowest_offset
    }

    /// Trims the read by what [`remaining`](Self::remaining) returns for the
    /// qualities that are kept. A read without qualities is left as it is.
    pub fn trim(&self, trimming: &mut Trimming)
        requires
            old(trimming)@.qual_covers(),
        ensures
            final(trimming)@ == self.trimmed(old(trimming)@),
            final(trimming)@.wf(),
            final(trimming)@.qual_covers(),
    {
        if let Some(quals) = trimming.qual_curr() {
            let dropped = self.remaining(quals);
            trimming.trim_from_start(dropped);
        }
    }

    /// The window that [`trim`](Self::trim) leaves of `window`.
    pub open spec fn trimmed(&self, window: Window) -> Window {
        match window.qual_curr() {
            Some(quals) => window.trimmed_from_start(start_cut(quals, self.threshold()) as nat),
            None => window,
        }
    }
}

} // verus!
