//! Reference and query in each other's place.

use crate::align::{AlignMatching, AlignerConf};
use crate::dp::Problem;
use crate::full::lemma_fill_cells;
use vstd::prelude::*;

verus! {

/// The matching mode with the wildcards on the other side.
pub open spec fn swapped_matching(matching: AlignMatching) -> AlignMatching {
    match matching {
        AlignMatching::NoWildcard => AlignMatching::NoWildcard,
        AlignMatching::RefWildcard => AlignMatching::QueryWildcard,
        AlignMatching::QueryWildcard => AlignMatching::RefWildcard,
    }
}

impl Problem {
    /// The problem with reference and query exchanged, and with them their
    /// free ends and the side of the wildcards.
    pub open spec fn swapped(self) -> Problem {
        Problem {
            conf: AlignerConf {
                reference_ends: self.conf.query_ends,
                query_ends: self.conf.reference_ends,
                matching: swapped_matching(self.conf.matching),
                ..self.conf
            },
            reference: self.query,
            query: self.reference,
        }
    }
}

/// Exchanging reference and query twice gives back the problem.
pub proof fn lemma_swapped_twice(p: Problem)
    ensures
        p.swapped().swapped() == p,
{
}

/// With reference and query exchanged, each sequence is encoded as it was
/// before, and the same positions match: the cell in which two positions
/// meet is the mirror image of the cell in which they met.
pub proof fn lemma_swapped_matches(p: Problem, i: int, j: int)
    requires
        1 <= i <= p.m(),
        1 <= j <= p.n(),
    ensures
        p.swapped().ref_masks() == p.query_masks(),
        p.swapped().query_masks() == p.ref_masks(),
        p.swapped().matches_at(j, i) == p.matches_at(i, j),
{
    let a = p.ref_masks()[i - 1];
    let b = p.query_masks()[j - 1];
    assert(a & b == b & a) by (bit_vector);
}

/// Every column of the full matrix has a row for every prefix of the
/// reference.
proof fn lemma_full_len(p: Problem, j: int)
    ensures
        p.full_column(j).len() == p.m() + 1,
    decreases j - p.min_n(),
{
    if j > p.min_n() {
        lemma_full_len(p, j - 1);
        lemma_fill_cells(p, p.full_column(j - 1), j, p.m() as int);
    }
}

/// With reference and query exchanged, the full matrix holds the same costs
/// in mirror image, where both sweeps start at the first column: the best
/// path to the cell of two prefixes has as many errors whichever sequence is
/// called the reference.
pub proof fn lemma_swapped_costs(p: Problem, i: int, j: int)
    requires
        p.min_n() == 0,
        p.swapped().min_n() == 0,
        0 <= i <= p.m(),
        0 <= j <= p.n(),
    ensures
        p.swapped().full_column(i)[j].cost == p.full_column(j)[i].cost,
    decreases i + j,
{
    let q = p.swapped();
    let c = p.indel();
    assert(0 * c == 0) by (nonlinear_arith);
    if j > 0 {
        lemma_full_len(p, j - 1);
        lemma_fill_cells(p, p.full_column(j - 1), j, p.m() as int);
    }
    if i > 0 {
        lemma_full_len(q, i - 1);
        lemma_fill_cells(q, q.full_column(i - 1), i, q.m() as int);
    }
    if i > 0 && j > 0 {
        lemma_swapped_costs(p, i - 1, j - 1);
        lemma_swapped_costs(p, i - 1, j);
        lemma_swapped_costs(p, i, j - 1);
        lemma_swapped_matches(p, i, j);
    } else if i > 0 {
        lemma_swapped_costs(p, i - 1, 0);
    } else if j > 0 {
        lemma_swapped_costs(p, 0, j - 1);
    }
}

} // verus!
