//! Full matrices of one reference and one query under two error rates.
//!
//! The rate enters the full matrix only through the column at which the
//! sweep starts. Where two sweeps start at the same column their full
//! matrices are the same. Where the query has a free start and one sweep
//! starts earlier than the other, its costs are nowhere higher.

use crate::bounds::lemma_scaled_order;
use crate::dp::{step_cell, Anchor, Cell, Problem};
use crate::full::{lemma_fill_cells, lemma_full_level, lemma_full_steady};
use vstd::prelude::*;

verus! {

/// Whether two problems differ at most in the error rate.
pub open spec fn same_but_rate(p: Problem, q: Problem) -> bool {
    &&& p.reference == q.reference
    &&& p.query == q.query
    &&& p.conf.reference_ends == q.conf.reference_ends
    &&& p.conf.query_ends == q.conf.query_ends
    &&& p.conf.matching == q.conf.matching
    &&& p.conf.indel_cost == q.conf.indel_cost
    &&& p.conf.min_overlap == q.conf.min_overlap
}

impl Problem {
    /// Whether a path that starts in the reference at `cell`'s origin pays
    /// for every column of `j` that it does not cover by a step along the
    /// reference.
    pub open spec fn anchored(self, cell: Cell, i: int, j: int) -> bool {
        cell.origin matches Anchor::RefStart(start) ==> cell.cost >= (j - i + start) * self.indel()
    }

    /// Whether every cell of `column`, taken as column `j`, is anchored.
    pub open spec fn column_anchored(self, column: Seq<Cell>, j: int) -> bool {
        forall|i: int| 0 <= i <= self.m() ==> self.anchored(#[trigger] column[i], i, j)
    }

    /// Whether every cost in `column`, taken as column `j` of a query with a
    /// free start, is bounded by the gaps that lead there from the first
    /// row, and by those that lead there from the first column.
    pub open spec fn within_reach(self, column: Seq<Cell>, j: int) -> bool {
        &&& forall|i: int| 0 <= i <= self.m() ==> (#[trigger] column[i]).cost <= i * self.indel()
        &&& self.conf.reference_ends.start_local() ==> forall|i: int|
            0 <= i <= self.m() ==> (#[trigger] column[i]).cost <= j * self.indel()
    }
}

/// Whether costs in `lower` are nowhere above those in `upper`.
pub open spec fn dominates(lower: Seq<Cell>, upper: Seq<Cell>) -> bool {
    &&& lower.len() == upper.len()
    &&& forall|i: int| 0 <= i < lower.len() ==> (#[trigger] lower[i]).cost <= upper[i].cost
}

/// Computing a column does not depend on the rate.
proof fn lemma_fill_same(p: Problem, q: Problem, before: Seq<Cell>, j: int, upto: int)
    requires
        same_but_rate(p, q),
    ensures
        p.fill(before, j, upto) == q.fill(before, j, upto),
    decreases upto,
{
    if upto > 0 {
        lemma_fill_same(p, q, before, j, upto - 1);
    }
}

/// Two sweeps that start at the same column have the same full matrix.
pub proof fn lemma_full_same(p: Problem, q: Problem, j: int)
    requires
        same_but_rate(p, q),
        p.min_n() == q.min_n(),
    ensures
        p.full_column(j) == q.full_column(j),
    decreases j - p.min_n(),
{
    if j <= p.min_n() {
        assert(p.boundary_column() =~= q.boundary_column());
    } else {
        lemma_full_same(p, q, j - 1);
        lemma_fill_same(p, q, p.full_column(j - 1), j, p.m() as int);
    }
}

/// A column computed over one with lower costs has lower costs.
proof fn lemma_fill_dominates(
    p: Problem,
    q: Problem,
    lower: Seq<Cell>,
    upper: Seq<Cell>,
    j: int,
    upto: int,
)
    requires
        same_but_rate(p, q),
        p.conf.query_ends.start_local(),
        lower.len() == p.m() + 1,
        dominates(lower, upper),
        0 <= upto <= p.m(),
    ensures
        forall|i: int|
            0 <= i <= upto ==> (#[trigger] q.fill(lower, j, upto)[i]).cost <= p.fill(
                upper,
                j,
                upto,
            )[i].cost,
    decreases upto,
{
    lemma_fill_cells(q, lower, j, upto);
    lemma_fill_cells(p, upper, j, upto);
    let low = q.fill(lower, j, upto);
    let high = p.fill(upper, j, upto);
    assert(lower[0].cost <= upper[0].cost);
    if upto > 0 {
        lemma_fill_dominates(p, q, lower, upper, j, upto - 1);
        lemma_fill_cells(q, lower, j, upto - 1);
        lemma_fill_cells(p, upper, j, upto - 1);
        let low_above = q.fill(lower, j, upto - 1);
        let high_above = p.fill(upper, j, upto - 1);
        assert(low[upto - 1] == low_above[upto - 1]);
        assert(high[upto - 1] == high_above[upto - 1]);
        assert(low_above[upto - 1].cost <= high_above[upto - 1].cost);
        assert(lower[upto - 1].cost <= upper[upto - 1].cost);
        assert(lower[upto].cost <= upper[upto].cost);
        assert forall|i: int| 0 <= i <= upto implies (#[trigger] low[i]).cost <= high[i].cost by {
            if i < upto {
                assert(low[i] == low_above[i]);
                assert(high[i] == high_above[i]);
                assert(low_above[i].cost <= high_above[i].cost);
            }
        }
    }
}

/// A step from anchored neighbours is anchored.
proof fn lemma_step_anchored(
    p: Problem,
    equal: bool,
    diag: Cell,
    left: Cell,
    up: Cell,
    i: int,
    j: int,
)
    requires
        p.anchored(diag, i - 1, j - 1),
        p.anchored(left, i, j - 1),
        p.anchored(up, i - 1, j),
    ensures
        p.anchored(step_cell(p.indel(), equal, diag, left, up), i, j),
{
    let c = p.indel();
    match left.origin {
        Anchor::RefStart(start) => {
            assert((j - i + start) * c == (j - 1 - i + start) * c + c) by (nonlinear_arith);
        },
        _ => {},
    }
    match up.origin {
        Anchor::RefStart(start) => {
            assert((j - i + start) * c + c == (j - (i - 1) + start) * c) by (nonlinear_arith);
        },
        _ => {},
    }
    match diag.origin {
        Anchor::RefStart(start) => {
            assert((j - i + start) * c == (j - 1 - (i - 1) + start) * c) by (nonlinear_arith);
        },
        _ => {},
    }
}

/// In the column at which the sweep of a query with a free start begins,
/// costs are within reach and anchored.
proof fn lemma_boundary_reach(p: Problem)
    requires
        p.conf.query_ends.start_local(),
    ensures
        p.within_reach(p.boundary_column(), p.min_n() as int),
        p.column_anchored(p.boundary_column(), p.min_n() as int),
{
    let c = p.indel();
    let min_n = p.min_n() as int;
    let column = p.boundary_column();
    assert(0 * c == 0) by (nonlinear_arith);
    assert forall|i: int| 0 <= i <= p.m() implies (#[trigger] column[i]).cost <= i * c && (
    p.conf.reference_ends.start_local() ==> column[i].cost <= min_n * c) && p.anchored(
        column[i],
        i,
        min_n,
    ) by {
        if i < min_n {
            lemma_scaled_order(i, min_n, c);
        } else {
            lemma_scaled_order(min_n, i, c);
        }
    }
}

/// A column computed over an anchored one is anchored.
proof fn lemma_fill_anchored(p: Problem, before: Seq<Cell>, j: int, upto: int)
    requires
        p.conf.query_ends.start_local(),
        before.len() == p.m() + 1,
        p.column_anchored(before, j - 1),
        0 <= upto <= p.m(),
    ensures
        forall|i: int| 0 <= i <= upto ==> p.anchored(#[trigger] p.fill(before, j, upto)[i], i, j),
    decreases upto,
{
    let filled = p.fill(before, j, upto);
    lemma_fill_cells(p, before, j, upto);
    if upto > 0 {
        lemma_fill_anchored(p, before, j, upto - 1);
        lemma_fill_cells(p, before, j, upto - 1);
        let above = p.fill(before, j, upto - 1);
        assert(filled[upto - 1] == above[upto - 1]);
        assert(p.anchored(above[upto - 1], upto - 1, j));
        assert(p.anchored(before[upto - 1], upto - 1, j - 1));
        assert(p.anchored(before[upto], upto, j - 1));
        lemma_step_anchored(
            p,
            p.matches_at(upto, j),
            before[upto - 1],
            before[upto],
            above[upto - 1],
            upto,
            j,
        );
        assert forall|i: int| 0 <= i <= upto implies p.anchored(#[trigger] filled[i], i, j) by {
            if i < upto {
                assert(filled[i] == above[i]);
                assert(p.anchored(above[i], i, j));
            }
        }
    }
}

/// In every column of the full matrix of a query with a free start, costs
/// are within reach and anchored.
pub proof fn lemma_full_reach(p: Problem, j: int)
    requires
        p.conf.query_ends.start_local(),
        p.min_n() <= j,
    ensures
        p.full_column(j).len() == p.m() + 1,
        p.within_reach(p.full_column(j), j),
        p.column_anchored(p.full_column(j), j),
    decreases j - p.min_n(),
{
    let c = p.indel();
    let m = p.m() as int;
    let full = p.full_column(j);
    if j <= p.min_n() {
        lemma_boundary_reach(p);
    } else {
        lemma_full_reach(p, j - 1);
        let before = p.full_column(j - 1);
        lemma_fill_anchored(p, before, j, m);
        lemma_fill_cells(p, before, j, m);
        lemma_full_steady(p, j);
        lemma_full_level(p, j);
        assert(0 * c == 0) by (nonlinear_arith);
        assert(j * c == (j - 1) * c + c) by (nonlinear_arith);
        assert(before[0].cost <= 0 * c);
        lemma_rows_within_reach(p, full, m);
        if p.conf.reference_ends.start_local() {
            assert forall|i: int| 0 <= i <= m implies (#[trigger] full[i]).cost <= j * c by {
                assert(before[i].cost <= (j - 1) * c);
                assert(full[i].cost <= before[i].cost + c);
            }
        }
    }
}

/// Where costs grow by no more than one gap from row to row and the first
/// row costs nothing, row `i` costs no more than `i` gaps.
proof fn lemma_rows_within_reach(p: Problem, column: Seq<Cell>, upto: int)
    requires
        p.steady_down(column),
        column[0].cost == 0,
        0 <= upto <= p.m(),
    ensures
        forall|i: int| 0 <= i <= upto ==> (#[trigger] column[i]).cost <= i * p.indel(),
    decreases upto,
{
    let c = p.indel();
    assert(0 * c == 0) by (nonlinear_arith);
    if upto > 0 {
        lemma_rows_within_reach(p, column, upto - 1);
        assert(column[upto - 1].cost <= (upto - 1) * c);
        assert(column[upto].cost <= column[upto - 1].cost + c);
        assert(upto * c == (upto - 1) * c + c) by (nonlinear_arith);
    }
}

/// Of two sweeps of a query with a free start, the one that starts earlier
/// has costs nowhere above those of the other, in every column that both
/// compute.
pub proof fn lemma_earlier_start_dominates(p: Problem, q: Problem, j: int)
    requires
        same_but_rate(p, q),
        p.conf.query_ends.start_local(),
        q.min_n() <= p.min_n() <= j,
    ensures
        dominates(q.full_column(j), p.full_column(j)),
        q.full_column(j).len() == p.m() + 1,
    decreases j - p.min_n(),
{
    let m = p.m() as int;
    if j <= p.min_n() {
        lemma_full_reach(q, j);
        let lower = q.full_column(j);
        let upper = p.boundary_column();
        assert forall|i: int| 0 <= i < lower.len() implies (#[trigger] lower[i]).cost
            <= upper[i].cost by {
            assert(lower[i].cost <= i * p.indel());
        }
    } else {
        lemma_earlier_start_dominates(p, q, j - 1);
        lemma_fill_dominates(p, q, q.full_column(j - 1), p.full_column(j - 1), j, m);
        lemma_fill_cells(q, q.full_column(j - 1), j, m);
        lemma_fill_cells(p, p.full_column(j - 1), j, m);
    }
}

} // verus!
