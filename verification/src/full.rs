//! The matrix in full: every row of every column from the boundary on, as
//! it would be if no band were kept.

use crate::dp::{step_cell, Cell, Problem};
use vstd::prelude::*;

verus! {

impl Problem {
    /// Column `j` of the full matrix.
    pub open spec fn full_column(self, j: int) -> Seq<Cell>
        decreases j - self.min_n(),
    {
        if j <= self.min_n() {
            self.boundary_column()
        } else {
            self.fill(self.full_column(j - 1), j, self.m() as int)
        }
    }

    /// Whether costs in `column` grow by no more than one gap from a row to
    /// the next.
    pub open spec fn steady_down(self, column: Seq<Cell>) -> bool {
        &&& column.len() == self.m() + 1
        &&& forall|i: int|
            1 <= i <= self.m() ==> (#[trigger] column[i]).cost <= column[i - 1].cost + self.indel()
    }

    /// Whether costs in rows `0..=upto` of `before` are above those in
    /// `column` by no more than one gap.
    pub open spec fn steady_across(self, before: Seq<Cell>, column: Seq<Cell>, upto: int) -> bool {
        forall|i: int|
            0 <= i <= upto ==> (#[trigger] before[i]).cost <= column[i].cost + self.indel()
    }

    /// Whether costs in `column` fall by no more than one gap from a row to
    /// the next.
    pub open spec fn steady_up(self, column: Seq<Cell>) -> bool {
        &&& column.len() == self.m() + 1
        &&& forall|i: int|
            1 <= i <= self.m() ==> (#[trigger] column[i - 1]).cost <= column[i].cost + self.indel()
    }

    /// Whether costs in rows `0..=upto` of `column` are above those in
    /// `before` by no more than one gap.
    pub open spec fn steady_onward(self, before: Seq<Cell>, column: Seq<Cell>, upto: int) -> bool {
        forall|i: int|
            0 <= i <= upto ==> (#[trigger] column[i]).cost <= before[i].cost + self.indel()
    }

    /// Whether row 0 of `column`, taken as column `j`, has the cost that a
    /// query without a free start gives it.
    pub open spec fn head_cost_fits(self, column: Seq<Cell>, j: int) -> bool {
        !self.conf.query_ends.start_local() ==> column[0].cost == j * self.indel()
    }
}

/// Every cell of a column that is computed over another is the head cell
/// or a step from its three neighbours; the rows beyond are as before.
pub proof fn lemma_fill_cells(p: Problem, before: Seq<Cell>, j: int, upto: int)
    requires
        before.len() == p.m() + 1,
        0 <= upto <= p.m(),
    ensures
        p.fill(before, j, upto).len() == p.m() + 1,
        p.fill(before, j, upto)[0] == p.head_cell(before[0], j),
        forall|i: int|
            1 <= i <= upto ==> #[trigger] p.fill(before, j, upto)[i] == step_cell(
                p.indel(),
                p.matches_at(i, j),
                before[i - 1],
                before[i],
                p.fill(before, j, upto)[i - 1],
            ),
        forall|i: int| upto < i <= p.m() ==> #[trigger] p.fill(before, j, upto)[i] == before[i],
    decreases upto,
{
    if upto > 0 {
        lemma_fill_cells(p, before, j, upto - 1);
        let above = p.fill(before, j, upto - 1);
        let filled = p.fill(before, j, upto);
        assert forall|i: int| 1 <= i <= upto implies #[trigger] filled[i] == step_cell(
            p.indel(),
            p.matches_at(i, j),
            before[i - 1],
            before[i],
            filled[i - 1],
        ) by {
            if i < upto {
                assert(filled[i] == above[i]);
                assert(filled[i - 1] == above[i - 1]);
            }
        }
    }
}

/// In the column at which the sweep starts, costs grow by no more than one
/// gap from row to row.
proof fn lemma_boundary_steady(p: Problem)
    ensures
        p.steady_down(p.boundary_column()),
        p.head_cost_fits(p.boundary_column(), p.min_n() as int),
{
    let c = p.indel();
    let min_n = p.min_n() as int;
    assert forall|i: int| 1 <= i <= p.m() implies (#[trigger] p.boundary_column()[i]).cost
        <= p.boundary_column()[i - 1].cost + c by {
        assert(i * c == (i - 1) * c + c) by (nonlinear_arith);
        assert(0 <= (i - 1) * c) by (nonlinear_arith)
            requires
                i >= 1,
                c >= 0,
        ;
        assert(0 <= min_n * c) by (nonlinear_arith)
            requires
                min_n >= 0,
                c >= 0,
        ;
    }
    assert(0 * c == 0) by (nonlinear_arith);
    assert(0 <= min_n * c) by (nonlinear_arith)
        requires
            min_n >= 0,
            c >= 0,
    ;
}

/// A column computed in full over a steady one is steady, and costs in the
/// column before are above its own by no more than one gap.
proof fn lemma_fill_steady(p: Problem, before: Seq<Cell>, j: int, upto: int)
    requires
        p.steady_down(before),
        p.head_cost_fits(before, j - 1),
        0 <= upto <= p.m(),
    ensures
        p.steady_across(before, p.fill(before, j, upto), upto),
        forall|i: int|
            1 <= i <= upto ==> (#[trigger] p.fill(before, j, upto)[i]).cost <= p.fill(
                before,
                j,
                upto,
            )[i - 1].cost + p.indel(),
        p.head_cost_fits(p.fill(before, j, upto), j),
    decreases upto,
{
    let c = p.indel();
    let filled = p.fill(before, j, upto);
    lemma_fill_cells(p, before, j, upto);
    assert(j * c == (j - 1) * c + c) by (nonlinear_arith);
    if upto > 0 {
        lemma_fill_steady(p, before, j, upto - 1);
        let above = p.fill(before, j, upto - 1);
        lemma_fill_cells(p, before, j, upto - 1);
        assert(filled[upto - 1] == above[upto - 1]);
        assert(before[upto - 1].cost <= above[upto - 1].cost + c);
        assert(before[upto].cost <= before[upto - 1].cost + c);
        assert forall|i: int| 0 <= i <= upto implies (#[trigger] before[i]).cost <= filled[i].cost
            + c by {
            if i < upto {
                assert(filled[i] == above[i]);
            }
        }
        assert forall|i: int| 1 <= i <= upto implies (#[trigger] filled[i]).cost <= filled[i
            - 1].cost + c by {
            if i < upto {
                assert(filled[i] == above[i]);
                assert(filled[i - 1] == above[i - 1]);
                assert(above[i].cost <= above[i - 1].cost + c);
            }
        }
    }
}

/// Every column of the full matrix is steady, and so is the step from each
/// column to the next.
pub proof fn lemma_full_steady(p: Problem, j: int)
    requires
        p.min_n() <= j,
    ensures
        p.steady_down(p.full_column(j)),
        p.head_cost_fits(p.full_column(j), j),
        j > p.min_n() ==> p.steady_across(p.full_column(j - 1), p.full_column(j), p.m() as int),
    decreases j - p.min_n(),
{
    if j <= p.min_n() {
        lemma_boundary_steady(p);
    } else {
        lemma_full_steady(p, j - 1);
        lemma_fill_steady(p, p.full_column(j - 1), j, p.m() as int);
        lemma_fill_cells(p, p.full_column(j - 1), j, p.m() as int);
    }
}

/// In the column at which the sweep starts, costs fall by no more than one
/// gap from row to row.
proof fn lemma_boundary_steady_up(p: Problem)
    ensures
        p.steady_up(p.boundary_column()),
{
    let c = p.indel();
    let min_n = p.min_n() as int;
    assert forall|i: int| 1 <= i <= p.m() implies (#[trigger] p.boundary_column()[i - 1]).cost
        <= p.boundary_column()[i].cost + c by {
        assert(i * c == (i - 1) * c + c) by (nonlinear_arith);
        assert(0 <= (i - 1) * c) by (nonlinear_arith)
            requires
                i >= 1,
                c >= 0,
        ;
        assert(0 <= min_n * c) by (nonlinear_arith)
            requires
                min_n >= 0,
                c >= 0,
        ;
    }
}

/// A column computed over one whose costs fall steadily has costs that fall
/// steadily, and that are above those of the column before by no more than
/// one gap.
proof fn lemma_fill_steady_up(p: Problem, before: Seq<Cell>, j: int, upto: int)
    requires
        p.steady_up(before),
        p.head_cost_fits(before, j - 1),
        0 <= upto <= p.m(),
    ensures
        p.steady_onward(before, p.fill(before, j, upto), upto),
        forall|i: int|
            1 <= i <= upto ==> (#[trigger] p.fill(before, j, upto)[i - 1]).cost <= p.fill(
                before,
                j,
                upto,
            )[i].cost + p.indel(),
    decreases upto,
{
    let c = p.indel();
    let filled = p.fill(before, j, upto);
    lemma_fill_cells(p, before, j, upto);
    assert(j * c == (j - 1) * c + c) by (nonlinear_arith);
    if upto > 0 {
        lemma_fill_steady_up(p, before, j, upto - 1);
        let above = p.fill(before, j, upto - 1);
        lemma_fill_cells(p, before, j, upto - 1);
        assert(filled[upto - 1] == above[upto - 1]);
        assert(above[upto - 1].cost <= before[upto - 1].cost + c);
        assert(before[upto - 1].cost <= before[upto].cost + c);
        assert forall|i: int| 0 <= i <= upto implies (#[trigger] filled[i]).cost <= before[i].cost
            + c by {
            if i < upto {
                assert(filled[i] == above[i]);
                assert(above[i].cost <= before[i].cost + c);
            }
        }
        assert forall|i: int| 1 <= i <= upto implies (#[trigger] filled[i - 1]).cost
            <= filled[i].cost + c by {
            if i < upto {
                assert(filled[i] == above[i]);
                assert(filled[i - 1] == above[i - 1]);
                assert(above[i - 1].cost <= above[i].cost + c);
            }
        }
    }
}

/// In every column of the full matrix costs fall by no more than one gap
/// from row to row, and are above those of the column before by no more
/// than one gap.
pub proof fn lemma_full_level(p: Problem, j: int)
    requires
        p.min_n() <= j,
    ensures
        p.steady_up(p.full_column(j)),
        j > p.min_n() ==> p.steady_onward(p.full_column(j - 1), p.full_column(j), p.m() as int),
    decreases j - p.min_n(),
{
    if j <= p.min_n() {
        lemma_boundary_steady_up(p);
    } else {
        lemma_full_level(p, j - 1);
        lemma_full_steady(p, j - 1);
        let before = p.full_column(j - 1);
        let m = p.m() as int;
        lemma_fill_steady_up(p, before, j, m);
        lemma_fill_cells(p, before, j, m);
        let full = p.full_column(j);
        assert forall|i: int| 1 <= i <= m implies (#[trigger] full[i - 1]).cost <= full[i].cost
            + p.indel() by {
            assert(full[i - 1].cost <= full[i].cost + p.indel());
        }
    }
}

} // verus!
