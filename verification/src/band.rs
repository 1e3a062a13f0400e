//! The band loses nothing: as long as the sweep goes on, every cell of the
//! full matrix whose cost is within the budget stands in the kept column as
//! it is, and every other cell of the kept column is above the budget.

use crate::bounds::{lemma_shrink_range, lemma_sweep_fits};
use crate::dp::{shrink, step_cell, Cell, Problem, Sweep};
use crate::full::{lemma_fill_cells, lemma_full_steady};
use vstd::prelude::*;

verus! {

/// Whether `kept` stands for `full` as far as the budget `k` goes: it is the
/// same where `full` is within the budget, and above the budget where `full`
/// is.
pub open spec fn tracks_cell(kept: Cell, full: Cell, k: nat) -> bool {
    if full.cost <= k {
        kept == full
    } else {
        kept.cost > k
    }
}

impl Problem {
    /// Whether every row of the kept column stands for the same row of the
    /// full one.
    pub open spec fn tracks(self, kept: Seq<Cell>, full: Seq<Cell>) -> bool {
        &&& kept.len() == self.m() + 1
        &&& full.len() == self.m() + 1
        &&& forall|i: int| 0 <= i <= self.m() ==> tracks_cell(#[trigger] kept[i], full[i], self.k())
    }

    /// Whether the rows from `last` on are above the budget in the full
    /// column, unless `last` is the last row.
    pub open spec fn beyond(self, full: Seq<Cell>, last: int) -> bool {
        last == self.m() || forall|i: int|
            last <= i <= self.m() ==> (#[trigger] full[i]).cost > self.k()
    }

    /// Whether the sweep has gone on up to column `j`: no exact match has
    /// ended it in an earlier column.
    pub open spec fn runs_to(self, j: int) -> bool {
        j <= self.min_n() || !self.sweep(j - 1).stopped
    }
}

/// A step from neighbours that stand for their cells in the full matrix
/// stands for the step there.
proof fn lemma_step_tracks(
    indel: nat,
    k: nat,
    equal: bool,
    diag: Cell,
    left: Cell,
    up: Cell,
    full_diag: Cell,
    full_left: Cell,
    full_up: Cell,
)
    requires
        tracks_cell(diag, full_diag, k),
        tracks_cell(left, full_left, k),
        tracks_cell(up, full_up, k),
    ensures
        tracks_cell(
            step_cell(indel, equal, diag, left, up),
            step_cell(indel, equal, full_diag, full_left, full_up),
            k,
        ),
{
}

/// The rows that are computed stand for the rows of the full column.
proof fn lemma_fill_tracks(
    p: Problem,
    kept: Seq<Cell>,
    full: Seq<Cell>,
    j: int,
    upto: int,
)
    requires
        p.tracks(kept, full),
        p.head_cost_fits(full, j - 1),
        1 <= j,
        0 <= upto <= p.m(),
    ensures
        forall|i: int|
            0 <= i <= upto ==> tracks_cell(
                #[trigger] p.fill(kept, j, upto)[i],
                p.fill(full, j, p.m() as int)[i],
                p.k(),
            ),
    decreases upto,
{
    let k = p.k();
    let c = p.indel();
    let m = p.m() as int;
    let next = p.fill(kept, j, upto);
    let full_next = p.fill(full, j, m);
    lemma_fill_cells(p, kept, j, upto);
    lemma_fill_cells(p, full, j, m);
    assert(tracks_cell(kept[0], full[0], k));
    assert(j * c == (j - 1) * c + c) by (nonlinear_arith);
    assert(tracks_cell(next[0], full_next[0], k));
    if upto > 0 {
        lemma_fill_tracks(p, kept, full, j, upto - 1);
        lemma_fill_cells(p, kept, j, upto - 1);
        let above = p.fill(kept, j, upto - 1);
        assert(tracks_cell(above[upto - 1], full_next[upto - 1], k));
        assert(next[upto - 1] == above[upto - 1]);
        assert(tracks_cell(kept[upto - 1], full[upto - 1], k));
        assert(tracks_cell(kept[upto], full[upto], k));
        lemma_step_tracks(
            c,
            k,
            p.matches_at(upto, j),
            kept[upto - 1],
            kept[upto],
            next[upto - 1],
            full[upto - 1],
            full[upto],
            full_next[upto - 1],
        );
        assert forall|i: int| 0 <= i <= upto implies tracks_cell(
            #[trigger] next[i],
            full_next[i],
            k,
        ) by {
            if i < upto {
                assert(next[i] == above[i]);
                assert(tracks_cell(above[i], full_next[i], k));
            }
        }
    }
}

/// Where the rows from `last` on are above the budget in one column of the
/// full matrix, the rows after `last` are so in the next.
proof fn lemma_beyond_next(p: Problem, j: int, last: int)
    requires
        p.min_n() < j,
        0 <= last <= p.m(),
        forall|i: int| last <= i <= p.m() ==> (#[trigger] p.full_column(j - 1)[i]).cost > p.k(),
    ensures
        forall|i: int| last < i <= p.m() ==> (#[trigger] p.full_column(j)[i]).cost > p.k(),
{
    let before = p.full_column(j - 1);
    let full = p.full_column(j);
    lemma_full_steady(p, j);
    lemma_full_steady(p, j - 1);
    lemma_fill_cells(p, before, j, p.m() as int);
    assert forall|i: int| last < i <= p.m() implies (#[trigger] full[i]).cost > p.k() by {
        assert(before[i - 1].cost > p.k());
        assert(before[i].cost > p.k());
        assert(before[i - 1].cost <= full[i - 1].cost + p.indel());
    }
}

/// One column more, and the kept column still stands for the full one.
pub proof fn lemma_advance_tracks(p: Problem, s: Sweep, j: int)
    requires
        p.conf_ok(),
        p.min_n() < j <= p.n(),
        p.tracks(s.column, p.full_column(j - 1)),
        0 <= s.last <= p.m(),
        p.beyond(p.full_column(j - 1), s.last),
    ensures
        p.tracks(p.advance(s, j).column, p.full_column(j)),
        p.beyond(p.full_column(j), p.advance(s, j).last),
        p.full_column(j)[p.m() as int].cost <= p.k() ==> s.last == p.m() && shrink(
            p.fill(s.column, j, s.last),
            s.last,
            p.k(),
        ) == p.m(),
{
    let k = p.k();
    let m = p.m() as int;
    let before = p.full_column(j - 1);
    let full = p.full_column(j);
    let next = p.fill(s.column, j, s.last);
    lemma_full_steady(p, j - 1);
    lemma_fill_tracks(p, s.column, before, j, s.last);
    lemma_fill_cells(p, s.column, j, s.last);
    lemma_fill_cells(p, before, j, m);
    if s.last < m {
        lemma_beyond_next(p, j, s.last);
    }
    assert forall|i: int| 0 <= i <= m implies tracks_cell(#[trigger] next[i], full[i], k) by {
        if i > s.last {
            assert(next[i] == s.column[i]);
            assert(tracks_cell(s.column[i], before[i], k));
            assert(before[i].cost > k);
            assert(full[i].cost > k);
        }
    }
    lemma_shrink_range(next, s.last, k);
    let cut = shrink(next, s.last, k);
    if cut < m {
        assert forall|i: int| cut + 1 <= i <= m implies (#[trigger] full[i]).cost > k by {
            assert(tracks_cell(next[i], full[i], k));
            if i <= s.last {
                assert(next[i].cost > k);
            }
        }
    }
    if full[m].cost <= k {
        assert(tracks_cell(next[m], full[m], k));
    }
}

/// As long as the sweep goes on, the kept column stands for the full one.
pub proof fn lemma_sweep_tracks(p: Problem, j: int)
    requires
        p.conf_ok(),
        p.min_n() <= j <= p.n(),
        p.runs_to(j),
    ensures
        p.tracks(p.sweep(j).column, p.full_column(j)),
        0 <= p.sweep(j).last <= p.m(),
        p.beyond(p.full_column(j), p.sweep(j).last),
    decreases j - p.min_n(),
{
    let k = p.k();
    lemma_sweep_fits(p, j);
    if j <= p.min_n() {
        let boundary = p.boundary_column();
        assert forall|i: int| 0 <= i <= p.m() implies tracks_cell(
            #[trigger] boundary[i],
            boundary[i],
            k,
        ) by {}
        let last = p.initial_band();
        if last < p.m() {
            assert forall|i: int| last <= i <= p.m() implies (#[trigger] boundary[i]).cost > k by {
                let min_n = p.min_n() as int;
                assert(i * p.indel() >= i) by (nonlinear_arith)
                    requires
                        i >= 0,
                        p.indel() >= 1,
                ;
                assert(min_n * p.indel() >= min_n) by (nonlinear_arith)
                    requires
                        min_n >= 0,
                        p.indel() >= 1,
                ;
            }
        }
    } else {
        if j - 1 > p.min_n() {
            // The sweep had not stopped two columns back either, or it would
            // have stayed stopped.
            if p.sweep(j - 2).stopped {
                assert(p.sweep(j - 1) == p.sweep(j - 2));
            }
        }
        lemma_sweep_tracks(p, j - 1);
        lemma_sweep_fits(p, j - 1);
        lemma_advance_tracks(p, p.sweep(j - 1), j);
    }
}

} // verus!
