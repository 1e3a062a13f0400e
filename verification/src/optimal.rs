//! The band and the early stop lose nothing: no path of the full matrix
//! that the search could report is better than the best alignment that it
//! finds.

use crate::band::{lemma_advance_tracks, lemma_sweep_tracks, tracks_cell};
use crate::bounds::{
    lemma_boundary_fits,
    lemma_column_fits_later,
    lemma_column_range,
    lemma_effective_bounds,
    lemma_fill_fits,
    lemma_shrink_range,
    lemma_stopped_exact,
    lemma_stopped_stays,
    lemma_sweep_fits,
};
use crate::dp::{aligned_length, Best, Cell, Problem};
use vstd::prelude::*;

verus! {

/// Whether `best` is at least as good as the path in `cell`: it has more
/// matches, or as many and no more errors.
pub open spec fn as_good(best: Best, cell: Cell) -> bool {
    best.matches > cell.matches || (best.matches == cell.matches && best.cost <= cell.cost)
}

impl Problem {
    /// Whether the path in `cell`, which covers `length` of the reference,
    /// `effective` of it counted for the error rate, can be reported: it is
    /// long enough and within the rate.
    pub open spec fn eligible(self, cell: Cell, length: int, effective: int) -> bool {
        length >= self.conf.min_overlap && cell.cost <= self.conf.max_error_rate.budget(
            effective as nat,
        )
    }

    /// Whether the path that ends with the reference in column `j` of the
    /// full matrix can be reported.
    pub open spec fn eligible_at_column(self, j: int) -> bool {
        let m = self.m() as int;
        let cell = self.full_column(j)[m];
        let length = aligned_length(cell.origin, m);
        &&& self.conf.query_ends.stop_local()
        &&& self.min_n() < j <= self.max_n()
        &&& self.eligible(cell, length, self.suffix_effective_length(length))
    }

    /// Whether the path that ends with the query in row `i` of the full
    /// matrix can be reported.
    pub open spec fn eligible_at_row(self, i: int) -> bool {
        let cell = self.full_column(self.n() as int)[i];
        &&& self.max_n() == self.n()
        &&& self.first_row() <= i <= self.m()
        &&& self.eligible(
            cell,
            aligned_length(cell.origin, i),
            self.window_effective_length(cell.origin, i),
        )
    }
}

/// Every column of the full matrix fits.
proof fn lemma_full_fits(p: Problem, j: int)
    requires
        p.conf_ok(),
        p.min_n() <= j,
    ensures
        p.column_fits(p.full_column(j), j),
    decreases j - p.min_n(),
{
    if j <= p.min_n() {
        lemma_boundary_fits(p);
        lemma_column_fits_later(p, p.boundary_column(), p.min_n() as int, j);
    } else {
        lemma_full_fits(p, j - 1);
        lemma_fill_fits(p, p.full_column(j - 1), j, p.m() as int);
    }
}

/// A path that can be reported is within the budget of the band.
proof fn lemma_eligible_in_band(p: Problem, cell: Cell, i: int, j: int, effective: int)
    requires
        p.cell_fits(cell, i, j),
        0 <= i <= p.m(),
        0 <= effective <= p.m(),
        cell.cost <= p.conf.max_error_rate.budget(effective as nat),
    ensures
        cell.cost <= p.k(),
{
    p.conf.max_error_rate.lemma_budget_grows_with_length(effective as nat, p.m());
}

/// An exact match of the whole reference is as good as any path.
proof fn lemma_exact_is_best(p: Problem, best: Best, cell: Cell, i: int, j: int)
    requires
        best.cost == 0,
        best.matches == p.m(),
        p.cell_fits(cell, i, j),
        0 <= i <= p.m(),
    ensures
        as_good(best, cell),
{
}

/// One column more leaves the best alignment as good as any path that it
/// was as good as before.
proof fn lemma_advance_keeps(p: Problem, j: int, cell: Cell)
    requires
        p.min_n() < j,
        as_good(p.sweep(j - 1).best, cell),
    ensures
        as_good(p.sweep(j).best, cell),
{
}

/// After the sweep the best alignment is as good as the path that ends with
/// the reference in any column of the full matrix, where that can be
/// reported.
proof fn lemma_sweep_covers(p: Problem, at: int, j: int)
    requires
        p.conf_ok(),
        p.eligible_at_column(at),
        at <= j <= p.max_n(),
    ensures
        as_good(p.sweep(j).best, p.full_column(at)[p.m() as int]),
    decreases j - at,
{
    let m = p.m() as int;
    let cell = p.full_column(at)[m];
    lemma_column_range(p);
    lemma_full_fits(p, at);
    assert(p.cell_fits(cell, m, at));
    if j > at {
        lemma_sweep_covers(p, at, j - 1);
        lemma_advance_keeps(p, j, cell);
    } else {
        let s = p.sweep(at - 1);
        if s.stopped {
            lemma_stopped_exact(p, at - 1);
            lemma_exact_is_best(p, s.best, cell, m, at);
        } else {
            lemma_effective_bounds(p, cell.origin, m);
            let length = aligned_length(cell.origin, m);
            lemma_eligible_in_band(p, cell, m, at, p.suffix_effective_length(length));
            lemma_sweep_tracks(p, at - 1);
            lemma_sweep_fits(p, at - 1);
            lemma_advance_tracks(p, s, at);
            let column = p.fill(s.column, at, s.last);
            assert(tracks_cell(column[m], cell, p.k()));
        }
    }
}

/// The search of the last column leaves the best alignment as good as any
/// path that it was as good as before.
proof fn lemma_final_search_keeps_good(
    p: Problem,
    column: Seq<Cell>,
    best: Best,
    from: int,
    upto: int,
    cell: Cell,
)
    requires
        as_good(best, cell),
    ensures
        as_good(p.final_search(column, best, from, upto), cell),
    decreases upto - from + 1,
{
    if upto >= from {
        lemma_final_search_keeps_good(p, column, best, from, upto - 1, cell);
    }
}

/// The search of the last column makes the best alignment as good as the
/// path in any row that it looks at, where that can be reported.
proof fn lemma_final_search_covers(
    p: Problem,
    column: Seq<Cell>,
    best: Best,
    from: int,
    upto: int,
    i: int,
)
    requires
        from <= i <= upto,
        p.eligible(
            column[i],
            aligned_length(column[i].origin, i),
            p.window_effective_length(column[i].origin, i),
        ),
    ensures
        as_good(p.final_search(column, best, from, upto), column[i]),
    decreases upto - i,
{
    if i < upto {
        lemma_final_search_covers(p, column, best, from, upto - 1, i);
    }
}

/// The best alignment of a search is as good as the path that ends with the
/// reference in any column of the full matrix up to the last that is
/// computed, where the query has a free stop and the path can be reported:
/// neither the band nor the stop at an exact match has lost a better one.
pub proof fn lemma_best_among_columns(p: Problem, j: int)
    requires
        p.conf_ok(),
        p.eligible_at_column(j),
    ensures
        as_good(p.best(), p.full_column(j)[p.m() as int]),
{
    let top = p.max_n() as int;
    let cell = p.full_column(j)[p.m() as int];
    lemma_sweep_covers(p, j, top);
    if p.max_n() == p.n() {
        lemma_final_search_keeps_good(
            p,
            p.sweep(top).column,
            p.sweep(top).best,
            p.first_row(),
            p.m() as int,
            cell,
        );
    }
}

/// The best alignment of a search is as good as the path that ends with the
/// query in any row of the full matrix that the search of the last column
/// looks at, where the path can be reported.
pub proof fn lemma_best_among_rows(p: Problem, i: int)
    requires
        p.conf_ok(),
        p.eligible_at_row(i),
    ensures
        as_good(p.best(), p.full_column(p.n() as int)[i]),
{
    let n = p.n() as int;
    let s = p.sweep(n);
    let cell = p.full_column(n)[i];
    lemma_column_range(p);
    lemma_full_fits(p, n);
    assert(p.cell_fits(cell, i, n));
    if n > p.min_n() && p.sweep(n - 1).stopped {
        lemma_stopped_exact(p, n - 1);
        lemma_stopped_stays(p, n - 1, n);
        lemma_exact_is_best(p, s.best, cell, i, n);
        lemma_final_search_keeps_good(p, s.column, s.best, p.first_row(), p.m() as int, cell);
    } else {
        lemma_effective_bounds(p, cell.origin, i);
        lemma_eligible_in_band(p, cell, i, n, p.window_effective_length(cell.origin, i));
        lemma_sweep_tracks(p, n);
        assert(tracks_cell(s.column[i], cell, p.k()));
        lemma_final_search_covers(p, s.column, s.best, p.first_row(), p.m() as int, i);
    }
}

} // verus!
