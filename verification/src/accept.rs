//! When an alignment is reported: exactly when some cell that the search
//! looks at is long enough, within the rate, and better than nothing.

use crate::bounds::{
    lemma_column_fits_later,
    lemma_column_range,
    lemma_effective_bounds,
    lemma_fill_fits,
    lemma_shrink_range,
    lemma_sweep_fits,
};
use crate::dp::{aligned_length, shrink, Best, Cell, Problem};
use vstd::prelude::*;

verus! {

impl Problem {
    /// Whether the path in `cell` would replace the best that the search
    /// begins with.
    pub open spec fn worth(self, cell: Cell, length: int, effective: int) -> bool {
        self.accepts(cell, length, effective, self.start().best)
    }

    /// Whether the sweep looks at the last row of column `j` and finds a
    /// path there that is worth reporting.
    pub open spec fn found_at_column(self, j: int) -> bool {
        let s = self.sweep(j - 1);
        let column = self.fill(s.column, j, s.last);
        let m = self.m() as int;
        let length = aligned_length(column[m].origin, m);
        &&& self.min_n() < j <= self.max_n()
        &&& !s.stopped
        &&& self.conf.query_ends.stop_local()
        &&& shrink(column, s.last, self.k()) == m
        &&& self.worth(column[m], length, self.suffix_effective_length(length))
    }

    /// Whether the search of the last column finds a path in row `i` that is
    /// worth reporting.
    pub open spec fn found_at_row(self, i: int) -> bool {
        let column = self.sweep(self.max_n() as int).column;
        &&& self.max_n() == self.n()
        &&& self.first_row() <= i <= self.m()
        &&& self.worth(
            column[i],
            aligned_length(column[i].origin, i),
            self.window_effective_length(column[i].origin, i),
        )
    }

    /// Whether `best` is an alignment, not what the search begins with: its
    /// cost is below that.
    pub open spec fn settled(self, best: Best) -> bool {
        best.cost < self.m() + self.n()
    }

    /// Whether the rate allows no more errors than there are positions, on
    /// every length up to that of the reference.
    pub open spec fn capped(self) -> bool {
        forall|length: nat|
            length <= self.m() ==> #[trigger] self.conf.max_error_rate.budget(length) <= length
    }
}

/// A path that is accepted costs less than what the search begins with.
proof fn lemma_accept_settles(p: Problem, cell: Cell, length: int, effective: int, best: Best)
    requires
        p.capped(),
        0 <= effective <= p.m(),
        cell.matches <= p.n(),
        best == p.start().best || p.settled(best),
        p.accepts(cell, length, effective, best),
    ensures
        cell.cost < p.m() + p.n(),
{
    assert(p.conf.max_error_rate.budget(effective as nat) <= effective);
}

/// One column more keeps the best alignment what the search begins with, or
/// an alignment; and where it stops the sweep, it is an alignment.
proof fn lemma_advance_settles(p: Problem, j: int)
    requires
        p.conf_ok(),
        p.capped(),
        p.min_n() < j <= p.n(),
        !p.sweep(j - 1).stopped,
        p.sweep(j - 1).best == p.start().best || p.settled(p.sweep(j - 1).best),
    ensures
        p.sweep(j).best == p.start().best || p.settled(p.sweep(j).best),
        p.sweep(j).stopped ==> p.settled(p.sweep(j).best),
        p.settled(p.sweep(j - 1).best) ==> p.settled(p.sweep(j).best),
        p.found_at_column(j) && j <= p.max_n() ==> p.settled(p.sweep(j).best),
{
    let s = p.sweep(j - 1);
    let m = p.m() as int;
    lemma_sweep_fits(p, j - 1);
    lemma_fill_fits(p, s.column, j, s.last);
    let column = p.fill(s.column, j, s.last);
    let cell = column[m];
    assert(p.cell_fits(cell, m, j));
    let length = aligned_length(cell.origin, m);
    lemma_effective_bounds(p, cell.origin, m);
    let effective = p.suffix_effective_length(length);
    if p.accepts(cell, length, effective, s.best) {
        lemma_accept_settles(p, cell, length, effective, s.best);
    }
}

/// After every column the best alignment is what the search begins with, or
/// an alignment; and where the sweep has stopped, it is an alignment.
pub proof fn lemma_sweep_settles(p: Problem, j: int)
    requires
        p.conf_ok(),
        p.capped(),
        p.min_n() <= j <= p.n(),
    ensures
        p.sweep(j).best == p.start().best || p.settled(p.sweep(j).best),
        p.sweep(j).stopped ==> p.settled(p.sweep(j).best),
    decreases j - p.min_n(),
{
    if j > p.min_n() {
        lemma_sweep_settles(p, j - 1);
        if !p.sweep(j - 1).stopped {
            lemma_advance_settles(p, j);
        }
    }
}

/// Once the best alignment is an alignment, it stays one.
pub proof fn lemma_settled_stays(p: Problem, j: int, later: int)
    requires
        p.conf_ok(),
        p.capped(),
        p.min_n() <= j <= later <= p.n(),
        p.settled(p.sweep(j).best),
    ensures
        p.settled(p.sweep(later).best),
    decreases later - j,
{
    if j < later {
        lemma_settled_stays(p, j, later - 1);
        if !p.sweep(later - 1).stopped {
            lemma_advance_settles(p, later);
        }
    }
}

/// The search of the last column keeps an alignment an alignment, and makes
/// one of a row that is worth reporting.
proof fn lemma_final_search_settles(
    p: Problem,
    column: Seq<Cell>,
    best: Best,
    from: int,
    upto: int,
    found: int,
)
    requires
        p.conf_ok(),
        p.capped(),
        p.column_fits(column, p.n() as int),
        best == p.start().best || p.settled(best),
        0 <= from,
        upto <= p.m(),
        p.settled(best) || (from <= found <= upto && p.worth(
            column[found],
            aligned_length(column[found].origin, found),
            p.window_effective_length(column[found].origin, found),
        )),
    ensures
        p.settled(p.final_search(column, best, from, upto)),
    decreases upto - from + 1,
{
    if upto >= from {
        let before = p.final_search(column, best, from, upto - 1);
        lemma_final_search_keeps(p, column, best, from, upto - 1);
        if p.settled(best) || found < upto {
            lemma_final_search_settles(p, column, best, from, upto - 1, found);
        }
        let cell = column[upto];
        assert(p.cell_fits(cell, upto, p.n() as int));
        lemma_effective_bounds(p, cell.origin, upto);
        let length = aligned_length(cell.origin, upto);
        let effective = p.window_effective_length(cell.origin, upto);
        if p.accepts(cell, length, effective, before) {
            lemma_accept_settles(p, cell, length, effective, before);
        }
    }
}

/// The search of the last column leaves the best alignment what the search
/// begins with, or an alignment.
proof fn lemma_final_search_keeps(p: Problem, column: Seq<Cell>, best: Best, from: int, upto: int)
    requires
        p.conf_ok(),
        p.capped(),
        p.column_fits(column, p.n() as int),
        best == p.start().best || p.settled(best),
        0 <= from,
        upto <= p.m(),
    ensures
        p.final_search(column, best, from, upto) == p.start().best || p.settled(
            p.final_search(column, best, from, upto),
        ),
    decreases upto - from + 1,
{
    if upto >= from {
        let before = p.final_search(column, best, from, upto - 1);
        lemma_final_search_keeps(p, column, best, from, upto - 1);
        let cell = column[upto];
        assert(p.cell_fits(cell, upto, p.n() as int));
        lemma_effective_bounds(p, cell.origin, upto);
        let length = aligned_length(cell.origin, upto);
        let effective = p.window_effective_length(cell.origin, upto);
        if p.accepts(cell, length, effective, before) {
            lemma_accept_settles(p, cell, length, effective, before);
        }
    }
}

/// The kept column after the sweep fits the last column of the query.
pub proof fn lemma_last_column_fits(p: Problem)
    requires
        p.conf_ok(),
    ensures
        p.column_fits(p.sweep(p.max_n() as int).column, p.n() as int),
        p.min_n() <= p.n(),
        p.max_n() <= p.n(),
{
    lemma_column_range(p);
    let top = p.max_n() as int;
    if top <= p.min_n() {
        lemma_sweep_fits(p, p.min_n() as int);
        assert(p.sweep(top) == p.start());
        lemma_column_fits_later(p, p.start().column, p.min_n() as int, p.n() as int);
    } else {
        lemma_sweep_fits(p, top);
        lemma_column_fits_later(p, p.sweep(top).column, top, p.n() as int);
    }
}

/// Where the sweep has an alignment after some column, an alignment is
/// reported.
pub proof fn lemma_settled_located(p: Problem, j: int)
    requires
        p.conf_ok(),
        p.capped(),
        p.min_n() <= j <= p.max_n(),
        p.settled(p.sweep(j).best),
    ensures
        p.locate() is Some,
{
    lemma_column_range(p);
    let top = p.max_n() as int;
    lemma_settled_stays(p, j, top);
    lemma_last_column_fits(p);
    if p.max_n() == p.n() {
        lemma_final_search_settles(
            p,
            p.sweep(top).column,
            p.sweep(top).best,
            p.first_row(),
            p.m() as int,
            0,
        );
    }
}

/// Where the sweep finds a path worth reporting in some column, an
/// alignment is reported.
pub proof fn lemma_column_found_located(p: Problem, j: int)
    requires
        p.conf_ok(),
        p.capped(),
        p.found_at_column(j),
    ensures
        p.locate() is Some,
{
    lemma_column_range(p);
    lemma_sweep_settles(p, j - 1);
    lemma_advance_settles(p, j);
    lemma_settled_located(p, j);
}

/// Where the search of the last column finds a path worth reporting in some
/// row, an alignment is reported.
pub proof fn lemma_row_found_located(p: Problem, i: int)
    requires
        p.conf_ok(),
        p.capped(),
        p.found_at_row(i),
    ensures
        p.locate() is Some,
{
    lemma_column_range(p);
    let top = p.max_n() as int;
    lemma_last_column_fits(p);
    if top <= p.min_n() {
        assert(p.sweep(top) == p.start());
    } else {
        lemma_sweep_settles(p, top);
    }
    lemma_final_search_settles(
        p,
        p.sweep(top).column,
        p.sweep(top).best,
        p.first_row(),
        p.m() as int,
        i,
    );
}

/// Where the sweep has left what the search begins with, it has found a
/// path worth reporting in some column, which is returned.
proof fn lemma_sweep_found(p: Problem, j: int) -> (at: int)
    requires
        p.conf_ok(),
        p.min_n() <= j <= p.max_n(),
        p.sweep(j).best != p.start().best,
    ensures
        p.found_at_column(at),
        at <= j,
    decreases j - p.min_n(),
{
    if j <= p.min_n() {
        j
    } else if p.sweep(j - 1).best != p.start().best {
        lemma_sweep_found(p, j - 1)
    } else {
        let s = p.sweep(j - 1);
        lemma_column_range(p);
        lemma_sweep_fits(p, j - 1);
        lemma_shrink_range(p.fill(s.column, j, s.last), s.last, p.k());
        j
    }
}

/// Where the search of the last column has left what the search begins
/// with, it has found a path worth reporting in some row, which is returned.
proof fn lemma_final_search_found(p: Problem, column: Seq<Cell>, from: int, upto: int) -> (at:
    int)
    requires
        p.final_search(column, p.start().best, from, upto) != p.start().best,
    ensures
        from <= at <= upto,
        p.worth(
            column[at],
            aligned_length(column[at].origin, at),
            p.window_effective_length(column[at].origin, at),
        ),
    decreases upto - from + 1,
{
    if upto < from {
        from
    } else if p.final_search(column, p.start().best, from, upto - 1) != p.start().best {
        lemma_final_search_found(p, column, from, upto - 1)
    } else {
        upto
    }
}

/// Where an alignment is reported, the search has found a path worth
/// reporting: in a column of the sweep, or, the sweep having found none, in
/// a row of the last column. The column or the row is returned.
pub proof fn lemma_located_found(p: Problem) -> (at: (bool, int))
    requires
        p.conf_ok(),
        p.locate() is Some,
    ensures
        at.0 ==> p.found_at_column(at.1),
        !at.0 ==> p.found_at_row(at.1) && p.sweep(p.max_n() as int).best == p.start().best,
{
    let top = p.max_n() as int;
    lemma_column_range(p);
    if p.sweep(top).best != p.start().best {
        if top <= p.min_n() {
            assert(p.sweep(top) == p.start());
            (true, 0)
        } else {
            (true, lemma_sweep_found(p, top))
        }
    } else {
        let row = lemma_final_search_found(
            p,
            p.sweep(top).column,
            p.first_row(),
            p.m() as int,
        );
        (false, row)
    }
}

} // verus!
