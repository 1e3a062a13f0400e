//! What holds of every sweep: the band limit stays within the column, every
//! path starts before it ends, and costs and match counts are bounded.

use crate::dp::{
    aligned_length,
    count_n,
    record,
    ref_start,
    shrink,
    Anchor,
    Best,
    Cell,
    Problem,
    Sweep,
};
use vstd::prelude::*;

verus! {

/// A prefix holds no more `N` than it has positions, and a longer prefix no
/// fewer than a shorter one.
pub proof fn lemma_count_n_window(reference: Seq<u8>, from: int, to: int)
    requires
        0 <= from <= to,
    ensures
        count_n(reference, from) <= count_n(reference, to),
        count_n(reference, to) - count_n(reference, from) <= to - from,
    decreases to - from,
{
    if from < to {
        lemma_count_n_window(reference, from, to - 1);
    }
}

/// The lengths that error rates refer to lie between nothing and the
/// aligned length.
pub proof fn lemma_effective_bounds(p: Problem, origin: Anchor, stop: int)
    requires
        0 <= stop <= p.m(),
        origin matches Anchor::RefStart(start) ==> start <= stop,
    ensures
        0 <= aligned_length(origin, stop) <= stop,
        0 <= p.window_effective_length(origin, stop) <= aligned_length(origin, stop),
        0 <= p.suffix_effective_length(aligned_length(origin, stop)) <= aligned_length(
            origin,
            stop,
        ),
        0 <= p.effective_length() <= p.m(),
{
    let length = aligned_length(origin, stop);
    lemma_count_n_window(p.reference, 0, length);
    lemma_count_n_window(p.reference, 0, p.m() as int);
    lemma_count_n_window(p.reference, ref_start(origin) as int, stop);
}

/// Shrinking ends on a row within the band, or on -1.
pub proof fn lemma_shrink_range(column: Seq<Cell>, last: int, k: nat)
    requires
        -1 <= last,
    ensures
        -1 <= shrink(column, last, k) <= last,
        shrink(column, last, k) >= 0 ==> column[shrink(column, last, k)].cost <= k,
        forall|i: int| shrink(column, last, k) < i <= last ==> (#[trigger] column[i]).cost > k,
    decreases last + 1,
{
    if last >= 0 && column[last].cost > k {
        lemma_shrink_range(column, last - 1, k);
    }
}

/// A bound on products: scaling by the indel cost keeps order.
pub proof fn lemma_scaled_order(a: int, b: int, indel: nat)
    requires
        0 <= a <= b,
    ensures
        a * indel <= b * indel,
        0 <= a * indel,
        (b + 1) * indel == b * indel + indel,
{
    assert(a * indel <= b * indel && 0 <= a * indel && (b + 1) * indel == b * indel + indel)
        by (nonlinear_arith)
        requires
            0 <= a <= b,
            indel >= 0,
    ;
}

/// A column that fits after one column fits after every later one.
pub proof fn lemma_column_fits_later(p: Problem, column: Seq<Cell>, j: int, later: int)
    requires
        p.column_fits(column, j),
        0 <= j <= later,
    ensures
        p.column_fits(column, later),
{
    lemma_scaled_order(p.m() + j, p.m() + later, p.indel());
    assert forall|i: int| 0 <= i <= p.m() implies p.cell_fits(#[trigger] column[i], i, later) by {
        assert(p.cell_fits(column[i], i, j));
    }
}

/// The column at which the sweep starts fits.
pub proof fn lemma_boundary_fits(p: Problem)
    ensures
        p.column_fits(p.boundary_column(), p.min_n() as int),
{
    let min_n = p.min_n() as int;
    assert forall|i: int| 0 <= i <= p.m() implies p.cell_fits(
        #[trigger] p.boundary_column()[i],
        i,
        min_n,
    ) by {
        lemma_scaled_order(i, p.m() + min_n, p.indel());
        lemma_scaled_order(min_n, p.m() + min_n, p.indel());
    }
}

/// Computing rows of a column changes no other row, and the column still
/// fits.
pub proof fn lemma_fill_fits(p: Problem, before: Seq<Cell>, j: int, upto: int)
    requires
        p.conf_ok(),
        p.column_fits(before, j - 1),
        1 <= j,
        0 <= upto <= p.m(),
    ensures
        p.column_fits(p.fill(before, j, upto), j),
        forall|i: int| upto < i <= p.m() ==> (#[trigger] p.fill(before, j, upto)[i]) == before[i],
    decreases upto,
{
    let indel = p.indel();
    lemma_column_fits_later(p, before, j - 1, j);
    lemma_scaled_order(j, p.m() + j, indel);
    lemma_scaled_order(p.m() + j - 1, p.m() + j, indel);
    assert((p.m() + j) * indel == (p.m() + j - 1) * indel + indel) by (nonlinear_arith);
    if upto <= 0 {
        let filled = p.fill(before, j, upto);
        assert(p.cell_fits(before[0], 0, j - 1));
        assert forall|i: int| 0 <= i <= p.m() implies p.cell_fits(#[trigger] filled[i], i, j) by {
            assert(p.cell_fits(before[i], i, j));
        }
    } else {
        lemma_fill_fits(p, before, j, upto - 1);
        let above = p.fill(before, j, upto - 1);
        let filled = p.fill(before, j, upto);
        assert(p.cell_fits(before[upto - 1], upto - 1, j - 1));
        assert(p.cell_fits(before[upto], upto, j - 1));
        assert(p.cell_fits(above[upto - 1], upto - 1, j));
        assert forall|i: int| 0 <= i <= p.m() implies p.cell_fits(#[trigger] filled[i], i, j) by {
            if i != upto {
                assert(p.cell_fits(above[i], i, j));
            }
        }
    }
}

/// After every column the state of the sweep is within bounds.
pub proof fn lemma_sweep_fits(p: Problem, j: int)
    requires
        p.conf_ok(),
        p.min_n() <= j <= p.n(),
    ensures
        p.column_fits(p.sweep(j).column, j),
        0 <= p.sweep(j).last <= p.m(),
        p.best_fits(p.sweep(j).best),
        p.trace_fits(p.sweep(j).trace),
    decreases j - p.min_n(),
{
    if j <= p.min_n() {
        lemma_boundary_fits(p);
        assert(p.trace_fits(p.start().trace));
    } else {
        lemma_sweep_fits(p, j - 1);
        let before = p.sweep(j - 1);
        if before.stopped {
            lemma_column_fits_later(p, before.column, j - 1, j);
        } else {
            lemma_advance_fits(p, before, j);
        }
    }
}

/// One column more keeps the state within bounds.
proof fn lemma_advance_fits(p: Problem, s: Sweep, j: int)
    requires
        p.conf_ok(),
        1 <= j <= p.n(),
        p.column_fits(s.column, j - 1),
        0 <= s.last <= p.m(),
        p.best_fits(s.best),
        p.trace_fits(s.trace),
    ensures
        p.column_fits(p.advance(s, j).column, j),
        0 <= p.advance(s, j).last <= p.m(),
        p.best_fits(p.advance(s, j).best),
        p.trace_fits(p.advance(s, j).trace),
{
    let column = p.fill(s.column, j, s.last);
    lemma_fill_fits(p, s.column, j, s.last);
    lemma_shrink_range(column, s.last, p.k());
    let m = p.m() as int;
    assert(p.cell_fits(column[m], m, j));
    lemma_scaled_order(p.m() + j, (p.m() + p.n()) as int, p.indel());
    lemma_effective_bounds(p, column[m].origin, m);
    let length = aligned_length(column[m].origin, m);
    p.conf.max_error_rate.lemma_budget_grows_with_length(
        p.suffix_effective_length(length) as nat,
        length as nat,
    );
    let trace = record(s.trace, column, j, s.last);
    assert forall|i: int| 0 <= i <= p.m() implies (#[trigger] trace[i]).len() == p.n() + 1 by {
        assert(s.trace[i].len() == p.n() + 1);
    }
}

/// Looking through rows of the last column keeps the best alignment within
/// bounds.
proof fn lemma_final_search_fits(p: Problem, column: Seq<Cell>, best: Best, from: int, upto: int)
    requires
        p.conf_ok(),
        p.column_fits(column, p.n() as int),
        p.best_fits(best),
        0 <= from,
        upto <= p.m(),
    ensures
        p.best_fits(p.final_search(column, best, from, upto)),
    decreases upto - from + 1,
{
    if upto >= from {
        lemma_final_search_fits(p, column, best, from, upto - 1);
        assert(p.cell_fits(column[upto], upto, p.n() as int));
        lemma_effective_bounds(p, column[upto].origin, upto);
        let length = aligned_length(column[upto].origin, upto);
        p.conf.max_error_rate.lemma_budget_grows_with_length(
            p.window_effective_length(column[upto].origin, upto) as nat,
            length as nat,
        );
    }
}

/// Once the sweep has stopped on an exact match, later columns change
/// nothing.
pub proof fn lemma_stopped_stays(p: Problem, j: int, later: int)
    requires
        p.min_n() <= j <= later,
        p.sweep(j).stopped,
    ensures
        p.sweep(later) == p.sweep(j),
    decreases later - j,
{
    if j < later {
        lemma_stopped_stays(p, j, later - 1);
    }
}

/// Where the sweep stops, the best alignment is an exact match of the whole
/// reference.
pub proof fn lemma_stopped_exact(p: Problem, j: int)
    requires
        p.min_n() <= j,
        p.sweep(j).stopped,
    ensures
        p.sweep(j).best.cost == 0,
        p.sweep(j).best.matches == p.m(),
    decreases j - p.min_n(),
{
    if j > p.min_n() && p.sweep(j - 1).stopped {
        lemma_stopped_exact(p, j - 1);
    }
}

/// The columns that are computed lie within the query.
pub proof fn lemma_column_range(p: Problem)
    ensures
        p.min_n() <= p.n(),
        p.max_n() <= p.n(),
{
}

/// The best alignment of a search is within bounds.
pub proof fn lemma_best_fits(p: Problem)
    requires
        p.conf_ok(),
    ensures
        p.best_fits(p.best()),
{
    lemma_column_range(p);
    let top = p.max_n() as int;
    if top <= p.min_n() {
        assert(p.sweep(top) == p.start());
        lemma_boundary_fits(p);
        lemma_column_fits_later(p, p.start().column, p.min_n() as int, p.n() as int);
    } else {
        lemma_sweep_fits(p, top);
        lemma_column_fits_later(p, p.sweep(top).column, top, p.n() as int);
    }
    if p.max_n() == p.n() {
        lemma_final_search_fits(
            p,
            p.sweep(top).column,
            p.sweep(top).best,
            p.first_row(),
            p.m() as int,
        );
    }
}

/// An alignment that is reported is never empty in the reference, lies
/// within both sequences, and starts at the first position of the reference
/// or of the query. It covers at least the least overlap of the reference,
/// and has no more errors than the rate allows on what it covers.
pub proof fn lemma_located_window(p: Problem)
    requires
        p.conf_ok(),
    ensures
        p.locate() matches Some(a) ==> {
            &&& a.refstart < a.refstop <= p.m()
            &&& a.querystart <= a.querystop <= p.n()
            &&& (a.refstart == 0 || a.querystart == 0)
            &&& a.matches <= p.n()
            &&& a.refstop - a.refstart >= p.conf.min_overlap
            &&& a.errors <= p.conf.max_error_rate.budget((a.refstop - a.refstart) as nat)
        },
{
    lemma_best_fits(p);
}

} // verus!
