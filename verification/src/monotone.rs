//! Raising the error rate loses no alignment, as long as the rate stays at
//! or below 1.

use crate::accept::{
    lemma_column_found_located,
    lemma_located_found,
    lemma_row_found_located,
    lemma_settled_located,
    lemma_settled_stays,
    lemma_sweep_settles,
};
use crate::band::{lemma_advance_tracks, lemma_sweep_tracks, tracks_cell};
use crate::bounds::{
    lemma_column_range,
    lemma_count_n_window,
    lemma_effective_bounds,
    lemma_shrink_range,
    lemma_sweep_fits,
};
use crate::dp::{aligned_length, Anchor, Problem};
use crate::rate::SIGNIFICAND_LIMIT;
use crate::starts::{
    lemma_earlier_start_dominates,
    lemma_full_reach,
    lemma_full_same,
    same_but_rate,
};
use vstd::prelude::*;

verus! {

/// Whether the rate of `raised` is that of `p` or a larger one, not above 1,
/// and nothing else differs; and whether the reference is of a length that a
/// binary64 number holds exactly.
pub open spec fn raises_rate(p: Problem, raised: Problem) -> bool {
    &&& same_but_rate(p, raised)
    &&& p.conf_ok()
    &&& p.conf.max_error_rate.at_most(raised.conf.max_error_rate)
    &&& raised.conf.max_error_rate.at_most_one()
    &&& p.m() < SIGNIFICAND_LIMIT
}

/// Under a raised rate the budgets are no smaller, the sweep starts no later
/// and ends no earlier, and under both rates no budget is above its length.
proof fn lemma_raised_budgets(p: Problem, raised: Problem)
    requires
        raises_rate(p, raised),
    ensures
        raised.conf_ok(),
        p.capped(),
        raised.capped(),
        p.k() <= raised.k() <= p.m(),
        raised.min_n() <= p.min_n(),
        p.max_n() <= raised.max_n(),
        p.max_n() == p.n() ==> raised.max_n() == p.n(),
        forall|length: nat|
            #[trigger] p.conf.max_error_rate.budget(length) <= raised.conf.max_error_rate.budget(
                length,
            ),
        forall|shorter: nat, longer: nat|
            shorter <= longer ==> #[trigger] p.conf.max_error_rate.budget(shorter)
                <= #[trigger] p.conf.max_error_rate.budget(longer),
{
    let low = p.conf.max_error_rate;
    let high = raised.conf.max_error_rate;
    assert forall|length: nat| #[trigger] low.budget(length) <= high.budget(length) by {
        low.lemma_budget_grows_with_rate(high, length);
    }
    assert forall|length: nat| length <= p.m() implies #[trigger] high.budget(length) <= length by {
        high.lemma_budget_within_length(length);
    }
    assert forall|length: nat| length <= p.m() implies #[trigger] low.budget(length) <= length by {
        assert(low.budget(length) <= high.budget(length));
    }
    assert forall|shorter: nat, longer: nat| shorter <= longer implies #[trigger] low.budget(
        shorter,
    ) <= #[trigger] low.budget(longer) by {
        low.lemma_budget_grows_with_length(shorter, longer);
    }
    assert(high.budget(p.m()) <= p.m());
}

/// Where the sweep has not stopped after a column, it had not stopped
/// before.
proof fn lemma_runs(p: Problem, j: int)
    requires
        p.min_n() <= j,
        !p.sweep(j).stopped,
    ensures
        p.runs_to(j),
{
}

/// The length that the error rate refers to is largest for a path that
/// starts with the reference.
proof fn lemma_window_grows(p: Problem, origin: Anchor, start: nat, stop: int)
    requires
        0 <= stop <= p.m(),
        origin matches Anchor::RefStart(from) ==> from <= stop,
    ensures
        p.window_effective_length(origin, stop) <= p.window_effective_length(
            Anchor::QueryStart(start),
            stop,
        ),
        aligned_length(origin, stop) <= stop,
{
    match origin {
        Anchor::RefStart(from) => {
            lemma_count_n_window(p.reference, 0, from as int);
            lemma_count_n_window(p.reference, from as int, stop);
            lemma_count_n_window(p.reference, 0, stop);
        },
        _ => {},
    }
}

/// A path that the sweep finds worth reporting in a column is found under
/// the raised rate too, unless an alignment is there already.
proof fn lemma_column_kept(p: Problem, raised: Problem, j: int)
    requires
        raises_rate(p, raised),
        p.found_at_column(j),
    ensures
        raised.locate() is Some,
{
    let q = raised;
    let m = p.m() as int;
    lemma_raised_budgets(p, q);
    lemma_column_range(p);
    lemma_column_range(q);
    let s = p.sweep(j - 1);
    lemma_runs(p, j - 1);
    lemma_sweep_tracks(p, j - 1);
    lemma_sweep_fits(p, j - 1);
    lemma_advance_tracks(p, s, j);
    let column = p.fill(s.column, j, s.last);
    let cell = column[m];
    lemma_shrink_range(column, s.last, p.k());
    assert(tracks_cell(cell, p.full_column(j)[m], p.k()));
    assert(cell == p.full_column(j)[m]);
    lemma_full_same(p, q, j);
    let t = q.sweep(j - 1);
    if t.stopped {
        lemma_sweep_settles(q, j - 1);
        lemma_settled_located(q, j - 1);
    } else {
        lemma_runs(q, j - 1);
        lemma_sweep_tracks(q, j - 1);
        lemma_sweep_fits(q, j - 1);
        lemma_advance_tracks(q, t, j);
        let other = q.fill(t.column, j, t.last);
        assert(tracks_cell(other[m], q.full_column(j)[m], q.k()));
        assert(other[m] == cell);
        let length = aligned_length(cell.origin, m);
        assert(q.suffix_effective_length(length) == p.suffix_effective_length(length));
        assert(q.start().best == p.start().best);
        assert(q.found_at_column(j));
        lemma_column_found_located(q, j);
    }
}

/// A path that the search of the last column finds worth reporting in a row,
/// the sweep having found none, gives an alignment under the raised rate
/// too.
proof fn lemma_row_kept(p: Problem, raised: Problem, i: int)
    requires
        raises_rate(p, raised),
        p.found_at_row(i),
        p.sweep(p.max_n() as int).best == p.start().best,
    ensures
        raised.locate() is Some,
{
    let q = raised;
    let n = p.n() as int;
    lemma_raised_budgets(p, q);
    lemma_column_range(p);
    lemma_column_range(q);
    // The sweep has not stopped, or it would have an alignment.
    if n > p.min_n() && p.sweep(n - 1).stopped {
        lemma_sweep_settles(p, n - 1);
        lemma_settled_stays(p, n - 1, n);
    }
    lemma_sweep_tracks(p, n);
    lemma_sweep_fits(p, n);
    let cell = p.sweep(n).column[i];
    assert(p.cell_fits(cell, i, n));
    lemma_effective_bounds(p, cell.origin, i);
    let length = aligned_length(cell.origin, i);
    let effective = p.window_effective_length(cell.origin, i);
    assert(p.conf.max_error_rate.budget(effective as nat) <= p.conf.max_error_rate.budget(p.m()));
    assert(tracks_cell(cell, p.full_column(n)[i], p.k()));
    assert(cell == p.full_column(n)[i]);
    assert(q.start().best == p.start().best);
    if n > q.min_n() && q.sweep(n - 1).stopped {
        lemma_sweep_settles(q, n - 1);
        lemma_settled_located(q, n - 1);
    } else {
        lemma_sweep_tracks(q, n);
        let other = q.sweep(n).column[i];
        assert(tracks_cell(other, q.full_column(n)[i], q.k()));
        if p.min_n() == q.min_n() {
            lemma_full_same(p, q, n);
            assert(other == cell);
            assert(q.window_effective_length(cell.origin, i) == effective);
            assert(p.conf.max_error_rate.budget(effective as nat)
                <= q.conf.max_error_rate.budget(effective as nat));
            assert(q.found_at_row(i));
        } else {
            // The sweep starts late under the lower rate only: the query
            // has a free start and no free stop, and is longer than the
            // reference and its budget.
            lemma_earlier_start_dominates(p, q, n);
            lemma_full_reach(q, n);
            let full = q.full_column(n)[i];
            assert(full.cost <= cell.cost);
            assert(q.anchored(full, i, n));
            match full.origin {
                Anchor::RefStart(start) => {
                    assert((n - i + start) * q.indel() >= n - i + start) by (nonlinear_arith)
                        requires
                            n - i + start >= 0,
                            q.indel() >= 1,
                    ;
                    assert(false);
                },
                Anchor::QueryStart(start) => {
                    lemma_window_grows(p, cell.origin, start, i);
                    let wider = q.window_effective_length(full.origin, i);
                    assert(wider == p.window_effective_length(full.origin, i));
                    lemma_effective_bounds(p, full.origin, i);
                    assert(p.conf.max_error_rate.budget(effective as nat)
                        <= p.conf.max_error_rate.budget(wider as nat));
                    assert(p.conf.max_error_rate.budget(wider as nat)
                        <= q.conf.max_error_rate.budget(wider as nat));
                },
            }
            assert(other == full);
            assert(q.found_at_row(i));
        }
        lemma_row_found_located(q, i);
    }
}

/// Raising the maximum error rate, up to 1, turns no reported alignment
/// into none: where an alignment is reported under a rate, one is reported
/// under every larger rate that is at most 1, everything else being the
/// same. The reference is of a length that a binary64 number holds exactly.
pub proof fn lemma_raising_rate_keeps_alignment(p: Problem, raised: Problem)
    requires
        raises_rate(p, raised),
        p.locate() is Some,
    ensures
        raised.locate() is Some,
{
    let at = lemma_located_found(p);
    if at.0 {
        lemma_column_kept(p, raised, at.1);
    } else {
        lemma_row_kept(p, raised, at.1);
    }
}

} // verus!
