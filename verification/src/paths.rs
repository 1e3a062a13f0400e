//! Alignments as paths through the matrix.
//!
//! A path goes from cell to cell by steps. Each step takes a position of
//! the reference, of the query, or of both; a step that takes one of both
//! is a match or a mismatch. What the aligner reports is always such a path:
//! one that leads from the start of the reported window to its end, with as
//! many matches as reported and at the reported cost.

use crate::accept::lemma_last_column_fits;
use crate::band::{lemma_advance_tracks, lemma_sweep_tracks, tracks_cell};
use crate::bounds::{
    lemma_column_range,
    lemma_effective_bounds,
    lemma_shrink_range,
    lemma_stopped_exact,
    lemma_sweep_fits,
};
use crate::dp::{aligned_length, query_start, ref_start, shrink, Anchor, Best, Cell, Problem};
use crate::full::{lemma_fill_cells, lemma_full_level, lemma_full_steady};
use vstd::prelude::*;

verus! {

/// One step of an alignment.
pub enum Step {
    /// A position of the reference against a position of the query that it
    /// matches.
    Match,
    /// A position of the reference against a position of the query that it
    /// does not match.
    Mismatch,
    /// A position of the reference against nothing.
    SkipReference,
    /// A position of the query against nothing.
    SkipQuery,
}

/// The number of matches among `steps`.
pub open spec fn path_matches(steps: Seq<Step>) -> nat
    decreases steps.len(),
{
    if steps.len() == 0 {
        0
    } else {
        path_matches(steps.drop_last()) + if steps.last() is Match {
            1nat
        } else {
            0nat
        }
    }
}

impl Problem {
    /// The errors that a step counts for.
    pub open spec fn step_cost(self, step: Step) -> nat {
        match step {
            Step::Match => 0,
            Step::Mismatch => 1,
            Step::SkipReference => self.indel(),
            Step::SkipQuery => self.indel(),
        }
    }

    /// The errors that `steps` count for.
    pub open spec fn path_cost(self, steps: Seq<Step>) -> nat
        decreases steps.len(),
    {
        if steps.len() == 0 {
            0
        } else {
            self.path_cost(steps.drop_last()) + self.step_cost(steps.last())
        }
    }

    /// Whether `steps` lead from the cell of the prefixes of lengths
    /// `(from_ref, from_query)` to that of the prefixes of lengths `(i, j)`:
    /// every step takes the next position of the sequences that it is about,
    /// and is a match exactly where the two positions match.
    pub open spec fn leads(
        self,
        steps: Seq<Step>,
        from_ref: int,
        from_query: int,
        i: int,
        j: int,
    ) -> bool
        decreases steps.len(),
    {
        if steps.len() == 0 {
            i == from_ref && j == from_query && 0 <= i <= self.m() && 0 <= j <= self.n()
        } else {
            let before = steps.drop_last();
            match steps.last() {
                Step::Match => {
                    &&& 1 <= i <= self.m()
                    &&& 1 <= j <= self.n()
                    &&& self.matches_at(i, j)
                    &&& self.leads(before, from_ref, from_query, i - 1, j - 1)
                },
                Step::Mismatch => {
                    &&& 1 <= i <= self.m()
                    &&& 1 <= j <= self.n()
                    &&& !self.matches_at(i, j)
                    &&& self.leads(before, from_ref, from_query, i - 1, j - 1)
                },
                Step::SkipReference => {
                    &&& 1 <= i <= self.m()
                    &&& 0 <= j <= self.n()
                    &&& self.leads(before, from_ref, from_query, i - 1, j)
                },
                Step::SkipQuery => {
                    &&& 0 <= i <= self.m()
                    &&& 1 <= j <= self.n()
                    &&& self.leads(before, from_ref, from_query, i, j - 1)
                },
            }
        }
    }

    /// Whether `cell`, in row `i` of column `j`, is what `steps` amount to:
    /// they lead there from where the cell's path starts, with the cell's
    /// matches and at its cost.
    pub open spec fn realizes(self, steps: Seq<Step>, cell: Cell, i: int, j: int) -> bool {
        &&& self.leads(
            steps,
            ref_start(cell.origin) as int,
            query_start(cell.origin) as int,
            i,
            j,
        )
        &&& self.path_cost(steps) == cell.cost
        &&& path_matches(steps) == cell.matches
    }

    /// The least cost of the steps along the query alone that a path from
    /// row `i` of column `j` still needs to reach the last column.
    pub open spec fn slack(self, i: int, j: int) -> int {
        if (self.n() - j) - (self.m() - i) > 0 {
            ((self.n() - j) - (self.m() - i)) * self.indel()
        } else {
            0
        }
    }

    /// Whether no path through `cell`, in row `i` of column `j` of a sweep
    /// that starts late, reaches the last column within the budget.
    pub open spec fn out_of_budget(self, cell: Cell, i: int, j: int) -> bool {
        self.min_n() > 0 && cell.cost + self.slack(i, j) > self.k()
    }

    /// Whether `best` was taken in column `j` of the sweep: it is the path
    /// in the last row there, which was accepted.
    pub open spec fn taken_at_column(self, best: Best, j: int) -> bool {
        let s = self.sweep(j - 1);
        let column = self.fill(s.column, j, s.last);
        let m = self.m() as int;
        let length = aligned_length(column[m].origin, m);
        &&& self.min_n() < j <= self.max_n()
        &&& !s.stopped
        &&& self.conf.query_ends.stop_local()
        &&& shrink(column, s.last, self.k()) == m
        &&& column[m].cost <= self.conf.max_error_rate.budget(
            self.suffix_effective_length(length) as nat,
        )
        &&& best == (Best {
            origin: column[m].origin,
            cost: column[m].cost,
            matches: column[m].matches,
            ref_stop: self.m(),
            query_stop: j as nat,
        })
    }

    /// Whether `best` was taken in row `i` of the last column, which the
    /// sweep has reached: it is the path there, which was accepted.
    pub open spec fn taken_at_row(self, best: Best, i: int) -> bool {
        let s = self.sweep(self.max_n() as int);
        &&& self.max_n() == self.n()
        &&& !s.stopped
        &&& self.first_row() <= i <= self.m()
        &&& s.column[i].cost <= self.conf.max_error_rate.budget(
            self.window_effective_length(s.column[i].origin, i) as nat,
        )
        &&& best == (Best {
            origin: s.column[i].origin,
            cost: s.column[i].cost,
            matches: s.column[i].matches,
            ref_stop: i as nat,
            query_stop: self.n(),
        })
    }
}

/// A path with one step more costs the cost of that step more, and has a
/// match more where the step is one.
proof fn lemma_push(p: Problem, steps: Seq<Step>, step: Step)
    ensures
        p.path_cost(steps.push(step)) == p.path_cost(steps) + p.step_cost(step),
        path_matches(steps.push(step)) == path_matches(steps) + if step is Match {
            1nat
        } else {
            0nat
        },
        steps.push(step).drop_last() == steps,
        steps.push(step).last() == step,
{
    assert(steps.push(step).drop_last() =~= steps);
}

/// The path of `count` steps along the query alone, from the first cell.
proof fn lemma_skips_query(p: Problem, count: int) -> (steps: Seq<Step>)
    requires
        0 <= count <= p.n(),
    ensures
        p.leads(steps, 0, 0, 0, count),
        p.path_cost(steps) == count * p.indel(),
        path_matches(steps) == 0,
    decreases count,
{
    if count == 0 {
        assert(0 * p.indel() == 0) by (nonlinear_arith);
        Seq::empty()
    } else {
        let before = lemma_skips_query(p, count - 1);
        lemma_push(p, before, Step::SkipQuery);
        assert(count * p.indel() == (count - 1) * p.indel() + p.indel()) by (nonlinear_arith);
        before.push(Step::SkipQuery)
    }
}

/// The path of `count` steps along the reference alone, from the first
/// cell.
proof fn lemma_skips_reference(p: Problem, count: int) -> (steps: Seq<Step>)
    requires
        0 <= count <= p.m(),
    ensures
        p.leads(steps, 0, 0, count, 0),
        p.path_cost(steps) == count * p.indel(),
        path_matches(steps) == 0,
    decreases count,
{
    if count == 0 {
        assert(0 * p.indel() == 0) by (nonlinear_arith);
        Seq::empty()
    } else {
        let before = lemma_skips_reference(p, count - 1);
        lemma_push(p, before, Step::SkipReference);
        assert(count * p.indel() == (count - 1) * p.indel() + p.indel()) by (nonlinear_arith);
        before.push(Step::SkipReference)
    }
}

/// The row and the column of the cell from which `step` leads to row `i` of
/// column `j`.
pub open spec fn step_from(step: Step, i: int, j: int) -> (int, int) {
    match step {
        Step::Match => (i - 1, j - 1),
        Step::Mismatch => (i - 1, j - 1),
        Step::SkipReference => (i - 1, j),
        Step::SkipQuery => (i, j - 1),
    }
}

/// A path to a cell, and one step more, is a path to the cell that the step
/// leads to, where that cell has the origin of the first, its cost and the
/// cost of the step, and its matches and the step where it is one. And
/// where the last column is out of reach from the first cell, it is out of
/// reach from the second.
proof fn lemma_extend(
    p: Problem,
    path: Seq<Step>,
    step: Step,
    before: Cell,
    cell: Cell,
    i: int,
    j: int,
)
    requires
        p.conf_ok(),
        1 <= i <= p.m() || (step is SkipQuery && 0 <= i <= p.m()),
        1 <= j <= p.n() || (step is SkipReference && 0 <= j <= p.n()),
        step is Match ==> p.matches_at(i, j),
        step is Mismatch ==> !p.matches_at(i, j),
        cell.origin == before.origin,
        cell.cost == before.cost + p.step_cost(step),
        cell.matches == before.matches + if step is Match {
            1nat
        } else {
            0nat
        },
        p.realizes(path, before, step_from(step, i, j).0, step_from(step, i, j).1)
            || p.out_of_budget(before, step_from(step, i, j).0, step_from(step, i, j).1),
    ensures
        p.realizes(path.push(step), cell, i, j) || p.out_of_budget(cell, i, j),
{
    let c = p.indel();
    let room = (p.n() - j) - (p.m() - i);
    lemma_push(p, path, step);
    assert((room + 1) * c == room * c + c) by (nonlinear_arith);
    assert((room - 1) * c == room * c - c) by (nonlinear_arith);
    assert(0 * c == 0) by (nonlinear_arith);
    assert(1 * c == c) by (nonlinear_arith);
}

/// The first row of the full matrix: under a query with a free start its
/// cells stand for paths that start there; under one without, for paths
/// from the first cell along the query.
proof fn lemma_full_head(p: Problem, j: int)
    requires
        p.min_n() <= j <= p.n(),
    ensures
        p.full_column(j).len() == p.m() + 1,
        p.full_column(j)[0].matches == 0,
        p.conf.query_ends.start_local() ==> p.full_column(j)[0].cost == 0 && query_start(
            p.full_column(j)[0].origin,
        ) == j && ref_start(p.full_column(j)[0].origin) == 0,
        !p.conf.query_ends.start_local() ==> p.full_column(j)[0].cost == j * p.indel()
            && p.full_column(j)[0].origin == Anchor::RefStart(0),
    decreases j - p.min_n(),
{
    assert(0 * p.indel() == 0) by (nonlinear_arith);
    if j > p.min_n() {
        lemma_full_head(p, j - 1);
        lemma_fill_cells(p, p.full_column(j - 1), j, p.m() as int);
    }
}

/// Every cell of the full matrix is what some path amounts to, unless the
/// sweep starts late and no path through the cell reaches the last column
/// within the budget. The path is returned.
proof fn lemma_full_path(p: Problem, i: int, j: int) -> (steps: Seq<Step>)
    requires
        p.conf_ok(),
        p.min_n() <= j <= p.n(),
        0 <= i <= p.m(),
    ensures
        p.realizes(steps, p.full_column(j)[i], i, j) || p.out_of_budget(
            p.full_column(j)[i],
            i,
            j,
        ),
    decreases j - p.min_n(), i,
{
    let c = p.indel();
    let cell = p.full_column(j)[i];
    lemma_full_head(p, j);
    if i == 0 {
        if p.conf.query_ends.start_local() {
            Seq::empty()
        } else {
            lemma_skips_query(p, j)
        }
    } else if j <= p.min_n() {
        let min_n = p.min_n() as int;
        if min_n > 0 {
            // The sweep starts late: from here the last column is out of
            // reach.
            assert(((p.n() - min_n) - (p.m() - i)) * c >= (p.n() - min_n) - (p.m() - i))
                by (nonlinear_arith)
                requires
                    (p.n() - min_n) - (p.m() - i) >= 0,
                    c >= 1,
            ;
            Seq::empty()
        } else if p.conf.reference_ends.start_local() {
            assert(0 * c == 0) by (nonlinear_arith);
            Seq::empty()
        } else {
            lemma_skips_reference(p, i)
        }
    } else {
        let before = p.full_column(j - 1);
        lemma_full_head(p, j - 1);
        lemma_fill_cells(p, before, j, p.m() as int);
        let diag = before[i - 1];
        let left = before[i];
        let up = p.full_column(j)[i - 1];
        if p.matches_at(i, j) {
            let path = lemma_full_path(p, i - 1, j - 1);
            lemma_extend(p, path, Step::Match, diag, cell, i, j);
            path.push(Step::Match)
        } else if diag.cost + 1 <= left.cost + c && diag.cost + 1 <= up.cost + c {
            let path = lemma_full_path(p, i - 1, j - 1);
            lemma_extend(p, path, Step::Mismatch, diag, cell, i, j);
            path.push(Step::Mismatch)
        } else if up.cost + c < left.cost + c {
            let path = lemma_full_path(p, i - 1, j);
            lemma_extend(p, path, Step::SkipReference, up, cell, i, j);
            path.push(Step::SkipReference)
        } else {
            let path = lemma_full_path(p, i, j - 1);
            lemma_extend(p, path, Step::SkipQuery, left, cell, i, j);
            path.push(Step::SkipQuery)
        }
    }
}

impl Problem {
    /// Whether an alignment may start at the cell of the prefixes of lengths
    /// `(from_ref, from_query)`: at the first position of both sequences, or
    /// further on in one that has a free start.
    pub open spec fn may_start(self, from_ref: int, from_query: int) -> bool {
        ||| from_ref == 0 && from_query == 0
        ||| from_query == 0 && self.conf.reference_ends.start_local()
        ||| from_ref == 0 && self.conf.query_ends.start_local()
    }
}

/// Where the sweep starts at the first column, no path to a cell from where
/// an alignment may start costs less than the cell says: the costs of the
/// full matrix are the least that any alignment of the two prefixes has.
pub proof fn lemma_cost_is_least(
    p: Problem,
    steps: Seq<Step>,
    from_ref: int,
    from_query: int,
    i: int,
    j: int,
)
    requires
        p.conf_ok(),
        p.min_n() == 0,
        p.may_start(from_ref, from_query),
        p.leads(steps, from_ref, from_query, i, j),
    ensures
        0 <= i <= p.m(),
        0 <= j <= p.n(),
        p.full_column(j)[i].cost <= p.path_cost(steps),
    decreases steps.len(),
{
    let c = p.indel();
    assert(0 * c == 0) by (nonlinear_arith);
    if steps.len() == 0 {
        lemma_full_head(p, j);
    } else {
        let before = steps.drop_last();
        match steps.last() {
            Step::Match => {
                lemma_cost_is_least(p, before, from_ref, from_query, i - 1, j - 1);
                lemma_full_head(p, j - 1);
                lemma_fill_cells(p, p.full_column(j - 1), j, p.m() as int);
            },
            Step::Mismatch => {
                lemma_cost_is_least(p, before, from_ref, from_query, i - 1, j - 1);
                lemma_full_head(p, j - 1);
                lemma_fill_cells(p, p.full_column(j - 1), j, p.m() as int);
            },
            Step::SkipReference => {
                lemma_cost_is_least(p, before, from_ref, from_query, i - 1, j);
                lemma_full_steady(p, j);
            },
            Step::SkipQuery => {
                lemma_cost_is_least(p, before, from_ref, from_query, i, j - 1);
                lemma_full_level(p, j);
            },
        }
    }
}

/// After every column the best alignment is what the search begins with, or
/// was taken in some column, which is returned.
proof fn lemma_sweep_taken(p: Problem, j: int) -> (at: int)
    requires
        p.conf_ok(),
        p.min_n() <= j <= p.max_n(),
        p.sweep(j).best != p.start().best,
    ensures
        p.taken_at_column(p.sweep(j).best, at),
    decreases j - p.min_n(),
{
    lemma_column_range(p);
    if j <= p.min_n() {
        j
    } else if p.sweep(j - 1).stopped || p.sweep(j).best == p.sweep(j - 1).best {
        lemma_sweep_taken(p, j - 1)
    } else {
        let s = p.sweep(j - 1);
        lemma_sweep_fits(p, j - 1);
        lemma_shrink_range(p.fill(s.column, j, s.last), s.last, p.k());
        j
    }
}

/// The search of the last column leaves the best alignment as it was, or
/// takes it from some row, which is returned; a row before the first says
/// that it left it.
proof fn lemma_final_search_taken(
    p: Problem,
    column: Seq<Cell>,
    best: Best,
    from: int,
    upto: int,
) -> (at: int)
    requires
        p.column_fits(column, p.n() as int),
        0 <= from,
        upto <= p.m(),
    ensures
        at < from ==> p.final_search(column, best, from, upto) == best,
        at >= from ==> {
            &&& at <= upto
            &&& column[at].cost <= p.conf.max_error_rate.budget(
                p.window_effective_length(column[at].origin, at) as nat,
            )
            &&& p.final_search(column, best, from, upto) == (Best {
                origin: column[at].origin,
                cost: column[at].cost,
                matches: column[at].matches,
                ref_stop: at as nat,
                query_stop: p.n(),
            })
        },
        best.cost == 0 && best.matches == p.m() ==> at < from,
    decreases upto - from + 1,
{
    if upto < from {
        from - 1
    } else {
        let earlier = lemma_final_search_taken(p, column, best, from, upto - 1);
        let before = p.final_search(column, best, from, upto - 1);
        let cell = column[upto];
        assert(p.cell_fits(cell, upto, p.n() as int));
        if p.accepts(
            cell,
            aligned_length(cell.origin, upto),
            p.window_effective_length(cell.origin, upto),
            before,
        ) {
            upto
        } else {
            earlier
        }
    }
}

/// The best alignment of a search is what the search begins with, or was
/// taken in a column of the sweep or in a row of the last column. Which,
/// and the column or row, is returned.
proof fn lemma_best_taken(p: Problem) -> (at: (bool, int))
    requires
        p.conf_ok(),
        p.best() != p.start().best,
    ensures
        at.0 ==> p.taken_at_column(p.best(), at.1),
        !at.0 ==> p.taken_at_row(p.best(), at.1),
{
    let top = p.max_n() as int;
    let s = p.sweep(top);
    lemma_column_range(p);
    lemma_last_column_fits(p);
    if p.max_n() == p.n() {
        if s.stopped {
            lemma_stopped_exact(p, if top <= p.min_n() {
                p.min_n() as int
            } else {
                top
            });
        }
        let row = lemma_final_search_taken(p, s.column, s.best, p.first_row(), p.m() as int);
        if row >= p.first_row() {
            (false, row)
        } else if top <= p.min_n() {
            (true, 0)
        } else {
            (true, lemma_sweep_taken(p, top))
        }
    } else if top <= p.min_n() {
        (true, 0)
    } else {
        (true, lemma_sweep_taken(p, top))
    }
}

/// What is reported is an alignment: some path leads from the start of the
/// reported window to its end, with as many matches as are reported and at
/// the cost that is reported as errors. The path is returned.
pub proof fn lemma_located_aligns(p: Problem) -> (steps: Seq<Step>)
    requires
        p.conf_ok(),
        p.locate() is Some,
    ensures
        p.locate() matches Some(a) && p.leads(
            steps,
            a.refstart as int,
            a.querystart as int,
            a.refstop as int,
            a.querystop as int,
        ) && p.path_cost(steps) == a.errors && path_matches(steps) == a.matches,
{
    let at = lemma_best_taken(p);
    let best = p.best();
    let m = p.m() as int;
    let n = p.n() as int;
    lemma_column_range(p);
    if at.0 {
        let j = at.1;
        let s = p.sweep(j - 1);
        lemma_sweep_tracks(p, j - 1);
        lemma_sweep_fits(p, j - 1);
        lemma_advance_tracks(p, s, j);
        let column = p.fill(s.column, j, s.last);
        lemma_shrink_range(column, s.last, p.k());
        assert(tracks_cell(column[m], p.full_column(j)[m], p.k()));
        lemma_full_path(p, m, j)
    } else {
        let i = at.1;
        let s = p.sweep(n);
        lemma_sweep_tracks(p, n);
        lemma_sweep_fits(p, n);
        let cell = s.column[i];
        assert(p.cell_fits(cell, i, n));
        lemma_effective_bounds(p, cell.origin, i);
        p.conf.max_error_rate.lemma_budget_grows_with_length(
            p.window_effective_length(cell.origin, i) as nat,
            p.m(),
        );
        assert(tracks_cell(cell, p.full_column(n)[i], p.k()));
        assert(0 * p.indel() == 0) by (nonlinear_arith);
        lemma_full_path(p, i, n)
    }
}

} // verus!
