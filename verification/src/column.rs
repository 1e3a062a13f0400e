//! The one column of the matrix that an aligner keeps, and the steps of a
//! sweep over it.

use crate::align::{AlignerConf, DPMatrix};
use crate::bounds::{
    lemma_column_range,
    lemma_count_n_window,
    lemma_fill_fits,
    lemma_scaled_order,
    lemma_shrink_range,
    lemma_stopped_stays,
    lemma_sweep_fits,
};
use crate::dp::{aligned_length, count_n, record, shrink, Anchor, Best, Cell, Problem};
use vstd::prelude::*;

verus! {

/// Where an alignment path starts.
#[derive(Clone, Copy, Debug)]
pub enum Origin {
    /// So many positions into the query, at the first of the reference.
    QueryStart(usize),
    /// So many positions into the reference, at the first of the query.
    RefStart(usize),
}

impl View for Origin {
    type V = Anchor;

    open spec fn view(&self) -> Anchor {
        match *self {
            Origin::QueryStart(start) => Anchor::QueryStart(start as nat),
            Origin::RefStart(start) => Anchor::RefStart(start as nat),
        }
    }
}

/// An entry of the kept column.
#[derive(Clone, Copy, Debug)]
pub struct Entry {
    pub cost: usize,
    pub matches: usize,
    pub origin: Origin,
}

impl View for Entry {
    type V = Cell;

    open spec fn view(&self) -> Cell {
        Cell { cost: self.cost as nat, matches: self.matches as nat, origin: self.origin@ }
    }
}

/// The best alignment seen so far.
#[derive(Clone, Copy, Debug)]
pub struct Match {
    pub origin: Origin,
    pub cost: usize,
    pub matches: usize,
    pub ref_stop: usize,
    pub query_stop: usize,
}

impl View for Match {
    type V = Best;

    open spec fn view(&self) -> Best {
        Best {
            origin: self.origin@,
            cost: self.cost as nat,
            matches: self.matches as nat,
            ref_stop: self.ref_stop as nat,
            query_stop: self.query_stop as nat,
        }
    }
}

/// The cells that a column of entries stands for.
pub open spec fn cells(column: Seq<Entry>) -> Seq<Cell> {
    Seq::new(column.len(), |i: int| column[i]@)
}

/// Whether `n_counts` holds, for every prefix of `reference`, the number of
/// `N` in it.
pub open spec fn counts_n(n_counts: Seq<usize>, reference: Seq<u8>) -> bool {
    &&& n_counts.len() == reference.len() + 1
    &&& forall|i: int| 0 <= i <= reference.len() ==> #[trigger] n_counts[i] == count_n(reference, i)
}

/// Overwrites `column` with the column at which the sweep starts.
pub fn init_column(
    column: &mut Vec<Entry>,
    conf: &AlignerConf,
    min_n: usize,
    Ghost(p): Ghost<Problem>,
)
    requires
        old(column).len() == p.m() + 1,
        *conf == p.conf,
        min_n == p.min_n(),
        p.in_range(),
    ensures
        final(column).len() == old(column).len(),
        cells(final(column)@) == p.boundary_column(),
{
    let rows = column.len();
    let indel = conf.indel_cost;
    let ref_free = conf.reference_ends.start_local();
    let query_free = conf.query_ends.start_local();
    let mut i: usize = 0;
    while i < rows
        invariant
            i <= rows,
            rows == p.m() + 1,
            column.len() == rows,
            *conf == p.conf,
            indel == p.indel(),
            min_n == p.min_n(),
            ref_free == p.conf.reference_ends.start_local(),
            query_free == p.conf.query_ends.start_local(),
            p.in_range(),
            forall|r: int| 0 <= r < i ==> (#[trigger] column[r])@ == p.boundary_cell(r),
        decreases rows - i,
    {
        let low = if i < min_n {
            i
        } else {
            min_n
        };
        let high = if i < min_n {
            min_n
        } else {
            i
        };
        proof {
            lemma_scaled_order(high as int, (p.m() + p.n() + 1) as int, p.indel());
            lemma_scaled_order(low as int, high as int, p.indel());
            lemma_scaled_order(i as int, high as int, p.indel());
            lemma_scaled_order(min_n as int, high as int, p.indel());
        }
        let entry = if !ref_free && !query_free {
            Entry { cost: high * indel, matches: 0, origin: Origin::RefStart(0) }
        } else if !query_free {
            Entry { cost: min_n * indel, matches: 0, origin: Origin::RefStart(i - low) }
        } else if !ref_free {
            Entry { cost: i * indel, matches: 0, origin: Origin::QueryStart(min_n - low) }
        } else {
            Entry {
                cost: low * indel,
                matches: 0,
                origin: if min_n > i {
                    Origin::QueryStart(min_n - i)
                } else {
                    Origin::RefStart(i - min_n)
                },
            }
        };
        column[i] = entry;
        i += 1;
    }
    assert(cells(column@) =~= p.boundary_column());
}

/// Computes rows `0..=last` of column `j` over the kept column.
/// `query_mask` is the mask of the query position that the column stands
/// for.
pub fn fill_column(
    column: &mut Vec<Entry>,
    ref_masks: &Vec<u8>,
    query_mask: u8,
    j: usize,
    last: usize,
    conf: &AlignerConf,
    Ghost(p): Ghost<Problem>,
)
    requires
        p.conf_ok(),
        *conf == p.conf,
        ref_masks@ == p.ref_masks(),
        1 <= j <= p.n(),
        query_mask == p.query_masks()[j - 1],
        last <= p.m(),
        p.column_fits(cells(old(column)@), j - 1),
        p.in_range(),
    ensures
        final(column).len() == old(column).len(),
        cells(final(column)@) == p.fill(cells(old(column)@), j as int, last as int),
{
    let ghost before = cells(column@);
    let indel = conf.indel_cost;
    let mut diag = column[0];
    proof {
        assert(p.cell_fits(before[0], 0, j - 1));
        lemma_scaled_order(j as int, (p.m() + p.n() + 1) as int, p.indel());
    }
    if conf.query_ends.start_local() {
        column[0] = Entry { cost: diag.cost, matches: diag.matches, origin: Origin::QueryStart(j) };
    } else {
        column[0] = Entry { cost: j * indel, matches: diag.matches, origin: diag.origin };
    }
    assert(cells(column@) =~= p.fill(before, j as int, 0));
    let mut i: usize = 0;
    while i < last
        invariant
            i <= last <= p.m(),
            column.len() == p.m() + 1,
            before.len() == p.m() + 1,
            p.conf_ok(),
            *conf == p.conf,
            indel == p.indel(),
            ref_masks@ == p.ref_masks(),
            1 <= j <= p.n(),
            query_mask == p.query_masks()[j - 1],
            p.column_fits(before, j - 1),
            p.in_range(),
            cells(column@) == p.fill(before, j as int, i as int),
            diag@ == before[i as int],
        decreases last - i,
    {
        proof {
            lemma_fill_fits(p, before, j as int, i as int);
            let now = cells(column@);
            assert(p.cell_fits(before[i as int], i as int, j - 1));
            assert(p.cell_fits(before[i + 1], i + 1, j - 1));
            assert(now[i + 1] == before[i + 1]);
            assert(p.cell_fits(now[i as int], i as int, j as int));
            lemma_scaled_order(p.m() + j - 1, (p.m() + p.n()) as int, p.indel());
            lemma_scaled_order(p.m() + j, (p.m() + p.n()) as int, p.indel());
            lemma_scaled_order(0, (p.m() + p.n()) as int, p.indel());
        }
        let left = column[i + 1];
        let up = column[i];
        let equal = (ref_masks[i] & query_mask) != 0;
        let entry = if equal {
            Entry { cost: diag.cost, matches: diag.matches + 1, origin: diag.origin }
        } else {
            let substitution = diag.cost + 1;
            let deletion = left.cost + indel;
            let insertion = up.cost + indel;
            if substitution <= deletion && substitution <= insertion {
                Entry { cost: substitution, matches: diag.matches, origin: diag.origin }
            } else if insertion < deletion {
                Entry { cost: insertion, matches: up.matches, origin: up.origin }
            } else {
                Entry { cost: deletion, matches: left.matches, origin: left.origin }
            }
        };
        diag = left;
        column[i + 1] = entry;
        i += 1;
        assert(cells(column@) =~= p.fill(before, j as int, i as int));
    }
}

/// One more than the largest row not above `last` whose cost is at most
/// `k`; 0 where there is none.
pub fn shrink_band(column: &Vec<Entry>, last: usize, k: usize) -> (next: usize)
    requires
        last < column.len(),
    ensures
        next == shrink(cells(column@), last as int, k as nat) + 1,
{
    let mut next: usize = last + 1;
    while next > 0 && column[next - 1].cost > k
        invariant
            next <= last + 1,
            last < column.len(),
            shrink(cells(column@), last as int, k as nat) == shrink(
                cells(column@),
                next - 1,
                k as nat,
            ),
        decreases next,
    {
        next -= 1;
    }
    next
}

/// The length of reference that a path from `origin` covers when it ends
/// before reference position `stop`.
pub fn covered(origin: Origin, stop: usize) -> (length: usize)
    requires
        origin matches Origin::RefStart(start) ==> start <= stop,
    ensures
        length == aligned_length(origin@, stop as int),
{
    match origin {
        Origin::QueryStart(_) => stop,
        Origin::RefStart(start) => stop - start,
    }
}

/// Whether the path in `entry` replaces `best`.
pub fn accepts(
    entry: &Entry,
    length: usize,
    effective: usize,
    best: &Match,
    conf: &AlignerConf,
    Ghost(p): Ghost<Problem>,
) -> (accepted: bool)
    requires
        *conf == p.conf,
    ensures
        accepted == p.accepts(entry@, length as int, effective as int, best@),
{
    length >= conf.min_overlap && entry.cost <= conf.max_error_rate.max_errors(effective)
        && (entry.matches > best.matches || (entry.matches == best.matches && entry.cost
        < best.cost))
}

/// The effective length of an alignment found while sweeping.
pub fn suffix_effective(
    length: usize,
    n_counts: &Vec<usize>,
    whole: usize,
    conf: &AlignerConf,
    Ghost(p): Ghost<Problem>,
) -> (effective: usize)
    requires
        *conf == p.conf,
        counts_n(n_counts@, p.reference),
        whole == p.effective_length(),
        length <= p.m(),
    ensures
        effective == p.suffix_effective_length(length as int),
{
    if conf.matching.ref_wildcard() {
        if length < n_counts.len() - 1 {
            proof {
                lemma_count_n_window(p.reference, 0, length as int);
            }
            length - n_counts[length]
        } else {
            whole
        }
    } else {
        length
    }
}

/// The effective length of the alignment that ends in row `stop` of the last
/// column.
pub fn window_effective(
    origin: Origin,
    stop: usize,
    n_counts: &Vec<usize>,
    whole: usize,
    conf: &AlignerConf,
    Ghost(p): Ghost<Problem>,
) -> (effective: usize)
    requires
        *conf == p.conf,
        counts_n(n_counts@, p.reference),
        whole == p.effective_length(),
        stop <= p.m(),
        origin matches Origin::RefStart(start) ==> start <= stop,
    ensures
        effective == p.window_effective_length(origin@, stop as int),
        effective <= aligned_length(origin@, stop as int),
        effective <= p.effective_length(),
{
    let length = covered(origin, stop);
    proof {
        lemma_count_n_window(p.reference, 0, p.m() as int);
    }
    if conf.matching.ref_wildcard() {
        if length < n_counts.len() - 1 {
            let start = match origin {
                Origin::QueryStart(_) => 0,
                Origin::RefStart(start) => start,
            };
            proof {
                lemma_count_n_window(p.reference, start as int, stop as int);
                lemma_count_n_window(p.reference, 0, start as int);
                lemma_count_n_window(p.reference, stop as int, p.m() as int);
            }
            length - (n_counts[stop] - n_counts[start])
        } else {
            whole
        }
    } else {
        length
    }
}

/// Enters the costs of rows `0..=last` of the kept column into column `j` of
/// the matrix.
pub fn record_column(matrix: &mut DPMatrix, column: &Vec<Entry>, j: usize, last: usize)
    requires
        last < column.len(),
        column.len() == old(matrix).costs().len(),
        forall|i: int| 0 <= i < column.len() ==> j < (#[trigger] old(matrix).costs()[i]).len(),
    ensures
        final(matrix).costs() == record(
            old(matrix).costs(),
            cells(column@),
            j as int,
            last as int,
        ),
        final(matrix).reference() == old(matrix).reference(),
        final(matrix).query() == old(matrix).query(),
{
    let ghost before = matrix.costs();
    let mut i: usize = 0;
    while i <= last
        invariant
            i <= last + 1,
            last < column.len(),
            column.len() == before.len(),
            forall|r: int| 0 <= r < column.len() ==> j < (#[trigger] before[r]).len(),
            matrix.costs().len() == before.len(),
            forall|r: int|
                0 <= r < before.len() ==> (#[trigger] matrix.costs()[r]) == (if r < i {
                    before[r].update(j as int, Some(cells(column@)[r].cost))
                } else {
                    before[r]
                }),
            matrix.reference() == old(matrix).reference(),
            matrix.query() == old(matrix).query(),
        decreases last + 1 - i,
    {
        assert(matrix.costs()[i as int] == before[i as int]);
        matrix.set_entry(i, j, column[i].cost);
        i += 1;
    }
    assert(matrix.costs() =~= record(before, cells(column@), j as int, last as int));
}

/// Sweeps the columns after the boundary up to the last one, or up to an
/// exact match of the whole reference, and returns the best alignment that
/// ends with the reference.
pub fn sweep_columns(
    column: &mut Vec<Entry>,
    matrix: &mut Option<DPMatrix>,
    ref_masks: &Vec<u8>,
    query_masks: &Vec<u8>,
    n_counts: &Vec<usize>,
    whole: usize,
    conf: &AlignerConf,
    k: usize,
    min_n: usize,
    max_n: usize,
    Ghost(p): Ghost<Problem>,
) -> (best: Match)
    requires
        p.conf_ok(),
        *conf == p.conf,
        p.in_range(),
        ref_masks@ == p.ref_masks(),
        query_masks@ == p.query_masks(),
        counts_n(n_counts@, p.reference),
        whole == p.effective_length(),
        k == p.k(),
        min_n == p.min_n(),
        max_n == p.max_n(),
        cells(old(column)@) == p.boundary_column(),
        *old(matrix) matches Some(kept) ==> kept.costs() == p.start().trace,
    ensures
        final(column).len() == old(column).len(),
        cells(final(column)@) == p.sweep(p.max_n() as int).column,
        best@ == p.sweep(p.max_n() as int).best,
        (*final(matrix) is Some) == (*old(matrix) is Some),
        *final(matrix) matches Some(kept) ==> {
            &&& kept.costs() == p.sweep(p.max_n() as int).trace
            &&& *old(matrix) matches Some(given) && kept.reference() == given.reference()
                && kept.query() == given.query()
        },
{
    let m = ref_masks.len();
    let n = query_masks.len();
    let stop_free = conf.query_ends.stop_local();
    proof {
        lemma_column_range(p);
        lemma_scaled_order(1, 1, p.indel());
        assert(m + n + 1 <= usize::MAX) by (nonlinear_arith)
            requires
                (m + n + 1) * p.indel() <= usize::MAX,
                p.indel() >= 1,
        ;
    }
    let mut best = Match {
        origin: Origin::RefStart(0),
        cost: m + n,
        matches: 0,
        ref_stop: m,
        query_stop: n,
    };
    // The last row whose cost can still be within the budget.
    let mut last = if conf.reference_ends.start_local() || m == 0 || m - 1 <= k {
        m
    } else {
        k + 1
    };
    let mut j = min_n;
    let mut stopped = false;
    assert(column.len() == cells(column@).len());
    while j < max_n && !stopped
        invariant
            p.conf_ok(),
            *conf == p.conf,
            p.in_range(),
            ref_masks@ == p.ref_masks(),
            query_masks@ == p.query_masks(),
            counts_n(n_counts@, p.reference),
            whole == p.effective_length(),
            k == p.k(),
            min_n == p.min_n(),
            max_n == p.max_n(),
            m == p.m(),
            n == p.n(),
            stop_free == p.conf.query_ends.stop_local(),
            min_n <= j <= n,
            j <= max_n || j == min_n,
            column.len() == m + 1,
            cells(column@) == p.sweep(j as int).column,
            last == p.sweep(j as int).last,
            best@ == p.sweep(j as int).best,
            stopped == p.sweep(j as int).stopped,
            (*matrix is Some) == (*old(matrix) is Some),
            *matrix matches Some(kept) ==> {
                &&& kept.costs() == p.sweep(j as int).trace
                &&& *old(matrix) matches Some(given) && kept.reference() == given.reference()
                    && kept.query() == given.query()
            },
        decreases max_n - j,
    {
        let ghost before = p.sweep(j as int);
        proof {
            lemma_sweep_fits(p, j as int);
        }
        j += 1;
        fill_column(column, ref_masks, query_masks[j - 1], j, last, conf, Ghost(p));
        if let Some(kept) = matrix.as_mut() {
            proof {
                assert forall|i: int| 0 <= i < column.len() implies j < (#[trigger] kept.costs()[
                    i
                ]).len() by {
                    assert(before.trace[i].len() == n + 1);
                }
            }
            record_column(kept, column, j, last);
        }
        let next = shrink_band(column, last, k);
        proof {
            lemma_shrink_range(cells(column@), last as int, k as nat);
            lemma_fill_fits(p, before.column, j as int, last as int);
            assert(p.cell_fits(cells(column@)[m as int], m as int, j as int));
        }
        if next <= m {
            last = next;
        } else if stop_free {
            let entry = column[m];
            let length = covered(entry.origin, m);
            let effective = suffix_effective(length, n_counts, whole, conf, Ghost(p));
            if accepts(&entry, length, effective, &best, conf, Ghost(p)) {
                best = Match {
                    origin: entry.origin,
                    cost: entry.cost,
                    matches: entry.matches,
                    ref_stop: m,
                    query_stop: j,
                };
                if entry.cost == 0 && entry.matches == m {
                    // An exact match of the whole reference: nothing later
                    // can be better.
                    stopped = true;
                }
            }
        }
        assert(p.sweep(j as int) == p.advance(before, j as int));
    }
    proof {
        if stopped {
            if j < max_n {
                lemma_stopped_stays(p, j as int, max_n as int);
            }
        }
    }
    best
}

/// Looks through rows `first..=m` of the last column for alignments that
/// end with the query, and returns the best alignment.
pub fn search_last_column(
    column: &Vec<Entry>,
    best: Match,
    n_counts: &Vec<usize>,
    whole: usize,
    conf: &AlignerConf,
    first: usize,
    n: usize,
    Ghost(p): Ghost<Problem>,
) -> (found: Match)
    requires
        p.conf_ok(),
        *conf == p.conf,
        counts_n(n_counts@, p.reference),
        whole == p.effective_length(),
        p.column_fits(cells(column@), p.n() as int),
        first == p.first_row(),
        n == p.n(),
    ensures
        found@ == p.final_search(cells(column@), best@, first as int, p.m() as int),
{
    let m = column.len() - 1;
    let mut found = best;
    let mut i = first;
    while i <= m
        invariant
            first <= i <= m + 1,
            m + 1 == column.len(),
            m == p.m(),
            n == p.n(),
            *conf == p.conf,
            counts_n(n_counts@, p.reference),
            whole == p.effective_length(),
            p.column_fits(cells(column@), p.n() as int),
            found@ == p.final_search(cells(column@), best@, first as int, i - 1),
        decreases m + 1 - i,
    {
        let entry = column[i];
        let ghost so_far = found@;
        proof {
            assert(p.cell_fits(cells(column@)[i as int], i as int, p.n() as int));
            assert(cells(column@)[i as int] == entry@);
            assert(p.final_search(cells(column@), best@, first as int, i as int) == p.consider_row(
                cells(column@),
                so_far,
                i as int,
            ));
        }
        let length = covered(entry.origin, i);
        let effective = window_effective(entry.origin, i, n_counts, whole, conf, Ghost(p));
        if accepts(&entry, length, effective, &found, conf, Ghost(p)) {
            found = Match {
                origin: entry.origin,
                cost: entry.cost,
                matches: entry.matches,
                ref_stop: i,
                query_stop: n,
            };
        }
        i += 1;
    }
    found
}

} // verus!
