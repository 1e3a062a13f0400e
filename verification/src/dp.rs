//! The banded sweep, as a function of the reference, the query and the
//! configuration.
//!
//! The dynamic-programming matrix has one row per prefix of the reference
//! and one column per prefix of the query. It is swept column by column;
//! only one column is kept, and of each column only the rows up to a band
//! limit are recomputed. Everything here is specification: it says what the
//! aligner returns, cell by cell.

use crate::align::AlignerConf;
use crate::encode::{acgt_masks, iupac_masks};
use vstd::prelude::*;

verus! {

/// Where an alignment path starts: so many positions into the query with the
/// reference taken from its first position, or the other way round.
pub enum Anchor {
    QueryStart(nat),
    RefStart(nat),
}

/// One cell of the matrix: the best path that ends there.
pub struct Cell {
    /// Errors along the path.
    pub cost: nat,
    /// Matching positions along the path.
    pub matches: nat,
    /// Where the path starts.
    pub origin: Anchor,
}

/// The best alignment seen so far.
pub struct Best {
    pub origin: Anchor,
    pub cost: nat,
    pub matches: nat,
    pub ref_stop: nat,
    pub query_stop: nat,
}

/// A reported alignment: `reference[refstart..refstop]` against
/// `query[querystart..querystop]`.
pub struct Alignment {
    pub refstart: nat,
    pub refstop: nat,
    pub querystart: nat,
    pub querystop: nat,
    pub matches: nat,
    pub errors: nat,
}

/// The state of a sweep after some column.
pub struct Sweep {
    /// The kept column: rows up to the band limit belong to the column just
    /// computed, rows beyond it to earlier ones.
    pub column: Seq<Cell>,
    /// The band limit for the next column.
    pub last: int,
    /// The best alignment found in the columns so far.
    pub best: Best,
    /// Whether an exact match of the whole reference ended the sweep.
    pub stopped: bool,
    /// The cost of every cell computed so far, by row and column.
    pub trace: Seq<Seq<Option<nat>>>,
}

/// What one call of the aligner works on.
pub struct Problem {
    pub conf: AlignerConf,
    pub reference: Seq<u8>,
    pub query: Seq<u8>,
}

/// Whether a byte of the reference is the wildcard `N`.
pub open spec fn is_n(nt: u8) -> bool {
    nt == 78 || nt == 110
}

/// The number of `N` among the first `upto` bytes of `reference`.
pub open spec fn count_n(reference: Seq<u8>, upto: int) -> nat
    decreases upto,
{
    if upto <= 0 {
        0
    } else {
        count_n(reference, upto - 1) + if is_n(reference[upto - 1]) {
            1nat
        } else {
            0nat
        }
    }
}

/// The cell below and to the right of `diag`, to the right of `left` and
/// below `up`, when the two characters that meet there are `equal` or not.
/// A match extends the diagonal path. Otherwise the cheapest of a
/// substitution, an insertion and a deletion is taken: the substitution where
/// it is no dearer than both others, else the insertion where it is cheaper
/// than the deletion.
pub open spec fn step_cell(indel: nat, equal: bool, diag: Cell, left: Cell, up: Cell) -> Cell {
    if equal {
        Cell { cost: diag.cost, matches: diag.matches + 1, origin: diag.origin }
    } else {
        let substitution = diag.cost + 1;
        let deletion = left.cost + indel;
        let insertion = up.cost + indel;
        if substitution <= deletion && substitution <= insertion {
            Cell { cost: substitution, matches: diag.matches, origin: diag.origin }
        } else if insertion < deletion {
            Cell { cost: insertion, matches: up.matches, origin: up.origin }
        } else {
            Cell { cost: deletion, matches: left.matches, origin: left.origin }
        }
    }
}

/// The largest row not above `last` whose cost is at most `k`, or -1.
pub open spec fn shrink(column: Seq<Cell>, last: int, k: nat) -> int
    decreases last + 1,
{
    if last >= 0 && column[last].cost > k {
        shrink(column, last - 1, k)
    } else {
        last
    }
}

/// The length of reference that a path from `origin` covers when it ends
/// before reference position `stop`.
pub open spec fn aligned_length(origin: Anchor, stop: int) -> int {
    match origin {
        Anchor::QueryStart(_) => stop,
        Anchor::RefStart(start) => stop - start,
    }
}

/// The reference position at which a path from `origin` starts.
pub open spec fn ref_start(origin: Anchor) -> nat {
    match origin {
        Anchor::QueryStart(_) => 0,
        Anchor::RefStart(start) => start,
    }
}

/// The query position at which a path from `origin` starts.
pub open spec fn query_start(origin: Anchor) -> nat {
    match origin {
        Anchor::QueryStart(start) => start,
        Anchor::RefStart(_) => 0,
    }
}

/// The trace with the costs of rows `0..=last` of `column` entered at column
/// `j`.
pub open spec fn record(trace: Seq<Seq<Option<nat>>>, column: Seq<Cell>, j: int, last: int) -> Seq<
    Seq<Option<nat>>,
> {
    Seq::new(
        trace.len(),
        |i: int|
            if i <= last {
                trace[i].update(j, Some(column[i].cost))
            } else {
                trace[i]
            },
    )
}

impl Problem {
    /// Length of the reference.
    pub open spec fn m(self) -> nat {
        self.reference.len()
    }

    /// Length of the query.
    pub open spec fn n(self) -> nat {
        self.query.len()
    }

    /// Cost of an insertion or deletion.
    pub open spec fn indel(self) -> nat {
        self.conf.indel_cost as nat
    }

    /// The reference as masks: IUPAC codes where the reference holds the
    /// wildcards, plain bases otherwise.
    pub open spec fn ref_masks(self) -> Seq<u8> {
        if self.conf.matching.ref_wildcard() {
            iupac_masks(self.reference)
        } else {
            acgt_masks(self.reference)
        }
    }

    /// The query as masks: IUPAC codes where the query holds the wildcards,
    /// plain bases otherwise.
    pub open spec fn query_masks(self) -> Seq<u8> {
        if self.conf.matching.query_wildcard() {
            iupac_masks(self.query)
        } else {
            acgt_masks(self.query)
        }
    }

    /// The length that error rates of whole-reference alignments refer to:
    /// where the reference holds the wildcards, its `N` do not count.
    pub open spec fn effective_length(self) -> int {
        if self.conf.matching.ref_wildcard() {
            self.m() - count_n(self.reference, self.m() as int)
        } else {
            self.m() as int
        }
    }

    /// The error budget of the band: what the rate allows on the whole
    /// reference.
    pub open spec fn k(self) -> nat {
        self.conf.max_error_rate.budget(self.m())
    }

    /// The last column that is computed.
    pub open spec fn max_n(self) -> nat {
        if self.conf.query_ends.start_local() || self.n() <= self.m() + self.k() {
            self.n()
        } else {
            self.m() + self.k()
        }
    }

    /// The column at which the sweep starts.
    pub open spec fn min_n(self) -> nat {
        if !self.conf.query_ends.stop_local() && self.n() > self.m() + self.k() {
            (self.n() - self.m() - self.k()) as nat
        } else {
            0
        }
    }

    /// Row `i` of the column at which the sweep starts.
    pub open spec fn boundary_cell(self, i: int) -> Cell {
        let min_n = self.min_n() as int;
        let low = if i < min_n {
            i
        } else {
            min_n
        };
        let high = if i < min_n {
            min_n
        } else {
            i
        };
        if !self.conf.reference_ends.start_local() && !self.conf.query_ends.start_local() {
            Cell { cost: (high * self.indel()) as nat, matches: 0, origin: Anchor::RefStart(0) }
        } else if !self.conf.query_ends.start_local() {
            Cell {
                cost: (min_n * self.indel()) as nat,
                matches: 0,
                origin: Anchor::RefStart((i - low) as nat),
            }
        } else if !self.conf.reference_ends.start_local() {
            Cell {
                cost: (i * self.indel()) as nat,
                matches: 0,
                origin: Anchor::QueryStart((min_n - low) as nat),
            }
        } else {
            Cell {
                cost: (low * self.indel()) as nat,
                matches: 0,
                origin: if min_n > i {
                    Anchor::QueryStart((min_n - i) as nat)
                } else {
                    Anchor::RefStart((i - min_n) as nat)
                },
            }
        }
    }

    /// The column at which the sweep starts.
    pub open spec fn boundary_column(self) -> Seq<Cell> {
        Seq::new(self.m() + 1, |i: int| self.boundary_cell(i))
    }

    /// The band limit of the first column after the boundary.
    pub open spec fn initial_band(self) -> int {
        if self.conf.reference_ends.start_local() || self.m() <= self.k() + 1 {
            self.m() as int
        } else {
            (self.k() + 1) as int
        }
    }

    /// Whether reference position `i - 1` and query position `j - 1`, which
    /// meet in cell `(i, j)`, match: whether their masks share a base.
    pub open spec fn matches_at(self, i: int, j: int) -> bool {
        self.ref_masks()[i - 1] & self.query_masks()[j - 1] != 0
    }

    /// Row 0 of column `j`, given row 0 of the column before.
    pub open spec fn head_cell(self, before: Cell, j: int) -> Cell {
        if self.conf.query_ends.start_local() {
            Cell {
                cost: before.cost,
                matches: before.matches,
                origin: Anchor::QueryStart(j as nat),
            }
        } else {
            Cell {
                cost: (j * self.indel()) as nat,
                matches: before.matches,
                origin: before.origin,
            }
        }
    }

    /// The kept column when rows `0..=upto` of column `j` have been computed
    /// over `before`.
    pub open spec fn fill(self, before: Seq<Cell>, j: int, upto: int) -> Seq<Cell>
        decreases upto,
    {
        if upto <= 0 {
            before.update(0, self.head_cell(before[0], j))
        } else {
            let above = self.fill(before, j, upto - 1);
            above.update(
                upto,
                step_cell(
                    self.indel(),
                    self.matches_at(upto, j),
                    before[upto - 1],
                    before[upto],
                    above[upto - 1],
                ),
            )
        }
    }

    /// The effective length of an alignment found while sweeping, which ends
    /// with the reference and covers `length` of it.
    pub open spec fn suffix_effective_length(self, length: int) -> int {
        if self.conf.matching.ref_wildcard() {
            if length < self.m() {
                length - count_n(self.reference, length)
            } else {
                self.effective_length()
            }
        } else {
            length
        }
    }

    /// The effective length of an alignment found in the last column, from
    /// `origin` to before reference position `stop`.
    pub open spec fn window_effective_length(self, origin: Anchor, stop: int) -> int {
        let length = aligned_length(origin, stop);
        if self.conf.matching.ref_wildcard() {
            if length < self.m() {
                length - (count_n(self.reference, stop) - count_n(
                    self.reference,
                    ref_start(origin) as int,
                ))
            } else {
                self.effective_length()
            }
        } else {
            length
        }
    }

    /// Whether the path in `cell`, which covers `length` of the reference,
    /// `effective` of it counted for the error rate, replaces `best`: it must
    /// be long enough and within the rate, and have more matches than `best`
    /// or as many with fewer errors.
    pub open spec fn accepts(self, cell: Cell, length: int, effective: int, best: Best) -> bool {
        &&& length >= self.conf.min_overlap
        &&& cell.cost <= self.conf.max_error_rate.budget(effective as nat)
        &&& (cell.matches > best.matches || (cell.matches == best.matches && cell.cost
            < best.cost))
    }

    /// The state before any column is computed.
    pub open spec fn start(self) -> Sweep {
        Sweep {
            column: self.boundary_column(),
            last: self.initial_band(),
            best: Best {
                origin: Anchor::RefStart(0),
                cost: self.m() + self.n(),
                matches: 0,
                ref_stop: self.m(),
                query_stop: self.n(),
            },
            stopped: false,
            trace: Seq::new(
                self.m() + 1,
                |i: int|
                    Seq::new(
                        self.n() + 1,
                        |j: int|
                            if j == self.min_n() {
                                Some(self.boundary_cell(i).cost)
                            } else {
                                None
                            },
                    ),
            ),
        }
    }

    /// The state after column `j`, given the state before it.
    pub open spec fn advance(self, s: Sweep, j: int) -> Sweep {
        let column = self.fill(s.column, j, s.last);
        let trace = record(s.trace, column, j, s.last);
        let cut = shrink(column, s.last, self.k());
        let m = self.m() as int;
        if cut < m {
            Sweep { column, last: cut + 1, best: s.best, stopped: false, trace }
        } else if self.conf.query_ends.stop_local() {
            let cell = column[m];
            let length = aligned_length(cell.origin, m);
            if self.accepts(cell, length, self.suffix_effective_length(length), s.best) {
                Sweep {
                    column,
                    last: cut,
                    best: Best {
                        origin: cell.origin,
                        cost: cell.cost,
                        matches: cell.matches,
                        ref_stop: self.m(),
                        query_stop: j as nat,
                    },
                    stopped: cell.cost == 0 && cell.matches == m,
                    trace,
                }
            } else {
                Sweep { column, last: cut, best: s.best, stopped: false, trace }
            }
        } else {
            Sweep { column, last: cut, best: s.best, stopped: false, trace }
        }
    }

    /// The state after column `j`. Once an exact match of the whole reference
    /// is found, the state no longer changes.
    pub open spec fn sweep(self, j: int) -> Sweep
        decreases j - self.min_n(),
    {
        if j <= self.min_n() {
            self.start()
        } else {
            let before = self.sweep(j - 1);
            if before.stopped {
                before
            } else {
                self.advance(before, j)
            }
        }
    }

    /// `best`, or the path that ends in row `i` of the kept column where that
    /// replaces it.
    pub open spec fn consider_row(self, column: Seq<Cell>, best: Best, i: int) -> Best {
        let cell = column[i];
        let length = aligned_length(cell.origin, i);
        if self.accepts(cell, length, self.window_effective_length(cell.origin, i), best) {
            Best {
                origin: cell.origin,
                cost: cell.cost,
                matches: cell.matches,
                ref_stop: i as nat,
                query_stop: self.n(),
            }
        } else {
            best
        }
    }

    /// The best alignment after rows `from..=upto` of the kept column have
    /// been considered in turn.
    pub open spec fn final_search(self, column: Seq<Cell>, best: Best, from: int, upto: int) -> Best
        decreases upto - from + 1,
    {
        if upto < from {
            best
        } else {
            self.consider_row(column, self.final_search(column, best, from, upto - 1), upto)
        }
    }

    /// The first row that the search of the last column looks at.
    pub open spec fn first_row(self) -> int {
        if self.conf.reference_ends.stop_local() {
            0
        } else {
            self.m() as int
        }
    }

    /// The best alignment of the whole search.
    pub open spec fn best(self) -> Best {
        let s = self.sweep(self.max_n() as int);
        if self.max_n() == self.n() {
            self.final_search(s.column, s.best, self.first_row(), self.m() as int)
        } else {
            s.best
        }
    }

    /// What the aligner reports: nothing where the best alignment still has
    /// the cost that the search began with, else its window and counts.
    pub open spec fn locate(self) -> Option<Alignment> {
        let best = self.best();
        if best.cost == self.m() + self.n() {
            None
        } else {
            Some(
                Alignment {
                    refstart: ref_start(best.origin),
                    refstop: best.ref_stop,
                    querystart: query_start(best.origin),
                    querystop: best.query_stop,
                    matches: best.matches,
                    errors: best.cost,
                },
            )
        }
    }

    /// Whether the search can be run in `usize`: no cost that is ever formed
    /// exceeds the largest one.
    pub open spec fn in_range(self) -> bool {
        (self.m() + self.n() + 1) * self.indel() <= usize::MAX
    }

    /// Whether the configuration is one that an aligner can be built with.
    pub open spec fn conf_ok(self) -> bool {
        self.conf.indel_cost >= 1 && self.conf.min_overlap >= 1
    }

    /// Whether `cell` can stand in row `i` of a column not after column `j`:
    /// its path starts no later than it ends, and its counts are bounded.
    pub open spec fn cell_fits(self, cell: Cell, i: int, j: int) -> bool {
        &&& cell.cost <= (self.m() + j) * self.indel()
        &&& cell.matches <= j
        &&& cell.matches <= i
        &&& match cell.origin {
            Anchor::RefStart(start) => start <= i,
            Anchor::QueryStart(start) => start <= j,
        }
    }

    /// Whether `column` can be the kept column after column `j`.
    pub open spec fn column_fits(self, column: Seq<Cell>, j: int) -> bool {
        &&& column.len() == self.m() + 1
        &&& forall|i: int| 0 <= i <= self.m() ==> self.cell_fits(#[trigger] column[i], i, j)
    }

    /// Whether `best` is what the search begins with, or an alignment with a
    /// window that is not empty in the reference and lies within both
    /// sequences, that covers enough of the reference, and that has no more
    /// errors than the rate allows on what it covers.
    pub open spec fn best_fits(self, best: Best) -> bool {
        ||| best == self.start().best
        ||| {
            &&& ref_start(best.origin) < best.ref_stop <= self.m()
            &&& query_start(best.origin) <= best.query_stop <= self.n()
            &&& best.matches <= self.n()
            &&& best.cost <= (self.m() + self.n()) * self.indel()
            &&& best.ref_stop - ref_start(best.origin) >= self.conf.min_overlap
            &&& best.cost <= self.conf.max_error_rate.budget(
                (best.ref_stop - ref_start(best.origin)) as nat,
            )
        }
    }

    /// Whether `trace` has a place for every cell of the matrix.
    pub open spec fn trace_fits(self, trace: Seq<Seq<Option<nat>>>) -> bool {
        &&& trace.len() == self.m() + 1
        &&& forall|i: int| 0 <= i <= self.m() ==> (#[trigger] trace[i]).len() == self.n() + 1
    }

    /// The cost of every cell that the search computes, by row and column.
    pub open spec fn trace(self) -> Seq<Seq<Option<nat>>> {
        self.sweep(self.max_n() as int).trace
    }
}

} // verus!
