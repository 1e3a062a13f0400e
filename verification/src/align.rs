//! Semiglobal alignment of a query against a reference, allowing errors.
//!
//! An [`Aligner`] is built once for a reference and then asked, query by
//! query, for the best window in which the two align. Only the window, the
//! number of matches and the number of errors are reported, not the
//! alignment itself.

use crate::accept::lemma_last_column_fits;
use crate::bounds::{lemma_best_fits, lemma_column_range, lemma_scaled_order};
use crate::column::{
    cells,
    counts_n,
    init_column,
    record_column,
    search_last_column,
    sweep_columns,
    Entry,
    Origin,
};
use crate::cutadapt_encode::{encode_acgt_vec, encode_iupac_vec};
use crate::dp::{count_n, Alignment, Problem};
use crate::rate::ErrorRate;
use vstd::prelude::*;
use vstd::slice::slice_to_vec;

verus! {

/// Which ends of a sequence may be left out of the alignment at no cost.
#[derive(PartialEq, Eq, PartialOrd, Ord, Clone, Copy, Hash, Debug, Structural)]
pub enum AlignEnds {
    /// Neither end: the whole sequence is aligned.
    Global,
    /// A prefix may be skipped.
    LocalStart,
    /// A suffix may be skipped.
    LocalStop,
    /// A prefix and a suffix may be skipped.
    Local,
}

impl AlignEnds {
    /// Whether a prefix may be skipped.
    pub open spec fn spec_start_local(self) -> bool {
        self == AlignEnds::LocalStart || self == AlignEnds::Local
    }

    /// Whether a suffix may be skipped.
    pub open spec fn spec_stop_local(self) -> bool {
        self == AlignEnds::LocalStop || self == AlignEnds::Local
    }

    /// Whether a prefix may be skipped.
    #[verifier::when_used_as_spec(spec_start_local)]
    pub fn start_local(self) -> (free: bool)
        ensures
            free == self.spec_start_local(),
    {
        match self {
            AlignEnds::LocalStart | AlignEnds::Local => true,
            _ => false,
        }
    }

    /// Whether a suffix may be skipped.
    #[verifier::when_used_as_spec(spec_stop_local)]
    pub fn stop_local(self) -> (free: bool)
        ensures
            free == self.spec_stop_local(),
    {
        match self {
            AlignEnds::LocalStop | AlignEnds::Local => true,
            _ => false,
        }
    }
}

/// On which side, if any, IUPAC wildcards are read as such.
#[derive(PartialEq, Eq, PartialOrd, Ord, Clone, Copy, Hash, Debug, Structural)]
pub enum AlignMatching {
    /// Both sequences are plain bases.
    NoWildcard,
    /// The reference may hold wildcards, the query is plain.
    RefWildcard,
    /// The query may hold wildcards, the reference is plain.
    QueryWildcard,
}

impl AlignMatching {
    /// Whether wildcards are read in the reference.
    pub open spec fn spec_ref_wildcard(self) -> bool {
        self == AlignMatching::RefWildcard
    }

    /// Whether wildcards are read in the query.
    pub open spec fn spec_query_wildcard(self) -> bool {
        self == AlignMatching::QueryWildcard
    }

    /// Whether wildcards are read in the reference.
    #[verifier::when_used_as_spec(spec_ref_wildcard)]
    pub fn ref_wildcard(self) -> (wild: bool)
        ensures
            wild == self.spec_ref_wildcard(),
    {
        match self {
            AlignMatching::RefWildcard => true,
            _ => false,
        }
    }

    /// Whether wildcards are read in the query.
    #[verifier::when_used_as_spec(spec_query_wildcard)]
    pub fn query_wildcard(self) -> (wild: bool)
        ensures
            wild == self.spec_query_wildcard(),
    {
        match self {
            AlignMatching::QueryWildcard => true,
            _ => false,
        }
    }
}

/// Configuration of an [`Aligner`].
#[derive(Clone, Copy, Debug, PartialEq, Eq, PartialOrd, Structural)]
pub struct AlignerConf {
    /// Maximum error rate.
    pub max_error_rate: ErrorRate,
    /// Free ends of the reference.
    pub reference_ends: AlignEnds,
    /// Free ends of the query.
    pub query_ends: AlignEnds,
    /// Where IUPAC wildcards are read.
    pub matching: AlignMatching,
    /// Cost of an insertion or a deletion; at least 1.
    pub indel_cost: usize,
    /// Least length of reference that an alignment must cover; at least 1.
    pub min_overlap: usize,
}

/// Why an aligner cannot be built.
#[derive(PartialEq, Eq, Clone, Copy, Debug, Structural)]
pub enum AlignError {
    /// The reference holds the wildcards and nothing but `N`, so that no
    /// position is left to count errors against.
    OnlyWildcards,
    /// The cost of an insertion or deletion is below 1.
    IndelCost,
    /// The least overlap is below 1.
    MinOverlap,
}

impl AlignError {
    /// What went wrong, in words.
    pub fn message(&self) -> (text: &'static str)
        ensures
            text@ == match *self {
                AlignError::OnlyWildcards => "Cannot have only N wildcards in the sequence"@,
                AlignError::IndelCost => "Indel cost must be at least 1"@,
                AlignError::MinOverlap => "Min overlap must be at least 1"@,
            },
    {
        match self {
            AlignError::OnlyWildcards => "Cannot have only N wildcards in the sequence",
            AlignError::IndelCost => "Indel cost must be at least 1",
            AlignError::MinOverlap => "Min overlap must be at least 1",
        }
    }
}

/// The error, if any, with which building an aligner for `reference` under
/// `conf` fails. A reference of wildcards only is reported before a bad
/// cost, a bad cost before a bad overlap.
pub open spec fn build_error(conf: AlignerConf, reference: Seq<u8>) -> Option<AlignError> {
    if conf.matching.ref_wildcard() && count_n(reference, reference.len() as int)
        == reference.len() {
        Some(AlignError::OnlyWildcards)
    } else if conf.indel_cost < 1 {
        Some(AlignError::IndelCost)
    } else if conf.min_overlap < 1 {
        Some(AlignError::MinOverlap)
    } else {
        None
    }
}

/// Where a query aligns to a reference. The aligned parts are
/// `reference[refstart..refstop]` and `query[querystart..querystop]`: each
/// start is the first position of the alignment, each stop the first after
/// it.
#[derive(PartialEq, Eq, PartialOrd, Ord, Debug, Clone)]
pub struct Location {
    refstart: usize,
    refstop: usize,
    querystart: usize,
    querystop: usize,
    matches: usize,
    errors: usize,
}

impl View for Location {
    type V = Alignment;

    closed spec fn view(&self) -> Alignment {
        Alignment {
            refstart: self.refstart as nat,
            refstop: self.refstop as nat,
            querystart: self.querystart as nat,
            querystop: self.querystop as nat,
            matches: self.matches as nat,
            errors: self.errors as nat,
        }
    }
}

impl Location {
    /// Starting position on the reference.
    pub fn refstart(&self) -> (position: usize)
        ensures
            position == self@.refstart,
    {
        self.refstart
    }

    /// Stopping position on the reference: the alignment does not include
    /// it.
    pub fn refstop(&self) -> (position: usize)
        ensures
            position == self@.refstop,
    {
        self.refstop
    }

    /// Starting position on the query.
    pub fn querystart(&self) -> (position: usize)
        ensures
            position == self@.querystart,
    {
        self.querystart
    }

    /// Stopping position on the query: the alignment does not include it.
    pub fn querystop(&self) -> (position: usize)
        ensures
            position == self@.querystop,
    {
        self.querystop
    }

    /// Number of matching positions.
    pub fn matches(&self) -> (count: usize)
        ensures
            count == self@.matches,
    {
        self.matches
    }

    /// Number of errors: mismatches, and insertions and deletions at their
    /// cost.
    pub fn errors(&self) -> (count: usize)
        ensures
            count == self@.errors,
    {
        self.errors
    }
}

/// The dynamic-programming matrix in full, one row per prefix of the
/// reference and one column per prefix of the query.
///
/// An aligner fills it only when debugging is enabled, since the matrix is
/// normally not kept. An entry that is `None` was not computed.
#[derive(Clone, Debug)]
pub struct DPMatrix {
    rows: Vec<Vec<Option<usize>>>,
    reference: Vec<u8>,
    query: Vec<u8>,
}

/// A row of the matrix as costs.
pub open spec fn row_costs(row: Seq<Option<usize>>) -> Seq<Option<nat>> {
    Seq::new(
        row.len(),
        |j: int|
            match row[j] {
                Some(cost) => Some(cost as nat),
                None => None,
            },
    )
}

/// The matrix of `rows` rows and `columns` columns in which nothing is
/// computed yet.
pub open spec fn empty_costs(rows: nat, columns: nat) -> Seq<Seq<Option<nat>>> {
    Seq::new(rows, |i: int| Seq::new(columns, |j: int| None))
}

impl DPMatrix {
    /// The entries, row by row.
    pub closed spec fn costs(&self) -> Seq<Seq<Option<nat>>> {
        Seq::new(self.rows.len() as nat, |i: int| row_costs(self.rows[i]@))
    }

    /// The reference of the rows.
    pub closed spec fn reference(&self) -> Seq<u8> {
        self.reference@
    }

    /// The query of the columns.
    pub closed spec fn query(&self) -> Seq<u8> {
        self.query@
    }

    /// Whether `(i, j)` is a cell of the matrix.
    pub open spec fn has_cell(&self, i: int, j: int) -> bool {
        0 <= i < self.costs().len() && 0 <= j < self.costs()[i].len()
    }

    /// The matrix for `reference` and `query`, with no entry computed.
    pub fn new(reference: &[u8], query: &[u8]) -> (matrix: Self)
        requires
            reference@.len() < usize::MAX,
            query@.len() < usize::MAX,
        ensures
            matrix.reference() == reference@,
            matrix.query() == query@,
            matrix.costs() == empty_costs(reference@.len() + 1, query@.len() + 1),
    {
        let m = reference.len();
        let n = query.len();
        let mut rows: Vec<Vec<Option<usize>>> = Vec::new();
        let mut i: usize = 0;
        while i <= m
            invariant
                i <= m + 1,
                m < usize::MAX,
                n < usize::MAX,
                rows.len() == i,
                forall|r: int| 0 <= r < i ==> row_costs(#[trigger] rows[r]@) == Seq::new(
                    (n + 1) as nat,
                    |j: int| None::<nat>,
                ),
            decreases m + 1 - i,
        {
            let mut row: Vec<Option<usize>> = Vec::new();
            let mut j: usize = 0;
            while j <= n
                invariant
                    j <= n + 1,
                    n < usize::MAX,
                    row.len() == j,
                    forall|c: int| 0 <= c < j ==> #[trigger] row[c] == None::<usize>,
                decreases n + 1 - j,
            {
                row.push(None);
                j += 1;
            }
            assert(row_costs(row@) =~= Seq::new((n + 1) as nat, |j: int| None::<nat>));
            rows.push(row);
            i += 1;
        }
        let matrix = DPMatrix {
            rows,
            reference: slice_to_vec(reference),
            query: slice_to_vec(query),
        };
        assert(matrix.costs() =~= empty_costs(reference@.len() + 1, query@.len() + 1));
        matrix
    }

    /// Set an entry in the dynamic programming matrix.
    pub fn set_entry(&mut self, i: usize, j: usize, cost: usize)
        requires
            old(self).has_cell(i as int, j as int),
        ensures
            final(self).costs() == old(self).costs().update(
                i as int,
                old(self).costs()[i as int].update(j as int, Some(cost as nat)),
            ),
            final(self).reference() == old(self).reference(),
            final(self).query() == old(self).query(),
    {
        self.rows[i][j] = Some(cost);
        assert(self.costs()[i as int] =~= old(self).costs()[i as int].update(
            j as int,
            Some(cost as nat),
        ));
        assert(self.costs() =~= old(self).costs().update(
            i as int,
            old(self).costs()[i as int].update(j as int, Some(cost as nat)),
        ));
    }

    /// The entry in row `i` and column `j`.
    pub fn entry(&self, i: usize, j: usize) -> (cost: Option<usize>)
        requires
            self.has_cell(i as int, j as int),
        ensures
            cost matches Some(c) ==> self.costs()[i as int][j as int] == Some(c as nat),
            cost is None ==> self.costs()[i as int][j as int] is None,
    {
        self.rows[i][j]
    }

    /// The number of rows.
    pub fn height(&self) -> (rows: usize)
        ensures
            rows == self.costs().len(),
    {
        self.rows.len()
    }

    /// The number of columns of row `i`.
    pub fn width(&self, i: usize) -> (columns: usize)
        requires
            i < self.costs().len(),
        ensures
            columns == self.costs()[i as int].len(),
    {
        self.rows[i].len()
    }

    /// The reference of the rows.
    pub fn reference_bytes(&self) -> (bytes: &Vec<u8>)
        ensures
            bytes@ == self.reference(),
    {
        &self.reference
    }

    /// The query of the columns.
    pub fn query_bytes(&self) -> (bytes: &Vec<u8>)
        ensures
            bytes@ == self.query(),
    {
        &self.query
    }
}

/// Finds a full or partial occurrence of a query in a reference, allowing
/// errors: mismatches, insertions and deletions.
///
/// A mismatch counts as one error, an insertion or deletion as `indel_cost`
/// errors. The ends that the configuration declares free may be skipped at
/// no cost: where both sequences have a free start, a prefix of one of them
/// is skipped, never of both, and likewise for suffixes at a free stop.
///
/// For example, `SISSI` aligns to `MISSISSIPPI` with both ends of both free
/// as
///
/// ```text
/// ref   ---SISSI---
/// query MISSISSIPPI
/// ```
///
/// that is, with `refstart, refstop = 0, 5` and `querystart, querystop = 3,
/// 8`, and no error.
///
/// Among the alignments whose errors are within the error rate, taken over
/// the aligned length of the reference, the one with the most matches is
/// reported; of several, one with the fewest errors; of several, the
/// leftmost in the query.
#[derive(Clone, Debug)]
pub struct Aligner {
    column: Vec<Entry>,
    conf: AlignerConf,
    debug: bool,
    dpmatrix: Option<DPMatrix>,
    reference: Vec<u8>,
    breference: Vec<u8>,
    effective_length: usize,
    n_counts: Vec<usize>,
    bquery: Vec<u8>,
}

impl Aligner {
    /// The configuration that the aligner was built with.
    pub closed spec fn conf(&self) -> AlignerConf {
        self.conf
    }

    /// The reference that the aligner was built for.
    pub closed spec fn reference(&self) -> Seq<u8> {
        self.reference@
    }

    /// Whether the matrix is kept.
    pub closed spec fn debugging(&self) -> bool {
        self.debug
    }

    /// The kept matrix, if there is one.
    pub closed spec fn matrix(&self) -> Option<DPMatrix> {
        self.dpmatrix
    }

    /// What a call of `locate` on `query` works on.
    pub open spec fn problem(&self, query: Seq<u8>) -> Problem {
        Problem { conf: self.conf(), reference: self.reference(), query }
    }

    /// What `locate` returns depends on the configuration, the reference and
    /// the query, and on nothing else: not on the queries that went before,
    /// nor on whether the matrix is kept.
    pub proof fn lemma_locate_deterministic(self, other: Aligner, query: Seq<u8>)
        requires
            self.conf() == other.conf(),
            self.reference() == other.reference(),
        ensures
            self.problem(query).locate() == other.problem(query).locate(),
    {
    }

    /// Whether the aligner is in order: what it holds of the reference is
    /// what it was built from.
    pub closed spec fn wf(&self) -> bool {
        let p = self.problem(Seq::empty());
        &&& p.conf_ok()
        &&& self.column.len() == self.reference.len() + 1
        &&& self.breference@ == p.ref_masks()
        &&& counts_n(self.n_counts@, self.reference@)
        &&& self.effective_length == p.effective_length()
        &&& !self.debug ==> self.dpmatrix is None
    }

    /// Creates a new aligner with a specified alignment configuration and
    /// reference sequence.
    pub fn new(conf: &AlignerConf, reference: &[u8]) -> (built: Result<Self, AlignError>)
        requires
            reference@.len() < usize::MAX,
        ensures
            match built {
                Ok(aligner) => {
                    &&& build_error(*conf, reference@) is None
                    &&& aligner.wf()
                    &&& aligner.conf() == *conf
                    &&& aligner.reference() == reference@
                    &&& !aligner.debugging()
                    &&& aligner.matrix() is None
                },
                Err(error) => build_error(*conf, reference@) == Some(error),
            },
    {
        let m = reference.len();
        let mut n_counts: Vec<usize> = Vec::new();
        let mut n_count: usize = 0;
        let mut i: usize = 0;
        while i < m
            invariant
                i <= m,
                m == reference@.len(),
                n_counts.len() == i,
                n_count == count_n(reference@, i as int),
                n_count <= i,
                forall|r: int| 0 <= r < i ==> #[trigger] n_counts[r] == count_n(reference@, r),
            decreases m - i,
        {
            n_counts.push(n_count);
            if reference[i] == 110 || reference[i] == 78 {
                n_count += 1;
            }
            i += 1;
        }
        n_counts.push(n_count);
        let mut breference: Vec<u8> = Vec::new();
        let effective_length = match conf.matching {
            AlignMatching::RefWildcard => {
                if m - n_count == 0 {
                    return Err(AlignError::OnlyWildcards);
                }
                encode_iupac_vec(reference, &mut breference);
                m - n_count
            },
            AlignMatching::NoWildcard | AlignMatching::QueryWildcard => {
                encode_acgt_vec(reference, &mut breference);
                m
            },
        };
        if conf.indel_cost < 1 {
            return Err(AlignError::IndelCost);
        }
        if conf.min_overlap < 1 {
            return Err(AlignError::MinOverlap);
        }
        let mut column: Vec<Entry> = Vec::new();
        let mut i: usize = 0;
        while i <= m
            invariant
                i <= m + 1,
                m < usize::MAX,
                column.len() == i,
            decreases m + 1 - i,
        {
            column.push(Entry { cost: 0, matches: 0, origin: Origin::RefStart(0) });
            i += 1;
        }
        Ok(
            Aligner {
                column,
                conf: *conf,
                debug: false,
                dpmatrix: None,
                reference: slice_to_vec(reference),
                breference,
                effective_length,
                n_counts,
                bquery: Vec::new(),
            },
        )
    }

    /// Returns the length of the reference sequence.
    pub fn m(&self) -> (length: usize)
        ensures
            length == self.reference().len(),
    {
        self.reference.len()
    }

    /// Returns the dynamic programming matrix, which is `None` unless
    /// debugging has been enabled.
    pub fn dpmatrix(&self) -> (kept: &Option<DPMatrix>)
        ensures
            *kept == self.matrix(),
    {
        &self.dpmatrix
    }

    /// Store the dynamic programming matrix while running `locate()` and
    /// make it available by `dpmatrix()`.
    pub fn enable_debug(&mut self)
        requires
            old(self).wf(),
        ensures
            final(self).wf(),
            final(self).debugging(),
            final(self).conf() == old(self).conf(),
            final(self).reference() == old(self).reference(),
            final(self).matrix() == old(self).matrix(),
    {
        self.debug = true;
    }

    /// Whether `locate` can be called on `query`: whether the costs that the
    /// search may form for it all fit in `usize`.
    pub fn can_locate(&self, query: &[u8]) -> (fits: bool)
        ensures
            fits == self.problem(query@).in_range(),
    {
        let m = self.reference.len();
        let n = query.len();
        let indel = self.conf.indel_cost;
        proof {
            assert((m + n + 1) * 0 == 0) by (nonlinear_arith);
        }
        if n >= usize::MAX - m {
            proof {
                if indel >= 1 {
                    assert((m + n + 1) * indel >= m + n + 1) by (nonlinear_arith)
                        requires
                            indel >= 1,
                            m + n + 1 >= 0,
                    ;
                }
            }
            return indel == 0;
        }
        let cells = m + n + 1;
        if indel == 0 {
            return true;
        }
        proof {
            assert(cells * indel <= usize::MAX <==> cells <= usize::MAX / indel)
                by (nonlinear_arith)
                requires
                    indel >= 1,
                    cells >= 0,
            ;
        }
        cells <= usize::MAX / indel
    }

    /// Finds the query within the reference of this aligner.
    ///
    /// The intervals `querystart..querystop` and `refstart..refstop` of the
    /// result give the location of the match: these parts of the two
    /// sequences align best to each other, with the given number of matches
    /// and of errors. Nothing is returned where no alignment is within the
    /// error rate and long enough.
    pub fn locate(&mut self, query: &[u8]) -> (found: Option<Location>)
        requires
            old(self).wf(),
            old(self).problem(query@).in_range(),
        ensures
            final(self).wf(),
            final(self).conf() == old(self).conf(),
            final(self).reference() == old(self).reference(),
            final(self).debugging() == old(self).debugging(),
            match found {
                Some(location) => old(self).problem(query@).locate() == Some(location@),
                None => old(self).problem(query@).locate() is None,
            },
            found matches Some(location) ==> {
                &&& location@.refstart < location@.refstop <= old(self).reference().len()
                &&& location@.querystart <= location@.querystop <= query@.len()
                &&& (location@.refstart == 0 || location@.querystart == 0)
                &&& location@.refstop - location@.refstart >= old(self).conf().min_overlap
                &&& location@.errors <= old(self).conf().max_error_rate.budget(
                    (location@.refstop - location@.refstart) as nat,
                )
            },
            final(self).debugging() ==> final(self).matrix() is Some,
            !final(self).debugging() ==> final(self).matrix() is None,
            final(self).matrix() matches Some(kept) ==> {
                &&& kept.reference() == old(self).reference()
                &&& kept.query() == query@
                &&& kept.costs() == old(self).problem(query@).trace()
            },
    {
        let ghost p = self.problem(query@);
        let m = self.reference.len();
        let n = query.len();
        proof {
            lemma_scaled_order(1, 1, p.indel());
            assert(m + n + 1 <= usize::MAX) by (nonlinear_arith)
                requires
                    (m + n + 1) * p.indel() <= usize::MAX,
                    p.indel() >= 1,
            ;
        }
        if self.conf.matching.query_wildcard() {
            encode_iupac_vec(query, &mut self.bquery);
        } else {
            encode_acgt_vec(query, &mut self.bquery);
        }
        // The most errors that an alignment of the whole reference may have.
        let k = self.conf.max_error_rate.max_errors(m);
        // The first and the last column that need computing: where an end of
        // the query is not free, costs only get worse further away from it.
        let max_n = if self.conf.query_ends.start_local() || n <= m || n - m <= k {
            n
        } else {
            m + k
        };
        let min_n = if !self.conf.query_ends.stop_local() && n > m && n - m > k {
            n - m - k
        } else {
            0
        };
        init_column(&mut self.column, &self.conf, min_n, Ghost(p));
        if self.debug {
            let mut matrix = DPMatrix::new(self.reference.as_slice(), query);
            proof {
                lemma_column_range(p);
                assert(self.column.len() == cells(self.column@).len());
            }
            record_column(&mut matrix, &self.column, min_n, m);
            assert(matrix.costs() =~~= p.start().trace);
            self.dpmatrix = Some(matrix);
        }
        let swept = sweep_columns(
            &mut self.column,
            &mut self.dpmatrix,
            &self.breference,
            &self.bquery,
            &self.n_counts,
            self.effective_length,
            &self.conf,
            k,
            min_n,
            max_n,
            Ghost(p),
        );
        let best = if max_n == n {
            proof {
                lemma_last_column_fits(p);
            }
            let first = if self.conf.reference_ends.stop_local() {
                0
            } else {
                m
            };
            search_last_column(
                &self.column,
                swept,
                &self.n_counts,
                self.effective_length,
                &self.conf,
                first,
                n,
                Ghost(p),
            )
        } else {
            swept
        };
        proof {
            lemma_best_fits(p);
        }
        if best.cost == m + n {
            // The cost that the search began with: no alignment was found
            // that is within the error rate.
            return None;
        }
        let (refstart, querystart) = match best.origin {
            Origin::QueryStart(start) => (0, start),
            Origin::RefStart(start) => (start, 0),
        };
        Some(
            Location {
                refstart,
                refstop: best.ref_stop,
                querystart,
                querystop: best.query_stop,
                matches: best.matches,
                errors: best.cost,
            },
        )
    }
}

} // verus!
