use trimrs::align::{AlignEnds, AlignError, AlignMatching, Aligner, AlignerConf, DPMatrix};
use trimrs::rate::ErrorRate;

type Found = Option<(usize, usize, usize, usize, usize, usize)>;

fn conf(rate: f64, reference_ends: AlignEnds, query_ends: AlignEnds, matching: AlignMatching) -> AlignerConf {
    AlignerConf {
        max_error_rate: ErrorRate::from_bits(rate.to_bits()).unwrap(),
        reference_ends,
        query_ends,
        matching,
        indel_cost: 1,
        min_overlap: 1,
    }
}

fn local(rate: f64) -> AlignerConf {
    conf(rate, AlignEnds::Local, AlignEnds::Local, AlignMatching::NoWildcard)
}

fn locate(conf: &AlignerConf, reference: &[u8], query: &[u8]) -> Found {
    let mut aligner = Aligner::new(conf, reference).unwrap();
    assert!(aligner.can_locate(query));
    aligner.locate(query).map(|l| {
        (l.refstart(), l.refstop(), l.querystart(), l.querystop(), l.matches(), l.errors())
    })
}

fn swapped(conf: &AlignerConf) -> AlignerConf {
    AlignerConf {
        reference_ends: conf.query_ends,
        query_ends: conf.reference_ends,
        matching: match conf.matching {
            AlignMatching::NoWildcard => AlignMatching::NoWildcard,
            AlignMatching::RefWildcard => AlignMatching::QueryWildcard,
            AlignMatching::QueryWildcard => AlignMatching::RefWildcard,
        },
        ..*conf
    }
}

#[test]
fn ends_know_what_is_free() {
    assert!(!AlignEnds::Global.start_local() && !AlignEnds::Global.stop_local());
    assert!(AlignEnds::LocalStart.start_local() && !AlignEnds::LocalStart.stop_local());
    assert!(!AlignEnds::LocalStop.start_local() && AlignEnds::LocalStop.stop_local());
    assert!(AlignEnds::Local.start_local() && AlignEnds::Local.stop_local());
}

#[test]
fn matching_knows_its_side() {
    assert!(!AlignMatching::NoWildcard.ref_wildcard() && !AlignMatching::NoWildcard.query_wildcard());
    assert!(AlignMatching::RefWildcard.ref_wildcard() && !AlignMatching::RefWildcard.query_wildcard());
    assert!(!AlignMatching::QueryWildcard.ref_wildcard() && AlignMatching::QueryWildcard.query_wildcard());
}

#[test]
fn indel_cost_below_one_is_refused() {
    let mut c = local(0.1);
    c.indel_cost = 0;
    assert_eq!(Aligner::new(&c, b"ACGT").err(), Some(AlignError::IndelCost));
    assert_eq!(AlignError::IndelCost.message(), "Indel cost must be at least 1");
}

#[test]
fn min_overlap_below_one_is_refused() {
    let mut c = local(0.1);
    c.min_overlap = 0;
    assert_eq!(Aligner::new(&c, b"ACGT").err(), Some(AlignError::MinOverlap));
    assert_eq!(AlignError::MinOverlap.message(), "Min overlap must be at least 1");
}

#[test]
fn reference_of_wildcards_only_is_refused() {
    let c = conf(0.1, AlignEnds::Local, AlignEnds::Local, AlignMatching::RefWildcard);
    assert_eq!(Aligner::new(&c, b"NNnN").err(), Some(AlignError::OnlyWildcards));
    assert_eq!(Aligner::new(&c, b"").err(), Some(AlignError::OnlyWildcards));
    assert!(Aligner::new(&c, b"NNAN").is_ok());
    assert_eq!(
        AlignError::OnlyWildcards.message(),
        "Cannot have only N wildcards in the sequence"
    );
    // Without wildcards in the reference an N is a base like any other.
    assert!(Aligner::new(&local(0.1), b"NNNN").is_ok());
    let query_side = conf(0.1, AlignEnds::Local, AlignEnds::Local, AlignMatching::QueryWildcard);
    assert!(Aligner::new(&query_side, b"NNNN").is_ok());
}

#[test]
fn errors_come_in_order() {
    let mut c = conf(0.1, AlignEnds::Local, AlignEnds::Local, AlignMatching::RefWildcard);
    c.indel_cost = 0;
    c.min_overlap = 0;
    assert_eq!(Aligner::new(&c, b"NN").err(), Some(AlignError::OnlyWildcards));
    assert_eq!(Aligner::new(&c, b"NA").err(), Some(AlignError::IndelCost));
    c.indel_cost = 2;
    assert_eq!(Aligner::new(&c, b"NA").err(), Some(AlignError::MinOverlap));
}

#[test]
fn aligner_knows_its_reference_length() {
    assert_eq!(Aligner::new(&local(0.0), b"CACCA").unwrap().m(), 5);
    assert_eq!(Aligner::new(&local(0.0), b"").unwrap().m(), 0);
}

#[test]
fn exact_match_fast_path() {
    assert_eq!(locate(&local(0.0), b"CACCA", b"GACCACCATTA"), Some((0, 5, 3, 8, 5, 0)));
}

#[test]
fn free_end_suppression_changes_outcome() {
    let c = conf(0.0, AlignEnds::Local, AlignEnds::LocalStop, AlignMatching::NoWildcard);
    assert_eq!(locate(&c, b"CACCA", b"GACCACCATTA"), None);
    assert_eq!(locate(&c, b"GACCA", b"GACCACCATTA"), Some((0, 5, 0, 5, 5, 0)));
}

#[test]
fn mismatch_tolerance() {
    assert_eq!(locate(&local(0.0), b"CACCA", b"GGACCAT"), None);
    assert_eq!(locate(&local(0.25), b"CACCA", b"GGACCAT"), Some((0, 5, 1, 6, 4, 1)));
}

#[test]
fn wildcard_equivalence() {
    let wild = conf(0.0, AlignEnds::Local, AlignEnds::Local, AlignMatching::RefWildcard);
    assert_eq!(locate(&wild, b"CACNA", b"GTGCACCATGT"), Some((0, 5, 3, 8, 5, 0)));
    assert_eq!(locate(&local(0.0), b"CACNA", b"GTGCACCATGT"), None);
}

#[test]
fn effective_length_adjustment() {
    let mut c = conf(0.05, AlignEnds::LocalStop, AlignEnds::LocalStart, AlignMatching::RefWildcard);
    c.min_overlap = 10;
    let query = b"GTGTTGTGCAACCACGACAACCACCAAC";
    // One mismatch in 20, of which the N does not count: 1 in 19 is too many.
    assert_eq!(locate(&c, b"CAACCACAACAACCACNAAC", query), None);
    // A code other than N counts: 1 in 20 is allowed.
    assert_eq!(locate(&c, b"CAACCACAACAACCACYAAC", query), Some((0, 20, 8, 28, 19, 1)));
    // One mismatch in 21, of which the N does not count: 1 in 20.
    assert_eq!(
        locate(&c, b"CAACCACAACAACCACNAACC", b"GTGTTGTGCAACCACGACAACCACCAACC"),
        Some((0, 21, 8, 29, 20, 1))
    );
}

#[test]
fn swapped_roles_give_the_swapped_window() {
    let c = local(0.25);
    let there = locate(&c, b"CACCA", b"GCACCTT");
    assert_eq!(there, Some((0, 5, 1, 5, 4, 1)));
    assert_eq!(locate(&swapped(&c), b"GCACCTT", b"CACCA"), Some((1, 5, 0, 5, 4, 1)));
}

#[test]
fn swapped_roles_need_not_agree() {
    // The short sequence occurs twice in the long one. As the query it is
    // found where the long one ends, as the reference where it starts.
    let c = local(0.0);
    assert_eq!(locate(&c, b"CCCC", b"CC"), Some((2, 4, 0, 2, 2, 0)));
    assert_eq!(locate(&swapped(&c), b"CC", b"CCCC"), Some((0, 2, 0, 2, 2, 0)));
}

#[test]
fn same_inputs_give_the_same_result() {
    let c = local(0.25);
    let mut aligner = Aligner::new(&c, b"CACCA").unwrap();
    let first = aligner.locate(b"GGACCAT");
    let second = aligner.locate(b"GGACCAT");
    assert_eq!(first, second);
    aligner.locate(b"TTTTTTTTTTTTTTT");
    aligner.enable_debug();
    assert_eq!(aligner.locate(b"GGACCAT"), first);
    assert_eq!(Aligner::new(&c, b"CACCA").unwrap().locate(b"GGACCAT"), first);
}

#[test]
fn raising_the_rate_keeps_an_alignment() {
    let mut found = false;
    for rate in [0.0, 0.1, 0.2, 0.25, 0.3, 0.5, 0.75, 1.0] {
        let now = locate(&local(rate), b"CACCA", b"GGACCAT").is_some();
        assert!(now || !found);
        found = now;
    }
    assert!(found);
}

#[test]
fn raising_the_rate_above_one_can_lose_an_alignment() {
    let mut c = conf(3.25, AlignEnds::Local, AlignEnds::LocalStop, AlignMatching::NoWildcard);
    c.indel_cost = 3;
    assert_eq!(locate(&c, b"CA", b"NGCCC"), Some((1, 2, 0, 1, 0, 1)));
    c.max_error_rate = ErrorRate::from_bits(3.5f64.to_bits()).unwrap();
    assert_eq!(locate(&c, b"CA", b"NGCCC"), None);
}

#[test]
fn empty_query_aligns_to_nothing() {
    for reference_ends in [AlignEnds::Global, AlignEnds::Local] {
        for query_ends in [AlignEnds::Global, AlignEnds::Local] {
            for rate in [0.0, 0.5] {
                let c = conf(rate, reference_ends, query_ends, AlignMatching::NoWildcard);
                assert_eq!(locate(&c, b"ACGT", b""), None);
            }
        }
    }
}

#[test]
fn empty_query_at_rate_one() {
    // All of the reference against nothing is four deletions in four
    // positions; it is the cost that the search begins with, so nothing is
    // reported. A free start of the reference allows a shorter window.
    let global = conf(1.0, AlignEnds::Global, AlignEnds::Global, AlignMatching::NoWildcard);
    assert_eq!(locate(&global, b"ACGT", b""), None);
}

#[test]
fn empty_reference_aligns_to_nothing() {
    for query in [&b""[..], &b"ACGT"[..]] {
        assert_eq!(locate(&local(0.0), b"", query), None);
        assert_eq!(locate(&local(1.0), b"", query), None);
    }
}

#[test]
fn min_overlap_rejects_short_windows() {
    let mut c = local(0.0);
    assert_eq!(locate(&c, b"AGAGGAG", b"TCTAGAGG"), Some((0, 5, 3, 8, 5, 0)));
    c.min_overlap = 5;
    assert_eq!(locate(&c, b"AGAGGAG", b"TCTAGAGG"), Some((0, 5, 3, 8, 5, 0)));
    c.min_overlap = 6;
    assert_eq!(locate(&c, b"AGAGGAG", b"TCTAGAGG"), None);
}

#[test]
fn indel_cost_weighs_gaps() {
    // The query lacks one base of the reference.
    let mut c = conf(0.25, AlignEnds::Global, AlignEnds::Global, AlignMatching::NoWildcard);
    assert_eq!(locate(&c, b"ACGTACGT", b"ACGACGT"), Some((0, 8, 0, 7, 7, 1)));
    c.indel_cost = 2;
    assert_eq!(locate(&c, b"ACGTACGT", b"ACGACGT"), Some((0, 8, 0, 7, 7, 2)));
    c.indel_cost = 3;
    assert_eq!(locate(&c, b"ACGTACGT", b"ACGACGT"), None);
}

#[test]
fn lower_case_is_read_as_upper_case() {
    assert_eq!(locate(&local(0.0), b"cacca", b"GACCACCATTA"), Some((0, 5, 3, 8, 5, 0)));
    assert_eq!(locate(&local(0.0), b"CACCA", b"gaccaccatta"), Some((0, 5, 3, 8, 5, 0)));
    let wild = conf(0.0, AlignEnds::Local, AlignEnds::Local, AlignMatching::RefWildcard);
    assert_eq!(locate(&wild, b"cacna", b"GTGCACCATGT"), Some((0, 5, 3, 8, 5, 0)));
}

#[test]
fn bytes_that_are_no_bases_match_nothing() {
    assert_eq!(locate(&local(0.0), b"--", b"--"), None);
    assert_eq!(locate(&local(0.0), b"NN", b"NN"), None);
    let wild = conf(0.0, AlignEnds::Local, AlignEnds::Local, AlignMatching::QueryWildcard);
    assert_eq!(locate(&wild, b"AC", b"NN"), Some((0, 2, 0, 2, 2, 0)));
    // Wildcards of the query match bases of the reference, not its wildcards.
    assert_eq!(locate(&wild, b"NN", b"NN"), None);
}

#[test]
fn leftmost_of_equal_alignments_is_kept() {
    assert_eq!(locate(&local(0.0), b"CC", b"ACCACCA"), Some((0, 2, 1, 3, 2, 0)));
}

#[test]
fn more_matches_win_over_fewer_errors() {
    // One position matches without error where the reference ends and the
    // query starts; with one error allowed, three positions match.
    assert_eq!(locate(&local(0.0), b"ACGT", b"TTACTT"), Some((3, 4, 0, 1, 1, 0)));
    assert_eq!(locate(&local(0.25), b"ACGT", b"TTACTT"), Some((0, 4, 2, 5, 3, 1)));
}

#[test]
fn matrix_is_kept_only_when_debugging() {
    let mut aligner = Aligner::new(&local(0.0), b"CACCA").unwrap();
    assert!(aligner.dpmatrix().is_none());
    aligner.locate(b"GACCACCATTA");
    assert!(aligner.dpmatrix().is_none());
    aligner.enable_debug();
    assert!(aligner.dpmatrix().is_none());
    aligner.locate(b"GACCACCATTA");
    assert!(aligner.dpmatrix().is_some());
}

fn costs(matrix: &DPMatrix) -> Vec<Vec<Option<usize>>> {
    (0..matrix.height())
        .map(|i| (0..matrix.width(i)).map(|j| matrix.entry(i, j)).collect())
        .collect()
}

fn row(cells: &[i32]) -> Vec<Option<usize>> {
    cells.iter().map(|&c| if c < 0 { None } else { Some(c as usize) }).collect()
}

#[test]
fn kept_matrix_of_an_exact_match() {
    let mut aligner = Aligner::new(&local(0.0), b"CACCA").unwrap();
    aligner.enable_debug();
    aligner.locate(b"GACCACCATTA");
    let matrix = aligner.dpmatrix().as_ref().unwrap();
    assert_eq!(matrix.reference_bytes(), &b"CACCA".to_vec());
    assert_eq!(matrix.query_bytes(), &b"GACCACCATTA".to_vec());
    // The sweep ends with the exact match in column 8.
    let expected = vec![
        row(&[0, 0, 0, 0, 0, 0, 0, 0, 0, -1, -1, -1]),
        row(&[0, 1, 1, 0, 0, 1, 0, 0, 1, -1, -1, -1]),
        row(&[0, 1, -1, -1, 1, 0, 1, 1, 0, -1, -1, -1]),
        row(&[0, 1, -1, -1, -1, -1, 0, 1, 1, -1, -1, -1]),
        row(&[0, 1, -1, -1, -1, -1, -1, 0, 1, -1, -1, -1]),
        row(&[0, 1, -1, -1, -1, -1, -1, -1, 0, -1, -1, -1]),
    ];
    assert_eq!(costs(matrix), expected);
}

#[test]
fn kept_matrix_of_a_clipped_sweep() {
    // Neither end of the query is free, and it is longer than the reference
    // and its one allowed error: the sweep starts at column 1 and ends at
    // column 6.
    let c = conf(0.25, AlignEnds::Global, AlignEnds::Global, AlignMatching::NoWildcard);
    let mut aligner = Aligner::new(&c, b"CACCA").unwrap();
    aligner.enable_debug();
    assert!(aligner.locate(b"GGACCAT").is_none());
    let expected = vec![
        row(&[-1, 1, 2, 3, 4, 5, 6, -1]),
        row(&[-1, 1, 2, -1, -1, -1, -1, -1]),
        row(&[-1, 2, 2, -1, -1, -1, -1, -1]),
        row(&[-1, 3, -1, -1, -1, -1, -1, -1]),
        row(&[-1, 4, -1, -1, -1, -1, -1, -1]),
        row(&[-1, 5, -1, -1, -1, -1, -1, -1]),
    ];
    assert_eq!(costs(aligner.dpmatrix().as_ref().unwrap()), expected);
}

#[test]
fn kept_matrix_is_of_the_last_query() {
    let mut aligner = Aligner::new(&local(0.0), b"CACCA").unwrap();
    aligner.enable_debug();
    aligner.locate(b"GACCACCATTA");
    aligner.locate(b"AC");
    let matrix = aligner.dpmatrix().as_ref().unwrap();
    assert_eq!(matrix.height(), 6);
    assert_eq!(matrix.width(0), 3);
    assert_eq!(matrix.query_bytes(), &b"AC".to_vec());
}

#[test]
fn new_matrix_is_empty() {
    let matrix = DPMatrix::new(b"ACG", b"TT");
    assert_eq!(matrix.height(), 4);
    for i in 0..4 {
        assert_eq!(matrix.width(i), 3);
        for j in 0..3 {
            assert_eq!(matrix.entry(i, j), None);
        }
    }
    let matrix = DPMatrix::new(b"", b"");
    assert_eq!(matrix.height(), 1);
    assert_eq!(matrix.width(0), 1);
}

#[test]
fn set_entry_changes_one_cell() {
    let mut matrix = DPMatrix::new(b"ACG", b"TT");
    matrix.set_entry(2, 1, 7);
    matrix.set_entry(3, 2, 0);
    matrix.set_entry(2, 1, 9);
    for i in 0..4 {
        for j in 0..3 {
            let expected = match (i, j) {
                (2, 1) => Some(9),
                (3, 2) => Some(0),
                _ => None,
            };
            assert_eq!(matrix.entry(i, j), expected);
        }
    }
}

#[test]
fn costs_that_do_not_fit_are_told_apart() {
    let mut c = local(0.0);
    c.indel_cost = usize::MAX / 4;
    let aligner = Aligner::new(&c, b"AC").unwrap();
    assert!(aligner.can_locate(b"A"));
    assert!(!aligner.can_locate(b"AC"));
    c.indel_cost = usize::MAX;
    let aligner = Aligner::new(&c, b"").unwrap();
    assert!(aligner.can_locate(b""));
    assert!(!aligner.can_locate(b"A"));
}

fn text(matrix: &DPMatrix) -> String {
    String::from_utf8(matrix.to_text()).unwrap()
}

#[test]
fn text_of_the_kept_matrix() {
    let mut aligner = Aligner::new(&local(0.0), b"CACCA").unwrap();
    aligner.enable_debug();
    aligner.locate(b"GACCACCATTA");
    let expected = [
        "      G  A  C  C  A  C  C  A  T  T  A",
        "   0  0  0  0  0  0  0  0  0         ",
        "C  0  1  1  0  0  1  0  0  1         ",
        "A  0  1        1  0  1  1  0         ",
        "C  0  1              0  1  1         ",
        "C  0  1                 0  1         ",
        "A  0  1                    0         ",
    ];
    assert_eq!(text(aligner.dpmatrix().as_ref().unwrap()), expected.join("\n"));
}

#[test]
fn text_of_costs_of_any_width() {
    let mut matrix = DPMatrix::new(&[b'a', 255], &[b'A', 200]);
    matrix.set_entry(0, 1, 7);
    matrix.set_entry(1, 0, 123);
    matrix.set_entry(1, 2, 10);
    // Letters beyond ASCII take two bytes and one column.
    assert_eq!(text(&matrix), "      A  \u{c8}\n      7   \na 123    10\n\u{ff}         ");
    matrix.set_entry(2, 2, usize::MAX);
    assert!(text(&matrix).ends_with(&format!("       {}", usize::MAX)));
}

#[test]
fn text_of_an_empty_matrix() {
    assert_eq!(text(&DPMatrix::new(b"", b"")), "     \n    ");
    assert_eq!(text(&DPMatrix::new(b"AC", b"")), "     \n    \nA   \nC   ");
    assert_eq!(text(&DPMatrix::new(b"", b"AC")), "      A  C\n          ");
}

#[test]
fn configurations_compare_field_by_field() {
    let low = local(0.1);
    let high = local(0.25);
    assert!(low < high);
    assert!(low == local(0.1));
    assert!(low != high);
    let mut longer = low;
    longer.min_overlap = 3;
    assert!(low < longer && longer < high);
    let global = conf(0.1, AlignEnds::Global, AlignEnds::Local, AlignMatching::NoWildcard);
    assert!(global < low);
}
