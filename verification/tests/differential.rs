use trimrs::align::{AlignEnds, AlignMatching, Aligner, AlignerConf};
use trimrs::rate::ErrorRate;

/// A small generator of numbers that look random.
struct Lcg(u64);

impl Lcg {
    fn next(&mut self) -> u64 {
        self.0 = self.0.wrapping_mul(6364136223846793005).wrapping_add(1442695040888963407);
        self.0 >> 33
    }

    fn below(&mut self, bound: u64) -> usize {
        (self.next() % bound) as usize
    }

    fn pick<T: Copy>(&mut self, items: &[T]) -> T {
        items[self.below(items.len() as u64)]
    }

    fn text(&mut self, len: usize, alphabet: &[u8]) -> Vec<u8> {
        (0..len).map(|_| self.pick(alphabet)).collect()
    }
}

const ENDS: [AlignEnds; 4] =
    [AlignEnds::Global, AlignEnds::LocalStart, AlignEnds::LocalStop, AlignEnds::Local];

const MATCHING: [AlignMatching; 3] =
    [AlignMatching::NoWildcard, AlignMatching::RefWildcard, AlignMatching::QueryWildcard];

type Found = Option<(usize, usize, usize, usize, usize, usize)>;

type Grid = Vec<Vec<Option<usize>>>;

fn plain(c: u8) -> u8 {
    match c.to_ascii_uppercase() {
        b'A' => 1,
        b'C' => 2,
        b'G' => 4,
        b'T' | b'U' => 8,
        _ => 0,
    }
}

fn wild(c: u8) -> u8 {
    match c.to_ascii_uppercase() {
        b'R' => 1 | 4,
        b'Y' => 2 | 8,
        b'S' => 2 | 4,
        b'W' => 1 | 8,
        b'K' => 4 | 8,
        b'M' => 1 | 2,
        b'B' => 2 | 4 | 8,
        b'D' => 1 | 4 | 8,
        b'H' => 1 | 2 | 8,
        b'V' => 1 | 2 | 4,
        b'N' => 15,
        _ => plain(c),
    }
}

/// The search written out with floating-point rates and signed numbers: the
/// alignment it finds, and every cost it computes.
fn search(
    reference: &[u8],
    query: &[u8],
    rate: f64,
    reference_ends: AlignEnds,
    query_ends: AlignEnds,
    matching: AlignMatching,
    indel: i64,
    min_overlap: i64,
) -> (Found, Grid) {
    let m = reference.len() as i64;
    let n = query.len() as i64;
    let ref_wild = matching == AlignMatching::RefWildcard;
    let s1: Vec<u8> = reference.iter().map(|&c| if ref_wild { wild(c) } else { plain(c) }).collect();
    let s2: Vec<u8> = query
        .iter()
        .map(|&c| if matching == AlignMatching::QueryWildcard { wild(c) } else { plain(c) })
        .collect();
    let n_upto = |i: i64| reference[..i as usize].iter().filter(|&&c| c == b'N' || c == b'n').count() as i64;
    let whole = if ref_wild { m - n_upto(m) } else { m };
    let k = (rate * m as f64).floor() as i64;
    let max_n = if query_ends.start_local() { n } else { n.min(m + k) };
    let min_n = if query_ends.stop_local() { 0 } else { (n - m - k).max(0) };
    // An origin above zero is a start in the query, one below a start in the
    // reference.
    let mut column: Vec<(i64, i64, i64)> = (0..=m)
        .map(|i| match (reference_ends.start_local(), query_ends.start_local()) {
            (false, false) => (i.max(min_n) * indel, 0, 0),
            (true, false) => (min_n * indel, 0, (min_n - i).min(0)),
            (false, true) => (i * indel, 0, (min_n - i).max(0)),
            (true, true) => (i.min(min_n) * indel, 0, min_n - i),
        })
        .collect();
    let mut grid: Grid = vec![vec![None; n as usize + 1]; m as usize + 1];
    for i in 0..=m as usize {
        grid[i][min_n as usize] = Some(column[i].0 as usize);
    }
    // cost, matches, origin, ref_stop, query_stop
    let mut best = (m + n, 0, 0, m, n);
    let mut last = if reference_ends.start_local() { m } else { m.min(k + 1) };
    let mut j = min_n + 1;
    while j <= max_n {
        let mut diag = column[0];
        if query_ends.start_local() {
            column[0].2 = j;
        } else {
            column[0].0 = j * indel;
        }
        for i in 1..=last as usize {
            let entry = if s1[i - 1] & s2[j as usize - 1] != 0 {
                (diag.0, diag.1 + 1, diag.2)
            } else {
                let cost_diag = diag.0 + 1;
                let cost_deletion = column[i].0 + indel;
                let cost_insertion = column[i - 1].0 + indel;
                if cost_diag <= cost_deletion && cost_diag <= cost_insertion {
                    (cost_diag, diag.1, diag.2)
                } else if cost_insertion < cost_deletion {
                    (cost_insertion, column[i - 1].1, column[i - 1].2)
                } else {
                    (cost_deletion, column[i].1, column[i].2)
                }
            };
            diag = column[i];
            column[i] = entry;
        }
        for i in 0..=last as usize {
            grid[i][j as usize] = Some(column[i].0 as usize);
        }
        while last >= 0 && column[last as usize].0 > k {
            last -= 1;
        }
        if last < m {
            last += 1;
        } else if query_ends.stop_local() {
            let (cost, matches, origin) = column[m as usize];
            let length = m + origin.min(0);
            let effective = if ref_wild && length < m { length - n_upto(length) } else if ref_wild { whole } else { length };
            if length >= min_overlap
                && cost as f64 <= effective as f64 * rate
                && (matches > best.1 || (matches == best.1 && cost < best.0))
            {
                best = (cost, matches, origin, m, j);
                if cost == 0 && matches == m {
                    break;
                }
            }
        }
        j += 1;
    }
    if max_n == n {
        let first = if reference_ends.stop_local() { 0 } else { m };
        for i in first..=m {
            let (cost, matches, origin) = column[i as usize];
            let length = i + origin.min(0);
            let effective = if ref_wild && length < m {
                let start = (-origin).max(0);
                length - (n_upto(i) - n_upto(start))
            } else if ref_wild {
                whole
            } else {
                length
            };
            if length >= min_overlap
                && cost as f64 <= effective as f64 * rate
                && (matches > best.1 || (matches == best.1 && cost < best.0))
            {
                best = (cost, matches, origin, i, n);
            }
        }
    }
    if best.0 == m + n {
        return (None, grid);
    }
    let (cost, matches, origin, ref_stop, query_stop) = best;
    let found = (
        (-origin).max(0) as usize,
        ref_stop as usize,
        origin.max(0) as usize,
        query_stop as usize,
        matches as usize,
        cost as usize,
    );
    (Some(found), grid)
}

fn located(aligner: &mut Aligner, query: &[u8]) -> Found {
    assert!(aligner.can_locate(query));
    aligner.locate(query).map(|l| {
        (l.refstart(), l.refstop(), l.querystart(), l.querystop(), l.matches(), l.errors())
    })
}

fn kept(aligner: &Aligner) -> Grid {
    let matrix = aligner.dpmatrix().as_ref().unwrap();
    (0..matrix.height())
        .map(|i| (0..matrix.width(i)).map(|j| matrix.entry(i, j)).collect())
        .collect()
}

struct Case {
    reference: Vec<u8>,
    query: Vec<u8>,
    conf: AlignerConf,
    rate: f64,
}

fn random_case(gen: &mut Lcg, longest: u64, rates: &[f64]) -> Case {
    let alphabets: [&[u8]; 6] = [b"ACGT", b"ACGTN", b"AC", b"ACN", b"ACGTNRYacgtn", b"AN"];
    let alphabet = gen.pick(&alphabets);
    let m = gen.below(longest) + 1;
    let n = gen.below(longest + longest / 2);
    let reference = gen.text(m, alphabet);
    let mut query = gen.text(n, alphabet);
    if n > 0 && gen.below(10) < 6 {
        // Plant a part of the reference in the query.
        let len = gen.below(m.min(n) as u64) + 1;
        let at = gen.below((n - len) as u64 + 1);
        let from = gen.below((m - len) as u64 + 1);
        query[at..at + len].copy_from_slice(&reference[from..from + len]);
    }
    let rate = gen.pick(rates);
    let conf = AlignerConf {
        max_error_rate: ErrorRate::from_bits(rate.to_bits()).unwrap(),
        reference_ends: gen.pick(&ENDS),
        query_ends: gen.pick(&ENDS),
        matching: gen.pick(&MATCHING),
        indel_cost: gen.pick(&[1, 1, 1, 2, 3]),
        min_overlap: gen.pick(&[1, 1, 2, 3, 5]),
    };
    Case { reference, query, conf, rate }
}

fn by_floats(case: &Case) -> (Found, Grid) {
    search(
        &case.reference,
        &case.query,
        case.rate,
        case.conf.reference_ends,
        case.conf.query_ends,
        case.conf.matching,
        case.conf.indel_cost as i64,
        case.conf.min_overlap as i64,
    )
}

const RATES: [f64; 16] = [
    0.0, 0.05, 0.1, 0.15, 0.2, 0.25, 0.3, 1.0 / 3.0, 0.34, 0.4, 0.5, 0.57, 0.6, 0.7, 0.75, 1.0,
];

#[test]
fn agrees_with_the_search_in_floats() {
    let mut gen = Lcg(1);
    let mut found = 0;
    for _ in 0..60_000 {
        let case = random_case(&mut gen, 12, &RATES);
        let Ok(mut aligner) = Aligner::new(&case.conf, &case.reference) else {
            continue;
        };
        let got = located(&mut aligner, &case.query);
        assert_eq!(got, by_floats(&case).0, "{:?} {:?} {:?}", case.reference, case.query, case.conf);
        found += got.is_some() as usize;
    }
    assert!(found > 10_000);
}

#[test]
fn agrees_with_the_search_in_floats_on_long_reads() {
    let mut gen = Lcg(2);
    for _ in 0..3_000 {
        let case = random_case(&mut gen, 70, &RATES);
        let Ok(mut aligner) = Aligner::new(&case.conf, &case.reference) else {
            continue;
        };
        let got = located(&mut aligner, &case.query);
        assert_eq!(got, by_floats(&case).0, "{:?} {:?} {:?}", case.reference, case.query, case.conf);
    }
}

#[test]
fn agrees_with_the_search_in_floats_above_rate_one() {
    let mut gen = Lcg(3);
    for _ in 0..20_000 {
        let case = random_case(&mut gen, 10, &[1.25, 1.5, 2.0, 3.3, 10.0]);
        let Ok(mut aligner) = Aligner::new(&case.conf, &case.reference) else {
            continue;
        };
        let got = located(&mut aligner, &case.query);
        assert_eq!(got, by_floats(&case).0, "{:?} {:?} {:?}", case.reference, case.query, case.conf);
    }
}

#[test]
fn kept_matrix_agrees_with_the_search_in_floats() {
    let mut gen = Lcg(4);
    for _ in 0..20_000 {
        let case = random_case(&mut gen, 10, &RATES);
        let Ok(mut aligner) = Aligner::new(&case.conf, &case.reference) else {
            continue;
        };
        aligner.enable_debug();
        let got = located(&mut aligner, &case.query);
        let (found, grid) = by_floats(&case);
        assert_eq!(got, found);
        assert_eq!(kept(&aligner), grid, "{:?} {:?} {:?}", case.reference, case.query, case.conf);
    }
}

#[test]
fn result_does_not_depend_on_earlier_queries() {
    let mut gen = Lcg(5);
    for _ in 0..5_000 {
        let case = random_case(&mut gen, 12, &RATES);
        let other = random_case(&mut gen, 12, &RATES);
        let Ok(mut aligner) = Aligner::new(&case.conf, &case.reference) else {
            continue;
        };
        let first = located(&mut aligner, &case.query);
        located(&mut aligner, &other.query);
        aligner.enable_debug();
        assert_eq!(located(&mut aligner, &case.query), first);
        let mut fresh = Aligner::new(&case.conf, &case.reference).unwrap();
        assert_eq!(located(&mut fresh, &case.query), first);
    }
}

#[test]
fn window_is_never_empty_and_starts_at_an_end() {
    let mut gen = Lcg(6);
    for _ in 0..40_000 {
        let case = random_case(&mut gen, 12, &[0.0, 0.1, 0.3, 0.5, 1.0, 2.5]);
        let Ok(mut aligner) = Aligner::new(&case.conf, &case.reference) else {
            continue;
        };
        if let Some((refstart, refstop, querystart, querystop, matches, _)) =
            located(&mut aligner, &case.query)
        {
            assert!(refstop > refstart);
            assert!(refstart.min(querystart) == 0);
            assert!(refstop <= case.reference.len());
            assert!(querystart <= querystop && querystop <= case.query.len());
            assert!(matches <= case.query.len() && matches <= case.reference.len());
            assert!(refstop - refstart >= case.conf.min_overlap);
        }
    }
}

#[test]
fn raising_the_rate_up_to_one_loses_no_alignment() {
    let mut gen = Lcg(7);
    for _ in 0..8_000 {
        let mut case = random_case(&mut gen, 12, &RATES);
        let mut before: Option<f64> = None;
        for rate in RATES {
            case.conf.max_error_rate = ErrorRate::from_bits(rate.to_bits()).unwrap();
            let Ok(mut aligner) = Aligner::new(&case.conf, &case.reference) else {
                break;
            };
            match located(&mut aligner, &case.query) {
                Some(_) => before = before.or(Some(rate)),
                None => assert!(
                    before.is_none(),
                    "{:?} {:?} {:?} found at {:?}",
                    case.reference,
                    case.query,
                    case.conf,
                    before
                ),
            }
        }
    }
}
