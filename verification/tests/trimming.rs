use trimrs::pipeline::{Pipeline, PipelineConf, QualTrimEndConf, QualTrimStartConf};
use trimrs::qual_trim::{QualTrimEnd, QualTrimStart};
use trimrs::trimming::Trimming;

#[test]
fn new_read_keeps_everything() {
    let read = Trimming::new(b"read1", b"ACGTACGT", Some(b"IIIIIIII"));
    assert_eq!(read.len_curr(), 8);
    assert_eq!(read.seq_curr(), b"ACGTACGT");
    assert_eq!(read.qual_curr(), Some(&b"IIIIIIII"[..]));
    assert_eq!(read.seq_raw(), b"ACGTACGT");
    assert_eq!(read.qual_raw(), Some(&b"IIIIIIII"[..]));
    assert_eq!(read.name_raw(), b"read1");
}

#[test]
fn read_without_qualities() {
    let read = Trimming::new(b"r", b"ACGT", None);
    assert_eq!(read.qual_curr(), None);
    assert_eq!(read.qual_raw(), None);
    assert_eq!(read.len_curr(), 4);
}

#[test]
fn trim_from_start_moves_the_window() {
    let mut read = Trimming::new(b"r", b"ACGTACGT", Some(b"01234567"));
    assert_eq!(read.trim_from_start(3), 3);
    assert_eq!(read.seq_curr(), b"TACGT");
    assert_eq!(read.qual_curr(), Some(&b"34567"[..]));
    assert_eq!(read.len_curr(), 5);
    assert_eq!(read.seq_raw(), b"ACGTACGT");
}

#[test]
fn trim_from_end_shortens_the_window() {
    let mut read = Trimming::new(b"r", b"ACGTACGT", Some(b"01234567"));
    assert_eq!(read.trim_from_end(2), 2);
    assert_eq!(read.seq_curr(), b"ACGTAC");
    assert_eq!(read.qual_curr(), Some(&b"012345"[..]));
    assert_eq!(read.trim_from_start(1), 1);
    assert_eq!(read.seq_curr(), b"CGTAC");
}

#[test]
fn trimming_stops_at_nothing_left() {
    let mut read = Trimming::new(b"r", b"ACGT", None);
    assert_eq!(read.trim_from_start(3), 3);
    assert_eq!(read.trim_from_end(5), 1);
    assert_eq!(read.len_curr(), 0);
    assert_eq!(read.seq_curr(), b"");
    assert_eq!(read.trim_from_start(1), 0);
    assert_eq!(read.trim_from_end(usize::MAX), 0);

    let mut read = Trimming::new(b"r", b"ACGT", None);
    assert_eq!(read.trim_from_start(usize::MAX), 4);
    assert_eq!(read.len_curr(), 0);
}

#[test]
fn clone_keeps_the_window() {
    let mut read = Trimming::new(b"r", b"ACGTACGT", None);
    read.trim_from_start(2);
    let copy = read.clone();
    read.trim_from_end(2);
    assert_eq!(copy.seq_curr(), b"GTACGT");
    assert_eq!(read.seq_curr(), b"GTAC");
}

#[test]
fn quality_trim_end_of_the_published_example() {
    // Qualities less the threshold 10: 32, 30, 16, 17, -2, -3, 1, -6, -8, -7.
    // Sums from the end: (70), (38), 8, -8, -25, -23, -20, -21, -15, -7.
    let quals = [42, 40, 26, 27, 8, 7, 11, 4, 2, 3];
    assert_eq!(QualTrimEnd::new(10).remaining(&quals), 4);
    assert_eq!(QualTrimEnd::new(0).remaining(&quals), 10);
    assert_eq!(QualTrimEnd::new(255).remaining(&quals), 0);
}

#[test]
fn quality_trim_takes_the_longest_of_equal_regions() {
    // Sums from the end: 0, -1, 0, -1: the lowest sum is reached twice.
    assert_eq!(QualTrimEnd::new(10).remaining(&[9, 11, 9, 11, 9]), 0);
    assert_eq!(QualTrimEnd::new(10).remaining(&[30, 9, 11, 9]), 1);
    assert_eq!(QualTrimStart::new(10).remaining(&[9, 11, 9, 30]), 3);
    // A sum of zero counts as low.
    assert_eq!(QualTrimEnd::new(10).remaining(&[10, 10, 10]), 0);
    assert_eq!(QualTrimStart::new(10).remaining(&[10, 10, 10]), 3);
}

#[test]
fn quality_trim_with_any_threshold() {
    assert_eq!(QualTrimEnd::with_threshold(-1).remaining(&[0, 0, 0]), 3);
    assert_eq!(QualTrimEnd::with_threshold(300).remaining(&[255, 255]), 0);
    assert_eq!(QualTrimStart::with_threshold(isize::MAX).remaining(&[255; 40]), 40);
    assert_eq!(QualTrimStart::with_threshold(isize::MIN).remaining(&[0; 40]), 0);
    assert_eq!(QualTrimEnd::with_threshold(isize::MAX).remaining(&[255; 40]), 0);
    assert_eq!(QualTrimEnd::with_threshold(isize::MIN).remaining(&[0; 40]), 40);
    assert_eq!(QualTrimEnd::new(7).threshold_value(), 7);
    assert_eq!(QualTrimStart::with_threshold(-3).threshold_value(), -3);
}

#[test]
fn trim_start_drops_the_low_quality_prefix() {
    let quals = [3, 2, 4, 11, 7, 8, 27, 26, 40, 42];
    let mut read = Trimming::new(b"r", b"ACGTACGTAC", Some(&quals));
    QualTrimStart::new(10).trim(&mut read);
    assert_eq!(read.len_curr(), 4);
    assert_eq!(read.seq_curr(), b"GTAC");
    assert_eq!(read.qual_curr(), Some(&quals[6..]));
}

#[test]
fn trim_end_trims_by_the_remaining_length() {
    let quals = [42, 40, 26, 27, 8, 7, 11, 4, 2, 3];
    let mut read = Trimming::new(b"r", b"ACGTACGTAC", Some(&quals));
    QualTrimEnd::new(10).trim(&mut read);
    assert_eq!(read.len_curr(), 6);
    assert_eq!(read.seq_curr(), b"ACGTAC");
}

#[test]
fn trim_leaves_a_read_without_qualities() {
    let mut read = Trimming::new(b"r", b"ACGT", None);
    QualTrimEnd::new(10).trim(&mut read);
    QualTrimStart::new(10).trim(&mut read);
    assert_eq!(read.seq_curr(), b"ACGT");
}

#[test]
fn trim_looks_at_the_kept_qualities_only() {
    let quals = [2, 2, 30, 30, 30, 2];
    let mut read = Trimming::new(b"r", b"ACGTAC", Some(&quals));
    read.trim_from_start(2);
    QualTrimStart::new(10).trim(&mut read);
    assert_eq!(read.seq_curr(), b"GTAC");
}

#[test]
fn configured_steps_have_the_threshold() {
    let end = QualTrimEndConf::new(20);
    let start = QualTrimStartConf::new(15);
    assert_eq!(end.threshold_value(), 20);
    assert_eq!(start.threshold_value(), 15);
    assert_eq!(end.qual_trim_end(), QualTrimEnd::new(20));
    assert_eq!(start.qual_trim_start(), QualTrimStart::new(15));
    let conf = PipelineConf::new(start.clone(), end.clone());
    assert_eq!(conf.qual_trim_start_conf(), &start);
    assert_eq!(conf.qual_trim_end_conf(), &end);
}

#[test]
fn pipeline_trims_start_then_end() {
    let quals = [3, 2, 30, 30, 30, 30, 30, 30, 2, 2];
    let pipeline = Pipeline::new(Some(QualTrimStart::new(10)), Some(QualTrimEnd::new(10)));
    let mut read = Trimming::new(b"r", b"ACGTACGTAC", Some(&quals));
    pipeline.process(&mut read);
    // Two bases go at the start; of the eight that are left, six remain
    // once the end is dropped, and that many are taken from the end.
    assert_eq!(read.seq_curr(), b"GT");

    let mut expected = Trimming::new(b"r", b"ACGTACGTAC", Some(&quals));
    QualTrimStart::new(10).trim(&mut expected);
    QualTrimEnd::new(10).trim(&mut expected);
    assert_eq!(read.seq_curr(), expected.seq_curr());
    assert_eq!(read.len_curr(), expected.len_curr());
}

#[test]
fn pipeline_without_steps_changes_nothing() {
    let pipeline = Pipeline::new(None, None);
    assert!(pipeline.qual_trim_start().is_none());
    assert!(pipeline.qual_trim_end().is_none());
    let mut read = Trimming::new(b"r", b"ACGT", Some(b"!!!!"));
    pipeline.process(&mut read);
    assert_eq!(read.seq_curr(), b"ACGT");
}

#[test]
fn pipeline_with_one_step() {
    let quals = [3, 2, 30, 30];
    let pipeline = Pipeline::new(Some(QualTrimStart::new(10)), None);
    let mut read = Trimming::new(b"r", b"ACGT", Some(&quals));
    pipeline.process(&mut read);
    assert_eq!(read.seq_curr(), b"GT");
}
