use trimrs::qual_trim::{QualTrimEnd, QualTrimStart};

#[test]
fn quality_trim_end() {
    let qual_trim = QualTrimEnd::new(10);

    assert_eq!(qual_trim.remaining(&vec![]), 0);

    assert_eq!(qual_trim.remaining(&vec![9]), 0);
    assert_eq!(qual_trim.remaining(&vec![10]), 0);
    assert_eq!(qual_trim.remaining(&vec![11]), 1);

    assert_eq!(qual_trim.remaining(&vec![20, 20, 9]), 2);
    assert_eq!(qual_trim.remaining(&vec![20, 20, 10]), 2);
    assert_eq!(qual_trim.remaining(&vec![20, 20, 11]), 3);

    assert_eq!(qual_trim.remaining(&vec![20, 20, 9, 20]), 4);
    assert_eq!(qual_trim.remaining(&vec![20, 20, 10, 20]), 4);
    assert_eq!(qual_trim.remaining(&vec![20, 20, 11, 20]), 4);

    assert_eq!(qual_trim.remaining(&vec![20, 20, 10, 9, 10]), 2);
    assert_eq!(qual_trim.remaining(&vec![20, 20, 11, 9, 10]), 3);
    assert_eq!(qual_trim.remaining(&vec![20, 20, 11, 9, 9]), 3);

    assert_eq!(qual_trim.remaining(&vec![20, 20, 9, 11, 9, 10]), 2);

    assert_eq!(qual_trim.remaining(&vec![20, 20, 9, 12, 9, 10]), 4);

    assert_eq!(qual_trim.remaining(&vec![42, 40, 26, 27, 8, 7, 11, 4, 2, 3]), 4);
}

#[test]
fn quality_trim_start() {
    let qual_trim = QualTrimStart::new(10);

    assert_eq!(qual_trim.remaining(&vec![]), 0);

    assert_eq!(qual_trim.remaining(&vec![9]), 1);
    assert_eq!(qual_trim.remaining(&vec![10]), 1);
    assert_eq!(qual_trim.remaining(&vec![11]), 0);

    assert_eq!(qual_trim.remaining(&vec![9, 20, 20]), 1);
    assert_eq!(qual_trim.remaining(&vec![10, 20, 20]), 1);
    assert_eq!(qual_trim.remaining(&vec![11, 20, 20]), 0);

    assert_eq!(qual_trim.remaining(&vec![20, 9, 20, 20]), 0);
    assert_eq!(qual_trim.remaining(&vec![20, 10, 20, 20]), 0);
    assert_eq!(qual_trim.remaining(&vec![20, 11, 20, 20]), 0);

    assert_eq!(qual_trim.remaining(&vec![10, 9, 10, 20, 20]), 3);
    assert_eq!(qual_trim.remaining(&vec![10, 9, 11, 20, 20]), 2);
    assert_eq!(qual_trim.remaining(&vec![9, 9, 11, 20, 20]), 2);

    assert_eq!(qual_trim.remaining(&vec![10, 9, 11, 9, 20, 20]), 4);

    assert_eq!(qual_trim.remaining(&vec![10, 9, 12, 9, 20, 20]), 2);

    assert_eq!(qual_trim.remaining(&vec![3, 2, 4, 11, 7, 8, 27, 26, 40, 42]), 6);
}
