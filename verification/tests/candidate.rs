use procmem::common::OffsetType;
use procmem::scan::candidate::{sort_candidates, ScannerCandidate};

fn cand(offset: u64, length: usize, resolved: bool, start_offset: Option<u64>) -> ScannerCandidate {
    ScannerCandidate {
        offset: OffsetType::new_unwrap(offset),
        length,
        resolved,
        start_offset: start_offset.map(OffsetType::new_unwrap),
    }
}

#[test]
fn test_scanner_candidate_construction() {
    let candidate = ScannerCandidate::normal(OffsetType::new_unwrap(10));
    assert_eq!(
        candidate,
        ScannerCandidate {
            offset: OffsetType::new_unwrap(10),
            length: 1,
            resolved: false,
            start_offset: None
        }
    );

    let candidate = ScannerCandidate::resolved(OffsetType::new_unwrap(20), Some(12));
    assert_eq!(
        candidate,
        ScannerCandidate {
            offset: OffsetType::new_unwrap(20),
            length: 12,
            resolved: true,
            start_offset: None
        }
    );

    let candidate = ScannerCandidate::partial(OffsetType::new_unwrap(11), 5);
    assert_eq!(
        candidate,
        ScannerCandidate {
            offset: OffsetType::new_unwrap(11),
            length: 5,
            resolved: false,
            start_offset: Some(OffsetType::new_unwrap(15))
        }
    );

    let candidate = ScannerCandidate::partial_resolved(OffsetType::new_unwrap(10), 2);
    assert_eq!(
        candidate,
        ScannerCandidate {
            offset: OffsetType::new_unwrap(10),
            length: 2,
            resolved: true,
            start_offset: Some(OffsetType::new_unwrap(11))
        }
    );
}

#[test]
fn test_scanner_candidate_sort() {
    let mut candidates = [
        cand(2, 2, false, None),
        cand(2, 1, false, None),
        cand(1, 3, false, Some(1)),
        cand(1, 2, false, None),
    ];

    candidates.sort();

    assert_eq!(
        candidates,
        [
            cand(1, 2, false, None),
            cand(1, 3, false, Some(1)),
            cand(2, 1, false, None),
            cand(2, 2, false, None),
        ]
    );
}

#[test]
fn sort_candidates_orders_by_offset_start_and_length() {
    let mut candidates = vec![
        cand(2, 2, false, None),
        cand(2, 1, false, None),
        cand(1, 3, false, Some(1)),
        cand(1, 2, true, None),
        cand(1, 2, false, None),
        cand(1, 1, false, Some(4)),
        cand(1, 9, false, Some(2)),
    ];
    let mut expected = candidates.clone();
    // a stable sort by the three keys: `resolved` has no part in the order
    expected.sort_by_key(|c| (c.offset, c.start_offset, c.length));
    sort_candidates(&mut candidates);
    assert_eq!(candidates, expected);
    assert_eq!(
        candidates,
        vec![
            cand(1, 2, true, None),
            cand(1, 2, false, None),
            cand(1, 3, false, Some(1)),
            cand(1, 9, false, Some(2)),
            cand(1, 1, false, Some(4)),
            cand(2, 1, false, None),
            cand(2, 2, false, None),
        ]
    );
    for pair in candidates.windows(2) {
        assert!(pair[0].precedes(&pair[1]));
    }
}

#[test]
fn precedes_does_not_look_at_resolved() {
    let resolved = cand(1, 2, true, None);
    let unresolved = cand(1, 2, false, None);
    assert!(resolved.precedes(&unresolved));
    assert!(unresolved.precedes(&resolved));
    assert!(cand(1, 2, true, None).precedes(&cand(1, 3, false, Some(1))));
    assert!(!cand(1, 3, false, Some(1)).precedes(&cand(1, 2, true, None)));
    assert!(cand(1, 3, false, Some(1)).precedes(&cand(2, 1, false, None)));
    assert!(cand(2, 1, true, None).precedes(&cand(2, 2, false, None)));
    assert!(!cand(2, 2, false, None).precedes(&cand(2, 1, true, None)));
    assert!(cand(1, 9, false, Some(2)).precedes(&cand(1, 1, true, Some(4))));
}

#[test]
fn candidate_test_scanner_candidate_merge() {
    let values = [
        cand(1, 2, false, None),
        cand(1, 3, false, Some(1)),
        cand(2, 1, false, None),
        cand(2, 2, true, None),
    ];

    let result = ScannerCandidate::merge_sorted(values.to_vec());

    assert_eq!(result, &[cand(1, 3, false, None), cand(2, 2, true, None)]);
}

#[test]
fn test_scanner_candidate_merge_start() {
    // 8  9  10  11
    // 1  2   3   4
    // ^------^ left
    //            ^ right
    let mut left = cand(8, 3, false, None);
    let right = cand(8, 4, false, Some(10));

    left.try_merge_mut(right).unwrap();

    assert_eq!(left, cand(8, 4, false, None));
}

#[test]
fn test_scanner_candidate_merge_middle() {
    // 8  9  10  11
    // 1  2   3   4
    //    ^---^ left
    //            ^ right
    let mut left = cand(8, 3, false, Some(9));
    let right = cand(8, 4, true, Some(11));

    left.try_merge_mut(right).unwrap();

    assert_eq!(left, cand(8, 4, true, Some(9)));
}

#[test]
fn test_scanner_candidate_merge_end() {
    // 8  9  10  11
    // 1  2   3   4
    //    ^ left
    //        ^---^ right
    let mut left = cand(8, 2, false, Some(9));
    let right = cand(8, 4, true, Some(10));

    left.try_merge_mut(right).unwrap();

    assert_eq!(left, cand(8, 4, true, Some(9)));
}

#[test]
fn candidate_test_scanner_candidate_merge_err() {
    let mut left = cand(9, 2, false, Some(10));
    let right = cand(8, 4, true, Some(12));
    left.try_merge_mut(right).unwrap_err();
    assert_eq!(left.length, 2);

    let mut left = cand(8, 2, false, None);
    let right = cand(8, 4, true, Some(12));
    left.try_merge_mut(right).unwrap_err();
    assert_eq!(left.length, 2);
}

#[test]
fn candidate_accessors_and_growth() {
    let mut c = ScannerCandidate::normal(OffsetType::new_unwrap(40));
    assert!(!c.is_partial());
    assert!(!c.is_resolved());
    assert_eq!(c.offset().get(), 40);
    assert_eq!(c.length(), 1);
    assert_eq!(c.start_offset().get(), 40);
    assert_eq!(c.end_offset().get(), 41);
    c.advance();
    assert_eq!(c.length(), 2);
    assert_eq!(c.end_offset().get(), 42);
    c.resolve();
    assert_eq!(c, cand(40, 3, true, None));

    let p = ScannerCandidate::partial(OffsetType::new_unwrap(40), 4);
    assert!(p.is_partial());
    assert_eq!(p.start_offset().get(), 43);
    assert_eq!(p.end_offset().get(), 44);

    let far = cand(u64::MAX - 1, 5, false, None);
    assert_eq!(far.end_offset().get(), u64::MAX);
}

#[test]
fn candidate_merge_is_associative() {
    let a = cand(8, 2, false, None);
    let b = cand(8, 3, false, Some(10));
    let c = cand(8, 4, true, Some(11));

    let mut left = a;
    left.try_merge_mut(b).unwrap();
    left.try_merge_mut(c).unwrap();

    let mut inner = b;
    inner.try_merge_mut(c).unwrap();
    let mut right = a;
    right.try_merge_mut(inner).unwrap();

    assert_eq!(left, right);
    assert_eq!(left, cand(8, 4, true, None));
}

#[test]
fn test_scanner_candidate_merge() {
    let mut left = cand(10, 2, false, Some(10));
    let right = cand(10, 4, false, Some(12));

    left.try_merge_mut(right).unwrap();

    assert_eq!(left.length, 4);
}

#[test]
fn test_scanner_candidate_merge_err() {
    let mut left = cand(11, 2, false, Some(10));
    let right = cand(10, 4, false, Some(12));
    left.try_merge_mut(right).unwrap_err();
    assert_eq!(left.length, 2);

    let mut left = cand(10, 2, false, Some(10));
    let right = cand(10, 4, false, Some(13));
    left.try_merge_mut(right).unwrap_err();
    assert_eq!(left.length, 2);
}
