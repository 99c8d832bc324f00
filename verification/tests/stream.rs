use procmem::common::OffsetType;
use procmem::scan::predicate::value::{ByteComparable, ValuePredicate};
use procmem::scan::stream::{StreamScanner, StreamScannerIter};

fn at(offset: u64) -> OffsetType {
    OffsetType::new_unwrap(offset)
}

#[test]
fn test_stream_scanner() {
    let data = b"Hello There";

    let predicate = ValuePredicate::new(data.to_vec(), true);
    let mut scanner = StreamScanner::new(predicate);
    let found: Vec<_> = scanner.scan_once(at(1), data);

    assert_eq!(found, &[(at(1), data.len())]);
}

#[test]
fn test_stream_scanner_single_byte() {
    let data = 15u8;

    let predicate = ValuePredicate::new(data, true);
    let mut scanner = StreamScanner::new(predicate);
    let found: Vec<_> = scanner.scan_once(at(1), &[data]);

    assert_eq!(found, &[(at(1), 1)]);
}

#[test]
fn test_stream_scanner_multiple() {
    let data = vec![2u64, 1, 0, 1, 0, 1, 0, 0, 1, 0, 1, 0, 2];

    let predicate = ValuePredicate::new(vec![1u64, 0, 1, 0], true);
    let mut scanner = StreamScanner::new(predicate);
    let found: Vec<_> = scanner.scan_once(at(8), &data.as_bytes());

    assert_eq!(found, &[(at(16), 32), (at(32), 32), (at(72), 32)]);
}

#[test]
fn test_stream_scanner_partial_multiple_pages_sorted() {
    let data = vec![2u64, 1, 0, 1, 0, 0, 0, 1, 0, 1, 0, 0, 1];
    let second_data = vec![0u64, 1, 0];

    let predicate = ValuePredicate::new(vec![1u64, 0, 1, 0], true);
    let mut scanner = StreamScanner::new(predicate);

    let mut found = Vec::new();
    found.extend(scanner.scan_partial(at(8), &data.as_bytes()));
    found.extend(scanner.scan_partial(at(112), &second_data.as_bytes()));

    assert_eq!(found, &[(at(16), 32), (at(64), 32), (at(104), 32)]);
}

#[test]
fn test_stream_scanner_partial_equals_once() {
    let data = [3u8, 4, 3, 4, 5, 6, 3, 4];
    let predicate = ValuePredicate::new(vec![3u8, 4], true);

    let mut scanner = StreamScanner::new(predicate);

    let found_scan_once: Vec<_> = scanner.scan_once(at(1), &data);

    let mut found_scan_partial = Vec::new();
    found_scan_partial.extend(scanner.scan_partial(at(4), &data[3..]));
    found_scan_partial.extend(scanner.scan_partial(at(1), &data[..3]));
    found_scan_partial.extend(scanner.resolve_partial());
    found_scan_partial.sort_unstable();

    assert_eq!(found_scan_once, found_scan_partial);
}

#[test]
fn test_stream_scanner_partial_merge() {
    let data = [3u8, 4, 3, 4, 5, 6, 3, 4];
    let predicate = ValuePredicate::new(vec![3u8, 4], true);

    let mut scanner_1 = StreamScanner::new(&predicate);
    let mut scanner_2 = StreamScanner::new(&predicate);
    let mut scanner_3 = StreamScanner::new(&predicate);

    let mut found_scan_partial = Vec::new();
    found_scan_partial.extend(scanner_1.scan_partial(at(4), &data[3..7]));
    found_scan_partial.extend(scanner_2.scan_partial(at(1), &data[..3]));
    found_scan_partial.extend(scanner_3.scan_partial(at(8), &data[7..]));

    scanner_2.merge_partial_mut(scanner_3);
    scanner_1.merge_partial_mut(scanner_2);
    found_scan_partial.extend(scanner_1.resolve_partial());
    found_scan_partial.sort_unstable();

    assert_eq!(found_scan_partial, &[(at(1), 2), (at(3), 2), (at(7), 2)]);
}

#[test]
fn scan_once_finds_each_pair() {
    let data = [3u8, 4, 3, 4, 5, 6, 3, 4];
    let mut scanner = StreamScanner::new(ValuePredicate::new(vec![3u8, 4], false));
    assert_eq!(scanner.scan_once(at(1), &data), vec![(at(1), 2), (at(3), 2), (at(7), 2)]);
    assert_eq!(scanner.pending(), 0);
}

#[test]
fn scan_once_overlapping_matches() {
    let mut scanner = StreamScanner::new(ValuePredicate::new(vec![1u8, 1, 1], false));
    let found = scanner.scan_once(at(10), &[1, 1, 1, 1, 1]);
    assert_eq!(found, vec![(at(10), 3), (at(11), 3), (at(12), 3)]);
}

#[test]
fn scan_once_single_byte_pattern() {
    let mut scanner = StreamScanner::new(ValuePredicate::new(0x7Fu8, false));
    let found = scanner.scan_once(at(100), &[0x7F, 0, 0x7F]);
    assert_eq!(found, vec![(at(100), 1), (at(102), 1)]);
}

#[test]
fn scan_once_respects_alignment() {
    let mut scanner = StreamScanner::new(ValuePredicate::new(vec![0x0101u16], true));
    // the pattern lies at every offset from 9 to 13, the even ones are legal
    let found = scanner.scan_once(at(9), &[1, 1, 1, 1, 1, 1]);
    assert_eq!(found, vec![(at(10), 2), (at(12), 2)]);
    for (offset, _) in found {
        assert_eq!(offset.get() % 2, 0);
    }
}

#[test]
fn scan_once_discards_an_unfinished_candidate() {
    let mut scanner = StreamScanner::new(ValuePredicate::new(vec![1u8, 2, 3], false));
    assert!(scanner.scan_once(at(1), &[0, 1, 2]).is_empty());
    assert_eq!(scanner.pending(), 0);
    // nothing is carried into the next scan
    assert!(scanner.scan_once(at(4), &[3]).is_empty());
}

#[test]
fn scan_partial_in_ascending_chunks_equals_scan_once() {
    let data = [1u8, 2, 1, 2, 1, 3, 1, 2, 1, 2, 1, 2, 1, 3, 0, 1, 2, 1, 3];
    let pattern = vec![1u8, 2, 1, 3];
    let mut once = StreamScanner::new(ValuePredicate::new(pattern.clone(), false));
    let expected = once.scan_once(at(1), &data);
    assert_eq!(expected, vec![(at(3), 4), (at(11), 4), (at(16), 4)]);

    for first in 0..=data.len() {
        for second in first..=data.len() {
            let mut scanner = StreamScanner::new(ValuePredicate::new(pattern.clone(), false));
            let mut found = Vec::new();
            found.extend(scanner.scan_partial(at(1), &data[..first]));
            found.extend(scanner.scan_partial(at(1 + first as u64), &data[first..second]));
            found.extend(scanner.scan_partial(at(1 + second as u64), &data[second..]));
            found.extend(scanner.resolve_partial());
            found.sort_unstable();
            assert_eq!(found, expected);
        }
    }
}

#[test]
fn scan_partial_keeps_and_reset_clears() {
    let mut scanner = StreamScanner::new(ValuePredicate::new(vec![1u8, 2, 3], false));
    assert!(scanner.scan_partial(at(1), &[0, 1, 2]).is_empty());
    assert_eq!(scanner.pending(), 1);
    assert_eq!(scanner.scan_partial(at(4), &[3]), vec![(at(2), 3)]);
    scanner.reset();
    assert_eq!(scanner.pending(), 0);
    assert!(scanner.scan_partial(at(9), &[]).is_empty());
    assert_eq!(scanner.pending(), 0);
}

#[test]
fn scan_iterator_hands_out_one_by_one() {
    let mut scanner = StreamScanner::new(ValuePredicate::new(vec![1u8, 1, 1], false));
    scanner.reset();
    let mut iter = StreamScannerIter::new(at(10), vec![1, 1, 1, 1, 1, 0, 1]);
    assert_eq!(iter.next(&mut scanner), Some((at(10), 3)));
    // the stream is read only as far as the match needed
    assert_eq!(scanner.pending(), 2);
    assert_eq!(iter.next(&mut scanner), Some((at(11), 3)));
    assert_eq!(iter.next(&mut scanner), Some((at(12), 3)));
    assert_eq!(iter.next(&mut scanner), None);
    assert_eq!(scanner.pending(), 0);
    assert_eq!(iter.next(&mut scanner), None);
}

#[test]
fn scan_iterator_buffers_matches_of_one_byte() {
    // a partial scan whose first byte completes nothing, then a match
    let mut scanner = StreamScanner::new(ValuePredicate::new(vec![3u8, 4], false));
    let mut iter = StreamScannerIter::new_partial(&mut scanner, at(4), vec![4, 3, 4, 3]);
    assert_eq!(scanner.pending(), 1);
    assert_eq!(iter.next(&mut scanner), Some((at(5), 2)));
    assert_eq!(iter.next(&mut scanner), None);
    // the open candidate and the partial one are kept
    assert_eq!(scanner.pending(), 2);
    let mut empty = StreamScannerIter::new_partial(&mut scanner, at(8), Vec::new());
    assert_eq!(empty.next(&mut scanner), None);
    assert_eq!(scanner.pending(), 2);
}

#[test]
fn partial_scans_in_any_order_find_the_same_after_merging() {
    let data = [3u8, 4, 3, 4, 5, 6, 3, 4];
    let predicate = ValuePredicate::new(vec![3u8, 4], false);
    let chunks: [(u64, &[u8]); 3] = [(4, &data[3..7]), (1, &data[..3]), (8, &data[7..])];
    let orders = [[0, 1, 2], [0, 2, 1], [1, 0, 2], [1, 2, 0], [2, 0, 1], [2, 1, 0]];
    for order in orders {
        let mut found = Vec::new();
        let mut merged = StreamScanner::new(&predicate);
        for index in order {
            let (offset, chunk) = chunks[index];
            let mut scanner = StreamScanner::new(&predicate);
            found.extend(scanner.scan_partial(at(offset), chunk));
            merged.merge_partial_mut(scanner);
        }
        found.extend(merged.resolve_partial());
        found.sort_unstable();
        assert_eq!(found, vec![(at(1), 2), (at(3), 2), (at(7), 2)]);
    }
}

#[test]
fn resolve_partial_keeps_what_did_not_complete() {
    let predicate = ValuePredicate::new(vec![1u8, 2, 3], false);
    let mut scanner = StreamScanner::new(predicate.clone());
    // the tail of a match whose head was never seen
    assert!(scanner.scan_partial(at(10), &[3]).is_empty());
    assert_eq!(scanner.pending(), 1);
    assert!(scanner.resolve_partial().is_empty());
    assert_eq!(scanner.pending(), 1);
    // the head arrives: the two halves join
    assert!(scanner.scan_partial(at(8), &[1, 2]).is_empty());
    assert_eq!(scanner.resolve_partial(), vec![(at(8), 3)]);
    assert_eq!(scanner.pending(), 0);
}

#[test]
fn scan_once_finds_every_occurrence_once() {
    let data: Vec<u8> = (0..200u32).map(|i| ((i * i + i / 3) % 3) as u8).collect();
    for aligned in [false, true] {
        for pattern in [vec![0u16, 0x0100], vec![0x0100u16], vec![0x0201u16, 0x0000]] {
            let bytes = pattern.as_bytes();
            let mut expected = Vec::new();
            for start in 0..data.len() {
                let offset = 7 + start as u64;
                if data[start..].starts_with(&bytes) && (!aligned || offset % 2 == 0) {
                    expected.push((at(offset), bytes.len()));
                }
            }
            let mut scanner = StreamScanner::new(ValuePredicate::new(pattern, aligned));
            let mut found = scanner.scan_once(at(7), &data);
            found.sort_unstable();
            assert_eq!(found, expected);
        }
    }
}

#[test]
fn byte_step_by_hand() {
    let mut scanner = StreamScanner::new(ValuePredicate::new(vec![5u8, 6, 5], false));
    let mut found = Vec::new();
    // the start of a chunk: the byte may be the last of a match, or its middle
    scanner.on_start(at(20), 5);
    assert_eq!(scanner.pending(), 1);
    scanner.on_byte(at(20), 5, &mut found);
    assert_eq!(scanner.pending(), 2);
    scanner.on_byte(at(21), 6, &mut found);
    assert_eq!(scanner.pending(), 2);
    assert!(found.is_empty());
    scanner.on_byte(at(22), 5, &mut found);
    assert_eq!(found, vec![(at(20), 3)]);
    // the partial candidate stays, and the last byte has started a new one
    assert_eq!(scanner.pending(), 2);
    scanner.on_byte(at(23), 7, &mut found);
    assert_eq!(scanner.pending(), 1);
    assert_eq!(found, vec![(at(20), 3)]);
}

#[test]
fn resolve_partial_hands_out_in_ascending_order() {
    let data = [9u8, 8, 9, 8, 9, 8];
    let predicate = ValuePredicate::new(vec![9u8, 8], false);
    let mut merged = StreamScanner::new(&predicate);
    for start in [5usize, 3, 1, 4, 0, 2] {
        let mut scanner = StreamScanner::new(&predicate);
        assert!(scanner.scan_partial(at(30 + start as u64), &data[start..start + 1]).is_empty());
        merged.merge_partial_mut(scanner);
    }
    assert_eq!(merged.resolve_partial(), vec![(at(30), 2), (at(32), 2), (at(34), 2)]);
}

#[test]
fn scan_iterator_drained_equals_the_scan() {
    let data = [1u8, 1, 2, 1, 1, 1, 2, 2, 1, 1, 2];
    let pattern = vec![1u8, 1, 2];
    let mut scanner = StreamScanner::new(ValuePredicate::new(pattern.clone(), false));
    let expected = scanner.scan_once(at(40), &data);
    assert_eq!(expected, vec![(at(40), 3), (at(44), 3), (at(48), 3)]);

    let mut iter = StreamScannerIter::new(at(40), data.to_vec());
    assert_eq!(iter.collect(&mut scanner), expected);
    assert_eq!(scanner.pending(), 0);
    assert!(iter.collect(&mut scanner).is_empty());

    // one match by hand, the others at once
    let mut iter = StreamScannerIter::new(at(40), data.to_vec());
    assert_eq!(iter.next(&mut scanner), Some((at(40), 3)));
    assert_eq!(iter.collect(&mut scanner), expected[1..].to_vec());

    // a partial scan keeps what is open at the end
    let mut iter = StreamScannerIter::new_partial(&mut scanner, at(40), data[..5].to_vec());
    assert_eq!(iter.collect(&mut scanner), vec![(at(40), 3)]);
    assert_eq!(scanner.pending(), 2);
}

#[test]
fn merged_scanners_join_a_match_that_is_cut_before_its_last_byte() {
    let predicate = ValuePredicate::new(vec![1u8, 2, 3], false);
    let mut first = StreamScanner::new(&predicate);
    let mut second = StreamScanner::new(&predicate);
    let mut found = Vec::new();
    found.extend(first.scan_partial(at(1), &[0, 1, 2]));
    found.extend(second.scan_partial(at(4), &[3, 0]));
    first.merge_partial_mut(second);
    found.extend(first.resolve_partial());
    assert_eq!(found, vec![(at(2), 3)]);
}

#[test]
fn merged_scanners_do_not_complete_a_match_that_is_cut_earlier() {
    // The second scanner sees the bytes 2 and 3 of the match as a partial
    // candidate. The byte step leaves a partial candidate as it is at the
    // byte that would resolve it, so it never becomes resolved, and the
    // merge with the head of the match stays unresolved.
    let predicate = ValuePredicate::new(vec![1u8, 2, 3], false);
    let mut first = StreamScanner::new(&predicate);
    let mut second = StreamScanner::new(&predicate);
    let mut found = Vec::new();
    found.extend(first.scan_partial(at(1), &[0, 1]));
    found.extend(second.scan_partial(at(3), &[2, 3, 0]));
    first.merge_partial_mut(second);
    found.extend(first.resolve_partial());
    assert!(found.is_empty());
    assert_eq!(first.pending(), 1);
    // one scanner that is fed the same chunks in order finds the match
    let mut single = StreamScanner::new(&predicate);
    let mut found = Vec::new();
    found.extend(single.scan_partial(at(1), &[0, 1]));
    found.extend(single.scan_partial(at(3), &[2, 3, 0]));
    found.extend(single.resolve_partial());
    assert_eq!(found, vec![(at(2), 3)]);
}

#[test]
fn chunked_scan_equals_the_single_scan_past_the_largest_address() {
    // the bytes from the second on are all read at the largest address
    let data = [7u8, 8, 7, 8, 8, 7];
    let pattern = vec![7u8, 8];
    let start = at(u64::MAX - 1);
    let mut once = StreamScanner::new(ValuePredicate::new(pattern.clone(), false));
    let expected = once.scan_once(start, &data);
    assert_eq!(expected, vec![(at(u64::MAX - 1), 2), (at(u64::MAX), 2)]);
    for first in 0..=data.len() {
        for second in first..=data.len() {
            let mut scanner = StreamScanner::new(ValuePredicate::new(pattern.clone(), false));
            let mut found = Vec::new();
            found.extend(scanner.scan_partial(start, &data[..first]));
            found.extend(scanner.scan_partial(start.saturating_add(first as u64), &data[first..second]));
            found.extend(scanner.scan_partial(start.saturating_add(second as u64), &data[second..]));
            found.extend(scanner.resolve_partial());
            assert_eq!(found, expected);
        }
    }
}
