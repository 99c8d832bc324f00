use procmem::util::acc_filter::AccFilter;

fn dedup_step(acc: Option<i32>, curr: i32) -> (Option<i32>, Option<i32>) {
    match acc {
        Some(a) if a == curr => (Some(a), None),
        other => (Some(curr), other),
    }
}

#[test]
fn test_acc_filter() {
    let dedup = AccFilter::new(vec![1, 1, 1, 2, 3, 3, 4, 4, 4], dedup_step);

    let deduped = dedup.collect();
    assert_eq!(deduped, &[1, 2, 3, 4]);
}

#[test]
fn test_acc_filter_vec_mut() {
    let mut vec = vec![1, 1, 1, 2, 3, 3, 4, 4, 4];

    AccFilter::acc_filter_vec_mut(&mut vec, |acc, curr| match acc {
        Some(a) if a == curr => (Some(a), None),
        other => (Some(curr), other),
    });

    assert_eq!(vec, &[1, 2, 3, 4]);
}

#[test]
fn acc_filter_may_yield_one_more_than_it_takes() {
    // nothing is held back: every item is yielded when the next one comes
    let mut vec = vec![5, 6];
    AccFilter::acc_filter_vec_mut(&mut vec, |acc: Option<i32>, curr: i32| (Some(curr + 10), acc.or(Some(0))));
    assert_eq!(vec, vec![0, 15, 16]);

    let mut empty: Vec<i32> = Vec::new();
    AccFilter::acc_filter_vec_mut(&mut empty, dedup_step);
    assert!(empty.is_empty());
}
