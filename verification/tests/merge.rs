use procmem::memory::lock::{LockError, UnlockError};
use procmem::platform::ptrace::PtraceLockError;
use procmem::util::merge::MergeIter;

#[test]
fn test_merge_iter() {
    let seq_a = [1, 2, 3, 4, 5, 17, 18, 19, 20];
    let seq_b = [4, 5, 6, 7, 11, 31];

    let merged = MergeIter::new(seq_a.to_vec(), seq_b.to_vec(), |l: &i32, r: &i32| l <= r).collect();
    let mut iter = merged.iter();

    assert_eq!(iter.next(), Some(&1));
    assert_eq!(iter.next(), Some(&2));
    assert_eq!(iter.next(), Some(&3));
    assert_eq!(iter.next(), Some(&4));
    assert_eq!(iter.next(), Some(&4));
    assert_eq!(iter.next(), Some(&5));
    assert_eq!(iter.next(), Some(&5));
    assert_eq!(iter.next(), Some(&6));
    assert_eq!(iter.next(), Some(&7));
    assert_eq!(iter.next(), Some(&11));
    assert_eq!(iter.next(), Some(&17));
    assert_eq!(iter.next(), Some(&18));
    assert_eq!(iter.next(), Some(&19));
    assert_eq!(iter.next(), Some(&20));
    assert_eq!(iter.next(), Some(&31));
    assert_eq!(iter.next(), None);
}

#[test]
fn merge_takes_the_left_item_first_where_both_compare_equal() {
    let a = vec![(1, 'a'), (2, 'a')];
    let b = vec![(1, 'b'), (3, 'b')];
    let merged = MergeIter::new(a, b, |l: &(i32, char), r: &(i32, char)| l.0 <= r.0).collect();
    assert_eq!(merged, vec![(1, 'a'), (1, 'b'), (2, 'a'), (3, 'b')]);
    let empty: Vec<i32> = Vec::new();
    assert_eq!(MergeIter::new(empty, vec![2, 1], |l: &i32, r: &i32| l <= r).collect(), vec![2, 1]);
}

#[test]
fn ptrace_errors_keep_their_code() {
    assert_eq!(PtraceLockError::StopError(4).into_lock_error(), LockError::PlatformError(4));
    assert_eq!(PtraceLockError::PtraceCont(3).into_unlock_error(), UnlockError::PlatformError(3));
    assert_eq!(PtraceLockError::WaitpidError(10).code(), 10);
    assert_eq!(PtraceLockError::PtraceAttach(1).code(), 1);
    assert_eq!(PtraceLockError::PtraceDetach(2).code(), 2);
}
