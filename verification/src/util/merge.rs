//! The merge of two sorted sequences, as in a merge sort.

use vstd::prelude::*;

verus! {

/// `out` is a merge of what `a` holds from position `i` and `b` from
/// position `j`: where both have an item left, the next item of `out` is that
/// of `a` if `before` says that it comes at or before that of `b`, and that
/// of `b` otherwise; where one has run out, the rest is that of the other.
pub open spec fn merged_from<T, F: Fn(&T, &T) -> bool>(
    before: F,
    a: Seq<T>,
    b: Seq<T>,
    i: int,
    j: int,
    out: Seq<T>,
) -> bool
    decreases a.len() - i + b.len() - j,
{
    if i >= a.len() {
        out == b.skip(j)
    } else if j >= b.len() {
        out == a.skip(i)
    } else {
        out.len() > 0 && ({
            ||| {
                &&& before.ensures((&a[i], &b[j]), true)
                &&& out[0] == a[i]
                &&& merged_from(before, a, b, i + 1, j, out.skip(1))
            }
            ||| {
                &&& before.ensures((&a[i], &b[j]), false)
                &&& out[0] == b[j]
                &&& merged_from(before, a, b, i, j + 1, out.skip(1))
            }
        })
    }
}

/// The merge of two sequences by a comparison. The result is sorted where
/// both sequences are and the comparison is that of their order.
#[verifier::reject_recursive_types(T)]
pub struct MergeIter<T: Copy, F: Fn(&T, &T) -> bool> {
    a: Vec<T>,
    b: Vec<T>,
    before: F,
}

impl<T: Copy, F: Fn(&T, &T) -> bool> MergeIter<T, F> {
    /// The first sequence.
    pub closed spec fn left(self) -> Seq<T> {
        self.a@
    }

    /// The second sequence.
    pub closed spec fn right(self) -> Seq<T> {
        self.b@
    }

    /// The comparison: whether its first argument comes at or before its
    /// second.
    pub closed spec fn before(self) -> F {
        self.before
    }

    /// Creates a merge of `a` and `b`.
    pub fn new(a: Vec<T>, b: Vec<T>, before: F) -> (r: Self)
        ensures
            r.left() == a@,
            r.right() == b@,
            r.before() == before,
    {
        MergeIter { a, b, before }
    }

    /// Runs the merge and returns the merged sequence.
    pub fn collect(self) -> (r: Vec<T>)
        requires
            forall|x: &T, y: &T| self.before().requires((x, y)),
        ensures
            merged_from(self.before(), self.left(), self.right(), 0, 0, r@),
    {
        let MergeIter { a, b, before } = self;
        assert(before == self.before());
        let mut out: Vec<T> = Vec::new();
        let mut i: usize = 0;
        let mut j: usize = 0;
        while i < a.len() && j < b.len()
            invariant
                i <= a.len(),
                j <= b.len(),
                forall|x: &T, y: &T| before.requires((x, y)),
                forall|tail: Seq<T>| #[trigger]
                    merged_from(before, a@, b@, i as int, j as int, tail) ==> merged_from(
                        before,
                        a@,
                        b@,
                        0,
                        0,
                        out@ + tail,
                    ),
            decreases a.len() - i + b.len() - j,
        {
            let ghost so_far = out@;
            let ghost (i0, j0) = (i as int, j as int);
            let first = before(&a[i], &b[j]);
            let item = if first {
                a[i]
            } else {
                b[j]
            };
            out.push(item);
            if first {
                i += 1;
            } else {
                j += 1;
            }
            proof {
                assert forall|tail: Seq<T>| #[trigger]
                    merged_from(before, a@, b@, i as int, j as int, tail) implies merged_from(
                    before,
                    a@,
                    b@,
                    0,
                    0,
                    out@ + tail,
                ) by {
                    let longer = seq![item] + tail;
                    assert(longer.skip(1) =~= tail);
                    assert(merged_from(before, a@, b@, i0, j0, longer));
                    assert(so_far + longer =~= out@ + tail);
                }
            }
        }
        let ghost so_far = out@;
        let ghost (i0, j0) = (i as int, j as int);
        while i < a.len()
            invariant
                0 <= i0 <= i <= a.len(),
                out@ == so_far + a@.subrange(i0, i as int),
            decreases a.len() - i,
        {
            out.push(a[i]);
            i += 1;
            proof {
                assert(out@ =~= so_far + a@.subrange(i0, i as int));
            }
        }
        let ghost with_left = out@;
        while j < b.len()
            invariant
                0 <= j0 <= j <= b.len(),
                out@ == with_left + b@.subrange(j0, j as int),
            decreases b.len() - j,
        {
            out.push(b[j]);
            j += 1;
            proof {
                assert(out@ =~= with_left + b@.subrange(j0, j as int));
            }
        }
        proof {
            let tail = a@.subrange(i0, a@.len() as int) + b@.subrange(j0, b@.len() as int);
            if i0 >= a@.len() {
                assert(tail =~= b@.skip(j0));
            } else {
                assert(tail =~= a@.skip(i0));
            }
            assert(merged_from(before, a@, b@, i0, j0, tail));
            assert(out@ =~= so_far + tail);
        }
        out
    }
}

} // verus!
