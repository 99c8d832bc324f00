//! Match candidates and the operator that merges two observations of the
//! same match.

use vstd::prelude::*;
use crate::common::OffsetType;
use crate::common::group_offset;

verus! {

broadcast use group_offset;

/// A match in progress.
///
/// Candidates are ordered by `offset`, then `start_offset` (a candidate born
/// at its natural start first), then `length`; whether a candidate is
/// resolved has no part in that order, which `sorts_before` states and
/// `precedes` computes. The derived order agrees with it wherever it tells
/// two candidates apart, and goes on to put an unresolved candidate before a
/// resolved one where the library's order holds the two equal.
#[derive(Debug, PartialEq, Eq, Clone, Copy, PartialOrd, Ord)]
pub struct ScannerCandidate {
    /// Offset where the full match would start.
    pub offset: OffsetType,
    /// Offset at which a partial candidate was first observed; `None` for a
    /// candidate that was born at `offset`.
    pub start_offset: Option<OffsetType>,
    /// Number of bytes from `offset` that the candidate covers.
    pub length: usize,
    /// Whether the candidate has matched its full pattern.
    pub resolved: bool,
}

/// The smaller of two optional offsets, where `None` is below every offset.
pub open spec fn earlier(a: Option<OffsetType>, b: Option<OffsetType>) -> Option<OffsetType> {
    match (a, b) {
        (Some(x), Some(y)) => if x@ <= y@ {
            a
        } else {
            b
        },
        _ => None,
    }
}

impl ScannerCandidate {
    /// The invariant of a candidate: it covers at least one byte, and a
    /// partial candidate was first observed after its start and no later
    /// than its end.
    pub open spec fn wf(self) -> bool {
        &&& self.length >= 1
        &&& self.start_offset matches Some(s) ==> self.offset@ < s@ <= self.offset@ + self.length
    }

    /// Address of the first byte that is known to match.
    pub open spec fn start_value(self) -> u64 {
        match self.start_offset {
            Some(s) => s@,
            None => self.offset@,
        }
    }

    /// Address one past the last byte covered, capped at the largest address.
    pub open spec fn end_value(self) -> u64 {
        self.offset.capped_sum(self.length as u64)
    }

    /// Two candidates merge where they share `offset` and their known ranges
    /// touch or overlap.
    pub open spec fn mergeable(self, other: Self) -> bool {
        &&& self.offset == other.offset
        &&& self.end_value() >= other.start_value()
        &&& other.end_value() >= self.start_value()
    }

    /// The candidate that two mergeable candidates merge into.
    pub open spec fn merged(self, other: Self) -> Self {
        ScannerCandidate {
            offset: self.offset,
            start_offset: earlier(self.start_offset, other.start_offset),
            length: if self.length >= other.length {
                self.length
            } else {
                other.length
            },
            resolved: self.resolved || other.resolved,
        }
    }

    /// The candidate after one more byte has matched.
    pub open spec fn advanced(self) -> Self {
        ScannerCandidate { length: (self.length + 1) as usize, ..self }
    }

    /// The order by which candidates are sorted: by `offset`, then
    /// `start_offset` with `None` first, then `length`. Two candidates that
    /// agree in all three sort before each other.
    pub open spec fn sorts_before(self, other: Self) -> bool {
        if self.offset@ != other.offset@ {
            self.offset@ < other.offset@
        } else if self.start_offset != other.start_offset {
            match (self.start_offset, other.start_offset) {
                (None, _) => true,
                (Some(_), None) => false,
                (Some(a), Some(b)) => a@ < b@,
            }
        } else {
            self.length <= other.length
        }
    }

    /// A candidate born at its natural start, one byte long.
    pub fn normal(offset: OffsetType) -> (r: Self)
        ensures
            r == (ScannerCandidate { offset, start_offset: None, length: 1, resolved: false }),
            r.wf(),
    {
        ScannerCandidate { offset, start_offset: None, length: 1, resolved: false }
    }

    /// A partial candidate: the match would start at `offset`, and only its
    /// byte number `length` (the last of the `length` covered) was seen.
    pub fn partial(offset: OffsetType, length: usize) -> (r: Self)
        requires
            length >= 1,
            offset@ + length - 1 <= u64::MAX,
        ensures
            r == (ScannerCandidate {
                offset,
                start_offset: Some(OffsetType::at((offset@ + length - 1) as u64)),
                length,
                resolved: false,
            }),
            length >= 2 ==> r.wf(),
    {
        let start = OffsetType::new_unwrap(offset.get() + (length as u64 - 1));
        ScannerCandidate { offset, start_offset: Some(start), length, resolved: false }
    }

    /// A candidate that has already matched; one byte long where no length
    /// is given.
    pub fn resolved(offset: OffsetType, length: Option<usize>) -> (r: Self)
        ensures
            r == (ScannerCandidate {
                offset,
                start_offset: None,
                length: match length {
                    Some(l) => l,
                    None => 1,
                },
                resolved: true,
            }),
            length != Some(0usize) ==> r.wf(),
    {
        let length: usize = match length {
            Some(l) => l,
            None => 1,
        };
        ScannerCandidate { offset, start_offset: None, length, resolved: true }
    }

    /// A partial candidate whose one seen byte is the last of the pattern.
    pub fn partial_resolved(offset: OffsetType, length: usize) -> (r: Self)
        requires
            length >= 1,
            offset@ + length - 1 <= u64::MAX,
        ensures
            r == (ScannerCandidate {
                offset,
                start_offset: Some(OffsetType::at((offset@ + length - 1) as u64)),
                length,
                resolved: true,
            }),
            length >= 2 ==> r.wf(),
    {
        let partial = Self::partial(offset, length);
        ScannerCandidate { resolved: true, ..partial }
    }

    pub fn is_partial(&self) -> (r: bool)
        ensures
            r == self.start_offset is Some,
    {
        self.start_offset.is_some()
    }

    pub fn is_resolved(&self) -> (r: bool)
        ensures
            r == self.resolved,
    {
        self.resolved
    }

    /// Offset where the match starts; for a partial candidate, where it
    /// would start, not where it was found.
    pub fn offset(&self) -> (r: OffsetType)
        ensures
            r == self.offset,
    {
        self.offset
    }

    pub fn length(&self) -> (r: usize)
        ensures
            r == self.length,
    {
        self.length
    }

    /// Offset of the first byte that is known to match.
    pub fn start_offset(&self) -> (r: OffsetType)
        ensures
            r@ == self.start_value(),
    {
        match self.start_offset {
            Some(s) => s,
            None => self.offset,
        }
    }

    pub fn end_offset(&self) -> (r: OffsetType)
        ensures
            r@ == self.end_value(),
    {
        self.offset.saturating_add(self.length as u64)
    }

    /// Lengthens the candidate by one byte.
    pub fn advance(&mut self)
        requires
            !old(self).resolved,
            old(self).length < usize::MAX,
        ensures
            *final(self) == old(self).advanced(),
            old(self).wf() ==> final(self).wf(),
    {
        self.length = self.length + 1;
    }

    /// Lengthens the candidate by its last byte and marks it resolved.
    pub fn resolve(&mut self)
        requires
            !old(self).resolved,
            old(self).length < usize::MAX,
        ensures
            *final(self) == (ScannerCandidate { resolved: true, ..old(self).advanced() }),
            old(self).wf() ==> final(self).wf(),
    {
        self.advance();
        self.resolved = true;
    }

    /// Merges `other` into this candidate where the two are mergeable, and
    /// hands `other` back unchanged where they are not.
    pub fn try_merge_mut(&mut self, other: Self) -> (r: Result<(), Self>)
        ensures
            old(self).mergeable(other) ==> r is Ok && *final(self) == old(self).merged(other),
            !old(self).mergeable(other) ==> r == Err::<(), Self>(other) && *final(self) == *old(
                self,
            ),
            old(self).wf() && other.wf() ==> final(self).wf(),
    {
        if self.offset.get() != other.offset.get() {
            return Err(other);
        }
        if self.end_offset().get() < other.start_offset().get() || other.end_offset().get()
            < self.start_offset().get() {
            return Err(other);
        }
        if other.length > self.length {
            self.length = other.length;
        }
        self.resolved = self.resolved || other.resolved;
        self.start_offset =
        match (self.start_offset, other.start_offset) {
            (Some(x), Some(y)) => if x.get() <= y.get() {
                Some(x)
            } else {
                Some(y)
            },
            _ => None,
        };
        Ok(())
    }

    /// Whether this candidate sorts at or before `other`.
    pub fn precedes(&self, other: &Self) -> (r: bool)
        ensures
            r == self.sorts_before(*other),
    {
        if self.offset.get() != other.offset.get() {
            return self.offset.get() < other.offset.get();
        }
        match (self.start_offset, other.start_offset) {
            (None, Some(_)) => {
                return true;
            },
            (Some(_), None) => {
                return false;
            },
            (Some(a), Some(b)) => {
                if a.get() != b.get() {
                    return a.get() < b.get();
                }
            },
            (None, None) => {},
        }
        self.length <= other.length
    }

    /// Collapses every run of consecutive candidates that merge into one
    /// candidate. The input is meant to be sorted.
    pub fn merge_sorted(candidates: Vec<ScannerCandidate>) -> (r: Vec<ScannerCandidate>)
        ensures
            r@ == merge_run(candidates@),
    {
        let mut out: Vec<ScannerCandidate> = Vec::new();
        let n = candidates.len();
        let mut i: usize = 0;
        while i < n
            invariant
                i <= n,
                n == candidates.len(),
                out@ == merge_run(candidates@.take(i as int)),
            decreases n - i,
        {
            let candidate = candidates[i];
            proof {
                assert(candidates@.take(i as int + 1).drop_last() =~= candidates@.take(i as int));
            }
            let ghost before = out@;
            match out.pop() {
                None => {
                    out.push(candidate);
                },
                Some(last) => {
                    let mut acc = last;
                    match acc.try_merge_mut(candidate) {
                        Ok(()) => {
                            out.push(acc);
                        },
                        Err(other) => {
                            out.push(acc);
                            out.push(other);
                            proof {
                                assert(out@ =~= before.push(other));
                            }
                        },
                    }
                },
            }
            i += 1;
        }
        proof {
            assert(candidates@.take(n as int) =~= candidates@);
        }
        out
    }
}

/// The left fold of the merge operator over `candidates`: each candidate is
/// merged into the one before it where the two are mergeable, and starts a
/// new one otherwise.
pub open spec fn merge_run(candidates: Seq<ScannerCandidate>) -> Seq<ScannerCandidate>
    decreases candidates.len(),
{
    if candidates.len() == 0 {
        Seq::empty()
    } else {
        let before = merge_run(candidates.drop_last());
        let candidate = candidates.last();
        if before.len() > 0 && before.last().mergeable(candidate) {
            before.drop_last().push(before.last().merged(candidate))
        } else {
            before.push(candidate)
        }
    }
}

/// `sorted` with `candidate` put in after the last element that sorts at or
/// before it.
pub open spec fn insert_sorted(sorted: Seq<ScannerCandidate>, candidate: ScannerCandidate) -> Seq<
    ScannerCandidate,
>
    decreases sorted.len(),
{
    if sorted.len() == 0 || sorted.last().sorts_before(candidate) {
        sorted.push(candidate)
    } else {
        insert_sorted(sorted.drop_last(), candidate).push(sorted.last())
    }
}

/// The candidates in ascending order, those that compare equal in their
/// order of arrival.
pub open spec fn sorted_run(candidates: Seq<ScannerCandidate>) -> Seq<ScannerCandidate>
    decreases candidates.len(),
{
    if candidates.len() == 0 {
        Seq::empty()
    } else {
        insert_sorted(sorted_run(candidates.drop_last()), candidates.last())
    }
}

/// Every element sorts at or before the one that follows it.
pub open spec fn ascending(candidates: Seq<ScannerCandidate>) -> bool {
    forall|i: int|
        0 <= i < candidates.len() - 1 ==> (#[trigger] candidates[i]).sorts_before(
            candidates[i + 1],
        )
}

proof fn lemma_insert_sorted(sorted: Seq<ScannerCandidate>, candidate: ScannerCandidate)
    requires
        ascending(sorted),
    ensures
        ascending(insert_sorted(sorted, candidate)),
        insert_sorted(sorted, candidate).to_multiset() == sorted.to_multiset().insert(candidate),
        insert_sorted(sorted, candidate).len() == sorted.len() + 1,
        insert_sorted(sorted, candidate).last() == candidate || (sorted.len() > 0
            && insert_sorted(sorted, candidate).last() == sorted.last()),
    decreases sorted.len(),
{
    broadcast use vstd::seq_lib::group_to_multiset_ensures;

    if sorted.len() == 0 || sorted.last().sorts_before(candidate) {
    } else {
        let front = sorted.drop_last();
        lemma_insert_sorted(front, candidate);
        let inner = insert_sorted(front, candidate);
        let whole = inner.push(sorted.last());
        assert(sorted =~= front.push(sorted.last()));
        assert forall|i: int| 0 <= i < whole.len() - 1 implies (#[trigger] whole[i]).sorts_before(
            whole[i + 1],
        ) by {
            if i < inner.len() - 1 {
                assert(inner[i].sorts_before(inner[i + 1]));
            } else {
                if inner.last() != candidate {
                    assert(sorted[sorted.len() - 2].sorts_before(sorted[sorted.len() - 2 + 1]));
                }
            }
        }
        assert(whole.to_multiset() =~= sorted.to_multiset().insert(candidate));
    }
}

/// Sorting yields the same candidates in ascending order.
pub proof fn lemma_sorted_run(candidates: Seq<ScannerCandidate>)
    ensures
        ascending(sorted_run(candidates)),
        sorted_run(candidates).to_multiset() == candidates.to_multiset(),
        sorted_run(candidates).len() == candidates.len(),
    decreases candidates.len(),
{
    broadcast use vstd::seq_lib::group_to_multiset_ensures;

    if candidates.len() == 0 {
    } else {
        lemma_sorted_run(candidates.drop_last());
        lemma_insert_sorted(sorted_run(candidates.drop_last()), candidates.last());
        assert(candidates =~= candidates.drop_last().push(candidates.last()));
    }
}

/// What an insertion yields at a position is the inserted candidate (`-1`) or
/// a candidate of the sequence, whose position is returned.
pub proof fn lemma_insert_members(
    sorted: Seq<ScannerCandidate>,
    candidate: ScannerCandidate,
    i: int,
) -> (j: int)
    requires
        0 <= i < insert_sorted(sorted, candidate).len(),
    ensures
        -1 <= j < sorted.len(),
        j == -1 ==> insert_sorted(sorted, candidate)[i] == candidate,
        j >= 0 ==> insert_sorted(sorted, candidate)[i] == sorted[j],
    decreases sorted.len(),
{
    if sorted.len() == 0 || sorted.last().sorts_before(candidate) {
        if i == sorted.len() {
            -1
        } else {
            i
        }
    } else {
        let inner = insert_sorted(sorted.drop_last(), candidate);
        if i == inner.len() {
            sorted.len() - 1
        } else {
            lemma_insert_members(sorted.drop_last(), candidate, i)
        }
    }
}

/// Sorting invents nothing: what stands at a position of the sorted sequence
/// stands at the returned position of the given one.
pub proof fn lemma_sorted_members(live: Seq<ScannerCandidate>, i: int) -> (j: int)
    requires
        0 <= i < sorted_run(live).len(),
    ensures
        0 <= j < live.len(),
        sorted_run(live)[i] == live[j],
    decreases live.len(),
{
    let front = live.drop_last();
    let j = lemma_insert_members(sorted_run(front), live.last(), i);
    if j == -1 {
        live.len() - 1
    } else {
        lemma_sorted_members(front, j)
    }
}

/// Sorts the candidates in place, ascending.
pub fn sort_candidates(candidates: &mut Vec<ScannerCandidate>)
    ensures
        final(candidates)@ == sorted_run(old(candidates)@),
{
    let mut sorted: Vec<ScannerCandidate> = Vec::new();
    let n = candidates.len();
    let mut i: usize = 0;
    while i < n
        invariant
            i <= n,
            n == candidates.len(),
            candidates@ == old(candidates)@,
            sorted@ == sorted_run(candidates@.take(i as int)),
            sorted.len() == i,
        decreases n - i,
    {
        let candidate = candidates[i];
        proof {
            assert(candidates@.take(i as int + 1).drop_last() =~= candidates@.take(i as int));
        }
        let ghost before = sorted@;
        let mut j: usize = sorted.len();
        proof {
            assert(before.take(j as int) =~= before);
            assert(before.skip(j as int) =~= Seq::<ScannerCandidate>::empty());
            assert(insert_sorted(before, candidate) + Seq::<ScannerCandidate>::empty()
                =~= insert_sorted(before, candidate));
        }
        while j > 0 && !sorted[j - 1].precedes(&candidate)
            invariant
                j <= sorted.len(),
                sorted@ == before,
                insert_sorted(before, candidate) == insert_sorted(before.take(j as int), candidate)
                    + before.skip(j as int),
            decreases j,
        {
            proof {
                let head = before.take(j as int);
                assert(head.drop_last() =~= before.take(j as int - 1));
                assert(head.last() == before[j as int - 1]);
                assert(insert_sorted(head.drop_last(), candidate).push(head.last()) + before.skip(
                    j as int,
                ) =~= insert_sorted(head.drop_last(), candidate) + before.skip(j as int - 1));
            }
            j -= 1;
        }
        proof {
            let head = before.take(j as int);
            if j > 0 {
                assert(head.last() == before[j as int - 1]);
            }
            assert(insert_sorted(head, candidate) == head.push(candidate));
            assert(head.push(candidate) + before.skip(j as int) =~= before.insert(
                j as int,
                candidate,
            ));
        }
        sorted.insert(j, candidate);
        i += 1;
    }
    proof {
        assert(candidates@.take(n as int) =~= candidates@);
    }
    *candidates = sorted;
}

/// Merging is associative: three candidates give the same candidate
/// whichever pair is merged first.
pub proof fn lemma_merge_associative(a: ScannerCandidate, b: ScannerCandidate, c: ScannerCandidate)
    ensures
        a.merged(b).merged(c) == a.merged(b.merged(c)),
{
}

/// Either pairing can be carried out: of three valid candidates of which
/// each merges with the next, the merge of the first two merges with the
/// third, and the first merges with the merge of the other two. What they
/// merge into is valid.
pub proof fn lemma_merge_chain(a: ScannerCandidate, b: ScannerCandidate, c: ScannerCandidate)
    requires
        a.wf(),
        b.wf(),
        c.wf(),
        a.mergeable(b),
        b.mergeable(c),
    ensures
        a.merged(b).mergeable(c),
        a.mergeable(b.merged(c)),
        a.merged(b).wf(),
        a.merged(b).merged(c).wf(),
{
}

/// Merging is commutative: two candidates that merge give the same
/// candidate whichever is merged into the other.
pub proof fn lemma_merge_commutative(a: ScannerCandidate, b: ScannerCandidate)
    requires
        a.mergeable(b),
    ensures
        b.mergeable(a),
        b.merged(a) == a.merged(b),
{
}

} // verus!
