//! The stream scanner: it drives bytes through a predicate, keeps the live
//! candidates and hands out the matches.

use vstd::prelude::*;
use crate::common::OffsetType;
use crate::common::group_offset;
use crate::scan::candidate::ascending;
use crate::scan::candidate::lemma_sorted_run;
use crate::scan::candidate::sort_candidates;
use crate::scan::candidate::sorted_run;
use crate::scan::candidate::ScannerCandidate;
use crate::scan::predicate::PartialScannerPredicate;
use crate::scan::predicate::ScannerPredicate;
use crate::scan::predicate::UpdateCandidateResult;

verus! {

broadcast use group_offset;

/// A match: the offset where it starts and its length in bytes.
pub type ScanResult = (OffsetType, usize);

/// The live candidates and the matches that a piece of scanning leaves.
pub struct ScanState {
    pub live: Seq<ScannerCandidate>,
    pub found: Seq<ScanResult>,
}

/// The first step for one byte: every live candidate that ends at `offset`
/// and is not resolved is put to the predicate, in order.
///
/// A candidate that the predicate advances grows by one byte; one that it
/// removes is dropped; one that it resolves is emitted with its last byte,
/// unless it is partial, in which case it stays as it is. Every other
/// candidate is kept untouched.
pub open spec fn update_all<P: ScannerPredicate>(
    predicate: P,
    live: Seq<ScannerCandidate>,
    offset: OffsetType,
    byte: u8,
) -> ScanState
    decreases live.len(),
{
    if live.len() == 0 {
        ScanState { live: Seq::empty(), found: Seq::empty() }
    } else {
        let before = update_all(predicate, live.drop_last(), offset, byte);
        let current = live.last();
        if current.resolved || current.end_value() != offset@ {
            ScanState { live: before.live.push(current), found: before.found }
        } else {
            match predicate.update_spec(offset, byte, current) {
                UpdateCandidateResult::Advance => ScanState {
                    live: before.live.push(current.advanced()),
                    found: before.found,
                },
                UpdateCandidateResult::Skip => ScanState {
                    live: before.live.push(current),
                    found: before.found,
                },
                UpdateCandidateResult::Remove => before,
                UpdateCandidateResult::Resolve => if current.start_offset is Some {
                    ScanState { live: before.live.push(current), found: before.found }
                } else {
                    ScanState {
                        live: before.live,
                        found: before.found.push((current.offset, current.advanced().length)),
                    }
                },
            }
        }
    }
}

/// The whole step for one byte: the live candidates are updated, then the
/// predicate is asked for a new candidate, which is emitted at once where it
/// is born resolved and joins the live set otherwise.
pub open spec fn byte_step<P: ScannerPredicate>(
    predicate: P,
    live: Seq<ScannerCandidate>,
    offset: OffsetType,
    byte: u8,
) -> ScanState {
    let updated = update_all(predicate, live, offset, byte);
    match predicate.start_spec(offset, byte) {
        None => updated,
        Some(candidate) => if candidate.resolved {
            ScanState {
                live: updated.live,
                found: updated.found.push((candidate.offset, candidate.length)),
            }
        } else {
            ScanState { live: updated.live.push(candidate), found: updated.found }
        },
    }
}

/// The byte step applied to each byte of `stream` in turn, the first byte
/// read at `offset` and each further byte one address on (capped at the
/// largest address).
pub open spec fn scan_run<P: ScannerPredicate>(
    predicate: P,
    live: Seq<ScannerCandidate>,
    offset: OffsetType,
    stream: Seq<u8>,
) -> ScanState
    decreases stream.len(),
{
    if stream.len() == 0 {
        ScanState { live, found: Seq::empty() }
    } else {
        let before = scan_run(predicate, live, offset, stream.drop_last());
        let step = byte_step(
            predicate,
            before.live,
            offset.plus((stream.len() - 1) as u64),
            stream.last(),
        );
        ScanState { live: step.live, found: before.found + step.found }
    }
}

/// A scan that keeps partial state: at the first byte the predicate's
/// partial candidates join the live set, then the stream is scanned.
pub open spec fn partial_run<P: PartialScannerPredicate>(
    predicate: P,
    live: Seq<ScannerCandidate>,
    offset: OffsetType,
    stream: Seq<u8>,
) -> ScanState {
    if stream.len() == 0 {
        ScanState { live, found: Seq::empty() }
    } else {
        scan_run(predicate, live + predicate.partial_spec(offset, stream[0]), offset, stream)
    }
}

/// The state of the sweep that resolves partial candidates: the candidates
/// that are done with, the one that still gathers, and the matches.
pub struct SweepState {
    pub done: Seq<ScannerCandidate>,
    pub gathering: Option<ScannerCandidate>,
    pub found: Seq<ScanResult>,
}

/// The sweep over `candidates` in order: each candidate is merged into the
/// gathering one where the two are mergeable; a merge that yields a resolved
/// candidate which is no longer partial is emitted as a match and leaves; a
/// candidate that does not merge takes the place of the gathering one, which
/// is then done with.
pub open spec fn sweep(candidates: Seq<ScannerCandidate>) -> SweepState
    decreases candidates.len(),
{
    if candidates.len() == 0 {
        SweepState { done: Seq::empty(), gathering: None, found: Seq::empty() }
    } else {
        let before = sweep(candidates.drop_last());
        let current = candidates.last();
        match before.gathering {
            None => SweepState { gathering: Some(current), ..before },
            Some(acc) => if acc.mergeable(current) {
                let joint = acc.merged(current);
                if joint.resolved && joint.start_offset is None {
                    SweepState {
                        done: before.done,
                        gathering: None,
                        found: before.found.push((joint.offset, joint.length)),
                    }
                } else {
                    SweepState { gathering: Some(joint), ..before }
                }
            } else {
                SweepState {
                    done: before.done.push(acc),
                    gathering: Some(current),
                    found: before.found,
                }
            },
        }
    }
}

/// Resolving the partial candidates: they are sorted and swept; what the
/// sweep did not emit stays live.
pub open spec fn resolve_run(live: Seq<ScannerCandidate>) -> ScanState {
    let swept = sweep(sorted_run(live));
    ScanState {
        live: match swept.gathering {
            Some(acc) => swept.done.push(acc),
            None => swept.done,
        },
        found: swept.found,
    }
}

/// Scans a stream of bytes for the values that its predicate matches.
pub struct StreamScanner<P: ScannerPredicate> {
    predicate: P,
    candidates: Vec<ScannerCandidate>,
}

impl<P: ScannerPredicate> StreamScanner<P> {
    /// The predicate that the scanner was made with.
    pub closed spec fn predicate(self) -> P {
        self.predicate
    }

    /// The live candidates, in the order in which they joined.
    pub closed spec fn live(self) -> Seq<ScannerCandidate> {
        self.candidates@
    }

    pub fn new(predicate: P) -> (r: Self)
        ensures
            r.predicate() == predicate,
            r.live() == Seq::<ScannerCandidate>::empty(),
    {
        StreamScanner { predicate, candidates: Vec::new() }
    }

    /// Forgets every live candidate, and with them the progress of earlier
    /// partial scans.
    pub fn reset(&mut self)
        ensures
            final(self).predicate() == old(self).predicate(),
            final(self).live() == Seq::<ScannerCandidate>::empty(),
    {
        self.candidates.clear();
    }

    /// The number of live candidates.
    pub fn pending(&self) -> (r: usize)
        ensures
            r == self.live().len(),
    {
        self.candidates.len()
    }

    /// Scans `stream`, whose first byte lies at `offset`, and returns the
    /// matches in the order in which their last byte was read. Nothing is
    /// carried over from earlier scans, and nothing is kept for later ones.
    pub fn scan_once(&mut self, offset: OffsetType, stream: &[u8]) -> (r: Vec<ScanResult>)
        ensures
            final(self).predicate() == old(self).predicate(),
            final(self).live() == Seq::<ScannerCandidate>::empty(),
            r@ == scan_run(
                old(self).predicate(),
                Seq::<ScannerCandidate>::empty(),
                offset,
                stream@,
            ).found,
    {
        self.reset();
        let found = self.drive(offset, stream);
        self.reset();
        found
    }

    /// Runs the byte step over the stream from the live candidates as they
    /// are.
    fn drive(&mut self, offset: OffsetType, stream: &[u8]) -> (r: Vec<ScanResult>)
        ensures
            final(self).predicate() == old(self).predicate(),
            final(self).live() == scan_run(
                old(self).predicate(),
                old(self).live(),
                offset,
                stream@,
            ).live,
            r@ == scan_run(old(self).predicate(), old(self).live(), offset, stream@).found,
    {
        let mut found: Vec<ScanResult> = Vec::new();
        let mut current = offset;
        let n = stream.len();
        let mut i: usize = 0;
        while i < n
            invariant
                i <= n,
                n == stream@.len(),
                self.predicate() == old(self).predicate(),
                current == offset.plus(i as u64),
                self.live() == scan_run(
                    old(self).predicate(),
                    old(self).live(),
                    offset,
                    stream@.take(i as int),
                ).live,
                found@ == scan_run(
                    old(self).predicate(),
                    old(self).live(),
                    offset,
                    stream@.take(i as int),
                ).found,
            decreases n - i,
        {
            proof {
                assert(stream@.take(i as int + 1).drop_last() =~= stream@.take(i as int));
            }
            self.on_byte(current, stream[i], &mut found);
            current = current.saturating_add(1);
            i += 1;
        }
        proof {
            assert(stream@.take(n as int) =~= stream@);
        }
        found
    }

    /// The step for one byte: updates the live candidates, asks the
    /// predicate for a new one, and appends the matches to `found`.
    pub fn on_byte(&mut self, offset: OffsetType, byte: u8, found: &mut Vec<ScanResult>)
        ensures
            final(self).predicate() == old(self).predicate(),
            final(self).live() == byte_step(
                old(self).predicate(),
                old(self).live(),
                offset,
                byte,
            ).live,
            final(found)@ == old(found)@ + byte_step(
                old(self).predicate(),
                old(self).live(),
                offset,
                byte,
            ).found,
    {
        let ghost live = self.candidates@;
        let ghost found_before = found@;
        let mut kept: Vec<ScannerCandidate> = Vec::new();
        let n = self.candidates.len();
        let mut i: usize = 0;
        while i < n
            invariant
                i <= n,
                n == self.candidates.len(),
                self.candidates@ == live,
                self.predicate == old(self).predicate,
                kept@ == update_all(self.predicate, live.take(i as int), offset, byte).live,
                found@ == found_before + update_all(
                    self.predicate,
                    live.take(i as int),
                    offset,
                    byte,
                ).found,
            decreases n - i,
        {
            let current = self.candidates[i];
            proof {
                assert(live.take(i as int + 1).drop_last() =~= live.take(i as int));
            }
            let ghost before = update_all(self.predicate, live.take(i as int), offset, byte);
            // A candidate in another address range, or one that is resolved, is left alone.
            if current.is_resolved() || current.end_offset().get() != offset.get() {
                kept.push(current);
            } else {
                match self.predicate.update_candidate(offset, byte, &current) {
                    UpdateCandidateResult::Advance => {
                        let mut candidate = current;
                        candidate.advance();
                        kept.push(candidate);
                    },
                    UpdateCandidateResult::Skip => {
                        kept.push(current);
                    },
                    UpdateCandidateResult::Remove => {},
                    UpdateCandidateResult::Resolve => {
                        if current.is_partial() {
                            kept.push(current);
                        } else {
                            let mut candidate = current;
                            candidate.resolve();
                            found.push((candidate.offset(), candidate.length()));
                            proof {
                                assert(found@ =~= found_before + before.found.push(
                                    (current.offset, current.advanced().length),
                                ));
                            }
                        }
                    },
                }
            }
            i += 1;
        }
        proof {
            assert(live.take(n as int) =~= live);
        }
        let ghost updated = update_all(self.predicate, live, offset, byte);
        match self.predicate.try_start_candidate(offset, byte) {
            None => {},
            Some(candidate) => {
                if candidate.is_resolved() {
                    found.push((candidate.offset(), candidate.length()));
                    proof {
                        assert(found@ =~= found_before + updated.found.push(
                            (candidate.offset, candidate.length),
                        ));
                    }
                } else {
                    kept.push(candidate);
                }
            },
        }
        self.candidates = kept;
    }
}

impl<P: PartialScannerPredicate> StreamScanner<P> {
    /// Scans `stream`, whose first byte lies at `offset`, and keeps the
    /// candidates that are still open when the stream ends.
    ///
    /// At the first byte the predicate's partial candidates join the live
    /// set, so that chunks of one contiguous sequence can be scanned one by
    /// one, or by scanners that are merged afterwards.
    pub fn scan_partial(&mut self, offset: OffsetType, stream: &[u8]) -> (r: Vec<ScanResult>)
        ensures
            final(self).predicate() == old(self).predicate(),
            final(self).live() == partial_run(
                old(self).predicate(),
                old(self).live(),
                offset,
                stream@,
            ).live,
            r@ == partial_run(old(self).predicate(), old(self).live(), offset, stream@).found,
    {
        if stream.len() == 0 {
            return Vec::new();
        }
        self.on_start(offset, stream[0]);
        self.drive(offset, stream)
    }

    /// Takes the live candidates of `other` into this scanner, after its
    /// own.
    pub fn merge_partial_mut(&mut self, other: Self)
        ensures
            final(self).predicate() == old(self).predicate(),
            final(self).live() == old(self).live() + other.live(),
    {
        let mut other = other;
        self.candidates.append(&mut other.candidates);
    }

    /// Resolves the partial candidates that earlier partial scans and
    /// merges have left: they are sorted and merged, and every merge that
    /// completes a match is returned and leaves the live set.
    pub fn resolve_partial(&mut self) -> (r: Vec<ScanResult>)
        ensures
            final(self).predicate() == old(self).predicate(),
            final(self).live() == resolve_run(old(self).live()).live,
            r@ == resolve_run(old(self).live()).found,
    {
        let mut resolved: Vec<ScanResult> = Vec::new();
        sort_candidates(&mut self.candidates);
        let ghost sorted = self.candidates@;
        let mut done: Vec<ScannerCandidate> = Vec::new();
        let mut gathering: Option<ScannerCandidate> = None;
        let n = self.candidates.len();
        let mut i: usize = 0;
        while i < n
            invariant
                i <= n,
                n == self.candidates.len(),
                self.candidates@ == sorted,
                self.predicate == old(self).predicate,
                sweep(sorted.take(i as int)) == (SweepState {
                    done: done@,
                    gathering,
                    found: resolved@,
                }),
            decreases n - i,
        {
            let current = self.candidates[i];
            proof {
                assert(sorted.take(i as int + 1).drop_last() =~= sorted.take(i as int));
            }
            match gathering {
                None => {
                    gathering = Some(current);
                },
                Some(acc) => {
                    let mut joint = acc;
                    match joint.try_merge_mut(current) {
                        Ok(()) => {
                            if joint.is_resolved() && !joint.is_partial() {
                                resolved.push((joint.offset(), joint.length()));
                                gathering = None;
                            } else {
                                gathering = Some(joint);
                            }
                        },
                        Err(other) => {
                            done.push(acc);
                            gathering = Some(other);
                        },
                    }
                },
            }
            i += 1;
        }
        proof {
            assert(sorted.take(n as int) =~= sorted);
        }
        match gathering {
            Some(acc) => {
                done.push(acc);
            },
            None => {},
        }
        self.candidates = done;
        resolved
    }

    /// The step before the first byte of a chunk: the predicate's partial
    /// candidates join the live set.
    pub fn on_start(&mut self, offset: OffsetType, byte: u8)
        ensures
            final(self).predicate() == old(self).predicate(),
            final(self).live() == old(self).live() + old(self).predicate().partial_spec(
                offset,
                byte,
            ),
    {
        let mut partials = self.predicate.try_start_partial_candidates(offset, byte);
        self.candidates.append(&mut partials);
    }
}

/// Reading `k` bytes of `remaining` ahead gives the next match `r`: the
/// byte step found nothing at the bytes before the last one read, and at that
/// byte it found `r` and, after it, `buffered`. Where `r` is `None`, every
/// byte was read and nothing was found; the live set is then emptied if the
/// scan `resets`.
pub open spec fn reads_ahead<P: ScannerPredicate>(
    predicate: P,
    live: Seq<ScannerCandidate>,
    offset: OffsetType,
    remaining: Seq<u8>,
    k: int,
    r: Option<ScanResult>,
    buffered: Seq<ScanResult>,
    after: Seq<ScannerCandidate>,
    resets: bool,
) -> bool {
    let read = scan_run(predicate, live, offset, remaining.take(k));
    &&& 0 <= k <= remaining.len()
    &&& match r {
        Some(found) => {
            &&& k > 0
            &&& scan_run(predicate, live, offset, remaining.take(k - 1)).found.len() == 0
            &&& read.found == seq![found] + buffered
            &&& after == read.live
        },
        None => {
            &&& k == remaining.len()
            &&& read.found.len() == 0
            &&& buffered.len() == 0
            &&& after == if resets {
                Seq::<ScannerCandidate>::empty()
            } else {
                read.live
            }
        },
    }
}

/// A scan that hands out its matches one by one and reads the stream only
/// as far as the next match needs.
///
/// The iterator does not hold the scanner: each call of `next` is given the
/// scanner that the iterator was made for. A scan that is abandoned leaves
/// in the scanner the candidates of the bytes read so far.
pub struct StreamScannerIter {
    offset: OffsetType,
    stream: Vec<u8>,
    position: usize,
    found: Vec<ScanResult>,
    found_yield_index: usize,
    reset_after: bool,
}

impl StreamScannerIter {
    #[verifier::type_invariant]
    spec fn inv(self) -> bool {
        &&& self.position <= self.stream@.len()
        &&& self.found_yield_index <= self.found@.len()
        &&& self.found_yield_index == self.found@.len() ==> self.found@.len() == 0
    }

    /// The offset of the next byte to read.
    pub closed spec fn offset(self) -> OffsetType {
        self.offset
    }

    /// The bytes that are not read yet.
    pub closed spec fn remaining(self) -> Seq<u8> {
        self.stream@.skip(self.position as int)
    }

    /// The matches that are found and not handed out yet.
    pub closed spec fn buffered(self) -> Seq<ScanResult> {
        self.found@.skip(self.found_yield_index as int)
    }

    /// Whether the scanner is reset when the stream is exhausted.
    pub closed spec fn resets(self) -> bool {
        self.reset_after
    }

    /// An iterator over the matches of a single scan of `stream`, whose
    /// first byte lies at `offset`. The scanner is reset when the stream is
    /// exhausted; to start from nothing, it is reset before as well.
    pub fn new(offset: OffsetType, stream: Vec<u8>) -> (r: Self)
        ensures
            r.offset() == offset,
            r.remaining() == stream@,
            r.buffered() == Seq::<ScanResult>::empty(),
            r.resets(),
    {
        let r = StreamScannerIter {
            offset,
            stream,
            position: 0,
            found: Vec::new(),
            found_yield_index: 0,
            reset_after: true,
        };
        proof {
            assert(r.stream@.skip(0) =~= r.stream@);
            assert(r.found@.skip(0) =~= Seq::<ScanResult>::empty());
        }
        r
    }

    /// An iterator over the matches of a partial scan. The first byte is
    /// read at once: the predicate's partial candidates join the live set,
    /// and the byte step runs.
    pub fn new_partial<P: PartialScannerPredicate>(
        scanner: &mut StreamScanner<P>,
        offset: OffsetType,
        stream: Vec<u8>,
    ) -> (r: Self)
        ensures
            final(scanner).predicate() == old(scanner).predicate(),
            !r.resets(),
            stream@.len() == 0 ==> {
                &&& final(scanner).live() == old(scanner).live()
                &&& r.remaining() == stream@
                &&& r.buffered() == Seq::<ScanResult>::empty()
            },
            stream@.len() > 0 ==> {
                let step = byte_step(
                    old(scanner).predicate(),
                    old(scanner).live() + old(scanner).predicate().partial_spec(offset, stream@[0]),
                    offset,
                    stream@[0],
                );
                &&& final(scanner).live() == step.live
                &&& r.buffered() == step.found
                &&& r.remaining() == stream@.skip(1)
            },
            r.offset() == offset.plus(1),
    {
        let mut found: Vec<ScanResult> = Vec::new();
        let mut position: usize = 0;
        if stream.len() > 0 {
            let first = stream[0];
            scanner.on_start(offset, first);
            scanner.on_byte(offset, first, &mut found);
            position = 1;
        }
        let r = StreamScannerIter {
            offset: offset.saturating_add(1),
            stream,
            position,
            found,
            found_yield_index: 0,
            reset_after: false,
        };
        proof {
            assert(r.stream@.skip(0) =~= r.stream@);
            assert(r.found@.skip(0) =~= r.found@);
        }
        r
    }

    fn get_buffered(&mut self) -> (r: ScanResult)
        requires
            old(self).buffered().len() > 0,
        ensures
            r == old(self).buffered()[0],
            final(self).buffered() == old(self).buffered().skip(1),
            final(self).offset() == old(self).offset(),
            final(self).remaining() == old(self).remaining(),
            final(self).resets() == old(self).resets(),
    {
        proof {
            use_type_invariant(&*self);
        }
        assert(self.found@.skip(self.found_yield_index as int).len() > 0);
        let result = self.found[self.found_yield_index];
        let buffered = self.found.len();
        assert(self.found_yield_index < buffered);
        let next = self.found_yield_index + 1;
        // once every buffered match is handed out, the buffer starts anew
        if next == buffered {
            self.found_yield_index = 0;
            self.found = Vec::new();
            proof {
                assert(self.buffered() =~= old(self).buffered().skip(1));
            }
        } else {
            self.found_yield_index = next;
            proof {
                assert(self.buffered() =~= old(self).buffered().skip(1));
            }
        }
        result
    }

    /// The next match, or `None` when the stream is exhausted.
    ///
    /// A match that is buffered is handed out without reading. Otherwise
    /// the stream is read up to and with the first byte at which the byte
    /// step finds matches; the first of them is returned and the others are
    /// buffered. When the stream runs out, the scanner is reset if this is a
    /// single scan.
    pub fn next<P: ScannerPredicate>(&mut self, scanner: &mut StreamScanner<P>) -> (r: Option<
        ScanResult,
    >)
        ensures
            final(scanner).predicate() == old(scanner).predicate(),
            final(self).resets() == old(self).resets(),
            old(self).buffered().len() > 0 ==> {
                &&& r == Some(old(self).buffered()[0])
                &&& final(self).buffered() == old(self).buffered().skip(1)
                &&& final(self).remaining() == old(self).remaining()
                &&& final(self).offset() == old(self).offset()
                &&& final(scanner).live() == old(scanner).live()
            },
            old(self).buffered().len() == 0 ==> exists|k: int|
                {
                    &&& #[trigger] reads_ahead(
                        old(scanner).predicate(),
                        old(scanner).live(),
                        old(self).offset(),
                        old(self).remaining(),
                        k,
                        r,
                        final(self).buffered(),
                        final(scanner).live(),
                        old(self).resets(),
                    )
                    &&& final(self).remaining() == old(self).remaining().skip(k)
                    &&& final(self).offset() == old(self).offset().plus(k as u64)
                },
    {
        proof {
            use_type_invariant(&*self);
        }
        // buffered matches go first
        if self.found_yield_index < self.found.len() {
            return Some(self.get_buffered());
        }
        let ghost rest = self.remaining();
        let ghost base = self.offset;
        let ghost live = scanner.live();
        let start = self.position;
        let n = self.stream.len();
        let mut i = start;
        let mut current = self.offset;
        let mut found: Vec<ScanResult> = Vec::new();
        // read until the stream runs out or a byte gives matches
        while i < n && found.len() == 0
            invariant
                start <= i <= n,
                n == self.stream@.len(),
                rest == self.stream@.skip(start as int),
                *self == *old(self),
                scanner.predicate() == old(scanner).predicate(),
                current == base.plus((i - start) as u64),
                scan_run(old(scanner).predicate(), live, base, rest.take(i - start)) == (ScanState {
                    live: scanner.live(),
                    found: found@,
                }),
                i > start ==> scan_run(
                    old(scanner).predicate(),
                    live,
                    base,
                    rest.take(i - start - 1),
                ).found.len() == 0,
            decreases n - i,
        {
            proof {
                assert(rest.take(i - start + 1).drop_last() =~= rest.take(i - start));
                assert(rest.take(i - start + 1).last() == self.stream@[i as int]);
                assert(found@ + byte_step(
                    scanner.predicate(),
                    scanner.live(),
                    current,
                    self.stream@[i as int],
                ).found =~= byte_step(
                    scanner.predicate(),
                    scanner.live(),
                    current,
                    self.stream@[i as int],
                ).found);
            }
            scanner.on_byte(current, self.stream[i], &mut found);
            current = current.saturating_add(1);
            i += 1;
        }
        let ghost k = i - start;
        let ghost read = scan_run(old(scanner).predicate(), live, base, rest.take(k));
        if found.len() == 0 {
            if self.reset_after {
                scanner.reset();
            }
            self.offset = current;
            self.position = i;
            proof {
                assert(self.remaining() =~= rest.skip(k));
                assert(self.buffered() =~= Seq::<ScanResult>::empty());
                assert(read.found.len() == 0);
                assert(reads_ahead(
                    old(scanner).predicate(),
                    live,
                    base,
                    rest,
                    k,
                    None,
                    self.buffered(),
                    scanner.live(),
                    old(self).resets(),
                ));
                assert(self.remaining() == old(self).remaining().skip(k));
                assert(self.offset() == old(self).offset().plus(k as u64));
            }
            None
        } else {
            let first = found[0];
            self.offset = current;
            self.position = i;
            if found.len() > 1 {
                self.found = found;
                self.found_yield_index = 1;
            }
            proof {
                assert(self.remaining() =~= rest.skip(k));
                assert(read.found =~= seq![first] + self.buffered());
                assert(scan_run(old(scanner).predicate(), live, base, rest.take(k - 1)).found.len()
                    == 0);
                assert(reads_ahead(
                    old(scanner).predicate(),
                    live,
                    base,
                    rest,
                    k,
                    Some(first),
                    self.buffered(),
                    scanner.live(),
                    old(self).resets(),
                ));
                assert(self.remaining() == old(self).remaining().skip(k));
                assert(self.offset() == old(self).offset().plus(k as u64));
            }
            Some(first)
        }
    }

    /// Every match that is left: those that are buffered, then those of the
    /// bytes that are not read yet. Afterwards the iterator is exhausted.
    pub fn collect<P: ScannerPredicate>(&mut self, scanner: &mut StreamScanner<P>) -> (r: Vec<
        ScanResult,
    >)
        ensures
            final(scanner).predicate() == old(scanner).predicate(),
            final(self).resets() == old(self).resets(),
            final(self).buffered().len() == 0,
            final(self).remaining().len() == 0,
            r@ == old(self).buffered() + scan_run(
                old(scanner).predicate(),
                old(scanner).live(),
                old(self).offset(),
                old(self).remaining(),
            ).found,
            final(scanner).live() == if old(self).resets() {
                Seq::<ScannerCandidate>::empty()
            } else {
                scan_run(
                    old(scanner).predicate(),
                    old(scanner).live(),
                    old(self).offset(),
                    old(self).remaining(),
                ).live
            },
    {
        let ghost predicate = scanner.predicate();
        let ghost whole = scan_run(predicate, scanner.live(), self.offset(), self.remaining());
        let ghost total = self.buffered() + whole.found;
        let mut out: Vec<ScanResult> = Vec::new();
        let mut done = false;
        proof {
            assert(out@ + self.buffered() + whole.found =~= total);
        }
        while !done
            invariant
                self.resets() == old(self).resets(),
                scanner.predicate() == predicate,
                !done ==> out@ + self.buffered() + scan_run(
                    predicate,
                    scanner.live(),
                    self.offset(),
                    self.remaining(),
                ).found == total,
                !done ==> scan_run(
                    predicate,
                    scanner.live(),
                    self.offset(),
                    self.remaining(),
                ).live == whole.live,
                done ==> out@ == total && self.buffered().len() == 0 && self.remaining().len()
                    == 0 && scanner.live() == if old(self).resets() {
                    Seq::<ScannerCandidate>::empty()
                } else {
                    whole.live
                },
            decreases
                    (if done {
                        0int
                    } else {
                        1int
                    }),
                    self.remaining().len(),
                    self.buffered().len(),
        {
            let ghost buffered = self.buffered();
            let ghost rest = self.remaining();
            let ghost here = self.offset();
            let ghost live = scanner.live();
            let ghost so_far = out@;
            let size = self.stream.len();
            proof {
                use_type_invariant(&*self);
                assert(rest.len() <= size);
            }
            match self.next(scanner) {
                Some(found) => {
                    out.push(found);
                    proof {
                        if buffered.len() > 0 {
                            assert(so_far.push(found) + buffered.skip(1) =~= so_far + buffered);
                        } else {
                            let k = choose|k: int|
                                {
                                    &&& #[trigger] reads_ahead(
                                        predicate,
                                        live,
                                        here,
                                        rest,
                                        k,
                                        Some(found),
                                        self.buffered(),
                                        scanner.live(),
                                        self.resets(),
                                    )
                                    &&& self.remaining() == rest.skip(k)
                                    &&& self.offset() == here.plus(k as u64)
                                };
                            lemma_scan_run_split(predicate, live, here, rest.take(k), rest.skip(k));
                            assert(rest.take(k) + rest.skip(k) =~= rest);
                            let read = scan_run(predicate, live, here, rest.take(k));
                            let tail = scan_run(predicate, read.live, here.plus(k as u64), rest.skip(k));
                            assert(so_far + buffered + (read.found + tail.found) =~= so_far.push(
                                found,
                            ) + self.buffered() + tail.found);
                        }
                    }
                },
                None => {
                    done = true;
                    proof {
                        let k = choose|k: int|
                            {
                                &&& #[trigger] reads_ahead(
                                    predicate,
                                    live,
                                    here,
                                    rest,
                                    k,
                                    None,
                                    self.buffered(),
                                    scanner.live(),
                                    self.resets(),
                                )
                                &&& self.remaining() == rest.skip(k)
                                &&& self.offset() == here.plus(k as u64)
                            };
                        assert(rest.take(k) =~= rest);
                        assert(buffered.len() == 0);
                        assert(so_far + buffered + scan_run(predicate, live, here, rest).found
                            =~= so_far);
                    }
                },
            }
        }
        out
    }
}

/// A scan of two streams in a row is the scan of the first, then the scan
/// of the second from where the first ended.
pub proof fn lemma_scan_run_split<P: ScannerPredicate>(
    predicate: P,
    live: Seq<ScannerCandidate>,
    offset: OffsetType,
    first: Seq<u8>,
    second: Seq<u8>,
)
    requires
        first.len() + second.len() <= u64::MAX,
    ensures
        scan_run(predicate, live, offset, first + second) == ({
            let head = scan_run(predicate, live, offset, first);
            let tail = scan_run(predicate, head.live, offset.plus(first.len() as u64), second);
            ScanState { live: tail.live, found: head.found + tail.found }
        }),
    decreases second.len(),
{
    let head = scan_run(predicate, live, offset, first);
    let middle = offset.plus(first.len() as u64);
    if second.len() == 0 {
        assert(first + second =~= first);
        assert(head.found + Seq::<ScanResult>::empty() =~= head.found);
    } else {
        let whole = first + second;
        lemma_scan_run_split(predicate, live, offset, first, second.drop_last());
        assert(whole.drop_last() =~= first + second.drop_last());
        assert(whole.last() == second.last());
        assert(offset.plus((whole.len() - 1) as u64) == middle.plus((second.len() - 1) as u64));
        let inner = scan_run(predicate, head.live, middle, second.drop_last());
        let step = byte_step(
            predicate,
            inner.live,
            middle.plus((second.len() - 1) as u64),
            second.last(),
        );
        assert((head.found + inner.found) + step.found =~= head.found + (inner.found + step.found));
    }
}

/// The matches come in ascending order of their offsets.
pub open spec fn offsets_ascend(found: Seq<ScanResult>) -> bool {
    forall|i: int, j: int| 0 <= i <= j < found.len() ==> found[i].0@ <= found[j].0@
}

/// The candidates come in ascending order of their offsets.
pub open spec fn candidates_ascend(candidates: Seq<ScannerCandidate>) -> bool {
    forall|i: int, j: int|
        0 <= i <= j < candidates.len() ==> candidates[i].offset@ <= candidates[j].offset@
}

proof fn lemma_sorted_offsets(candidates: Seq<ScannerCandidate>, i: int, j: int)
    requires
        ascending(candidates),
        0 <= i <= j < candidates.len(),
    ensures
        candidates[i].offset@ <= candidates[j].offset@,
    decreases j - i,
{
    if i < j {
        lemma_sorted_offsets(candidates, i, j - 1);
        assert(candidates[j - 1].sorts_before(candidates[j - 1 + 1]));
    }
}

proof fn lemma_sweep_order(candidates: Seq<ScannerCandidate>)
    requires
        candidates_ascend(candidates),
    ensures
        offsets_ascend(sweep(candidates).found),
        forall|k: int|
            0 <= k < sweep(candidates).found.len() ==> (#[trigger] sweep(candidates).found[k]).0@
                <= candidates.last().offset@,
        sweep(candidates).gathering matches Some(acc) ==> {
            &&& candidates.len() > 0
            &&& acc.offset@ <= candidates.last().offset@
            &&& forall|k: int|
                0 <= k < sweep(candidates).found.len() ==> (
                #[trigger] sweep(candidates).found[k]).0@ <= acc.offset@
        },
    decreases candidates.len(),
{
    if candidates.len() > 0 {
        let front = candidates.drop_last();
        let current = candidates.last();
        assert(candidates_ascend(front)) by {
            assert forall|i: int, j: int| 0 <= i <= j < front.len() implies front[i].offset@
                <= front[j].offset@ by {
                assert(candidates[i].offset@ <= candidates[j].offset@);
            }
        }
        lemma_sweep_order(front);
        let before = sweep(front);
        if front.len() > 0 {
            assert(front.last() == candidates[candidates.len() - 2]);
            assert(candidates[candidates.len() - 2].offset@ <= candidates[candidates.len()
                - 1].offset@);
        }
        assert(current == candidates[candidates.len() - 1]);
        let after = sweep(candidates);
        assert forall|k: int| 0 <= k < before.found.len() implies (#[trigger] before.found[k]).0@
            <= current.offset@ by {
            assert(before.found[k].0@ <= front.last().offset@);
        }
        match before.gathering {
            None => {},
            Some(acc) => {
                if acc.mergeable(current) {
                    let joint = acc.merged(current);
                    if joint.resolved && joint.start_offset is None {
                        assert forall|i: int, j: int| 0 <= i <= j < after.found.len() implies
                            after.found[i].0@ <= after.found[j].0@ by {
                            if j < before.found.len() {
                                assert(before.found[i].0@ <= before.found[j].0@);
                            } else if i < before.found.len() {
                                assert(before.found[i].0@ <= acc.offset@);
                            }
                        }
                    }
                }
            },
        }
    }
}

/// What resolving the partial candidates finds comes in ascending order of
/// the offsets, whatever order the candidates were in.
pub proof fn lemma_resolve_order(live: Seq<ScannerCandidate>)
    ensures
        offsets_ascend(resolve_run(live).found),
{
    let sorted = sorted_run(live);
    lemma_sorted_run(live);
    assert(candidates_ascend(sorted)) by {
        assert forall|i: int, j: int| 0 <= i <= j < sorted.len() implies sorted[i].offset@
            <= sorted[j].offset@ by {
            lemma_sorted_offsets(sorted, i, j);
        }
    }
    lemma_sweep_order(sorted);
}

} // verus!
