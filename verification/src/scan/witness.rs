//! What a candidate vouches for: the bytes of the target that it has seen
//! agree with the pattern, and a match may start at its offset. Scans,
//! merges and the resolving sweep keep that true, so every match that is
//! handed out is an occurrence of the pattern at a legal offset, however the
//! target's memory was cut into chunks and whichever scanners read them.

use vstd::prelude::*;
use crate::common::OffsetType;
use crate::common::group_offset;
use crate::scan::candidate::lemma_sorted_members;
use crate::scan::candidate::sorted_run;
use crate::scan::candidate::ScannerCandidate;
use crate::scan::matches::match_at;
use crate::scan::matches::match_result;
use crate::scan::predicate::value::ValuePredicate;
use crate::scan::predicate::PartialScannerPredicate;
use crate::scan::predicate::ScannerPredicate;
use crate::scan::stream::byte_step;
use crate::scan::stream::partial_run;
use crate::scan::stream::resolve_run;
use crate::scan::stream::scan_run;
use crate::scan::stream::sweep;
use crate::scan::stream::update_all;
use crate::scan::stream::ScanResult;
use crate::scan::stream::ScanState;

verus! {

broadcast use group_offset;

/// The candidate is true of `memory`, whose first byte lies at `base`: a
/// match may start at its offset, it is no longer than the pattern and as
/// long where it is resolved, and every byte from where it was first seen up
/// to its end agrees with the pattern.
pub open spec fn holds(
    predicate: ValuePredicate,
    base: OffsetType,
    memory: Seq<u8>,
    candidate: ScannerCandidate,
) -> bool {
    let s = candidate.offset@ - base@;
    let from = candidate.start_value() - base@;
    let to = s + candidate.length;
    &&& predicate.legal(candidate.offset@)
    &&& 1 <= candidate.length <= predicate.pattern().len()
    &&& candidate.resolved ==> candidate.length == predicate.pattern().len()
    &&& s <= from
    &&& 0 <= from
    &&& to <= memory.len()
    &&& forall|t: int| from <= t < to ==> #[trigger] memory[t] == predicate.pattern()[t - s]
}

/// Every candidate of the sequence is true of `memory`.
pub open spec fn all_hold(
    predicate: ValuePredicate,
    base: OffsetType,
    memory: Seq<u8>,
    live: Seq<ScannerCandidate>,
) -> bool {
    forall|i: int| 0 <= i < live.len() ==> holds(predicate, base, memory, #[trigger] live[i])
}

/// The match is an occurrence of the pattern in `memory` at a legal offset.
pub open spec fn occurs(
    predicate: ValuePredicate,
    base: OffsetType,
    memory: Seq<u8>,
    found: ScanResult,
) -> bool {
    &&& found == match_result(predicate, base, found.0@ - base@)
    &&& match_at(predicate, base, memory, found.0@ - base@)
}

/// Every match of the sequence is an occurrence of the pattern.
pub open spec fn all_occur(
    predicate: ValuePredicate,
    base: OffsetType,
    memory: Seq<u8>,
    found: Seq<ScanResult>,
) -> bool {
    forall|i: int| 0 <= i < found.len() ==> occurs(predicate, base, memory, #[trigger] found[i])
}

/// `chunk` is the part of `memory` that starts at the address `offset`.
pub open spec fn located(base: OffsetType, memory: Seq<u8>, offset: OffsetType, chunk: Seq<u8>) -> bool {
    &&& base@ <= offset@
    &&& offset@ - base@ + chunk.len() <= memory.len()
    &&& chunk == memory.subrange(offset@ - base@, offset@ - base@ + chunk.len())
}

proof fn lemma_all_hold_front(
    predicate: ValuePredicate,
    base: OffsetType,
    memory: Seq<u8>,
    live: Seq<ScannerCandidate>,
)
    requires
        all_hold(predicate, base, memory, live),
        live.len() > 0,
    ensures
        all_hold(predicate, base, memory, live.drop_last()),
        holds(predicate, base, memory, live.last()),
{
    let front = live.drop_last();
    assert forall|i: int| 0 <= i < front.len() implies holds(
        predicate,
        base,
        memory,
        #[trigger] front[i],
    ) by {
        assert(holds(predicate, base, memory, live[i]));
    }
    assert(holds(predicate, base, memory, live[live.len() - 1]));
}

proof fn lemma_all_hold_push(
    predicate: ValuePredicate,
    base: OffsetType,
    memory: Seq<u8>,
    live: Seq<ScannerCandidate>,
    candidate: ScannerCandidate,
)
    requires
        all_hold(predicate, base, memory, live),
        holds(predicate, base, memory, candidate),
    ensures
        all_hold(predicate, base, memory, live.push(candidate)),
{
    let whole = live.push(candidate);
    assert forall|i: int| 0 <= i < whole.len() implies holds(
        predicate,
        base,
        memory,
        #[trigger] whole[i],
    ) by {
        if i < live.len() {
            assert(holds(predicate, base, memory, live[i]));
        }
    }
}

proof fn lemma_all_occur_push(
    predicate: ValuePredicate,
    base: OffsetType,
    memory: Seq<u8>,
    found: Seq<ScanResult>,
    result: ScanResult,
)
    requires
        all_occur(predicate, base, memory, found),
        occurs(predicate, base, memory, result),
    ensures
        all_occur(predicate, base, memory, found.push(result)),
{
    let whole = found.push(result);
    assert forall|i: int| 0 <= i < whole.len() implies occurs(
        predicate,
        base,
        memory,
        #[trigger] whole[i],
    ) by {
        if i < found.len() {
            assert(occurs(predicate, base, memory, found[i]));
        }
    }
}

/// Candidates that are true of the memory stay true when they are joined.
pub proof fn lemma_all_hold_joined(
    predicate: ValuePredicate,
    base: OffsetType,
    memory: Seq<u8>,
    live: Seq<ScannerCandidate>,
    more: Seq<ScannerCandidate>,
)
    requires
        all_hold(predicate, base, memory, live),
        all_hold(predicate, base, memory, more),
    ensures
        all_hold(predicate, base, memory, live + more),
{
    let whole = live + more;
    assert forall|i: int| 0 <= i < whole.len() implies holds(
        predicate,
        base,
        memory,
        #[trigger] whole[i],
    ) by {
        if i < live.len() {
            assert(holds(predicate, base, memory, live[i]));
        } else {
            assert(holds(predicate, base, memory, more[i - live.len()]));
        }
    }
}

proof fn lemma_all_occur_joined(
    predicate: ValuePredicate,
    base: OffsetType,
    memory: Seq<u8>,
    found: Seq<ScanResult>,
    more: Seq<ScanResult>,
)
    requires
        all_occur(predicate, base, memory, found),
        all_occur(predicate, base, memory, more),
    ensures
        all_occur(predicate, base, memory, found + more),
{
    let whole = found + more;
    assert forall|i: int| 0 <= i < whole.len() implies occurs(
        predicate,
        base,
        memory,
        #[trigger] whole[i],
    ) by {
        if i < found.len() {
            assert(occurs(predicate, base, memory, found[i]));
        } else {
            assert(occurs(predicate, base, memory, more[i - found.len()]));
        }
    }
}

proof fn lemma_update_sound(
    predicate: ValuePredicate,
    base: OffsetType,
    memory: Seq<u8>,
    live: Seq<ScannerCandidate>,
    offset: OffsetType,
)
    requires
        predicate.wf(),
        base@ + memory.len() <= u64::MAX,
        base@ <= offset@ < base@ + memory.len(),
        all_hold(predicate, base, memory, live),
    ensures
        all_hold(
            predicate,
            base,
            memory,
            update_all(predicate, live, offset, memory[offset@ - base@]).live,
        ),
        all_occur(
            predicate,
            base,
            memory,
            update_all(predicate, live, offset, memory[offset@ - base@]).found,
        ),
    decreases live.len(),
{
    let byte = memory[offset@ - base@];
    if live.len() > 0 {
        let front = live.drop_last();
        let current = live.last();
        lemma_all_hold_front(predicate, base, memory, live);
        lemma_update_sound(predicate, base, memory, front, offset);
        let before = update_all(predicate, front, offset, byte);
        let s = current.offset@ - base@;
        if current.resolved || current.end_value() != offset@ {
            lemma_all_hold_push(predicate, base, memory, before.live, current);
        } else {
            assert(current.offset@ + current.length == offset@);
            if current.length < predicate.pattern().len() && predicate.pattern()[
                current.length as int
            ] == byte {
                let longer = current.advanced();
                assert(holds(predicate, base, memory, longer)) by {
                    assert forall|t: int|
                        longer.start_value() - base@ <= t < s + longer.length implies #[trigger]
                        memory[t] == predicate.pattern()[t - s] by {
                        if t < s + current.length {
                        }
                    }
                }
                if current.length == predicate.pattern().len() - 1 {
                    if current.start_offset is Some {
                        lemma_all_hold_push(predicate, base, memory, before.live, current);
                    } else {
                        let result = (current.offset, longer.length);
                        assert(occurs(predicate, base, memory, result));
                        lemma_all_occur_push(predicate, base, memory, before.found, result);
                    }
                } else {
                    lemma_all_hold_push(predicate, base, memory, before.live, longer);
                }
            }
        }
    }
}

proof fn lemma_step_sound(
    predicate: ValuePredicate,
    base: OffsetType,
    memory: Seq<u8>,
    live: Seq<ScannerCandidate>,
    offset: OffsetType,
)
    requires
        predicate.wf(),
        base@ + memory.len() <= u64::MAX,
        base@ <= offset@ < base@ + memory.len(),
        all_hold(predicate, base, memory, live),
    ensures
        all_hold(
            predicate,
            base,
            memory,
            byte_step(predicate, live, offset, memory[offset@ - base@]).live,
        ),
        all_occur(
            predicate,
            base,
            memory,
            byte_step(predicate, live, offset, memory[offset@ - base@]).found,
        ),
{
    let byte = memory[offset@ - base@];
    lemma_update_sound(predicate, base, memory, live, offset);
    let updated = update_all(predicate, live, offset, byte);
    match predicate.start_spec(offset, byte) {
        None => {},
        Some(candidate) => {
            if candidate.resolved {
                let result = (candidate.offset, candidate.length);
                assert(occurs(predicate, base, memory, result));
                lemma_all_occur_push(predicate, base, memory, updated.found, result);
            } else {
                assert(holds(predicate, base, memory, candidate));
                lemma_all_hold_push(predicate, base, memory, updated.live, candidate);
            }
        },
    }
}

/// A scan of a part of the memory keeps the candidates true and finds only
/// occurrences of the pattern.
pub proof fn lemma_scan_sound(
    predicate: ValuePredicate,
    base: OffsetType,
    memory: Seq<u8>,
    live: Seq<ScannerCandidate>,
    offset: OffsetType,
    chunk: Seq<u8>,
)
    requires
        predicate.wf(),
        base@ + memory.len() <= u64::MAX,
        located(base, memory, offset, chunk),
        all_hold(predicate, base, memory, live),
    ensures
        all_hold(predicate, base, memory, scan_run(predicate, live, offset, chunk).live),
        all_occur(predicate, base, memory, scan_run(predicate, live, offset, chunk).found),
    decreases chunk.len(),
{
    if chunk.len() > 0 {
        let front = chunk.drop_last();
        assert(front =~= memory.subrange(offset@ - base@, offset@ - base@ + front.len()));
        lemma_scan_sound(predicate, base, memory, live, offset, front);
        let before = scan_run(predicate, live, offset, front);
        let here = offset.plus((chunk.len() - 1) as u64);
        assert(here@ == offset@ + chunk.len() - 1);
        assert(chunk.last() == memory[here@ - base@]);
        lemma_step_sound(predicate, base, memory, before.live, here);
        lemma_all_occur_joined(
            predicate,
            base,
            memory,
            before.found,
            byte_step(predicate, before.live, here, chunk.last()).found,
        );
    }
}

/// The partial candidates that a byte of the memory gives rise to are true
/// of the memory.
proof fn lemma_partials_hold(
    predicate: ValuePredicate,
    base: OffsetType,
    memory: Seq<u8>,
    offset: OffsetType,
    lowest: int,
)
    requires
        predicate.wf(),
        base@ + memory.len() <= u64::MAX,
        base@ <= offset@ < base@ + memory.len(),
        1 <= lowest,
    ensures
        all_hold(
            predicate,
            base,
            memory,
            predicate.partials_down_to(offset, memory[offset@ - base@], lowest),
        ),
    decreases predicate.pattern().len() - lowest,
{
    let byte = memory[offset@ - base@];
    if lowest < predicate.pattern().len() {
        lemma_partials_hold(predicate, base, memory, offset, lowest + 1);
        let above = predicate.partials_down_to(offset, byte, lowest + 1);
        if predicate.partial_fits(offset, byte, lowest) {
            let candidate = predicate.partial_at(offset, lowest);
            assert(holds(predicate, base, memory, candidate));
            lemma_all_hold_push(predicate, base, memory, above, candidate);
        }
    }
}

/// A partial scan of a part of the memory keeps the candidates true and
/// finds only occurrences of the pattern.
pub proof fn lemma_partial_scan_sound(
    predicate: ValuePredicate,
    base: OffsetType,
    memory: Seq<u8>,
    live: Seq<ScannerCandidate>,
    offset: OffsetType,
    chunk: Seq<u8>,
)
    requires
        predicate.wf(),
        base@ + memory.len() <= u64::MAX,
        located(base, memory, offset, chunk),
        all_hold(predicate, base, memory, live),
    ensures
        all_hold(predicate, base, memory, partial_run(predicate, live, offset, chunk).live),
        all_occur(predicate, base, memory, partial_run(predicate, live, offset, chunk).found),
{
    if chunk.len() > 0 {
        assert(chunk[0] == memory[offset@ - base@]);
        lemma_partials_hold(predicate, base, memory, offset, 1);
        let partials = predicate.partial_spec(offset, chunk[0]);
        lemma_all_hold_joined(predicate, base, memory, live, partials);
        lemma_scan_sound(predicate, base, memory, live + partials, offset, chunk);
    }
}

/// Two candidates that are true of the memory merge into one that is.
pub proof fn lemma_merge_sound(
    predicate: ValuePredicate,
    base: OffsetType,
    memory: Seq<u8>,
    a: ScannerCandidate,
    b: ScannerCandidate,
)
    requires
        holds(predicate, base, memory, a),
        holds(predicate, base, memory, b),
        a.mergeable(b),
        base@ + memory.len() <= u64::MAX,
    ensures
        holds(predicate, base, memory, a.merged(b)),
{
    let joint = a.merged(b);
    let s = a.offset@ - base@;
    assert forall|t: int| joint.start_value() - base@ <= t < s + joint.length implies #[trigger]
        memory[t] == predicate.pattern()[t - s] by {
        if a.start_value() - base@ <= t < s + a.length {
        } else {
            assert(b.start_value() - base@ <= t < s + b.length);
        }
    }
}

proof fn lemma_sweep_sound(
    predicate: ValuePredicate,
    base: OffsetType,
    memory: Seq<u8>,
    candidates: Seq<ScannerCandidate>,
)
    requires
        predicate.wf(),
        base@ + memory.len() <= u64::MAX,
        all_hold(predicate, base, memory, candidates),
    ensures
        all_hold(predicate, base, memory, sweep(candidates).done),
        sweep(candidates).gathering matches Some(acc) ==> holds(predicate, base, memory, acc),
        all_occur(predicate, base, memory, sweep(candidates).found),
    decreases candidates.len(),
{
    if candidates.len() > 0 {
        let front = candidates.drop_last();
        let current = candidates.last();
        lemma_all_hold_front(predicate, base, memory, candidates);
        lemma_sweep_sound(predicate, base, memory, front);
        let before = sweep(front);
        match before.gathering {
            None => {},
            Some(acc) => {
                if acc.mergeable(current) {
                    lemma_merge_sound(predicate, base, memory, acc, current);
                    let joint = acc.merged(current);
                    if joint.resolved && joint.start_offset is None {
                        let result = (joint.offset, joint.length);
                        assert(occurs(predicate, base, memory, result));
                        lemma_all_occur_push(predicate, base, memory, before.found, result);
                    }
                } else {
                    lemma_all_hold_push(predicate, base, memory, before.done, acc);
                }
            },
        }
    }
}

/// Resolving candidates that are true of the memory yields only
/// occurrences of the pattern, and leaves candidates that are true of it.
pub proof fn lemma_resolve_sound(
    predicate: ValuePredicate,
    base: OffsetType,
    memory: Seq<u8>,
    live: Seq<ScannerCandidate>,
)
    requires
        predicate.wf(),
        base@ + memory.len() <= u64::MAX,
        all_hold(predicate, base, memory, live),
    ensures
        all_hold(predicate, base, memory, resolve_run(live).live),
        all_occur(predicate, base, memory, resolve_run(live).found),
{
    let sorted = sorted_run(live);
    assert(all_hold(predicate, base, memory, sorted)) by {
        assert forall|i: int| 0 <= i < sorted.len() implies holds(
            predicate,
            base,
            memory,
            #[trigger] sorted[i],
        ) by {
            let j = lemma_sorted_members(live, i);
            assert(holds(predicate, base, memory, live[j]));
        }
    }
    lemma_sweep_sound(predicate, base, memory, sorted);
    let swept = sweep(sorted);
    match swept.gathering {
        Some(acc) => {
            lemma_all_hold_push(predicate, base, memory, swept.done, acc);
        },
        None => {},
    }
}

/// A match may start at the offset of every candidate.
pub open spec fn all_legal(predicate: ValuePredicate, live: Seq<ScannerCandidate>) -> bool {
    forall|i: int| 0 <= i < live.len() ==> predicate.legal((#[trigger] live[i]).offset@)
}

/// Every match starts at a legal offset: with an aligned predicate, at a
/// multiple of the alignment.
pub open spec fn all_aligned(predicate: ValuePredicate, found: Seq<ScanResult>) -> bool {
    forall|i: int|
        0 <= i < found.len() ==> {
            &&& predicate.legal((#[trigger] found[i]).0@)
            &&& predicate.is_aligned() ==> found[i].0@ as int % predicate.alignment() as int == 0
        }
}

proof fn lemma_update_aligned(
    predicate: ValuePredicate,
    live: Seq<ScannerCandidate>,
    offset: OffsetType,
    byte: u8,
)
    requires
        all_legal(predicate, live),
    ensures
        all_legal(predicate, update_all(predicate, live, offset, byte).live),
        all_aligned(predicate, update_all(predicate, live, offset, byte).found),
    decreases live.len(),
{
    if live.len() > 0 {
        let front = live.drop_last();
        assert(all_legal(predicate, front)) by {
            assert forall|i: int| 0 <= i < front.len() implies predicate.legal(
                (#[trigger] front[i]).offset@,
            ) by {
                assert(predicate.legal(live[i].offset@));
            }
        }
        assert(predicate.legal(live[live.len() - 1].offset@));
        lemma_update_aligned(predicate, front, offset, byte);
    }
}

/// A scan from candidates at legal offsets finds matches at legal offsets
/// only, and leaves candidates at legal offsets, wherever the stream lies.
pub proof fn lemma_scan_aligned(
    predicate: ValuePredicate,
    live: Seq<ScannerCandidate>,
    offset: OffsetType,
    stream: Seq<u8>,
)
    requires
        all_legal(predicate, live),
    ensures
        all_legal(predicate, scan_run(predicate, live, offset, stream).live),
        all_aligned(predicate, scan_run(predicate, live, offset, stream).found),
    decreases stream.len(),
{
    if stream.len() > 0 {
        lemma_scan_aligned(predicate, live, offset, stream.drop_last());
        let before = scan_run(predicate, live, offset, stream.drop_last());
        let here = offset.plus((stream.len() - 1) as u64);
        lemma_update_aligned(predicate, before.live, here, stream.last());
        let step = byte_step(predicate, before.live, here, stream.last());
        let whole = before.found + step.found;
        assert forall|i: int| 0 <= i < whole.len() implies {
            &&& predicate.legal((#[trigger] whole[i]).0@)
            &&& predicate.is_aligned() ==> whole[i].0@ as int % predicate.alignment() as int == 0
        } by {
            if i < before.found.len() {
                assert(predicate.legal(before.found[i].0@));
            } else {
                assert(predicate.legal(step.found[i - before.found.len()].0@));
            }
        }
    }
}

proof fn lemma_partials_legal(predicate: ValuePredicate, offset: OffsetType, byte: u8, lowest: int)
    requires
        1 <= lowest,
    ensures
        all_legal(predicate, predicate.partials_down_to(offset, byte, lowest)),
    decreases predicate.pattern().len() - lowest,
{
    if lowest < predicate.pattern().len() {
        lemma_partials_legal(predicate, offset, byte, lowest + 1);
    }
}

/// A partial scan from candidates at legal offsets finds matches at legal
/// offsets only, and leaves candidates at legal offsets.
pub proof fn lemma_partial_scan_aligned(
    predicate: ValuePredicate,
    live: Seq<ScannerCandidate>,
    offset: OffsetType,
    stream: Seq<u8>,
)
    requires
        all_legal(predicate, live),
    ensures
        all_legal(predicate, partial_run(predicate, live, offset, stream).live),
        all_aligned(predicate, partial_run(predicate, live, offset, stream).found),
{
    if stream.len() > 0 {
        let partials = predicate.partial_spec(offset, stream[0]);
        lemma_partials_legal(predicate, offset, stream[0], 1);
        let seeded = live + partials;
        assert(all_legal(predicate, seeded)) by {
            assert forall|i: int| 0 <= i < seeded.len() implies predicate.legal(
                (#[trigger] seeded[i]).offset@,
            ) by {
                if i < live.len() {
                    assert(predicate.legal(live[i].offset@));
                } else {
                    assert(predicate.legal(partials[i - live.len()].offset@));
                }
            }
        }
        lemma_scan_aligned(predicate, seeded, offset, stream);
    }
}

proof fn lemma_sweep_aligned(predicate: ValuePredicate, candidates: Seq<ScannerCandidate>)
    requires
        all_legal(predicate, candidates),
    ensures
        all_legal(predicate, sweep(candidates).done),
        sweep(candidates).gathering matches Some(acc) ==> predicate.legal(acc.offset@),
        all_aligned(predicate, sweep(candidates).found),
    decreases candidates.len(),
{
    if candidates.len() > 0 {
        let front = candidates.drop_last();
        assert(all_legal(predicate, front)) by {
            assert forall|i: int| 0 <= i < front.len() implies predicate.legal(
                (#[trigger] front[i]).offset@,
            ) by {
                assert(predicate.legal(candidates[i].offset@));
            }
        }
        assert(predicate.legal(candidates[candidates.len() - 1].offset@));
        lemma_sweep_aligned(predicate, front);
    }
}

/// Resolving candidates at legal offsets yields matches at legal offsets
/// only, and leaves candidates at legal offsets.
pub proof fn lemma_resolve_aligned(predicate: ValuePredicate, live: Seq<ScannerCandidate>)
    requires
        all_legal(predicate, live),
    ensures
        all_legal(predicate, resolve_run(live).live),
        all_aligned(predicate, resolve_run(live).found),
{
    let sorted = sorted_run(live);
    assert(all_legal(predicate, sorted)) by {
        assert forall|i: int| 0 <= i < sorted.len() implies predicate.legal(
            (#[trigger] sorted[i]).offset@,
        ) by {
            let j = lemma_sorted_members(live, i);
            assert(predicate.legal(live[j].offset@));
        }
    }
    lemma_sweep_aligned(predicate, sorted);
}

/// The partial scans of several scanners, each of which starts with no
/// candidates and scans one chunk, merged into one scanner: the live sets one
/// after the other in the order of merging, and the matches likewise.
pub open spec fn merged_scans<P: PartialScannerPredicate>(
    predicate: P,
    offsets: Seq<OffsetType>,
    chunks: Seq<Seq<u8>>,
) -> ScanState
    decreases chunks.len(),
{
    if chunks.len() == 0 {
        ScanState { live: Seq::empty(), found: Seq::empty() }
    } else {
        let before = merged_scans(predicate, offsets.drop_last(), chunks.drop_last());
        let one = partial_run(predicate, Seq::empty(), offsets.last(), chunks.last());
        ScanState { live: before.live + one.live, found: before.found + one.found }
    }
}

/// Each chunk is the part of `memory` that starts at its offset.
pub open spec fn all_located(
    base: OffsetType,
    memory: Seq<u8>,
    offsets: Seq<OffsetType>,
    chunks: Seq<Seq<u8>>,
) -> bool {
    &&& offsets.len() == chunks.len()
    &&& forall|i: int| 0 <= i < chunks.len() ==> located(base, memory, offsets[i], #[trigger] chunks[i])
}

/// Whatever parts of the memory several scanners scan, and in whatever
/// order they are merged, every match that their scans hand out and every
/// match that resolving the merged candidates hands out is an occurrence of
/// the pattern at a legal offset, and the candidates that stay are true of
/// the memory.
pub proof fn lemma_merged_scans_sound(
    predicate: ValuePredicate,
    base: OffsetType,
    memory: Seq<u8>,
    offsets: Seq<OffsetType>,
    chunks: Seq<Seq<u8>>,
)
    requires
        predicate.wf(),
        base@ + memory.len() <= u64::MAX,
        all_located(base, memory, offsets, chunks),
    ensures
        all_hold(predicate, base, memory, merged_scans(predicate, offsets, chunks).live),
        all_occur(predicate, base, memory, merged_scans(predicate, offsets, chunks).found),
        all_occur(
            predicate,
            base,
            memory,
            merged_scans(predicate, offsets, chunks).found + resolve_run(
                merged_scans(predicate, offsets, chunks).live,
            ).found,
        ),
        all_hold(
            predicate,
            base,
            memory,
            resolve_run(merged_scans(predicate, offsets, chunks).live).live,
        ),
    decreases chunks.len(),
{
    let merged = merged_scans(predicate, offsets, chunks);
    if chunks.len() > 0 {
        let front_offsets = offsets.drop_last();
        let front = chunks.drop_last();
        assert(all_located(base, memory, front_offsets, front)) by {
            assert forall|i: int| 0 <= i < front.len() implies located(
                base,
                memory,
                front_offsets[i],
                #[trigger] front[i],
            ) by {
                assert(located(base, memory, offsets[i], chunks[i]));
            }
        }
        lemma_merged_scans_sound(predicate, base, memory, front_offsets, front);
        let before = merged_scans(predicate, front_offsets, front);
        assert(located(base, memory, offsets[chunks.len() - 1], chunks[chunks.len() - 1]));
        lemma_partial_scan_sound(
            predicate,
            base,
            memory,
            Seq::empty(),
            offsets.last(),
            chunks.last(),
        );
        let one = partial_run(predicate, Seq::empty(), offsets.last(), chunks.last());
        lemma_all_hold_joined(predicate, base, memory, before.live, one.live);
        lemma_all_occur_joined(predicate, base, memory, before.found, one.found);
    }
    lemma_resolve_sound(predicate, base, memory, merged.live);
    lemma_all_occur_joined(predicate, base, memory, merged.found, resolve_run(merged.live).found);
}

} // verus!
