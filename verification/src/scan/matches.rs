//! What a scan with a value predicate finds: every occurrence of the
//! pattern at a legal offset, once, in ascending order.

use vstd::prelude::*;
use crate::common::OffsetType;
use crate::common::group_offset;
use crate::scan::candidate::lemma_sorted_members;
use crate::scan::candidate::sorted_run;
use crate::scan::candidate::ScannerCandidate;
use crate::scan::predicate::PartialScannerPredicate;
use crate::scan::predicate::value::ValuePredicate;
use crate::scan::predicate::ScannerPredicate;
use crate::scan::stream::byte_step;
use crate::scan::stream::lemma_scan_run_split;
use crate::scan::stream::partial_run;
use crate::scan::stream::resolve_run;
use crate::scan::stream::scan_run;
use crate::scan::stream::sweep;
use crate::scan::stream::update_all;
use crate::scan::stream::ScanResult;
use crate::scan::stream::ScanState;

verus! {

broadcast use group_offset;

/// The bytes of `stream` from position `s` up to position `k` agree with the
/// start of the pattern, and a match may start at the address of position
/// `s`.
pub open spec fn prefix_match(
    predicate: ValuePredicate,
    offset: OffsetType,
    stream: Seq<u8>,
    s: int,
    k: int,
) -> bool {
    &&& predicate.legal(offset.plus(s as u64)@)
    &&& forall|t: int| s <= t < k ==> #[trigger] stream[t] == predicate.pattern()[t - s]
}

/// The pattern occurs in `stream` at position `s`, which is a legal offset.
pub open spec fn match_at(
    predicate: ValuePredicate,
    offset: OffsetType,
    stream: Seq<u8>,
    s: int,
) -> bool {
    &&& 0 <= s
    &&& s + predicate.pattern().len() <= stream.len()
    &&& prefix_match(predicate, offset, stream, s, s + predicate.pattern().len())
}

/// The match that an occurrence at position `s` is reported as: the
/// address of that position, capped at the largest address, and the length
/// of the pattern.
pub open spec fn match_result(predicate: ValuePredicate, offset: OffsetType, s: int) -> ScanResult {
    (offset.plus(s as u64), predicate.pattern().len() as usize)
}

/// The occurrences that end within the first `k` bytes of the stream, in
/// ascending order.
pub open spec fn matches_until(
    predicate: ValuePredicate,
    offset: OffsetType,
    stream: Seq<u8>,
    k: int,
) -> Seq<ScanResult>
    decreases k,
{
    if k <= 0 {
        Seq::empty()
    } else {
        let before = matches_until(predicate, offset, stream, k - 1);
        let s = k - predicate.pattern().len();
        if match_at(predicate, offset, stream, s) {
            before.push(match_result(predicate, offset, s))
        } else {
            before
        }
    }
}

/// The first position at which a candidate can still be open after `k`
/// bytes.
spec fn lowest_open(predicate: ValuePredicate, k: int) -> int {
    if k - predicate.pattern().len() + 1 > 0 {
        k - predicate.pattern().len() + 1
    } else {
        0
    }
}

/// The candidate that is open after `k` bytes for a match from position `s`.
spec fn open_candidate(offset: OffsetType, s: int, k: int) -> ScannerCandidate {
    ScannerCandidate {
        offset: offset.plus(s as u64),
        start_offset: None,
        length: (k - s) as usize,
        resolved: false,
    }
}

/// The candidates that are open after `k` bytes for the positions below
/// `upto`, in ascending order.
spec fn open_until(
    predicate: ValuePredicate,
    offset: OffsetType,
    stream: Seq<u8>,
    k: int,
    upto: int,
) -> Seq<ScannerCandidate>
    decreases upto,
{
    if upto <= lowest_open(predicate, k) {
        Seq::empty()
    } else {
        let before = open_until(predicate, offset, stream, k, upto - 1);
        if prefix_match(predicate, offset, stream, upto - 1, k) {
            before.push(open_candidate(offset, upto - 1, k))
        } else {
            before
        }
    }
}

/// The match that the byte at position `k` completes, if the candidate for
/// it lies below `upto`.
spec fn completed_below(
    predicate: ValuePredicate,
    offset: OffsetType,
    stream: Seq<u8>,
    k: int,
    upto: int,
) -> Seq<ScanResult> {
    let s = k + 1 - predicate.pattern().len();
    if s < upto && s < k && match_at(predicate, offset, stream, s) {
        seq![match_result(predicate, offset, s)]
    } else {
        Seq::empty()
    }
}

proof fn lemma_update_open(
    predicate: ValuePredicate,
    offset: OffsetType,
    stream: Seq<u8>,
    k: int,
    upto: int,
)
    requires
        predicate.wf(),
        0 <= k < stream.len(),
        stream.len() <= u64::MAX,
        upto <= k,
    ensures
        update_all(
            predicate,
            open_until(predicate, offset, stream, k, upto),
            offset.plus(k as u64),
            stream[k],
        ) == (ScanState {
            live: open_until(predicate, offset, stream, k + 1, upto),
            found: completed_below(predicate, offset, stream, k, upto),
        }),
    decreases upto,
{
    let n = predicate.pattern().len() as int;
    let here = offset.plus(k as u64);
    let byte = stream[k];
    let low = lowest_open(predicate, k);
    let live = open_until(predicate, offset, stream, k, upto);
    if upto <= low {
        assert(open_until(predicate, offset, stream, k + 1, upto) =~= Seq::empty());
    } else {
        let s = upto - 1;
        lemma_update_open(predicate, offset, stream, k, s);
        let before = open_until(predicate, offset, stream, k, s);
        if prefix_match(predicate, offset, stream, s, k) {
            let current = open_candidate(offset, s, k);
            assert(live == before.push(current));
            assert(live.drop_last() =~= before);
            assert(live.last() == current);
            assert(current.end_value() == here@);
            assert(current.length == k - s);
            if predicate.pattern()[k - s] != byte {
                assert(!prefix_match(predicate, offset, stream, s, k + 1));
                assert(!match_at(predicate, offset, stream, s));
            } else {
                assert(prefix_match(predicate, offset, stream, s, k + 1));
                if k - s == n - 1 {
                    assert(match_at(predicate, offset, stream, s));
                    assert(open_until(predicate, offset, stream, k + 1, upto) =~= Seq::empty());
                    assert(open_until(predicate, offset, stream, k + 1, s) =~= Seq::empty());
                    assert(completed_below(predicate, offset, stream, k, s) =~= Seq::empty());
                    assert(Seq::<ScanResult>::empty().push(match_result(predicate, offset, s))
                        =~= seq![match_result(predicate, offset, s)]);
                } else {
                    assert(current.advanced() == open_candidate(offset, s, k + 1));
                }
            }
        } else {
            assert(!prefix_match(predicate, offset, stream, s, k + 1));
            assert(!match_at(predicate, offset, stream, s)) by {
                if s + n <= stream.len() && k - s == n - 1 {
                    assert(!prefix_match(predicate, offset, stream, s, s + n));
                }
            }
        }
    }
}

proof fn lemma_scan_prefix(predicate: ValuePredicate, offset: OffsetType, stream: Seq<u8>, k: int)
    requires
        predicate.wf(),
        0 <= k <= stream.len(),
        stream.len() <= u64::MAX,
    ensures
        scan_run(predicate, Seq::empty(), offset, stream.take(k)) == (ScanState {
            live: open_until(predicate, offset, stream, k, k),
            found: matches_until(predicate, offset, stream, k),
        }),
    decreases k,
{
    let n = predicate.pattern().len() as int;
    if k == 0 {
        assert(open_until(predicate, offset, stream, 0, 0) =~= Seq::empty());
    } else {
        let j = k - 1;
        lemma_scan_prefix(predicate, offset, stream, j);
        assert(stream.take(k).drop_last() =~= stream.take(j));
        assert(stream.take(k).last() == stream[j]);
        let here = offset.plus(j as u64);
        let byte = stream[j];
        lemma_update_open(predicate, offset, stream, j, j);
        let live = open_until(predicate, offset, stream, j, j);
        let updated = update_all(predicate, live, here, byte);
        let found = matches_until(predicate, offset, stream, j);
        let s = k - n;
        if predicate.legal(here@) && predicate.pattern()[0] == byte {
            assert(prefix_match(predicate, offset, stream, j, k));
            if n == 1 {
                assert(match_at(predicate, offset, stream, s));
                assert(completed_below(predicate, offset, stream, j, j) =~= Seq::empty());
                assert(open_until(predicate, offset, stream, k, k) =~= Seq::empty());
                assert(found + Seq::<ScanResult>::empty().push((here, 1usize)) =~= found.push(
                    match_result(predicate, offset, s),
                ));
            } else {
                assert(open_candidate(offset, j, k) == (ScannerCandidate {
                    offset: here,
                    start_offset: None,
                    length: 1,
                    resolved: false,
                }));
                lemma_found_join(predicate, offset, stream, k);
            }
        } else {
            assert(!prefix_match(predicate, offset, stream, j, k));
            if n == 1 {
                assert(!match_at(predicate, offset, stream, s));
                assert(completed_below(predicate, offset, stream, j, j) =~= Seq::empty());
                assert(open_until(predicate, offset, stream, k, k) =~= Seq::empty());
                assert(found + Seq::<ScanResult>::empty() =~= found);
            } else {
                lemma_found_join(predicate, offset, stream, k);
            }
        }
    }
}

proof fn lemma_found_join(predicate: ValuePredicate, offset: OffsetType, stream: Seq<u8>, k: int)
    requires
        predicate.wf(),
        1 <= k <= stream.len(),
        predicate.pattern().len() >= 2,
    ensures
        matches_until(predicate, offset, stream, k - 1) + completed_below(
            predicate,
            offset,
            stream,
            k - 1,
            k - 1,
        ) == matches_until(predicate, offset, stream, k),
{
    let before = matches_until(predicate, offset, stream, k - 1);
    let s = k - predicate.pattern().len();
    if match_at(predicate, offset, stream, s) {
        assert(before + seq![match_result(predicate, offset, s)] =~= before.push(
            match_result(predicate, offset, s),
        ));
    } else {
        assert(before + Seq::<ScanResult>::empty() =~= before);
    }
}

/// A single scan finds exactly the occurrences of the pattern at legal
/// offsets, in the order in which they end, each reported at the address of
/// its first byte, capped at the largest address.
pub proof fn lemma_scan_finds_matches(
    predicate: ValuePredicate,
    offset: OffsetType,
    stream: Seq<u8>,
)
    requires
        predicate.wf(),
        stream.len() <= u64::MAX,
    ensures
        scan_run(predicate, Seq::empty(), offset, stream).found == matches_until(
            predicate,
            offset,
            stream,
            stream.len() as int,
        ),
{
    lemma_scan_prefix(predicate, offset, stream, stream.len() as int);
    assert(stream.take(stream.len() as int) =~= stream);
}

/// No occurrence is missed: one at a legal offset that ends within the
/// first `k` bytes is among the matches.
pub proof fn lemma_matches_complete(
    predicate: ValuePredicate,
    offset: OffsetType,
    stream: Seq<u8>,
    k: int,
    s: int,
)
    requires
        predicate.wf(),
        match_at(predicate, offset, stream, s),
        s + predicate.pattern().len() <= k,
    ensures
        matches_until(predicate, offset, stream, k).contains(match_result(predicate, offset, s)),
    decreases k,
{
    let n = predicate.pattern().len() as int;
    let found = matches_until(predicate, offset, stream, k);
    if s + n == k {
        assert(found.last() == match_result(predicate, offset, s));
    } else {
        lemma_matches_complete(predicate, offset, stream, k - 1, s);
        let before = matches_until(predicate, offset, stream, k - 1);
        let i = choose|i: int| 0 <= i < before.len() && before[i] == match_result(
            predicate,
            offset,
            s,
        );
        assert(found[i] == match_result(predicate, offset, s));
    }
}

/// Every match is an occurrence of the pattern at a legal offset, so with
/// an aligned predicate at a multiple of the alignment, and the matches come
/// in strictly ascending order of their offsets, so none is reported twice.
pub proof fn lemma_matches_sound(
    predicate: ValuePredicate,
    offset: OffsetType,
    stream: Seq<u8>,
    k: int,
    i: int,
)
    requires
        predicate.wf(),
        k <= stream.len(),
        offset@ + stream.len() <= u64::MAX,
        0 <= i < matches_until(predicate, offset, stream, k).len(),
    ensures
        ({
            let found = matches_until(predicate, offset, stream, k)[i];
            let s = found.0@ - offset@;
            &&& found == match_result(predicate, offset, s)
            &&& match_at(predicate, offset, stream, s)
            &&& s + predicate.pattern().len() <= k
            &&& predicate.legal(found.0@)
            &&& predicate.is_aligned() ==> found.0@ as int % predicate.alignment() as int == 0
            &&& forall|j: int|
                0 <= j < i ==> (#[trigger] matches_until(predicate, offset, stream, k)[j]).0@
                    < found.0@
        }),
    decreases k,
{
    let n = predicate.pattern().len() as int;
    let found = matches_until(predicate, offset, stream, k);
    let before = matches_until(predicate, offset, stream, k - 1);
    if i < before.len() {
        lemma_matches_sound(predicate, offset, stream, k - 1, i);
        assert(found[i] == before[i]);
        assert forall|j: int| 0 <= j < i implies (#[trigger] found[j]).0@ < found[i].0@ by {
            assert(found[j] == before[j]);
        }
    } else {
        let s = k - n;
        assert(found[i] == match_result(predicate, offset, s));
        assert forall|j: int| 0 <= j < i implies (#[trigger] found[j]).0@ < found[i].0@ by {
            lemma_matches_sound(predicate, offset, stream, k - 1, j);
            assert(found[j] == before[j]);
        }
    }
}

/// The candidates that were born at their natural start, in order.
pub open spec fn naturals(live: Seq<ScannerCandidate>) -> Seq<ScannerCandidate>
    decreases live.len(),
{
    if live.len() == 0 {
        Seq::empty()
    } else {
        let before = naturals(live.drop_last());
        if live.last().start_offset is None {
            before.push(live.last())
        } else {
            before
        }
    }
}

proof fn lemma_naturals_push(live: Seq<ScannerCandidate>, candidate: ScannerCandidate)
    ensures
        naturals(live.push(candidate)) == if candidate.start_offset is None {
            naturals(live).push(candidate)
        } else {
            naturals(live)
        },
{
    assert(live.push(candidate).drop_last() =~= live);
}

/// Partial candidates have no part in what the update of the live
/// candidates finds, nor in what becomes of the others.
proof fn lemma_update_naturals<P: ScannerPredicate>(
    predicate: P,
    live: Seq<ScannerCandidate>,
    offset: OffsetType,
    byte: u8,
)
    ensures
        update_all(predicate, naturals(live), offset, byte) == (ScanState {
            live: naturals(update_all(predicate, live, offset, byte).live),
            found: update_all(predicate, live, offset, byte).found,
        }),
    decreases live.len(),
{
    if live.len() == 0 {
        assert(naturals(Seq::<ScannerCandidate>::empty()) =~= Seq::empty());
    } else {
        let front = live.drop_last();
        let current = live.last();
        lemma_update_naturals(predicate, front, offset, byte);
        let before = update_all(predicate, front, offset, byte);
        lemma_naturals_push(before.live, current);
        lemma_naturals_push(before.live, current.advanced());
        if current.start_offset is None {
            assert(naturals(live).drop_last() =~= naturals(front));
        }
    }
}

proof fn lemma_step_naturals(
    predicate: ValuePredicate,
    live: Seq<ScannerCandidate>,
    offset: OffsetType,
    byte: u8,
)
    ensures
        byte_step(predicate, naturals(live), offset, byte) == (ScanState {
            live: naturals(byte_step(predicate, live, offset, byte).live),
            found: byte_step(predicate, live, offset, byte).found,
        }),
{
    lemma_update_naturals(predicate, live, offset, byte);
    let updated = update_all(predicate, live, offset, byte);
    match predicate.start_spec(offset, byte) {
        None => {},
        Some(candidate) => {
            lemma_naturals_push(updated.live, candidate);
        },
    }
}

proof fn lemma_scan_naturals(
    predicate: ValuePredicate,
    live: Seq<ScannerCandidate>,
    offset: OffsetType,
    stream: Seq<u8>,
)
    ensures
        scan_run(predicate, naturals(live), offset, stream) == (ScanState {
            live: naturals(scan_run(predicate, live, offset, stream).live),
            found: scan_run(predicate, live, offset, stream).found,
        }),
    decreases stream.len(),
{
    if stream.len() > 0 {
        lemma_scan_naturals(predicate, live, offset, stream.drop_last());
        let before = scan_run(predicate, live, offset, stream.drop_last());
        lemma_step_naturals(
            predicate,
            before.live,
            offset.plus((stream.len() - 1) as u64),
            stream.last(),
        );
    }
}

/// A resolved candidate is partial and lies below the largest address, and
/// a match of `n` bytes from its offset ends at or below `bound`.
spec fn tame(candidate: ScannerCandidate, n: int, bound: int) -> bool {
    candidate.resolved ==> {
        &&& candidate.start_offset is Some
        &&& candidate.offset@ + n <= bound
        &&& candidate.offset@ < u64::MAX
    }
}

spec fn all_tame(live: Seq<ScannerCandidate>, n: int, bound: int) -> bool {
    forall|i: int| 0 <= i < live.len() ==> tame(#[trigger] live[i], n, bound)
}

proof fn lemma_update_tame<P: ScannerPredicate>(
    predicate: P,
    live: Seq<ScannerCandidate>,
    offset: OffsetType,
    byte: u8,
    n: int,
    bound: int,
)
    requires
        all_tame(live, n, bound),
    ensures
        all_tame(update_all(predicate, live, offset, byte).live, n, bound),
    decreases live.len(),
{
    if live.len() > 0 {
        let front = live.drop_last();
        assert(all_tame(front, n, bound)) by {
            assert forall|i: int| 0 <= i < front.len() implies tame(#[trigger] front[i], n, bound) by {
                assert(tame(live[i], n, bound));
            }
        }
        lemma_update_tame(predicate, front, offset, byte, n, bound);
        assert(tame(live[live.len() - 1], n, bound));
    }
}

proof fn lemma_scan_tame<P: ScannerPredicate>(
    predicate: P,
    live: Seq<ScannerCandidate>,
    offset: OffsetType,
    stream: Seq<u8>,
    n: int,
    bound: int,
)
    requires
        all_tame(live, n, bound),
    ensures
        all_tame(scan_run(predicate, live, offset, stream).live, n, bound),
    decreases stream.len(),
{
    if stream.len() > 0 {
        lemma_scan_tame(predicate, live, offset, stream.drop_last(), n, bound);
        let before = scan_run(predicate, live, offset, stream.drop_last());
        lemma_update_tame(
            predicate,
            before.live,
            offset.plus((stream.len() - 1) as u64),
            stream.last(),
            n,
            bound,
        );
    }
}

/// What the value predicate offers at the start of a chunk is partial, and
/// what is resolved of it ends with the byte that was seen.
proof fn lemma_partials_tame(predicate: ValuePredicate, offset: OffsetType, byte: u8, lowest: int)
    requires
        predicate.wf(),
        1 <= lowest,
    ensures
        all_tame(
            predicate.partials_down_to(offset, byte, lowest),
            predicate.pattern().len() as int,
            offset@ + 1,
        ),
        forall|i: int|
            0 <= i < predicate.partials_down_to(offset, byte, lowest).len() ==> (
            #[trigger] predicate.partials_down_to(offset, byte, lowest)[i]).start_offset is Some,
    decreases predicate.pattern().len() - lowest,
{
    if lowest < predicate.pattern().len() {
        lemma_partials_tame(predicate, offset, byte, lowest + 1);
    }
}

proof fn lemma_naturals_skip_partials(live: Seq<ScannerCandidate>, partials: Seq<ScannerCandidate>)
    requires
        forall|i: int| 0 <= i < partials.len() ==> (#[trigger] partials[i]).start_offset is Some,
    ensures
        naturals(live + partials) == naturals(live),
    decreases partials.len(),
{
    if partials.len() == 0 {
        assert(live + partials =~= live);
    } else {
        let front = partials.drop_last();
        lemma_naturals_skip_partials(live, front);
        assert(live + partials =~= (live + front).push(partials.last()));
        assert(partials[partials.len() - 1].start_offset is Some);
        lemma_naturals_push(live + front, partials.last());
    }
}

proof fn lemma_naturals_member(live: Seq<ScannerCandidate>, i: int) -> (m: int)
    requires
        0 <= i < live.len(),
        live[i].start_offset is None,
    ensures
        0 <= m < naturals(live).len(),
        naturals(live)[m] == live[i],
    decreases live.len(),
{
    if i == live.len() - 1 {
        naturals(live).len() - 1
    } else {
        lemma_naturals_member(live.drop_last(), i)
    }
}

/// A candidate that is open after `k` bytes would end beyond them, or
/// lies at the largest address.
proof fn lemma_open_bounds(
    predicate: ValuePredicate,
    offset: OffsetType,
    stream: Seq<u8>,
    k: int,
    upto: int,
    m: int,
)
    requires
        predicate.wf(),
        upto <= k <= stream.len(),
        stream.len() <= u64::MAX,
        0 <= m < open_until(predicate, offset, stream, k, upto).len(),
    ensures
        open_until(predicate, offset, stream, k, upto)[m].offset@ + predicate.pattern().len()
            > offset@ + k || open_until(predicate, offset, stream, k, upto)[m].offset@
            == u64::MAX,
    decreases upto,
{
    if upto > lowest_open(predicate, k) {
        let before = open_until(predicate, offset, stream, k, upto - 1);
        if m < before.len() {
            lemma_open_bounds(predicate, offset, stream, k, upto - 1, m);
        }
    }
}

/// No candidate that was born at its natural start shares its offset with
/// a resolved one.
spec fn calm(live: Seq<ScannerCandidate>) -> bool {
    forall|i: int, j: int|
        0 <= i < live.len() && 0 <= j < live.len() && (#[trigger] live[i]).start_offset is None
            && (#[trigger] live[j]).resolved ==> live[i].offset != live[j].offset
}

proof fn lemma_sorted_calm(live: Seq<ScannerCandidate>)
    requires
        calm(live),
    ensures
        calm(sorted_run(live)),
{
    let sorted = sorted_run(live);
    assert forall|i: int, j: int|
        0 <= i < sorted.len() && 0 <= j < sorted.len() && (#[trigger] sorted[i]).start_offset is None
            && (#[trigger] sorted[j]).resolved implies sorted[i].offset != sorted[j].offset by {
        let a = lemma_sorted_members(live, i);
        let b = lemma_sorted_members(live, j);
        assert(live[a].offset != live[b].offset);
    }
}

/// The sweep emits nothing where no natural candidate shares its offset
/// with a resolved one.
proof fn lemma_sweep_calm(candidates: Seq<ScannerCandidate>)
    requires
        calm(candidates),
    ensures
        sweep(candidates).found.len() == 0,
        sweep(candidates).gathering matches Some(acc) ==> {
            &&& acc.start_offset is None ==> exists|i: int|
                0 <= i < candidates.len() && (#[trigger] candidates[i]).start_offset is None
                    && candidates[i].offset == acc.offset
            &&& acc.resolved ==> exists|j: int|
                0 <= j < candidates.len() && (#[trigger] candidates[j]).resolved
                    && candidates[j].offset == acc.offset
        },
    decreases candidates.len(),
{
    if candidates.len() > 0 {
        let front = candidates.drop_last();
        let current = candidates.last();
        let last = candidates.len() - 1;
        assert(calm(front)) by {
            assert forall|i: int, j: int|
                0 <= i < front.len() && 0 <= j < front.len() && (
                #[trigger] front[i]).start_offset is None && (
                #[trigger] front[j]).resolved implies front[i].offset != front[j].offset by {
                assert(candidates[i].offset != candidates[j].offset);
            }
        }
        lemma_sweep_calm(front);
        let before = sweep(front);
        assert(candidates[last] == current);
        match before.gathering {
            None => {},
            Some(acc) => {
                let natural_in_front = acc.start_offset is None;
                let resolved_in_front = acc.resolved;
                if natural_in_front {
                    let i = choose|i: int|
                        0 <= i < front.len() && (#[trigger] front[i]).start_offset is None
                            && front[i].offset == acc.offset;
                    assert(candidates[i] == front[i]);
                }
                if resolved_in_front {
                    let j = choose|j: int|
                        0 <= j < front.len() && (#[trigger] front[j]).resolved && front[j].offset
                            == acc.offset;
                    assert(candidates[j] == front[j]);
                }
                if acc.mergeable(current) {
                    let joint = acc.merged(current);
                    if joint.start_offset is None {
                        assert(exists|i: int|
                            0 <= i < candidates.len() && (
                            #[trigger] candidates[i]).start_offset is None && candidates[i].offset
                                == joint.offset);
                    }
                    if joint.resolved {
                        assert(exists|j: int|
                            0 <= j < candidates.len() && (#[trigger] candidates[j]).resolved
                                && candidates[j].offset == joint.offset);
                    }
                    if joint.resolved && joint.start_offset is None {
                        let i = choose|i: int|
                            0 <= i < candidates.len() && (
                            #[trigger] candidates[i]).start_offset is None && candidates[i].offset
                                == joint.offset;
                        let j = choose|j: int|
                            0 <= j < candidates.len() && (#[trigger] candidates[j]).resolved
                                && candidates[j].offset == joint.offset;
                        assert(candidates[i].offset != candidates[j].offset);
                    }
                }
            },
        }
    }
}

/// The chunks one after the other, as one stream.
pub open spec fn joined(chunks: Seq<Seq<u8>>) -> Seq<u8>
    decreases chunks.len(),
{
    if chunks.len() == 0 {
        Seq::empty()
    } else {
        joined(chunks.drop_last()) + chunks.last()
    }
}

/// One scanner's partial scans of the chunks of a contiguous sequence, in
/// ascending order: the first chunk lies at `offset`, each further chunk
/// where the one before it ended.
pub open spec fn partial_scans<P: PartialScannerPredicate>(
    predicate: P,
    offset: OffsetType,
    chunks: Seq<Seq<u8>>,
) -> ScanState
    decreases chunks.len(),
{
    if chunks.len() == 0 {
        ScanState { live: Seq::empty(), found: Seq::empty() }
    } else {
        let before = partial_scans(predicate, offset, chunks.drop_last());
        let step = partial_run(
            predicate,
            before.live,
            offset.plus(joined(chunks.drop_last()).len() as u64),
            chunks.last(),
        );
        ScanState { live: step.live, found: before.found + step.found }
    }
}

proof fn lemma_all_tame_grows(live: Seq<ScannerCandidate>, n: int, bound: int, higher: int)
    requires
        all_tame(live, n, bound),
        bound <= higher,
    ensures
        all_tame(live, n, higher),
{
    assert forall|i: int| 0 <= i < live.len() implies tame(#[trigger] live[i], n, higher) by {
        assert(tame(live[i], n, bound));
    }
}

proof fn lemma_all_tame_joined(
    live: Seq<ScannerCandidate>,
    more: Seq<ScannerCandidate>,
    n: int,
    bound: int,
)
    requires
        all_tame(live, n, bound),
        all_tame(more, n, bound),
    ensures
        all_tame(live + more, n, bound),
{
    let whole = live + more;
    assert forall|i: int| 0 <= i < whole.len() implies tame(#[trigger] whole[i], n, bound) by {
        if i < live.len() {
            assert(tame(live[i], n, bound));
        } else {
            assert(tame(more[i - live.len()], n, bound));
        }
    }
}

proof fn lemma_partial_scans(predicate: ValuePredicate, offset: OffsetType, chunks: Seq<Seq<u8>>)
    requires
        predicate.wf(),
        joined(chunks).len() <= u64::MAX,
    ensures
        partial_scans(predicate, offset, chunks).found == scan_run(
            predicate,
            Seq::empty(),
            offset,
            joined(chunks),
        ).found,
        naturals(partial_scans(predicate, offset, chunks).live) == scan_run(
            predicate,
            Seq::empty(),
            offset,
            joined(chunks),
        ).live,
        all_tame(
            partial_scans(predicate, offset, chunks).live,
            predicate.pattern().len() as int,
            offset@ + joined(chunks).len(),
        ),
    decreases chunks.len(),
{
    let n = predicate.pattern().len() as int;
    if chunks.len() == 0 {
        assert(naturals(Seq::<ScannerCandidate>::empty()) =~= Seq::empty());
    } else {
        let front = chunks.drop_last();
        let chunk = chunks.last();
        let read = joined(front);
        lemma_partial_scans(predicate, offset, front);
        let before = partial_scans(predicate, offset, front);
        let whole_before = scan_run(predicate, Seq::empty(), offset, read);
        let here = offset.plus(read.len() as u64);
        lemma_scan_run_split(predicate, Seq::empty(), offset, read, chunk);
        if chunk.len() == 0 {
            assert(read + chunk =~= read);
            assert(before.found + Seq::<ScanResult>::empty() =~= before.found);
        } else {
            let partials = predicate.partial_spec(here, chunk[0]);
            let seeded = before.live + partials;
            lemma_partials_tame(predicate, here, chunk[0], 1);
            lemma_naturals_skip_partials(before.live, partials);
            lemma_scan_naturals(predicate, seeded, here, chunk);
            lemma_all_tame_grows(before.live, n, offset@ + read.len(), offset@ + read.len() + 1);
            lemma_all_tame_joined(before.live, partials, n, offset@ + read.len() + 1);
            lemma_scan_tame(predicate, seeded, here, chunk, n, offset@ + read.len() + 1);
            lemma_all_tame_grows(
                scan_run(predicate, seeded, here, chunk).live,
                n,
                offset@ + read.len() + 1,
                offset@ + joined(chunks).len(),
            );
        }
    }
}

/// Where one scanner scans the chunks of a contiguous sequence one by one,
/// in ascending order, and then resolves its partial candidates, it finds
/// what a single scan of the whole sequence finds, in the same order; the
/// resolving itself adds nothing. This holds wherever the sequence lies, also
/// where it passes the largest address.
pub proof fn lemma_partition_equivalence(
    predicate: ValuePredicate,
    offset: OffsetType,
    chunks: Seq<Seq<u8>>,
)
    requires
        predicate.wf(),
        joined(chunks).len() <= u64::MAX,
    ensures
        partial_scans(predicate, offset, chunks).found + resolve_run(
            partial_scans(predicate, offset, chunks).live,
        ).found == scan_run(predicate, Seq::empty(), offset, joined(chunks)).found,
        resolve_run(partial_scans(predicate, offset, chunks).live).found.len() == 0,
{
    let n = predicate.pattern().len() as int;
    let stream = joined(chunks);
    let k = stream.len() as int;
    let state = partial_scans(predicate, offset, chunks);
    let live = state.live;
    lemma_partial_scans(predicate, offset, chunks);
    lemma_scan_prefix(predicate, offset, stream, k);
    assert(stream.take(k) =~= stream);
    let open = open_until(predicate, offset, stream, k, k);
    assert(naturals(live) == open);
    assert(calm(live)) by {
        assert forall|i: int, j: int|
            0 <= i < live.len() && 0 <= j < live.len() && (#[trigger] live[i]).start_offset is None
                && (#[trigger] live[j]).resolved implies live[i].offset != live[j].offset by {
            let m = lemma_naturals_member(live, i);
            lemma_open_bounds(predicate, offset, stream, k, k, m);
            assert(tame(live[j], n, offset@ + k));
        }
    }
    lemma_sorted_calm(live);
    lemma_sweep_calm(sorted_run(live));
    assert(state.found + Seq::<ScanResult>::empty() =~= state.found);
}

/// A partial scan by a scanner that holds no candidates finds exactly the
/// occurrences that lie within its chunk: the partial candidates of the first
/// byte take no part in what the scan itself finds.
pub proof fn lemma_fresh_partial_scan(predicate: ValuePredicate, offset: OffsetType, chunk: Seq<u8>)
    requires
        predicate.wf(),
        chunk.len() <= u64::MAX,
    ensures
        partial_run(predicate, Seq::empty(), offset, chunk).found == matches_until(
            predicate,
            offset,
            chunk,
            chunk.len() as int,
        ),
{
    lemma_scan_finds_matches(predicate, offset, chunk);
    if chunk.len() > 0 {
        let none = Seq::<ScannerCandidate>::empty();
        let partials = predicate.partial_spec(offset, chunk[0]);
        lemma_partials_tame(predicate, offset, chunk[0], 1);
        lemma_naturals_skip_partials(none, partials);
        assert(naturals(none) =~= none);
        lemma_scan_naturals(predicate, none + partials, offset, chunk);
    }
}

} // verus!
