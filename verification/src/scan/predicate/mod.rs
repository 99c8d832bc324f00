//! The interface through which a scanner asks where candidates are born,
//! how they continue and when they resolve.

use vstd::prelude::*;
use crate::common::OffsetType;
use crate::scan::candidate::ScannerCandidate;

pub mod value;

verus! {

/// The fate of a live candidate that is extended by one byte.
#[derive(Debug, Copy, Clone, PartialEq, Eq, Structural)]
pub enum UpdateCandidateResult {
    /// The candidate is still valid: advance it and continue.
    Advance,
    /// The candidate is still valid but stays as it is.
    Skip,
    /// The candidate is no longer valid: remove it from the live set.
    Remove,
    /// The candidate has matched its last byte: resolve it into a match.
    Resolve,
}

/// A scanner predicate decides where candidates are created, updated,
/// removed and resolved. Its decisions are pure: each is a function of the
/// arguments, which the two spec functions name.
pub trait ScannerPredicate {
    /// The candidate that is born at `byte`, read at `offset`, if any.
    spec fn start_spec(&self, offset: OffsetType, byte: u8) -> Option<ScannerCandidate>;

    /// The fate of `candidate` when `byte`, read at `offset`, follows it.
    spec fn update_spec(
        &self,
        offset: OffsetType,
        byte: u8,
        candidate: ScannerCandidate,
    ) -> UpdateCandidateResult;

    /// Decides whether the byte just read starts a candidate.
    fn try_start_candidate(&self, offset: OffsetType, byte: u8) -> (r: Option<ScannerCandidate>)
        ensures
            r == self.start_spec(offset, byte),
    ;

    /// Decides whether the byte just read continues the candidate. A
    /// candidate is advanced or resolved only where its length can grow.
    fn update_candidate(&self, offset: OffsetType, byte: u8, candidate: &ScannerCandidate) -> (r:
        UpdateCandidateResult)
        ensures
            r == self.update_spec(offset, byte, *candidate),
            r == UpdateCandidateResult::Advance || r == UpdateCandidateResult::Resolve
                ==> candidate.length < usize::MAX,
    ;
}

/// A reference to a predicate is a predicate: several scanners can share
/// one.
impl<T: ScannerPredicate> ScannerPredicate for &T {
    open spec fn start_spec(&self, offset: OffsetType, byte: u8) -> Option<ScannerCandidate> {
        (**self).start_spec(offset, byte)
    }

    open spec fn update_spec(
        &self,
        offset: OffsetType,
        byte: u8,
        candidate: ScannerCandidate,
    ) -> UpdateCandidateResult {
        (**self).update_spec(offset, byte, candidate)
    }

    fn try_start_candidate(&self, offset: OffsetType, byte: u8) -> (r: Option<ScannerCandidate>) {
        (**self).try_start_candidate(offset, byte)
    }

    fn update_candidate(&self, offset: OffsetType, byte: u8, candidate: &ScannerCandidate) -> (r:
        UpdateCandidateResult) {
        (**self).update_candidate(offset, byte, candidate)
    }
}

/// A predicate that can also recognise a match by a byte from its middle,
/// so that a scan can run on separate chunks and still find the matches that
/// cross from one chunk into the next.
pub trait PartialScannerPredicate: ScannerPredicate {
    /// The partial candidates that `byte`, read at `offset` as the first
    /// byte of a chunk, gives rise to.
    spec fn partial_spec(&self, offset: OffsetType, byte: u8) -> Seq<ScannerCandidate>;

    /// Enumerates the partial candidates at the first byte of a chunk.
    fn try_start_partial_candidates(&self, offset: OffsetType, byte: u8) -> (r: Vec<
        ScannerCandidate,
    >)
        ensures
            r@ == self.partial_spec(offset, byte),
    ;
}

impl<T: PartialScannerPredicate> PartialScannerPredicate for &T {
    open spec fn partial_spec(&self, offset: OffsetType, byte: u8) -> Seq<ScannerCandidate> {
        (**self).partial_spec(offset, byte)
    }

    fn try_start_partial_candidates(&self, offset: OffsetType, byte: u8) -> (r: Vec<
        ScannerCandidate,
    >) {
        (**self).try_start_partial_candidates(offset, byte)
    }
}

} // verus!
