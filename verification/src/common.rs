//! Definitions shared by every part of the library.

use vstd::prelude::*;

verus! {

/// An address in the target's address space. Address zero is never a valid
/// offset, so a value of this type is always strictly positive.
#[derive(Debug, Copy, Clone, PartialEq, Eq, PartialOrd, Ord, Hash, Structural)]
pub struct OffsetType {
    value: u64,
}

impl OffsetType {
    #[verifier::type_invariant]
    spec fn nonzero(self) -> bool {
        self.value != 0
    }

    /// The address as a plain number.
    pub closed spec fn view(self) -> u64 {
        self.value
    }

    /// The offset at `offset`, or `None` for address zero.
    pub fn new(offset: u64) -> (r: Option<Self>)
        ensures
            offset == 0 <==> r is None,
            r matches Some(o) ==> o == Self::at(offset),
    {
        if offset == 0 {
            None
        } else {
            Some(OffsetType { value: offset })
        }
    }

    /// The offset at `offset`, which must not be zero.
    pub fn new_unwrap(offset: u64) -> (r: Self)
        requires
            offset != 0,
        ensures
            r == Self::at(offset),
    {
        OffsetType { value: offset }
    }

    /// The address, which is never zero.
    pub fn get(&self) -> (r: u64)
        ensures
            r == self@,
            r > 0,
    {
        proof {
            use_type_invariant(self);
        }
        self.value
    }

    /// The offset whose address is `value`; meaningful for a non-zero `value`.
    pub closed spec fn at(value: u64) -> Self {
        OffsetType { value }
    }

    /// The sum of the address and `rhs`, capped at the largest address.
    pub open spec fn capped_sum(self, rhs: u64) -> u64 {
        if self@ + rhs > u64::MAX {
            u64::MAX
        } else {
            (self@ + rhs) as u64
        }
    }

    /// What `saturating_add` yields.
    pub open spec fn plus(self, rhs: u64) -> Self {
        Self::at(self.capped_sum(rhs))
    }

    /// The offset at an address has that address.
    pub broadcast proof fn lemma_at_view(value: u64)
        ensures
            (#[trigger] Self::at(value))@ == value,
    {
    }

    /// An offset is determined by its address: it is the offset at it.
    pub broadcast proof fn lemma_view_at(self)
        ensures
            Self::at(#[trigger] self@) == self,
    {
    }

    /// The offset `rhs` bytes further on, or the largest address where the
    /// sum would pass it.
    pub fn saturating_add(&self, rhs: u64) -> (r: Self)
        ensures
            r == self.plus(rhs),
    {
        proof {
            use_type_invariant(self);
        }
        let value: u64 = if rhs > u64::MAX - self.value {
            u64::MAX
        } else {
            self.value + rhs
        };
        OffsetType { value }
    }
}

/// The two facts that tie an offset to its address. A proof that compares
/// offsets by their addresses brings them in with `broadcast use`.
pub broadcast group group_offset {
    OffsetType::lemma_at_view,
    OffsetType::lemma_view_at,
}

} // verus!
