//! The interface through which the bytes of a target are read and written.

use vstd::prelude::*;
use crate::common::OffsetType;
use crate::common::group_offset;

verus! {

broadcast use group_offset;

/// Why a read failed.
#[derive(Debug, Copy, Clone, PartialEq, Eq, Structural)]
pub enum ReadError {
    /// The range is not readable in the target.
    NotPermitted,
    /// The transport failed; the value is the platform's error code.
    Io(i32),
}

/// Why a write failed.
#[derive(Debug, Copy, Clone, PartialEq, Eq, Structural)]
pub enum WriteError {
    /// The range is not writable in the target.
    NotPermitted,
    /// The transport failed; the value is the platform's error code.
    Io(i32),
}

/// Reading and writing the memory of a target.
///
/// The caller sees to it that the target is frozen and that the range is
/// mapped; an implementation does not check either.
pub trait MemoryAccess {
    /// Reads exactly `length` bytes from `offset`. A short read is an error.
    fn read(&mut self, offset: OffsetType, length: usize) -> (r: Result<Vec<u8>, ReadError>)
        ensures
            r matches Ok(bytes) ==> bytes@.len() == length,
    ;

    /// Writes exactly the bytes of `data` to the target, starting at
    /// `offset`.
    fn write(&mut self, offset: OffsetType, data: &[u8]) -> (r: Result<(), WriteError>);
}

/// Memory that is held in this process: the bytes from the address `base`
/// on. It stands in for a target where none is at hand, and every range
/// within it can be read and written.
#[derive(Debug)]
pub struct MemoryImage {
    base: OffsetType,
    bytes: Vec<u8>,
}

impl MemoryImage {
    /// The address of the first byte.
    pub closed spec fn base(self) -> OffsetType {
        self.base
    }

    /// The bytes of the image.
    pub closed spec fn bytes(self) -> Seq<u8> {
        self.bytes@
    }

    /// The `length` bytes from `offset` on lie within the image.
    pub open spec fn holds(self, offset: OffsetType, length: int) -> bool {
        self.base()@ <= offset@ && offset@ - self.base()@ + length <= self.bytes().len()
    }

    pub fn new(base: OffsetType, bytes: Vec<u8>) -> (r: Self)
        ensures
            r.base() == base,
            r.bytes() == bytes@,
    {
        MemoryImage { base, bytes }
    }

    /// Where in the image the `length` bytes from `offset` on start, if they
    /// lie within it.
    fn locate(&self, offset: OffsetType, length: usize) -> (r: Option<usize>)
        ensures
            self.holds(offset, length as int) ==> r == Some((offset@ - self.base()@) as usize),
            !self.holds(offset, length as int) ==> r is None,
    {
        if offset.get() < self.base.get() {
            return None;
        }
        let start = offset.get() - self.base.get();
        let size = self.bytes.len();
        if start > size as u64 || length > size - start as usize {
            return None;
        }
        Some(start as usize)
    }
}

impl MemoryAccess for MemoryImage {
    /// Reads the bytes of a range within the image, and refuses any other
    /// range.
    fn read(&mut self, offset: OffsetType, length: usize) -> (r: Result<Vec<u8>, ReadError>)
        ensures
            *final(self) == *old(self),
            old(self).holds(offset, length as int) ==> (r matches Ok(bytes) && bytes@ == old(
                self,
            ).bytes().subrange(
                offset@ - old(self).base()@,
                offset@ - old(self).base()@ + length,
            )),
            !old(self).holds(offset, length as int) ==> r == Err::<Vec<u8>, ReadError>(
                ReadError::NotPermitted,
            ),
    {
        let start = match self.locate(offset, length) {
            Some(start) => start,
            None => {
                return Err(ReadError::NotPermitted);
            },
        };
        let size = self.bytes.len();
        let mut out: Vec<u8> = Vec::new();
        let mut i: usize = 0;
        proof {
            assert(out@ =~= self.bytes@.subrange(start as int, start as int));
        }
        while i < length
            invariant
                i <= length,
                *self == *old(self),
                size == self.bytes@.len(),
                start + length <= size,
                out@ == self.bytes@.subrange(start as int, start + i),
            decreases length - i,
        {
            out.push(self.bytes[start + i]);
            proof {
                assert(out@ =~= self.bytes@.subrange(start as int, start + i + 1));
            }
            i += 1;
        }
        Ok(out)
    }

    /// Writes `data` over a range within the image, and refuses any other
    /// range without changing the image.
    fn write(&mut self, offset: OffsetType, data: &[u8]) -> (r: Result<(), WriteError>)
        ensures
            final(self).base() == old(self).base(),
            old(self).holds(offset, data@.len() as int) ==> r is Ok && final(self).bytes() == old(
                self,
            ).bytes().subrange(0, offset@ - old(self).base()@) + data@ + old(
                self,
            ).bytes().subrange(
                offset@ - old(self).base()@ + data@.len(),
                old(self).bytes().len() as int,
            ),
            !old(self).holds(offset, data@.len() as int) ==> r == Err::<(), WriteError>(
                WriteError::NotPermitted,
            ) && final(self).bytes() == old(self).bytes(),
    {
        let length = data.len();
        let start = match self.locate(offset, length) {
            Some(start) => start,
            None => {
                return Err(WriteError::NotPermitted);
            },
        };
        let ghost before = self.bytes@;
        let size = self.bytes.len();
        let mut i: usize = 0;
        proof {
            assert(self.bytes@ =~= before.subrange(0, start as int) + data@.subrange(0, 0)
                + before.subrange(start as int, before.len() as int));
        }
        while i < length
            invariant
                i <= length,
                length == data@.len(),
                size == before.len(),
                start + length <= size,
                self.base == old(self).base,
                self.bytes@ == before.subrange(0, start as int) + data@.subrange(0, i as int)
                    + before.subrange(start + i, before.len() as int),
            decreases length - i,
        {
            self.bytes.set(start + i, data[i]);
            proof {
                assert(self.bytes@ =~= before.subrange(0, start as int) + data@.subrange(
                    0,
                    i as int + 1,
                ) + before.subrange(start + i + 1, before.len() as int));
            }
            i += 1;
        }
        proof {
            assert(data@.subrange(0, length as int) =~= data@);
        }
        Ok(())
    }
}

} // verus!
