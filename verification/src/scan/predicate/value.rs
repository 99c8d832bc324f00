//! The predicate that matches one fixed value, byte by byte.

use vstd::prelude::*;
use vstd::string::StringSliceAdditionalSpecFns;
use vstd::string::StrSliceExecFns;
use crate::common::OffsetType;
use crate::common::group_offset;
use crate::scan::candidate::ScannerCandidate;
use crate::scan::predicate::PartialScannerPredicate;
use crate::scan::predicate::ScannerPredicate;
use crate::scan::predicate::UpdateCandidateResult;

verus! {

broadcast use group_offset;

/// A value that can be compared byte by byte: its bytes as they lie in
/// memory, and the alignment of its type.
///
/// Integers wider than a byte are laid out in little-endian order, the
/// layout of the platforms whose processes this library inspects; a signed
/// integer has the bytes of its two's complement. Floating-point values are
/// not among the implementors: a caller hands over the bytes of one.
pub trait ByteComparable {
    /// The bytes of the value.
    spec fn bytes_spec(&self) -> Seq<u8>;

    /// The alignment of the type, at least one.
    spec fn align_spec() -> usize;

    fn as_bytes(&self) -> (r: Vec<u8>)
        ensures
            r@ == self.bytes_spec(),
    ;

    /// The alignment requirement of the type; for a sequence, that of its
    /// elements.
    fn align_of() -> (r: usize)
        ensures
            r == Self::align_spec(),
            r >= 1,
    ;
}

impl ByteComparable for u8 {
    open spec fn bytes_spec(&self) -> Seq<u8> {
        seq![*self]
    }

    open spec fn align_spec() -> usize {
        1
    }

    fn as_bytes(&self) -> (r: Vec<u8>) {
        let mut out: Vec<u8> = Vec::new();
        out.push(*self);
        proof {
            assert(out@ =~= seq![*self]);
        }
        out
    }

    fn align_of() -> (r: usize) {
        1
    }
}

impl ByteComparable for u16 {
    open spec fn bytes_spec(&self) -> Seq<u8> {
        vstd::bytes::spec_u16_to_le_bytes(*self)
    }

    open spec fn align_spec() -> usize {
        2
    }

    fn as_bytes(&self) -> (r: Vec<u8>) {
        vstd::bytes::u16_to_le_bytes(*self)
    }

    fn align_of() -> (r: usize) {
        2
    }
}

/// The bytes of a sequence of `u16` values, one value after the other.
pub open spec fn u16_image(values: Seq<u16>) -> Seq<u8>
    decreases values.len(),
{
    if values.len() == 0 {
        Seq::empty()
    } else {
        u16_image(values.drop_last()) + vstd::bytes::spec_u16_to_le_bytes(values.last())
    }
}

impl ByteComparable for Vec<u16> {
    open spec fn bytes_spec(&self) -> Seq<u8> {
        u16_image(self@)
    }

    open spec fn align_spec() -> usize {
        2
    }

    fn as_bytes(&self) -> (r: Vec<u8>) {
        let mut out: Vec<u8> = Vec::new();
        let n = self.len();
        let mut i: usize = 0;
        while i < n
            invariant
                i <= n,
                n == self@.len(),
                out@ == u16_image(self@.take(i as int)),
            decreases n - i,
        {
            proof {
                assert(self@.take(i as int + 1).drop_last() =~= self@.take(i as int));
            }
            let mut piece = vstd::bytes::u16_to_le_bytes(self[i]);
            out.append(&mut piece);
            i += 1;
        }
        proof {
            assert(self@.take(n as int) =~= self@);
        }
        out
    }

    fn align_of() -> (r: usize) {
        2
    }
}

impl ByteComparable for u32 {
    open spec fn bytes_spec(&self) -> Seq<u8> {
        vstd::bytes::spec_u32_to_le_bytes(*self)
    }

    open spec fn align_spec() -> usize {
        4
    }

    fn as_bytes(&self) -> (r: Vec<u8>) {
        vstd::bytes::u32_to_le_bytes(*self)
    }

    fn align_of() -> (r: usize) {
        4
    }
}

/// The bytes of a sequence of `u32` values, one value after the other.
pub open spec fn u32_image(values: Seq<u32>) -> Seq<u8>
    decreases values.len(),
{
    if values.len() == 0 {
        Seq::empty()
    } else {
        u32_image(values.drop_last()) + vstd::bytes::spec_u32_to_le_bytes(values.last())
    }
}

impl ByteComparable for Vec<u32> {
    open spec fn bytes_spec(&self) -> Seq<u8> {
        u32_image(self@)
    }

    open spec fn align_spec() -> usize {
        4
    }

    fn as_bytes(&self) -> (r: Vec<u8>) {
        let mut out: Vec<u8> = Vec::new();
        let n = self.len();
        let mut i: usize = 0;
        while i < n
            invariant
                i <= n,
                n == self@.len(),
                out@ == u32_image(self@.take(i as int)),
            decreases n - i,
        {
            proof {
                assert(self@.take(i as int + 1).drop_last() =~= self@.take(i as int));
            }
            let mut piece = vstd::bytes::u32_to_le_bytes(self[i]);
            out.append(&mut piece);
            i += 1;
        }
        proof {
            assert(self@.take(n as int) =~= self@);
        }
        out
    }

    fn align_of() -> (r: usize) {
        4
    }
}

impl ByteComparable for u64 {
    open spec fn bytes_spec(&self) -> Seq<u8> {
        vstd::bytes::spec_u64_to_le_bytes(*self)
    }

    open spec fn align_spec() -> usize {
        8
    }

    fn as_bytes(&self) -> (r: Vec<u8>) {
        vstd::bytes::u64_to_le_bytes(*self)
    }

    fn align_of() -> (r: usize) {
        8
    }
}

/// The bytes of a sequence of `u64` values, one value after the other.
pub open spec fn u64_image(values: Seq<u64>) -> Seq<u8>
    decreases values.len(),
{
    if values.len() == 0 {
        Seq::empty()
    } else {
        u64_image(values.drop_last()) + vstd::bytes::spec_u64_to_le_bytes(values.last())
    }
}

impl ByteComparable for Vec<u64> {
    open spec fn bytes_spec(&self) -> Seq<u8> {
        u64_image(self@)
    }

    open spec fn align_spec() -> usize {
        8
    }

    fn as_bytes(&self) -> (r: Vec<u8>) {
        let mut out: Vec<u8> = Vec::new();
        let n = self.len();
        let mut i: usize = 0;
        while i < n
            invariant
                i <= n,
                n == self@.len(),
                out@ == u64_image(self@.take(i as int)),
            decreases n - i,
        {
            proof {
                assert(self@.take(i as int + 1).drop_last() =~= self@.take(i as int));
            }
            let mut piece = vstd::bytes::u64_to_le_bytes(self[i]);
            out.append(&mut piece);
            i += 1;
        }
        proof {
            assert(self@.take(n as int) =~= self@);
        }
        out
    }

    fn align_of() -> (r: usize) {
        8
    }
}

impl ByteComparable for i16 {
    open spec fn bytes_spec(&self) -> Seq<u8> {
        vstd::bytes::spec_u16_to_le_bytes(*self as u16)
    }

    open spec fn align_spec() -> usize {
        2
    }

    fn as_bytes(&self) -> (r: Vec<u8>) {
        vstd::bytes::u16_to_le_bytes(*self as u16)
    }

    fn align_of() -> (r: usize) {
        2
    }
}

/// The bytes of a sequence of `i16` values, one value after the other.
pub open spec fn i16_image(values: Seq<i16>) -> Seq<u8>
    decreases values.len(),
{
    if values.len() == 0 {
        Seq::empty()
    } else {
        i16_image(values.drop_last()) + vstd::bytes::spec_u16_to_le_bytes(values.last() as u16)
    }
}

impl ByteComparable for Vec<i16> {
    open spec fn bytes_spec(&self) -> Seq<u8> {
        i16_image(self@)
    }

    open spec fn align_spec() -> usize {
        2
    }

    fn as_bytes(&self) -> (r: Vec<u8>) {
        let mut out: Vec<u8> = Vec::new();
        let n = self.len();
        let mut i: usize = 0;
        while i < n
            invariant
                i <= n,
                n == self@.len(),
                out@ == i16_image(self@.take(i as int)),
            decreases n - i,
        {
            proof {
                assert(self@.take(i as int + 1).drop_last() =~= self@.take(i as int));
            }
            let mut piece = vstd::bytes::u16_to_le_bytes(self[i] as u16);
            out.append(&mut piece);
            i += 1;
        }
        proof {
            assert(self@.take(n as int) =~= self@);
        }
        out
    }

    fn align_of() -> (r: usize) {
        2
    }
}

impl ByteComparable for i32 {
    open spec fn bytes_spec(&self) -> Seq<u8> {
        vstd::bytes::spec_u32_to_le_bytes(*self as u32)
    }

    open spec fn align_spec() -> usize {
        4
    }

    fn as_bytes(&self) -> (r: Vec<u8>) {
        vstd::bytes::u32_to_le_bytes(*self as u32)
    }

    fn align_of() -> (r: usize) {
        4
    }
}

/// The bytes of a sequence of `i32` values, one value after the other.
pub open spec fn i32_image(values: Seq<i32>) -> Seq<u8>
    decreases values.len(),
{
    if values.len() == 0 {
        Seq::empty()
    } else {
        i32_image(values.drop_last()) + vstd::bytes::spec_u32_to_le_bytes(values.last() as u32)
    }
}

impl ByteComparable for Vec<i32> {
    open spec fn bytes_spec(&self) -> Seq<u8> {
        i32_image(self@)
    }

    open spec fn align_spec() -> usize {
        4
    }

    fn as_bytes(&self) -> (r: Vec<u8>) {
        let mut out: Vec<u8> = Vec::new();
        let n = self.len();
        let mut i: usize = 0;
        while i < n
            invariant
                i <= n,
                n == self@.len(),
                out@ == i32_image(self@.take(i as int)),
            decreases n - i,
        {
            proof {
                assert(self@.take(i as int + 1).drop_last() =~= self@.take(i as int));
            }
            let mut piece = vstd::bytes::u32_to_le_bytes(self[i] as u32);
            out.append(&mut piece);
            i += 1;
        }
        proof {
            assert(self@.take(n as int) =~= self@);
        }
        out
    }

    fn align_of() -> (r: usize) {
        4
    }
}

impl ByteComparable for i64 {
    open spec fn bytes_spec(&self) -> Seq<u8> {
        vstd::bytes::spec_u64_to_le_bytes(*self as u64)
    }

    open spec fn align_spec() -> usize {
        8
    }

    fn as_bytes(&self) -> (r: Vec<u8>) {
        vstd::bytes::u64_to_le_bytes(*self as u64)
    }

    fn align_of() -> (r: usize) {
        8
    }
}

/// The bytes of a sequence of `i64` values, one value after the other.
pub open spec fn i64_image(values: Seq<i64>) -> Seq<u8>
    decreases values.len(),
{
    if values.len() == 0 {
        Seq::empty()
    } else {
        i64_image(values.drop_last()) + vstd::bytes::spec_u64_to_le_bytes(values.last() as u64)
    }
}

impl ByteComparable for Vec<i64> {
    open spec fn bytes_spec(&self) -> Seq<u8> {
        i64_image(self@)
    }

    open spec fn align_spec() -> usize {
        8
    }

    fn as_bytes(&self) -> (r: Vec<u8>) {
        let mut out: Vec<u8> = Vec::new();
        let n = self.len();
        let mut i: usize = 0;
        while i < n
            invariant
                i <= n,
                n == self@.len(),
                out@ == i64_image(self@.take(i as int)),
            decreases n - i,
        {
            proof {
                assert(self@.take(i as int + 1).drop_last() =~= self@.take(i as int));
            }
            let mut piece = vstd::bytes::u64_to_le_bytes(self[i] as u64);
            out.append(&mut piece);
            i += 1;
        }
        proof {
            assert(self@.take(n as int) =~= self@);
        }
        out
    }

    fn align_of() -> (r: usize) {
        8
    }
}

/// The alignment that the platform gives a type, which is never zero.
pub open spec fn platform_align<T>() -> usize {
    if vstd::layout::align_of::<T>() as usize == 0 {
        1
    } else {
        vstd::layout::align_of::<T>() as usize
    }
}

fn align_of_type<T>() -> (r: usize)
    ensures
        r == platform_align::<T>(),
        r >= 1,
{
    let align = core::mem::align_of::<T>();
    if align == 0 {
        1
    } else {
        align
    }
}

/// The one byte of an `i8`.
pub open spec fn i8_bytes(x: i8) -> Seq<u8> {
    seq![x as u8]
}

fn i8_to_bytes(x: i8) -> (r: Vec<u8>)
    ensures
        r@ == i8_bytes(x),
{
    let mut out: Vec<u8> = Vec::new();
    out.push(x as u8);
    proof {
        assert(out@ =~= seq![x as u8]);
    }
    out
}

/// The bytes of a `u128`.
pub open spec fn u128_bytes(x: u128) -> Seq<u8> {
    vstd::bytes::spec_u128_to_le_bytes(x)
}

fn u128_to_bytes(x: u128) -> (r: Vec<u8>)
    ensures
        r@ == u128_bytes(x),
{
    vstd::bytes::u128_to_le_bytes(x)
}

/// The bytes of an `i128`: those of its two's complement.
pub open spec fn i128_bytes(x: i128) -> Seq<u8> {
    vstd::bytes::spec_u128_to_le_bytes(x as u128)
}

fn i128_to_bytes(x: i128) -> (r: Vec<u8>)
    ensures
        r@ == i128_bytes(x),
{
    vstd::bytes::u128_to_le_bytes(x as u128)
}

/// The bytes of a `usize`: eight where the platform's word has eight
/// bytes, four otherwise.
pub open spec fn usize_bytes(x: usize) -> Seq<u8> {
    if vstd::layout::size_of::<usize>() == 8 {
        vstd::bytes::spec_u64_to_le_bytes(x as u64)
    } else {
        vstd::bytes::spec_u32_to_le_bytes(x as u32)
    }
}

fn usize_to_bytes(x: usize) -> (r: Vec<u8>)
    ensures
        r@ == usize_bytes(x),
{
    if core::mem::size_of::<usize>() == 8 {
        vstd::bytes::u64_to_le_bytes(x as u64)
    } else {
        vstd::bytes::u32_to_le_bytes(x as u32)
    }
}

/// The bytes of an `isize`: those of its two's complement, as many as the
/// platform's word has.
pub open spec fn isize_bytes(x: isize) -> Seq<u8> {
    if vstd::layout::size_of::<usize>() == 8 {
        vstd::bytes::spec_u64_to_le_bytes(x as u64)
    } else {
        vstd::bytes::spec_u32_to_le_bytes(x as u32)
    }
}

fn isize_to_bytes(x: isize) -> (r: Vec<u8>)
    ensures
        r@ == isize_bytes(x),
{
    if core::mem::size_of::<usize>() == 8 {
        vstd::bytes::u64_to_le_bytes(x as u64)
    } else {
        vstd::bytes::u32_to_le_bytes(x as u32)
    }
}

impl ByteComparable for i8 {
    open spec fn bytes_spec(&self) -> Seq<u8> {
        i8_bytes(*self)
    }

    open spec fn align_spec() -> usize {
        1
    }

    fn as_bytes(&self) -> (r: Vec<u8>) {
        i8_to_bytes(*self)
    }

    fn align_of() -> (r: usize) {
        1
    }
}

/// The bytes of a sequence of `i8` values, one value after the other.
pub open spec fn i8_image(values: Seq<i8>) -> Seq<u8>
    decreases values.len(),
{
    if values.len() == 0 {
        Seq::empty()
    } else {
        i8_image(values.drop_last()) + i8_bytes(values.last())
    }
}

impl ByteComparable for Vec<i8> {
    open spec fn bytes_spec(&self) -> Seq<u8> {
        i8_image(self@)
    }

    open spec fn align_spec() -> usize {
        1
    }

    fn as_bytes(&self) -> (r: Vec<u8>) {
        let mut out: Vec<u8> = Vec::new();
        let n = self.len();
        let mut i: usize = 0;
        while i < n
            invariant
                i <= n,
                n == self@.len(),
                out@ == i8_image(self@.take(i as int)),
            decreases n - i,
        {
            proof {
                assert(self@.take(i as int + 1).drop_last() =~= self@.take(i as int));
            }
            let mut piece = i8_to_bytes(self[i]);
            out.append(&mut piece);
            i += 1;
        }
        proof {
            assert(self@.take(n as int) =~= self@);
        }
        out
    }

    fn align_of() -> (r: usize) {
        1
    }
}

impl ByteComparable for u128 {
    open spec fn bytes_spec(&self) -> Seq<u8> {
        u128_bytes(*self)
    }

    open spec fn align_spec() -> usize {
        platform_align::<u128>()
    }

    fn as_bytes(&self) -> (r: Vec<u8>) {
        u128_to_bytes(*self)
    }

    fn align_of() -> (r: usize) {
        align_of_type::<u128>()
    }
}

/// The bytes of a sequence of `u128` values, one value after the other.
pub open spec fn u128_image(values: Seq<u128>) -> Seq<u8>
    decreases values.len(),
{
    if values.len() == 0 {
        Seq::empty()
    } else {
        u128_image(values.drop_last()) + u128_bytes(values.last())
    }
}

impl ByteComparable for Vec<u128> {
    open spec fn bytes_spec(&self) -> Seq<u8> {
        u128_image(self@)
    }

    open spec fn align_spec() -> usize {
        platform_align::<u128>()
    }

    fn as_bytes(&self) -> (r: Vec<u8>) {
        let mut out: Vec<u8> = Vec::new();
        let n = self.len();
        let mut i: usize = 0;
        while i < n
            invariant
                i <= n,
                n == self@.len(),
                out@ == u128_image(self@.take(i as int)),
            decreases n - i,
        {
            proof {
                assert(self@.take(i as int + 1).drop_last() =~= self@.take(i as int));
            }
            let mut piece = u128_to_bytes(self[i]);
            out.append(&mut piece);
            i += 1;
        }
        proof {
            assert(self@.take(n as int) =~= self@);
        }
        out
    }

    fn align_of() -> (r: usize) {
        align_of_type::<u128>()
    }
}

impl ByteComparable for i128 {
    open spec fn bytes_spec(&self) -> Seq<u8> {
        i128_bytes(*self)
    }

    open spec fn align_spec() -> usize {
        platform_align::<i128>()
    }

    fn as_bytes(&self) -> (r: Vec<u8>) {
        i128_to_bytes(*self)
    }

    fn align_of() -> (r: usize) {
        align_of_type::<i128>()
    }
}

/// The bytes of a sequence of `i128` values, one value after the other.
pub open spec fn i128_image(values: Seq<i128>) -> Seq<u8>
    decreases values.len(),
{
    if values.len() == 0 {
        Seq::empty()
    } else {
        i128_image(values.drop_last()) + i128_bytes(values.last())
    }
}

impl ByteComparable for Vec<i128> {
    open spec fn bytes_spec(&self) -> Seq<u8> {
        i128_image(self@)
    }

    open spec fn align_spec() -> usize {
        platform_align::<i128>()
    }

    fn as_bytes(&self) -> (r: Vec<u8>) {
        let mut out: Vec<u8> = Vec::new();
        let n = self.len();
        let mut i: usize = 0;
        while i < n
            invariant
                i <= n,
                n == self@.len(),
                out@ == i128_image(self@.take(i as int)),
            decreases n - i,
        {
            proof {
                assert(self@.take(i as int + 1).drop_last() =~= self@.take(i as int));
            }
            let mut piece = i128_to_bytes(self[i]);
            out.append(&mut piece);
            i += 1;
        }
        proof {
            assert(self@.take(n as int) =~= self@);
        }
        out
    }

    fn align_of() -> (r: usize) {
        align_of_type::<i128>()
    }
}

impl ByteComparable for usize {
    open spec fn bytes_spec(&self) -> Seq<u8> {
        usize_bytes(*self)
    }

    open spec fn align_spec() -> usize {
        platform_align::<usize>()
    }

    fn as_bytes(&self) -> (r: Vec<u8>) {
        usize_to_bytes(*self)
    }

    fn align_of() -> (r: usize) {
        align_of_type::<usize>()
    }
}

/// The bytes of a sequence of `usize` values, one value after the other.
pub open spec fn usize_image(values: Seq<usize>) -> Seq<u8>
    decreases values.len(),
{
    if values.len() == 0 {
        Seq::empty()
    } else {
        usize_image(values.drop_last()) + usize_bytes(values.last())
    }
}

impl ByteComparable for Vec<usize> {
    open spec fn bytes_spec(&self) -> Seq<u8> {
        usize_image(self@)
    }

    open spec fn align_spec() -> usize {
        platform_align::<usize>()
    }

    fn as_bytes(&self) -> (r: Vec<u8>) {
        let mut out: Vec<u8> = Vec::new();
        let n = self.len();
        let mut i: usize = 0;
        while i < n
            invariant
                i <= n,
                n == self@.len(),
                out@ == usize_image(self@.take(i as int)),
            decreases n - i,
        {
            proof {
                assert(self@.take(i as int + 1).drop_last() =~= self@.take(i as int));
            }
            let mut piece = usize_to_bytes(self[i]);
            out.append(&mut piece);
            i += 1;
        }
        proof {
            assert(self@.take(n as int) =~= self@);
        }
        out
    }

    fn align_of() -> (r: usize) {
        align_of_type::<usize>()
    }
}

impl ByteComparable for isize {
    open spec fn bytes_spec(&self) -> Seq<u8> {
        isize_bytes(*self)
    }

    open spec fn align_spec() -> usize {
        platform_align::<isize>()
    }

    fn as_bytes(&self) -> (r: Vec<u8>) {
        isize_to_bytes(*self)
    }

    fn align_of() -> (r: usize) {
        align_of_type::<isize>()
    }
}

/// The bytes of a sequence of `isize` values, one value after the other.
pub open spec fn isize_image(values: Seq<isize>) -> Seq<u8>
    decreases values.len(),
{
    if values.len() == 0 {
        Seq::empty()
    } else {
        isize_image(values.drop_last()) + isize_bytes(values.last())
    }
}

impl ByteComparable for Vec<isize> {
    open spec fn bytes_spec(&self) -> Seq<u8> {
        isize_image(self@)
    }

    open spec fn align_spec() -> usize {
        platform_align::<isize>()
    }

    fn as_bytes(&self) -> (r: Vec<u8>) {
        let mut out: Vec<u8> = Vec::new();
        let n = self.len();
        let mut i: usize = 0;
        while i < n
            invariant
                i <= n,
                n == self@.len(),
                out@ == isize_image(self@.take(i as int)),
            decreases n - i,
        {
            proof {
                assert(self@.take(i as int + 1).drop_last() =~= self@.take(i as int));
            }
            let mut piece = isize_to_bytes(self[i]);
            out.append(&mut piece);
            i += 1;
        }
        proof {
            assert(self@.take(n as int) =~= self@);
        }
        out
    }

    fn align_of() -> (r: usize) {
        align_of_type::<isize>()
    }
}

impl ByteComparable for Vec<u8> {
    open spec fn bytes_spec(&self) -> Seq<u8> {
        self@
    }

    open spec fn align_spec() -> usize {
        1
    }

    fn as_bytes(&self) -> (r: Vec<u8>) {
        self.clone()
    }

    fn align_of() -> (r: usize) {
        1
    }
}

impl ByteComparable for &str {
    open spec fn bytes_spec(&self) -> Seq<u8> {
        self.spec_bytes()
    }

    open spec fn align_spec() -> usize {
        1
    }

    fn as_bytes(&self) -> (r: Vec<u8>) {
        self.as_bytes_vec()
    }

    fn align_of() -> (r: usize) {
        1
    }
}

/// A predicate that scans for one concrete value.
#[derive(Debug)]
pub struct ValuePredicate {
    bytes: Vec<u8>,
    align: usize,
    aligned: bool,
}

impl ValuePredicate {
    #[verifier::type_invariant]
    spec fn inv(self) -> bool {
        self.bytes@.len() >= 1 && self.align >= 1
    }

    /// The bytes that the predicate matches.
    pub closed spec fn pattern(self) -> Seq<u8> {
        self.bytes@
    }

    /// The alignment of the value's type.
    pub closed spec fn alignment(self) -> usize {
        self.align
    }

    /// Whether candidates start at aligned offsets only.
    pub closed spec fn is_aligned(self) -> bool {
        self.aligned
    }

    /// The pattern holds at least one byte and the alignment is positive.
    pub open spec fn wf(self) -> bool {
        1 <= self.pattern().len() <= usize::MAX && self.alignment() >= 1
    }

    /// A match may start at `address`: every address where the predicate is
    /// unaligned, the multiples of the alignment where it is aligned.
    pub open spec fn legal(self, address: u64) -> bool {
        !self.is_aligned() || address as int % self.alignment() as int == 0
    }

    /// Creates a predicate for `value`, which must hold at least one byte.
    ///
    /// If `aligned` is true, candidates start only at offsets that are
    /// divisible by the alignment of the value's type.
    pub fn new<T: ByteComparable>(value: T, aligned: bool) -> (r: Self)
        requires
            value.bytes_spec().len() >= 1,
        ensures
            r.pattern() == value.bytes_spec(),
            r.alignment() == T::align_spec(),
            r.is_aligned() == aligned,
            r.wf(),
    {
        let bytes = value.as_bytes();
        let align = T::align_of();
        assert(bytes.len() <= usize::MAX);
        ValuePredicate { bytes, align, aligned }
    }

    fn offset_aligned(&self, offset: OffsetType) -> (r: bool)
        ensures
            r == self.legal(offset@),
    {
        proof {
            use_type_invariant(self);
        }
        !self.aligned || offset.get() % (self.align as u64) == 0
    }

    /// The partial candidate for the pattern's byte number `i`, seen at
    /// `offset`.
    pub open spec fn partial_at(self, offset: OffsetType, i: int) -> ScannerCandidate {
        ScannerCandidate {
            offset: OffsetType::at((offset@ - i) as u64),
            start_offset: Some(offset),
            length: (i + 1) as usize,
            resolved: i + 1 == self.pattern().len(),
        }
    }

    /// Whether `byte`, seen at `offset`, can be the pattern's byte number
    /// `i`: the bytes agree, and the match would start at a positive, legal
    /// address.
    pub open spec fn partial_fits(self, offset: OffsetType, byte: u8, i: int) -> bool {
        &&& 1 <= i < self.pattern().len()
        &&& self.pattern()[i] == byte
        &&& offset@ - i >= 1
        &&& self.legal((offset@ - i) as u64)
    }

    /// The partial candidates for the pattern's bytes from the last down to
    /// number `lowest`.
    pub open spec fn partials_down_to(self, offset: OffsetType, byte: u8, lowest: int) -> Seq<
        ScannerCandidate,
    >
        decreases self.pattern().len() - lowest,
    {
        if lowest >= self.pattern().len() {
            Seq::empty()
        } else {
            let above = self.partials_down_to(offset, byte, lowest + 1);
            if self.partial_fits(offset, byte, lowest) {
                above.push(self.partial_at(offset, lowest))
            } else {
                above
            }
        }
    }
}

impl Clone for ValuePredicate {
    fn clone(&self) -> (r: Self)
        ensures
            r.pattern() == self.pattern(),
            r.alignment() == self.alignment(),
            r.is_aligned() == self.is_aligned(),
    {
        proof {
            use_type_invariant(self);
        }
        ValuePredicate { bytes: self.bytes.clone(), align: self.align, aligned: self.aligned }
    }
}

impl ScannerPredicate for ValuePredicate {
    /// At a legal offset, a byte equal to the pattern's first starts a
    /// candidate, which is resolved at once where the pattern is one byte.
    open spec fn start_spec(&self, offset: OffsetType, byte: u8) -> Option<ScannerCandidate> {
        if self.legal(offset@) && self.pattern()[0] == byte {
            Some(
                ScannerCandidate {
                    offset,
                    start_offset: None,
                    length: 1,
                    resolved: self.pattern().len() == 1,
                },
            )
        } else {
            None
        }
    }

    /// The byte is held against the pattern's byte that follows the
    /// candidate: a mismatch removes the candidate, a match resolves it at
    /// the pattern's last byte and advances it before. A candidate that
    /// already covers the pattern cannot continue and is removed.
    open spec fn update_spec(
        &self,
        offset: OffsetType,
        byte: u8,
        candidate: ScannerCandidate,
    ) -> UpdateCandidateResult {
        if candidate.length >= self.pattern().len() {
            UpdateCandidateResult::Remove
        } else if self.pattern()[candidate.length as int] != byte {
            UpdateCandidateResult::Remove
        } else if candidate.length == self.pattern().len() - 1 {
            UpdateCandidateResult::Resolve
        } else {
            UpdateCandidateResult::Advance
        }
    }

    fn try_start_candidate(&self, offset: OffsetType, byte: u8) -> (r: Option<ScannerCandidate>) {
        proof {
            use_type_invariant(self);
        }
        if self.offset_aligned(offset) && self.bytes[0] == byte {
            if self.bytes.len() == 1 {
                Some(ScannerCandidate::resolved(offset, Some(1)))
            } else {
                Some(ScannerCandidate::normal(offset))
            }
        } else {
            None
        }
    }

    fn update_candidate(&self, offset: OffsetType, byte: u8, candidate: &ScannerCandidate) -> (r:
        UpdateCandidateResult) {
        let length = candidate.length();
        if length >= self.bytes.len() {
            return UpdateCandidateResult::Remove;
        }
        if self.bytes[length] != byte {
            return UpdateCandidateResult::Remove;
        }
        if length == self.bytes.len() - 1 {
            return UpdateCandidateResult::Resolve;
        }
        UpdateCandidateResult::Advance
    }
}

impl PartialScannerPredicate for ValuePredicate {
    /// One partial candidate for each byte of the pattern but the first that
    /// equals `byte` and whose match would start at a positive, legal
    /// address, from the pattern's last byte down.
    open spec fn partial_spec(&self, offset: OffsetType, byte: u8) -> Seq<ScannerCandidate> {
        self.partials_down_to(offset, byte, 1)
    }

    fn try_start_partial_candidates(&self, offset: OffsetType, byte: u8) -> (r: Vec<
        ScannerCandidate,
    >) {
        proof {
            use_type_invariant(self);
        }
        let mut candidates: Vec<ScannerCandidate> = Vec::new();
        let n = self.bytes.len();
        let mut i: usize = n;
        while i > 1
            invariant
                1 <= i <= n,
                n == self.bytes.len(),
                n == self.pattern().len(),
                candidates@ == self.partials_down_to(offset, byte, i as int),
            decreases i,
        {
            i -= 1;
            if self.bytes[i] == byte && offset.get() > i as u64 {
                let start = OffsetType::new_unwrap(offset.get() - i as u64);
                if self.offset_aligned(start) {
                    let length = i + 1;
                    let candidate = if length == n {
                        ScannerCandidate::partial_resolved(start, length)
                    } else {
                        ScannerCandidate::partial(start, length)
                    };
                    candidates.push(candidate);
                }
            }
        }
        candidates
    }
}

} // verus!
