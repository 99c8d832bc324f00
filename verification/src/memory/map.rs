//! Memory pages, their permissions, and the operator that merges pages
//! which touch or overlap.

use vstd::prelude::*;
use crate::common::OffsetType;
use crate::common::group_offset;

verus! {

broadcast use group_offset;

/// The four independent permission flags of a mapped region.
#[derive(Debug, Copy, Clone, PartialEq, Eq, Structural)]
pub struct MemoryPagePermissions {
    pub read: bool,
    pub write: bool,
    pub execute: bool,
    pub shared: bool,
}

impl MemoryPagePermissions {
    pub fn new(read: bool, write: bool, exec: bool, share: bool) -> (r: Self)
        ensures
            r == (MemoryPagePermissions { read, write, execute: exec, shared: share }),
    {
        MemoryPagePermissions { read, write, execute: exec, shared: share }
    }

    pub fn read(&self) -> (r: bool)
        ensures
            r == self.read,
    {
        self.read
    }

    pub fn write(&self) -> (r: bool)
        ensures
            r == self.write,
    {
        self.write
    }

    pub fn exec(&self) -> (r: bool)
        ensures
            r == self.execute,
    {
        self.execute
    }

    pub fn shared(&self) -> (r: bool)
        ensures
            r == self.shared,
    {
        self.shared
    }

    /// The flags that both sets hold.
    pub open spec fn and(self, rhs: Self) -> Self {
        MemoryPagePermissions {
            read: self.read && rhs.read,
            write: self.write && rhs.write,
            execute: self.execute && rhs.execute,
            shared: self.shared && rhs.shared,
        }
    }

    /// Every flag that `self` holds, `other` holds too.
    pub open spec fn within(self, other: Self) -> bool {
        &&& self.read ==> other.read
        &&& self.write ==> other.write
        &&& self.execute ==> other.execute
        &&& self.shared ==> other.shared
    }

    /// The intersection of two permission sets.
    pub fn bitand(self, rhs: Self) -> (r: Self)
        ensures
            r == self.and(rhs),
    {
        MemoryPagePermissions {
            read: self.read && rhs.read,
            write: self.write && rhs.write,
            execute: self.execute && rhs.execute,
            shared: self.shared && rhs.shared,
        }
    }
}

/// What a page is backed by.
#[derive(Debug, PartialEq)]
pub enum MemoryPageType {
    /// The platform gives no further information.
    Unknown,
    /// Main thread stack.
    Stack,
    /// Process heap.
    Heap,
    /// Anonymous mapping.
    Anon,
    /// A file mapping whose path is the target's own executable image.
    ProcessExecutable(String),
    /// A file mapping of any other file.
    File(String),
}

/// The mathematical value of a [`MemoryPageType`].
pub enum PageKind {
    Unknown,
    Stack,
    Heap,
    Anon,
    ProcessExecutable(Seq<char>),
    File(Seq<char>),
}

impl View for MemoryPageType {
    type V = PageKind;

    open spec fn view(&self) -> PageKind {
        match self {
            MemoryPageType::Unknown => PageKind::Unknown,
            MemoryPageType::Stack => PageKind::Stack,
            MemoryPageType::Heap => PageKind::Heap,
            MemoryPageType::Anon => PageKind::Anon,
            MemoryPageType::ProcessExecutable(path) => PageKind::ProcessExecutable(path@),
            MemoryPageType::File(path) => PageKind::File(path@),
        }
    }
}

impl MemoryPageType {
    /// Whether two page types are the same tag with the same path.
    pub fn same(&self, other: &Self) -> (r: bool)
        ensures
            r == (self@ == other@),
    {
        match self {
            MemoryPageType::Unknown => matches!(other, MemoryPageType::Unknown),
            MemoryPageType::Stack => matches!(other, MemoryPageType::Stack),
            MemoryPageType::Heap => matches!(other, MemoryPageType::Heap),
            MemoryPageType::Anon => matches!(other, MemoryPageType::Anon),
            MemoryPageType::ProcessExecutable(a) => match other {
                MemoryPageType::ProcessExecutable(b) => a.eq(b),
                _ => false,
            },
            MemoryPageType::File(a) => match other {
                MemoryPageType::File(b) => a.eq(b),
                _ => false,
            },
        }
    }
}

impl Clone for MemoryPageType {
    fn clone(&self) -> (r: Self)
        ensures
            r@ == self@,
    {
        match self {
            MemoryPageType::Unknown => MemoryPageType::Unknown,
            MemoryPageType::Stack => MemoryPageType::Stack,
            MemoryPageType::Heap => MemoryPageType::Heap,
            MemoryPageType::Anon => MemoryPageType::Anon,
            MemoryPageType::ProcessExecutable(path) => MemoryPageType::ProcessExecutable(
                path.clone(),
            ),
            MemoryPageType::File(path) => MemoryPageType::File(path.clone()),
        }
    }
}

/// One mapped region of the target's address space.
#[derive(Debug, PartialEq)]
pub struct MemoryPage {
    /// First address of the region, and the address one past its last.
    pub address_range: [OffsetType; 2],
    pub permissions: MemoryPagePermissions,
    /// Byte offset within the backing file, zero for a region without one.
    pub offset: u64,
    pub page_type: MemoryPageType,
}

/// The mathematical value of a [`MemoryPage`].
pub struct PageModel {
    pub start: u64,
    pub end: u64,
    pub permissions: MemoryPagePermissions,
    pub offset: u64,
    pub page_type: PageKind,
}

impl PageModel {
    /// A page covers at least one byte.
    pub open spec fn valid(self) -> bool {
        self.start < self.end
    }

    /// The address `x` lies inside the page.
    pub open spec fn covers(self, x: int) -> bool {
        self.start <= x < self.end
    }

    /// The two ranges touch or overlap.
    pub open spec fn touches(self, other: Self) -> bool {
        self.end >= other.start && other.end >= self.start
    }

    /// The page that two touching pages merge into.
    pub open spec fn merged(self, other: Self) -> Self {
        PageModel {
            start: if self.start <= other.start { self.start } else { other.start },
            end: if self.end >= other.end { self.end } else { other.end },
            permissions: self.permissions.and(other.permissions),
            offset: if self.offset <= other.offset { self.offset } else { other.offset },
            page_type: if self.page_type == other.page_type {
                self.page_type
            } else {
                PageKind::Unknown
            },
        }
    }
}

impl Clone for MemoryPage {
    fn clone(&self) -> (r: Self)
        ensures
            r@ == self@,
    {
        MemoryPage {
            address_range: [self.address_range[0], self.address_range[1]],
            permissions: self.permissions,
            offset: self.offset,
            page_type: self.page_type.clone(),
        }
    }
}

impl View for MemoryPage {
    type V = PageModel;

    open spec fn view(&self) -> PageModel {
        PageModel {
            start: self.address_range[0]@,
            end: self.address_range[1]@,
            permissions: self.permissions,
            offset: self.offset,
            page_type: self.page_type@,
        }
    }
}

/// The values of a sequence of pages.
pub open spec fn models(pages: Seq<MemoryPage>) -> Seq<PageModel> {
    pages.map_values(|p: MemoryPage| p@)
}

/// The left fold of the merge operator over `pages`: each page is merged into
/// the page before it where the two touch, and starts a new page otherwise.
pub open spec fn merge_run(pages: Seq<PageModel>) -> Seq<PageModel>
    decreases pages.len(),
{
    if pages.len() == 0 {
        Seq::empty()
    } else {
        let before = merge_run(pages.drop_last());
        let page = pages.last();
        if before.len() > 0 && before.last().touches(page) {
            before.drop_last().push(before.last().merged(page))
        } else {
            before.push(page)
        }
    }
}

impl MemoryPage {
    /// Merges `other` into this page where the two ranges touch or overlap,
    /// and hands `other` back unchanged where they do not.
    pub fn try_merge_mut(&mut self, other: Self) -> (r: Result<(), Self>)
        ensures
            old(self)@.touches(other@) ==> r is Ok && final(self)@ == old(self)@.merged(other@),
            !old(self)@.touches(other@) ==> r == Err::<(), Self>(other) && *final(self) == *old(
                self,
            ),
    {
        let self_start = self.address_range[0];
        let self_end = self.address_range[1];
        let other_start = other.address_range[0];
        let other_end = other.address_range[1];
        if self_end.get() < other_start.get() || other_end.get() < self_start.get() {
            return Err(other);
        }
        let start = if self_start.get() <= other_start.get() {
            self_start
        } else {
            other_start
        };
        let end = if self_end.get() >= other_end.get() {
            self_end
        } else {
            other_end
        };
        self.address_range = [start, end];
        self.permissions = self.permissions.bitand(other.permissions);
        if other.offset < self.offset {
            self.offset = other.offset;
        }
        if !self.page_type.same(&other.page_type) {
            self.page_type = MemoryPageType::Unknown;
        }
        Ok(())
    }

    /// Collapses every run of consecutive pages that touch or overlap into
    /// one page. The input is meant to be sorted by start address.
    pub fn merge_sorted(pages: Vec<MemoryPage>) -> (r: Vec<MemoryPage>)
        ensures
            models(r@) == merge_run(models(pages@)),
    {
        let mut out: Vec<MemoryPage> = Vec::new();
        let ghost given = pages@;
        let ghost input = models(pages@);
        for page in it: pages
            invariant
                it.seq() == given,
                input == models(given),
                models(out@) == merge_run(input.take(it.index() as int)),
        {
            let ghost i = it.index() as int;
            proof {
                assert(input.take(i + 1).drop_last() =~= input.take(i));
                assert(input.take(i + 1).last() == input[i]);
                assert(input[i] == given[i]@);
            }
            let ghost before = models(out@);
            match out.pop() {
                None => {
                    out.push(page);
                    proof {
                        assert(models(out@) =~= before.push(page@));
                    }
                },
                Some(last) => {
                    let mut acc = last;
                    proof {
                        assert(before.last() == acc@);
                        assert(models(out@) =~= before.drop_last());
                    }
                    match acc.try_merge_mut(page) {
                        Ok(()) => {
                            out.push(acc);
                            proof {
                                assert(models(out@) =~= before.drop_last().push(acc@));
                            }
                        },
                        Err(other) => {
                            out.push(acc);
                            out.push(other);
                            proof {
                                assert(models(out@) =~= before.push(other@));
                            }
                        },
                    }
                },
            }
        }
        proof {
            assert(input.take(given.len() as int) =~= input);
        }
        out
    }

    pub fn start(&self) -> (r: OffsetType)
        ensures
            r@ == self@.start,
    {
        self.address_range[0]
    }

    pub fn end(&self) -> (r: OffsetType)
        ensures
            r@ == self@.end,
    {
        self.address_range[1]
    }

    /// The number of bytes in the page, for a page whose end is not below
    /// its start.
    pub fn size(&self) -> (r: u64)
        requires
            self@.start <= self@.end,
        ensures
            r == self@.end - self@.start,
    {
        self.address_range[1].get() - self.address_range[0].get()
    }
}

/// The position of the first page that covers the address `x`, or the
/// number of pages where none does.
pub open spec fn first_covering(pages: Seq<MemoryPage>, x: int, from: int) -> int
    decreases pages.len() - from,
{
    if from >= pages.len() {
        pages.len() as int
    } else if pages[from]@.covers(x) {
        from
    } else {
        first_covering(pages, x, from + 1)
    }
}

/// A store of the pages of a target, in ascending order.
///
/// An implementation overrides `containing_page` only where it can search
/// faster, and must then give the same answer.
pub trait MemoryMap {
    /// The pages of the map.
    spec fn pages_spec(&self) -> Seq<MemoryPage>;

    /// The pages of the map, in order.
    fn pages(&self) -> (r: &[MemoryPage])
        ensures
            r@ == self.pages_spec(),
    ;

    /// The first mapped page that contains `offset`, if any does.
    fn containing_page(&self, offset: OffsetType) -> (r: Option<&MemoryPage>)
        ensures
            ({
                let i = first_covering(self.pages_spec(), offset@ as int, 0);
                match r {
                    Some(page) => i < self.pages_spec().len() && *page == self.pages_spec()[i],
                    None => i == self.pages_spec().len(),
                }
            }),
    {
        let pages = self.pages();
        let n = pages.len();
        let mut i: usize = 0;
        while i < n
            invariant
                i <= n,
                n == pages@.len(),
                pages@ == self.pages_spec(),
                first_covering(pages@, offset@ as int, 0) == first_covering(
                    pages@,
                    offset@ as int,
                    i as int,
                ),
            decreases n - i,
        {
            let page = &pages[i];
            if page.start().get() <= offset.get() && offset.get() < page.end().get() {
                return Some(page);
            }
            i += 1;
        }
        None
    }
}

/// The pages come in ascending order of their start address.
pub open spec fn sorted_by_start(pages: Seq<PageModel>) -> bool {
    forall|i: int, j: int| 0 <= i <= j < pages.len() ==> pages[i].start <= pages[j].start
}

/// Every page covers at least one byte.
pub open spec fn all_valid(pages: Seq<PageModel>) -> bool {
    forall|i: int| 0 <= i < pages.len() ==> (#[trigger] pages[i]).valid()
}

/// Each page ends before the next one starts, with a gap between them.
pub open spec fn separated(pages: Seq<PageModel>) -> bool {
    forall|i: int| 0 <= i < pages.len() - 1 ==> (#[trigger] pages[i]).end < pages[i + 1].start
}

/// Some page of the sequence covers the address `x`.
pub open spec fn covered(pages: Seq<PageModel>, x: int) -> bool {
    exists|i: int| 0 <= i < pages.len() && (#[trigger] pages[i]).covers(x)
}

/// `outer` spans the range of `inner` and holds no permission that `inner`
/// lacks.
pub open spec fn absorbs(outer: PageModel, inner: PageModel) -> bool {
    &&& outer.start <= inner.start
    &&& inner.end <= outer.end
    &&& outer.permissions.within(inner.permissions)
}

proof fn lemma_merge_run_separated(pages: Seq<PageModel>)
    requires
        sorted_by_start(pages),
        all_valid(pages),
    ensures
        separated(merge_run(pages)),
        all_valid(merge_run(pages)),
        pages.len() == 0 ==> merge_run(pages).len() == 0,
        pages.len() > 0 ==> merge_run(pages).len() > 0 && merge_run(pages).last().start
            <= pages.last().start,
    decreases pages.len(),
{
    if pages.len() > 0 {
        let front = pages.drop_last();
        let page = pages.last();
        assert(page.valid());
        assert(sorted_by_start(front)) by {
            assert forall|i: int, j: int| 0 <= i <= j < front.len() implies front[i].start
                <= front[j].start by {
                assert(pages[i].start <= pages[j].start);
            }
        }
        assert(all_valid(front)) by {
            assert forall|i: int| 0 <= i < front.len() implies (#[trigger] front[i]).valid() by {
                assert(pages[i].valid());
            }
        }
        lemma_merge_run_separated(front);
        let before = merge_run(front);
        if before.len() > 0 {
            assert(front.last() == pages[pages.len() - 2]);
            assert(pages[pages.len() - 2].start <= pages[pages.len() - 1].start);
            assert(before[before.len() - 1].valid());
        }
    }
}

proof fn lemma_merge_run_fixed(pages: Seq<PageModel>)
    requires
        separated(pages),
    ensures
        merge_run(pages) == pages,
    decreases pages.len(),
{
    if pages.len() > 0 {
        let front = pages.drop_last();
        assert(separated(front)) by {
            assert forall|i: int| 0 <= i < front.len() - 1 implies (#[trigger] front[i]).end
                < front[i + 1].start by {
                assert(pages[i].end < pages[i + 1].start);
            }
        }
        lemma_merge_run_fixed(front);
        if front.len() > 0 {
            assert(pages[pages.len() - 2].end < pages[pages.len() - 2 + 1].start);
        }
        assert(front.push(pages.last()) =~= pages);
    }
}

/// Merging is idempotent: what the merge of a sorted sequence of pages
/// yields, a second merge leaves as it is.
pub proof fn lemma_merge_sorted_idempotent(pages: Seq<PageModel>)
    requires
        sorted_by_start(pages),
        all_valid(pages),
    ensures
        merge_run(merge_run(pages)) == merge_run(pages),
        separated(merge_run(pages)),
{
    lemma_merge_run_separated(pages);
    lemma_merge_run_fixed(merge_run(pages));
}

proof fn lemma_covered_push(pages: Seq<PageModel>, page: PageModel, x: int)
    ensures
        covered(pages.push(page), x) == (covered(pages, x) || page.covers(x)),
{
    let whole = pages.push(page);
    if covered(pages, x) {
        let i = choose|i: int| 0 <= i < pages.len() && (#[trigger] pages[i]).covers(x);
        assert(whole[i].covers(x));
    }
    if page.covers(x) {
        assert(whole[pages.len() as int].covers(x));
    }
    if covered(whole, x) {
        let i = choose|i: int| 0 <= i < whole.len() && (#[trigger] whole[i]).covers(x);
        if i < pages.len() {
            assert(pages[i].covers(x));
        }
    }
}

proof fn lemma_merge_run_valid(pages: Seq<PageModel>)
    requires
        all_valid(pages),
    ensures
        all_valid(merge_run(pages)),
    decreases pages.len(),
{
    if pages.len() > 0 {
        let front = pages.drop_last();
        assert(pages.last().valid());
        assert(all_valid(front)) by {
            assert forall|i: int| 0 <= i < front.len() implies (#[trigger] front[i]).valid() by {
                assert(pages[i].valid());
            }
        }
        lemma_merge_run_valid(front);
        let before = merge_run(front);
        if before.len() > 0 {
            assert(before[before.len() - 1].valid());
        }
    }
}

/// Merging preserves the union of the byte ranges: an address lies in some
/// merged page exactly if it lies in some page of the input, sorted or not.
pub proof fn lemma_merge_run_coverage(pages: Seq<PageModel>, x: int)
    requires
        all_valid(pages),
    ensures
        covered(merge_run(pages), x) == covered(pages, x),
    decreases pages.len(),
{
    if pages.len() == 0 {
        assert(!covered(pages, x));
        assert(!covered(merge_run(pages), x));
    } else {
        let front = pages.drop_last();
        let page = pages.last();
        assert(page.valid());
        assert(all_valid(front)) by {
            assert forall|i: int| 0 <= i < front.len() implies (#[trigger] front[i]).valid() by {
                assert(pages[i].valid());
            }
        }
        lemma_merge_run_coverage(front, x);
        lemma_merge_run_valid(front);
        let before = merge_run(front);
        assert(front.push(page) =~= pages);
        lemma_covered_push(front, page, x);
        if before.len() > 0 && before.last().touches(page) {
            let last = before.last();
            assert(before[before.len() - 1].valid());
            assert(before.drop_last().push(last) =~= before);
            lemma_covered_push(before.drop_last(), last, x);
            lemma_covered_push(before.drop_last(), last.merged(page), x);
        } else {
            lemma_covered_push(before, page, x);
        }
    }
}

/// Every page of the input lies within one merged page, which holds no
/// permission that the input page lacks.
pub proof fn lemma_merge_run_absorbs(pages: Seq<PageModel>, i: int) -> (j: int)
    requires
        0 <= i < pages.len(),
    ensures
        0 <= j < merge_run(pages).len(),
        absorbs(merge_run(pages)[j], pages[i]),
    decreases pages.len(),
{
    let front = pages.drop_last();
    let page = pages.last();
    let before = merge_run(front);
    let after = merge_run(pages);
    if i == pages.len() - 1 {
        after.len() - 1
    } else {
        let k = lemma_merge_run_absorbs(front, i);
        assert(front[i] == pages[i]);
        k
    }
}

proof fn lemma_separated_disjoint(pages: Seq<PageModel>, i: int, j: int)
    requires
        separated(pages),
        all_valid(pages),
        0 <= i < j < pages.len(),
    ensures
        pages[i].end < pages[j].start,
    decreases j - i,
{
    if j == i + 1 {
        assert(pages[i].end < pages[i + 1].start);
    } else {
        lemma_separated_disjoint(pages, i, j - 1);
        assert(pages[j - 1].valid());
        assert(pages[j - 1].end < pages[j - 1 + 1].start);
    }
}

/// The permissions of a merged page are at most those of every input page
/// at every address: where an address of a sorted input lies in an input page
/// and in a merged page, each permission that the merged page holds, the
/// input page holds too.
pub proof fn lemma_merge_run_permissions(pages: Seq<PageModel>, i: int, j: int, x: int)
    requires
        sorted_by_start(pages),
        all_valid(pages),
        0 <= i < pages.len(),
        0 <= j < merge_run(pages).len(),
        pages[i].covers(x),
        merge_run(pages)[j].covers(x),
    ensures
        merge_run(pages)[j].permissions.within(pages[i].permissions),
        absorbs(merge_run(pages)[j], pages[i]),
{
    let merged = merge_run(pages);
    let k = lemma_merge_run_absorbs(pages, i);
    lemma_merge_run_separated(pages);
    if k < j {
        lemma_separated_disjoint(merged, k, j);
    } else if j < k {
        lemma_separated_disjoint(merged, j, k);
    }
}

/// The range of `inner` lies within that of `outer`.
pub open spec fn spans(outer: PageModel, inner: PageModel) -> bool {
    outer.start <= inner.start && inner.end <= outer.end
}

/// The permissions that all the pages within the range of `outer` share.
pub open spec fn shared_permissions(pages: Seq<PageModel>, outer: PageModel) -> MemoryPagePermissions
    decreases pages.len(),
{
    if pages.len() == 0 {
        MemoryPagePermissions { read: true, write: true, execute: true, shared: true }
    } else {
        let before = shared_permissions(pages.drop_last(), outer);
        if spans(outer, pages.last()) {
            before.and(pages.last().permissions)
        } else {
            before
        }
    }
}

/// A page that holds every permission shared by the pages within a range
/// holds those shared by the pages within a wider range, and by more pages.
proof fn lemma_shared_permissions_grow(
    pages: Seq<PageModel>,
    more: Seq<PageModel>,
    inner: PageModel,
    outer: PageModel,
)
    requires
        spans(outer, inner),
        pages.len() <= more.len(),
        forall|i: int| 0 <= i < pages.len() ==> pages[i] == more[i],
    ensures
        shared_permissions(more, outer).within(shared_permissions(pages, inner)),
    decreases more.len(),
{
    if more.len() > 0 {
        if pages.len() == more.len() {
            assert(pages.drop_last() =~= more.drop_last().take(pages.len() - 1));
            lemma_shared_permissions_grow(pages.drop_last(), more.drop_last(), inner, outer);
            assert(pages.last() == more.last());
        } else {
            lemma_shared_permissions_grow(pages, more.drop_last(), inner, outer);
        }
    }
}

proof fn lemma_merge_run_holds_shared(pages: Seq<PageModel>, j: int)
    requires
        0 <= j < merge_run(pages).len(),
    ensures
        shared_permissions(pages, merge_run(pages)[j]).within(merge_run(pages)[j].permissions),
    decreases pages.len(),
{
    let front = pages.drop_last();
    let page = pages.last();
    let before = merge_run(front);
    let after = merge_run(pages);
    assert(forall|i: int| 0 <= i < front.len() ==> front[i] == pages[i]);
    if before.len() > 0 && before.last().touches(page) {
        if j == after.len() - 1 {
            let last = before.last();
            lemma_merge_run_holds_shared(front, before.len() - 1);
            lemma_shared_permissions_grow(front, front, last, after[j]);
        } else {
            lemma_merge_run_holds_shared(front, j);
        }
    } else {
        if j == after.len() - 1 {
            lemma_shared_permissions_grow(Seq::empty(), front, page, page);
        } else {
            lemma_merge_run_holds_shared(front, j);
        }
    }
}

proof fn lemma_within_shared(
    pages: Seq<PageModel>,
    outer: PageModel,
    permissions: MemoryPagePermissions,
)
    requires
        forall|i: int|
            0 <= i < pages.len() && spans(outer, #[trigger] pages[i]) ==> permissions.within(
                pages[i].permissions,
            ),
    ensures
        permissions.within(shared_permissions(pages, outer)),
    decreases pages.len(),
{
    if pages.len() > 0 {
        let front = pages.drop_last();
        assert forall|i: int| 0 <= i < front.len() && spans(outer, #[trigger] front[i]) implies
            permissions.within(front[i].permissions) by {
            assert(front[i] == pages[i]);
        }
        lemma_within_shared(front, outer, permissions);
        if spans(outer, pages.last()) {
            assert(permissions.within(pages[pages.len() - 1].permissions));
        }
    }
}

/// The permissions of a merged page are the permissions that the pages of
/// the sorted input within its range all hold: no more and no fewer.
pub proof fn lemma_merge_run_shared_permissions(pages: Seq<PageModel>, j: int)
    requires
        sorted_by_start(pages),
        all_valid(pages),
        0 <= j < merge_run(pages).len(),
    ensures
        merge_run(pages)[j].permissions == shared_permissions(pages, merge_run(pages)[j]),
{
    let merged = merge_run(pages)[j];
    lemma_merge_run_holds_shared(pages, j);
    assert forall|i: int| 0 <= i < pages.len() && spans(merged, #[trigger] pages[i]) implies
        merged.permissions.within(pages[i].permissions) by {
        assert(pages[i].valid());
        lemma_merge_run_permissions(pages, i, j, pages[i].start as int);
    }
    lemma_within_shared(pages, merged, merged.permissions);
}

} // verus!
