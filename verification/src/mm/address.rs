//! Physical and virtual addresses, page numbers and ranges of page numbers.
//!
//! Page numbers always count standard pages. A large page is named by the
//! number of its first standard page.

use vstd::prelude::*;
use vstd::std_specs::convert::{FromSpec, FromSpecImpl};

verus! {

/// Bytes in a standard page.
pub const PAGE_SIZE: u64 = 4096;

/// Bits of an address that select a byte within a standard page.
pub const PAGE_SIZE_BITS: u64 = 12;

/// Number of entries in one page-table page.
pub const TABLE_ENTRIES: usize = 512;

/// First value that is no physical address.
pub const PA_LIMIT: u64 = 0x100_0000_0000_0000;

/// First value that is no physical page number.
pub const PPN_LIMIT: u64 = 0x1000_0000_0000;

/// First value that is no virtual address.
pub const VA_LIMIT: u64 = 0x80_0000_0000;

/// First value that is no virtual page number.
pub const VPN_LIMIT: u64 = 0x800_0000;

/// Lowest virtual address of the upper half.
pub const VA_UPPER_HALF: u64 = 0x40_0000_0000;

/// The bits above a virtual address, all set in a sign-extended upper-half address.
pub const VA_SIGN_BITS: u64 = 0xffff_ff80_0000_0000;

/// The three page sizes of the translation tree.
#[derive(Clone, Copy, Debug, PartialEq, Eq, Structural)]
pub enum PageSize {
    /// One standard page.
    Page4K,
    /// 512 standard pages.
    Page2M,
    /// 262144 standard pages.
    Page1G,
}

impl PageSize {
    /// Bytes in a page of this size.
    pub open spec fn bytes(self) -> int {
        match self {
            PageSize::Page4K => 0x1000,
            PageSize::Page2M => 0x20_0000,
            PageSize::Page1G => 0x4000_0000,
        }
    }

    /// Standard pages in a page of this size.
    pub open spec fn pages(self) -> int {
        match self {
            PageSize::Page4K => 1,
            PageSize::Page2M => 512,
            PageSize::Page1G => 262144,
        }
    }

    /// Level of the tree at which a page of this size is a leaf.
    pub open spec fn level(self) -> int {
        match self {
            PageSize::Page4K => 2,
            PageSize::Page2M => 1,
            PageSize::Page1G => 0,
        }
    }

    /// Returns the page's size in bytes.
    pub fn size(&self) -> (bytes: u64)
        ensures
            bytes == self.bytes(),
            bytes == self.pages() * PAGE_SIZE,
    {
        match self {
            PageSize::Page4K => 0x1000,
            PageSize::Page2M => 0x20_0000,
            PageSize::Page1G => 0x4000_0000,
        }
    }

    /// Returns the number of offset bits of an address within the page.
    pub fn size_bits(&self) -> (bits: usize)
        ensures
            self is Page4K ==> bits == 12,
            self is Page2M ==> bits == 21,
            self is Page1G ==> bits == 30,
            vstd::arithmetic::power2::pow2(bits as nat) == self.bytes(),
    {
        proof {
            vstd::arithmetic::power2::lemma2_to64();
        }
        match self {
            PageSize::Page4K => 12,
            PageSize::Page2M => 21,
            PageSize::Page1G => 30,
        }
    }

    /// Returns the number of standard pages in the page.
    pub fn num_pages(&self) -> (pages: u64)
        ensures
            pages == self.pages(),
    {
        match self {
            PageSize::Page4K => 1,
            PageSize::Page2M => 512,
            PageSize::Page1G => 262144,
        }
    }

    /// Returns the level of the tree that holds the page's leaf entry.
    pub fn walk_level(&self) -> (level: usize)
        ensures
            level == self.level(),
    {
        match self {
            PageSize::Page4K => 2,
            PageSize::Page2M => 1,
            PageSize::Page1G => 0,
        }
    }
}

/// A physical address.
#[derive(Clone, Copy, Debug, PartialEq, Eq, PartialOrd, Ord, Structural)]
pub struct PhysAddr(pub u64);

/// A virtual address, without its sign extension.
#[derive(Clone, Copy, Debug, PartialEq, Eq, PartialOrd, Ord, Structural)]
pub struct VirtAddr(pub u64);

/// The number of a standard physical page.
#[derive(Clone, Copy, Debug, PartialEq, Eq, PartialOrd, Ord, Structural)]
pub struct PhysPageNum(pub u64);

/// The number of a standard virtual page.
#[derive(Clone, Copy, Debug, PartialEq, Eq, PartialOrd, Ord, Structural)]
pub struct VirtPageNum(pub u64);

/// The least number of standard pages that cover `bytes` bytes.
pub open spec fn pages_to_cover(bytes: int) -> int {
    (bytes + PAGE_SIZE - 1) / PAGE_SIZE as int
}

impl From<u64> for PhysAddr {
    /// Keeps the low bits that a physical address has.
    fn from(v: u64) -> (addr: Self) {
        PhysAddr(v % PA_LIMIT)
    }
}

impl FromSpecImpl<u64> for PhysAddr {
    open spec fn obeys_from_spec() -> bool {
        true
    }

    open spec fn from_spec(v: u64) -> Self {
        PhysAddr(v % PA_LIMIT)
    }
}

impl From<u64> for PhysPageNum {
    /// Keeps the low bits that a physical page number has.
    fn from(v: u64) -> (page: Self) {
        PhysPageNum(v % PPN_LIMIT)
    }
}

impl FromSpecImpl<u64> for PhysPageNum {
    open spec fn obeys_from_spec() -> bool {
        true
    }

    open spec fn from_spec(v: u64) -> Self {
        PhysPageNum(v % PPN_LIMIT)
    }
}

impl From<u64> for VirtAddr {
    /// Keeps the low bits that a virtual address has.
    fn from(v: u64) -> (addr: Self) {
        VirtAddr(v % VA_LIMIT)
    }
}

impl FromSpecImpl<u64> for VirtAddr {
    open spec fn obeys_from_spec() -> bool {
        true
    }

    open spec fn from_spec(v: u64) -> Self {
        VirtAddr(v % VA_LIMIT)
    }
}

impl From<u64> for VirtPageNum {
    /// Keeps the low bits that a virtual page number has.
    fn from(v: u64) -> (page: Self) {
        VirtPageNum(v % VPN_LIMIT)
    }
}

impl FromSpecImpl<u64> for VirtPageNum {
    open spec fn obeys_from_spec() -> bool {
        true
    }

    open spec fn from_spec(v: u64) -> Self {
        VirtPageNum(v % VPN_LIMIT)
    }
}

impl From<PhysPageNum> for u64 {
    /// The page number itself.
    fn from(v: PhysPageNum) -> (n: Self) {
        v.0
    }
}

impl FromSpecImpl<PhysPageNum> for u64 {
    open spec fn obeys_from_spec() -> bool {
        true
    }

    open spec fn from_spec(v: PhysPageNum) -> Self {
        v.0
    }
}

impl From<VirtPageNum> for u64 {
    /// The page number itself.
    fn from(v: VirtPageNum) -> (n: Self) {
        v.0
    }
}

impl FromSpecImpl<VirtPageNum> for u64 {
    open spec fn obeys_from_spec() -> bool {
        true
    }

    open spec fn from_spec(v: VirtPageNum) -> Self {
        v.0
    }
}

impl From<VirtAddr> for u64 {
    /// The address as the processor takes it: an upper-half address has all
    /// the bits above it set.
    fn from(v: VirtAddr) -> (n: Self) {
        if v.0 >= VA_UPPER_HALF {
            v.0 | VA_SIGN_BITS
        } else {
            v.0
        }
    }
}

impl FromSpecImpl<VirtAddr> for u64 {
    open spec fn obeys_from_spec() -> bool {
        true
    }

    open spec fn from_spec(v: VirtAddr) -> Self {
        if v.0 >= VA_UPPER_HALF {
            v.0 | VA_SIGN_BITS
        } else {
            v.0
        }
    }
}

impl From<VirtPageNum> for VirtAddr {
    /// The address of the page's first byte; bits shifted out are lost.
    fn from(v: VirtPageNum) -> (addr: Self) {
        VirtAddr(v.0 << 12)
    }
}

impl FromSpecImpl<VirtPageNum> for VirtAddr {
    open spec fn obeys_from_spec() -> bool {
        true
    }

    open spec fn from_spec(v: VirtPageNum) -> Self {
        VirtAddr(v.0 << 12)
    }
}

impl From<PhysPageNum> for PhysAddr {
    /// The address of the page's first byte; bits shifted out are lost.
    fn from(v: PhysPageNum) -> (addr: Self) {
        PhysAddr(v.0 << 12)
    }
}

impl FromSpecImpl<PhysPageNum> for PhysAddr {
    open spec fn obeys_from_spec() -> bool {
        true
    }

    open spec fn from_spec(v: PhysPageNum) -> Self {
        PhysAddr(v.0 << 12)
    }
}

/// Shifting a page number that is small enough left by the page bits
/// multiplies it by the page size.
pub proof fn lemma_page_shift(n: u64)
    requires
        n < 0x10_0000_0000_0000,
    ensures
        n << 12 == n * PAGE_SIZE,
{
    assert(n < 0x10_0000_0000_0000 ==> n << 12 == n * 4096) by (bit_vector);
}

/// A page's first address lies in the page, at offset zero.
pub proof fn law_page_address_roundtrip(page: VirtPageNum)
    requires
        page.0 < VPN_LIMIT,
    ensures
        ({
            let addr = <VirtAddr as FromSpec<VirtPageNum>>::from_spec(page);
            &&& addr.0 < VA_LIMIT
            &&& addr.0 % PAGE_SIZE == 0
            &&& addr.0 / PAGE_SIZE == page.0
        }),
{
    lemma_page_shift(page.0);
}

/// Sign extension followed by truncation gives the address back, and the
/// extended address lies in the lowest or the highest quarter tebibyte.
pub proof fn law_sign_extension_roundtrip(addr: VirtAddr)
    requires
        addr.0 < VA_LIMIT,
    ensures
        ({
            let raw = <u64 as FromSpec<VirtAddr>>::from_spec(addr);
            &&& <VirtAddr as FromSpec<u64>>::from_spec(raw) == addr
            &&& raw < VA_UPPER_HALF || raw >= 0xffff_ffc0_0000_0000
        }),
{
    let v = addr.0;
    assert(v < 0x80_0000_0000 && v >= 0x40_0000_0000 ==> (v | 0xffff_ff80_0000_0000) == v
        + 0xffff_ff80_0000_0000) by (bit_vector);
}

impl VirtAddr {
    /// Returns the page that holds the address.
    pub fn std_floor(&self) -> (page: VirtPageNum)
        ensures
            page.0 == self.0 / PAGE_SIZE,
    {
        VirtPageNum(self.0 / PAGE_SIZE)
    }

    /// Returns the first page that begins at the address or after it.
    pub fn std_ceil(&self) -> (page: VirtPageNum)
        requires
            self.0 <= u64::MAX - (PAGE_SIZE - 1),
        ensures
            page.0 == pages_to_cover(self.0 as int),
            self.0 <= page.0 * PAGE_SIZE < self.0 + PAGE_SIZE,
    {
        VirtPageNum((self.0 + (PAGE_SIZE - 1)) / PAGE_SIZE)
    }

    /// Returns the address's offset in its standard page.
    pub fn std_page_offset(&self) -> (offset: u64)
        ensures
            offset == self.0 % PAGE_SIZE,
    {
        self.0 % PAGE_SIZE
    }

    /// Returns the address's offset in its page of the given size.
    pub fn actual_page_offset(&self, page_size: PageSize) -> (offset: u64)
        ensures
            offset == self.0 as int % page_size.bytes(),
    {
        self.0 % page_size.size()
    }

    /// Tells whether a standard page begins at the address.
    pub fn std_aligned(&self) -> (aligned: bool)
        ensures
            aligned == (self.0 % PAGE_SIZE == 0),
    {
        self.std_page_offset() == 0
    }

    /// Tells whether a page of the given size begins at the address.
    pub fn actual_aligned(&self, page_size: PageSize) -> (aligned: bool)
        ensures
            aligned == (self.0 as int % page_size.bytes() == 0),
    {
        self.actual_page_offset(page_size) == 0
    }

    /// Returns the page that begins at the address.
    pub fn page(&self) -> (page: VirtPageNum)
        requires
            self.0 % PAGE_SIZE == 0,
        ensures
            page.0 * PAGE_SIZE == self.0,
    {
        self.std_floor()
    }
}

impl PhysAddr {
    /// Returns the page that holds the address.
    pub fn std_floor(&self) -> (page: PhysPageNum)
        ensures
            page.0 == self.0 / PAGE_SIZE,
    {
        PhysPageNum(self.0 / PAGE_SIZE)
    }

    /// Returns the first page that begins at the address or after it.
    pub fn std_ceil(&self) -> (page: PhysPageNum)
        requires
            self.0 <= u64::MAX - PAGE_SIZE,
        ensures
            page.0 == pages_to_cover(self.0 as int),
            self.0 <= page.0 * PAGE_SIZE < self.0 + PAGE_SIZE,
    {
        PhysPageNum((self.0 + PAGE_SIZE - 1) / PAGE_SIZE)
    }

    /// Returns the address's offset in its standard page.
    pub fn std_page_offset(&self) -> (offset: u64)
        ensures
            offset == self.0 % PAGE_SIZE,
    {
        self.0 % PAGE_SIZE
    }

    /// Returns the address's offset in its page of the given size.
    pub fn actual_page_offset(&self, page_size: PageSize) -> (offset: u64)
        ensures
            offset == self.0 as int % page_size.bytes(),
    {
        self.0 % page_size.size()
    }

    /// Tells whether a standard page begins at the address.
    pub fn std_aligned(&self) -> (aligned: bool)
        ensures
            aligned == (self.0 % PAGE_SIZE == 0),
    {
        self.std_page_offset() == 0
    }

    /// Tells whether a page of the given size begins at the address.
    pub fn actual_aligned(&self, page_size: PageSize) -> (aligned: bool)
        ensures
            aligned == (self.0 as int % page_size.bytes() == 0),
    {
        self.actual_page_offset(page_size) == 0
    }

    /// Returns the address at which the kernel reaches this memory through
    /// the cache; the kernel window maps physical memory onto itself.
    pub fn get_cached_addr(&self) -> (addr: u64)
        ensures
            addr == self.0,
    {
        self.0
    }

    /// Returns the address at which the kernel reaches this memory through a
    /// window whose addresses have the bits of `window` set, on a processor
    /// that has one for the cached and one for the uncached memory.
    pub fn get_windowed_addr(&self, window: u64) -> (addr: u64)
        ensures
            addr == self.0 | window,
    {
        self.0 | window
    }

    /// Returns the memory that an address of a window shows.
    pub fn from_windowed(addr: u64, window: u64) -> (memory: Self)
        ensures
            memory == PhysAddr(addr & !window),
    {
        PhysAddr(addr & !window)
    }

    /// Returns the address at which the kernel reaches this memory past the
    /// cache; the kernel window maps physical memory onto itself.
    pub fn get_uncached_addr(&self) -> (addr: u64)
        ensures
            addr == self.0,
    {
        self.0
    }

    /// Returns the page that begins at the address.
    pub fn page(&self) -> (page: PhysPageNum)
        requires
            self.0 % PAGE_SIZE == 0,
        ensures
            page.0 * PAGE_SIZE == self.0,
    {
        self.std_floor()
    }
}

/// The entry that `page` uses in the table at `level`, the root being level 0.
pub open spec fn table_index(page: int, level: int) -> int {
    if level == 0 {
        page / 262144 % 512
    } else if level == 1 {
        page / 512 % 512
    } else {
        page % 512
    }
}

impl VirtPageNum {
    /// Returns the table entries that translate the page, from the root down.
    pub fn indexes(&self) -> (indexes: [usize; 3])
        ensures
            indexes[0] == table_index(self.0 as int, 0),
            indexes[1] == table_index(self.0 as int, 1),
            indexes[2] == table_index(self.0 as int, 2),
            forall|i: int| 0 <= i < 3 ==> #[trigger] indexes[i] < TABLE_ENTRIES,
    {
        [(self.0 / 262144 % 512) as usize, (self.0 / 512 % 512) as usize, (self.0 % 512) as usize]
    }
}

/// Two pages that use the same entries at every level are the same page.
pub proof fn law_indexes_identify_page(a: VirtPageNum, b: VirtPageNum)
    requires
        a.0 < VPN_LIMIT,
        b.0 < VPN_LIMIT,
        forall|level: int| 0 <= level < 3 ==> table_index(a.0 as int, level) == #[trigger] table_index(
            b.0 as int,
            level,
        ),
    ensures
        a == b,
{
    assert(table_index(a.0 as int, 0) == table_index(b.0 as int, 0));
    assert(table_index(a.0 as int, 1) == table_index(b.0 as int, 1));
    assert(table_index(a.0 as int, 2) == table_index(b.0 as int, 2));
    assert(a.0 / 512 / 512 == a.0 / 262144);
    assert(b.0 / 512 / 512 == b.0 / 262144);
}

/// A page number that a range can step through.
pub trait StepByOne: Sized {
    /// The position of the number in its order.
    spec fn position(&self) -> int;

    /// Returns the position.
    fn number(&self) -> (n: u64)
        ensures
            n == self.position(),
    ;

    /// Moves to the next page number.
    fn step(&mut self)
        requires
            old(self).position() < u64::MAX,
        ensures
            final(self).position() == old(self).position() + 1,
    ;

    /// Moves on by a number of pages.
    fn step_by(&mut self, steps: u64)
        requires
            old(self).position() + steps <= u64::MAX,
        ensures
            final(self).position() == old(self).position() + steps,
    ;
}

impl StepByOne for VirtPageNum {
    open spec fn position(&self) -> int {
        self.0 as int
    }

    fn number(&self) -> (n: u64) {
        self.0
    }

    fn step(&mut self) {
        self.0 = self.0 + 1;
    }

    fn step_by(&mut self, steps: u64) {
        self.0 = self.0 + steps;
    }
}

impl StepByOne for PhysPageNum {
    open spec fn position(&self) -> int {
        self.0 as int
    }

    fn number(&self) -> (n: u64) {
        self.0
    }

    fn step(&mut self) {
        self.0 = self.0 + 1;
    }

    fn step_by(&mut self, steps: u64) {
        self.0 = self.0 + steps;
    }
}

/// The page numbers from `l` up to, but without, `r`.
#[derive(Clone, Copy, Debug)]
pub struct SimpleRange<T: StepByOne + Copy> {
    l: T,
    r: T,
}

impl<T: StepByOne + Copy> SimpleRange<T> {
    /// First page number of the range.
    pub closed spec fn start(&self) -> T {
        self.l
    }

    /// First page number after the range.
    pub closed spec fn end(&self) -> T {
        self.r
    }

    /// A range does not end before it starts.
    pub open spec fn wf(&self) -> bool {
        self.start().position() <= self.end().position()
    }

    /// Makes the range from `start` to `end`.
    pub fn new(start: T, end: T) -> (range: Self)
        requires
            start.position() <= end.position(),
        ensures
            range.wf(),
            range.start() == start,
            range.end() == end,
    {
        SimpleRange { l: start, r: end }
    }

    /// Makes the range that visits every `step`-th page of this one.
    pub fn add_step(&self, step: u64) -> (range: RangeWithStep<T>)
        requires
            self.wf(),
        ensures
            range.wf(),
            range.start() == self.start(),
            range.end() == self.end(),
            range.stride() == step,
    {
        RangeWithStep::new(self.l, self.r, step)
    }

    /// Returns the first page number of the range.
    pub fn get_start(&self) -> (t: T)
        ensures
            t == self.start(),
    {
        self.l
    }

    /// Returns the first page number after the range.
    pub fn get_end(&self) -> (t: T)
        ensures
            t == self.end(),
    {
        self.r
    }

    /// Tells whether the range holds `t`.
    pub fn contains(&self, t: T) -> (inside: bool)
        ensures
            inside == (self.start().position() <= t.position() < self.end().position()),
    {
        self.l.number() <= t.number() && t.number() < self.r.number()
    }

    /// Returns an iterator over the page numbers of the range.
    pub fn into_iter(self) -> (iter: SimpleRangeIterator<T>)
        ensures
            iter.at() == self.start(),
            iter.stop() == self.end(),
    {
        SimpleRangeIterator::new(self.l, self.r)
    }
}

/// A walk through the page numbers of a range.
pub struct SimpleRangeIterator<T: StepByOne + Copy> {
    current: T,
    end: T,
}

impl<T: StepByOne + Copy> SimpleRangeIterator<T> {
    /// The page number that comes next.
    pub closed spec fn at(&self) -> T {
        self.current
    }

    /// The page number at which the walk is over.
    pub closed spec fn stop(&self) -> T {
        self.end
    }

    /// Starts a walk from `l` to `r`.
    pub fn new(l: T, r: T) -> (iter: Self)
        ensures
            iter.at() == l,
            iter.stop() == r,
    {
        SimpleRangeIterator { current: l, end: r }
    }

    /// Returns the next page number, or `None` at the end of the walk.
    pub fn next(&mut self) -> (item: Option<T>)
        requires
            old(self).at().position() <= old(self).stop().position(),
        ensures
            final(self).stop() == old(self).stop(),
            final(self).at().position() <= final(self).stop().position(),
            old(self).at().position() == old(self).stop().position() ==> item is None && final(self).at() == old(self).at(),
            old(self).at().position() < old(self).stop().position() ==> item == Some(old(self).at())
                && final(self).at().position() == old(self).at().position() + 1,
    {
        if self.current.number() == self.end.number() {
            None
        } else {
            let t = self.current;
            let bound: u64 = self.end.number();
            self.current.step();
            Some(t)
        }
    }
}

/// A range of virtual pages.
pub type VPNRange = SimpleRange<VirtPageNum>;

/// The page numbers from `l` to `r` that lie a multiple of `step` after `l`.
#[derive(Clone, Copy, Debug)]
pub struct RangeWithStep<T: StepByOne + Copy> {
    l: T,
    r: T,
    step: u64,
}

impl<T: StepByOne + Copy> RangeWithStep<T> {
    /// First page number of the range.
    pub closed spec fn start(&self) -> T {
        self.l
    }

    /// First page number after the range.
    pub closed spec fn end(&self) -> T {
        self.r
    }

    /// Distance between two visited page numbers.
    pub closed spec fn stride(&self) -> u64 {
        self.step
    }

    /// A range does not end before it starts.
    pub open spec fn wf(&self) -> bool {
        self.start().position() <= self.end().position()
    }

    /// Makes the range from `start` to `end` with the given stride.
    pub fn new(start: T, end: T, step: u64) -> (range: Self)
        requires
            start.position() <= end.position(),
        ensures
            range.wf(),
            range.start() == start,
            range.end() == end,
            range.stride() == step,
    {
        RangeWithStep { l: start, r: end, step }
    }

    /// Returns the first page number of the range.
    pub fn get_start(&self) -> (t: T)
        ensures
            t == self.start(),
    {
        self.l
    }

    /// Returns the first page number after the range.
    pub fn get_end(&self) -> (t: T)
        ensures
            t == self.end(),
    {
        self.r
    }

    /// Returns an iterator over the visited page numbers.
    pub fn into_iter(self) -> (iter: StepRangeIterator<T>)
        ensures
            iter.at() == self.start(),
            iter.stop() == self.end(),
            iter.stride() == self.stride(),
    {
        StepRangeIterator::new(self.l, self.r, self.step)
    }
}

/// A walk through a range in strides.
pub struct StepRangeIterator<T: StepByOne + Copy> {
    current: T,
    end: T,
    step: u64,
}

impl<T: StepByOne + Copy> StepRangeIterator<T> {
    /// The page number that comes next.
    pub closed spec fn at(&self) -> T {
        self.current
    }

    /// The page number at which the walk is over.
    pub closed spec fn stop(&self) -> T {
        self.end
    }

    /// Distance between two visited page numbers.
    pub closed spec fn stride(&self) -> u64 {
        self.step
    }

    /// Starts a walk from `l` to `r` in strides of `step`.
    pub fn new(l: T, r: T, step: u64) -> (iter: Self)
        ensures
            iter.at() == l,
            iter.stop() == r,
            iter.stride() == step,
    {
        StepRangeIterator { current: l, end: r, step }
    }

    /// Returns the next page number, or `None` exactly at the end of the walk.
    ///
    /// A walk whose stride does not meet the end steps over it.
    pub fn next(&mut self) -> (item: Option<T>)
        requires
            old(self).at().position() != old(self).stop().position() ==> old(self).at().position()
                + old(self).stride() <= u64::MAX,
        ensures
            final(self).stop() == old(self).stop(),
            final(self).stride() == old(self).stride(),
            old(self).at().position() == old(self).stop().position() ==> item is None && final(self).at() == old(self).at(),
            old(self).at().position() != old(self).stop().position() ==> item == Some(
                old(self).at(),
            ) && final(self).at().position() == old(self).at().position() + old(self).stride(),
    {
        if self.current.number() == self.end.number() {
            None
        } else {
            let t = self.current;
            let step: u64 = self.step;
            self.current.step_by(step);
            Some(t)
        }
    }
}

/// A range of virtual pages visited in strides.
pub type VPNRangeWithStep = RangeWithStep<VirtPageNum>;

/// A window shows the memory that its address was made from, where none of the bits of the window
/// is a bit of that memory's address. Without bits it maps memory onto itself.
pub proof fn law_window_there_and_back(p: u64, window: u64)
    ensures
        p & window == 0 ==> (p | window) & !window == p,
        p | 0 == p,
{
    assert(p & window == 0 ==> (p | window) & !window == p) by (bit_vector);
    assert(p | 0 == p) by (bit_vector);
}

} // verus!
