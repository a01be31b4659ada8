//! The allocator of physical page frames, and the count of their users.
//!
//! Frames that were never handed out lie between `current` and `end`. Frames
//! that came back wait in one stack per page size. A page is split into
//! smaller ones when the smaller stack is empty.

use std::collections::BTreeMap;

use vstd::prelude::*;

use super::address::{PageSize, PhysAddr, PhysPageNum, PPN_LIMIT};

verus! {

broadcast use {vstd::std_specs::btree::group_btree_axioms, vstd::laws_cmp::group_laws_cmp};

/// How many of the blocks of `n` pages that start at `starts` hold page `p`.
pub open spec fn cover(starts: Seq<u64>, n: int, p: int) -> nat
    decreases starts.len(),
{
    if starts.len() == 0 {
        0
    } else {
        cover(starts.drop_last(), n, p) + holds(starts.last() as int, n, p)
    }
}

/// One where the block of `n` pages at `start` holds page `p`, else zero.
pub open spec fn holds(start: int, n: int, p: int) -> nat {
    if start <= p < start + n {
        1
    } else {
        0
    }
}

/// The blocks, largest first, into which a range of pages is cut.
pub struct Carved {
    pub std: Seq<u64>,
    pub mega: Seq<u64>,
    pub giga: Seq<u64>,
}

/// Cuts the pages from `pos` to `end` into aligned blocks, each as large as
/// its place and the rest of the range allow.
pub open spec fn carve(pos: int, end: int) -> Carved
    decreases end - pos,
{
    if pos >= end {
        Carved { std: Seq::empty(), mega: Seq::empty(), giga: Seq::empty() }
    } else if pos % 262144 == 0 && end - pos >= 262144 {
        let rest = carve(pos + 262144, end);
        Carved { giga: seq![pos as u64] + rest.giga, ..rest }
    } else if pos % 512 == 0 && end - pos >= 512 {
        let rest = carve(pos + 512, end);
        Carved { mega: seq![pos as u64] + rest.mega, ..rest }
    } else {
        let rest = carve(pos + 1, end);
        Carved { std: seq![pos as u64] + rest.std, ..rest }
    }
}

/// The starts of the blocks behind the first, where `base` is cut into `total` blocks of `unit` pages.
pub open spec fn pieces(base: int, total: int, unit: int) -> Seq<u64> {
    Seq::new((total - 1) as nat, |i: int| (base + (i + 1) * unit) as u64)
}

/// First multiple of `n` at `pos` or behind it.
pub open spec fn round_up(pos: int, n: int) -> int {
    (pos + n - 1) / n * n
}

proof fn lemma_cover_push(starts: Seq<u64>, start: u64, n: int, p: int)
    ensures
        cover(starts.push(start), n, p) == cover(starts, n, p) + holds(start as int, n, p),
{
    assert(starts.push(start).drop_last() =~= starts);
}

proof fn lemma_cover_join(a: Seq<u64>, b: Seq<u64>, n: int, p: int)
    ensures
        cover(a + b, n, p) == cover(a, n, p) + cover(b, n, p),
    decreases b.len(),
{
    if b.len() == 0 {
        assert(a + b =~= a);
    } else {
        assert((a + b).drop_last() =~= a + b.drop_last());
        lemma_cover_join(a, b.drop_last(), n, p);
    }
}

/// A block and the pieces behind it cover what the whole did.
proof fn lemma_cover_pieces(base: int, total: int, unit: int, p: int)
    requires
        total >= 1,
        unit >= 1,
        base >= 0,
        base + total * unit <= u64::MAX,
    ensures
        cover(pieces(base, total, unit), unit, p) + holds(base, unit, p) == holds(
            base,
            total * unit,
            p,
        ),
    decreases total,
{
    let all = pieces(base, total, unit);
    if total == 1 {
        assert(all =~= Seq::<u64>::empty());
        assert(1 * unit == unit);
    } else {
        assert((total - 1) * unit + unit == total * unit) by (nonlinear_arith);
        assert((total - 1) * unit >= unit) by (nonlinear_arith)
            requires
                total >= 2,
                unit >= 1,
        ;
        lemma_cover_pieces(base, total - 1, unit, p);
        assert(all.drop_last() =~= pieces(base, total - 1, unit));
        assert(all.last() == base + (total - 1) * unit);
    }
}

/// The blocks of a carved range cover it once.
proof fn lemma_cover_carve(pos: int, end: int, p: int)
    requires
        0 <= pos,
        end <= u64::MAX,
    ensures
        cover(carve(pos, end).std, 1, p) + cover(carve(pos, end).mega, 512, p) + cover(
            carve(pos, end).giga,
            262144,
            p,
        ) == (if pos <= p < end {
            1nat
        } else {
            0nat
        }),
        pos <= end ==> carve(pos, end).std.len() + 512 * carve(pos, end).mega.len() + 262144
            * carve(pos, end).giga.len() == end - pos,
    decreases end - pos,
{
    if pos < end {
        let one = seq![pos as u64];
        assert(one =~= Seq::<u64>::empty().push(pos as u64));
        if pos % 262144 == 0 && end - pos >= 262144 {
            lemma_cover_carve(pos + 262144, end, p);
            lemma_cover_join(one, carve(pos + 262144, end).giga, 262144, p);
            lemma_cover_push(Seq::empty(), pos as u64, 262144, p);
        } else if pos % 512 == 0 && end - pos >= 512 {
            lemma_cover_carve(pos + 512, end, p);
            lemma_cover_join(one, carve(pos + 512, end).mega, 512, p);
            lemma_cover_push(Seq::empty(), pos as u64, 512, p);
        } else {
            lemma_cover_carve(pos + 1, end, p);
            lemma_cover_join(one, carve(pos + 1, end).std, 1, p);
            lemma_cover_push(Seq::empty(), pos as u64, 1, p);
        }
    }
}

/// The blocks of a carved range start in it, at multiples of their size.
pub proof fn lemma_carve_inside(pos: int, end: int)
    requires
        0 <= pos,
        end <= u64::MAX,
    ensures
        forall|i: int|
            0 <= i < carve(pos, end).std.len() ==> pos <= #[trigger] carve(pos, end).std[i] < end,
        forall|i: int|
            0 <= i < carve(pos, end).mega.len() ==> pos <= #[trigger] carve(pos, end).mega[i] < end
                && carve(pos, end).mega[i] % 512 == 0,
        forall|i: int|
            0 <= i < carve(pos, end).giga.len() ==> pos <= #[trigger] carve(pos, end).giga[i] < end
                && carve(pos, end).giga[i] % 262144 == 0,
    decreases end - pos,
{
    if pos < end {
        let c = carve(pos, end);
        let step: int = if pos % 262144 == 0 && end - pos >= 262144 {
            262144
        } else if pos % 512 == 0 && end - pos >= 512 {
            512
        } else {
            1
        };
        let r = carve(pos + step, end);
        lemma_carve_inside(pos + step, end);
        assert forall|i: int| 0 <= i < c.std.len() implies pos <= #[trigger] c.std[i] < end by {
            assert(step == 1 && i > 0 ==> c.std[i] == r.std[i - 1]);
            assert(step != 1 ==> c.std[i] == r.std[i]);
        }
        assert forall|i: int| 0 <= i < c.mega.len() implies pos <= #[trigger] c.mega[i] < end
            && c.mega[i] % 512 == 0 by {
            assert(step == 512 && i > 0 ==> c.mega[i] == r.mega[i - 1]);
            assert(step != 512 ==> c.mega[i] == r.mega[i]);
        }
        assert forall|i: int| 0 <= i < c.giga.len() implies pos <= #[trigger] c.giga[i] < end
            && c.giga[i] % 262144 == 0 by {
            assert(step == 262144 && i > 0 ==> c.giga[i] == r.giga[i - 1]);
            assert(step != 262144 ==> c.giga[i] == r.giga[i]);
        }
    }
}

/// An allocator of frames of all page sizes.
pub struct StackFrameAllocator {
    current: u64,
    end: u64,
    recycled_std: Vec<u64>,
    recycled_mega: Vec<u64>,
    recycled_giga: Vec<u64>,
}

/// What an allocator holds.
pub struct FreeFrames {
    /// First frame that was never handed out.
    pub current: int,
    /// First frame behind the allocator's memory.
    pub end: int,
    /// Standard pages that came back, the last one on top.
    pub std: Seq<u64>,
    /// Two-megabyte pages that came back.
    pub mega: Seq<u64>,
    /// One-gigabyte pages that came back.
    pub giga: Seq<u64>,
}

impl FreeFrames {
    /// In how many free blocks page `p` lies.
    pub open spec fn times_free(self, p: int) -> nat {
        (if self.current <= p < self.end {
            1nat
        } else {
            0nat
        }) + cover(self.std, 1, p) + cover(self.mega, 512, p) + cover(self.giga, 262144, p)
    }

    /// The number of free standard pages.
    pub open spec fn count(self) -> int {
        self.end - self.current + self.std.len() + 512 * self.mega.len() + 262144
            * self.giga.len()
    }

    /// No page is free twice.
    pub open spec fn exclusive(self) -> bool {
        forall|p: int| #[trigger] self.times_free(p) <= 1
    }

    /// What is left after an allocation of a standard page, with the page.
    pub open spec fn take_std(self) -> Option<(int, FreeFrames)> {
        if self.std.len() > 0 {
            Some((self.std.last() as int, FreeFrames { std: self.std.drop_last(), ..self }))
        } else if self.mega.len() > 0 {
            let m = self.mega.last() as int;
            Some(
                (m, FreeFrames { std: pieces(m, 512, 1), mega: self.mega.drop_last(), ..self }),
            )
        } else if self.current < self.end {
            Some((self.current, FreeFrames { current: self.current + 1, ..self }))
        } else if self.giga.len() > 0 {
            let g = self.giga.last() as int;
            Some(
                (
                    g,
                    FreeFrames {
                        std: pieces(g, 512, 1),
                        mega: pieces(g, 512, 512),
                        giga: self.giga.drop_last(),
                        ..self
                    },
                ),
            )
        } else {
            None
        }
    }

    /// What is left after an allocation of fresh frames at a multiple of `n`, with the first.
    pub open spec fn take_fresh(self, n: int) -> Option<(int, FreeFrames)> {
        let start = round_up(self.current, n);
        if start + n > self.end {
            None
        } else {
            let c = carve(self.current, start);
            Some(
                (
                    start,
                    FreeFrames {
                        current: start + n,
                        std: self.std + c.std,
                        mega: self.mega + c.mega,
                        giga: self.giga + c.giga,
                        ..self
                    },
                ),
            )
        }
    }

    /// What is left after an allocation of a two-megabyte page, with its first frame.
    pub open spec fn take_mega(self) -> Option<(int, FreeFrames)> {
        if self.mega.len() > 0 {
            Some((self.mega.last() as int, FreeFrames { mega: self.mega.drop_last(), ..self }))
        } else if self.giga.len() > 0 {
            let g = self.giga.last() as int;
            Some(
                (g, FreeFrames { mega: pieces(g, 512, 512), giga: self.giga.drop_last(), ..self }),
            )
        } else {
            self.take_fresh(512)
        }
    }

    /// What is left after an allocation of a one-gigabyte page, with its first frame.
    pub open spec fn take_giga(self) -> Option<(int, FreeFrames)> {
        if self.giga.len() > 0 {
            Some((self.giga.last() as int, FreeFrames { giga: self.giga.drop_last(), ..self }))
        } else {
            self.take_fresh(262144)
        }
    }

    /// What is left after an allocation of a page, with its first frame.
    pub open spec fn take(self, size: PageSize) -> Option<(int, FreeFrames)> {
        match size {
            PageSize::Page4K => self.take_std(),
            PageSize::Page2M => self.take_mega(),
            PageSize::Page1G => self.take_giga(),
        }
    }

    /// What there is after a page came back.
    pub open spec fn give(self, page: u64, size: PageSize) -> FreeFrames {
        match size {
            PageSize::Page4K => FreeFrames { std: self.std.push(page), ..self },
            PageSize::Page2M => FreeFrames { mega: self.mega.push(page), ..self },
            PageSize::Page1G => FreeFrames { giga: self.giga.push(page), ..self },
        }
    }

    /// The stack that pages of a size come back to.
    pub open spec fn stack(self, size: PageSize) -> Seq<u64> {
        match size {
            PageSize::Page4K => self.std,
            PageSize::Page2M => self.mega,
            PageSize::Page1G => self.giga,
        }
    }

    /// The numbers are small enough to name frames.
    pub open spec fn bounded(self) -> bool {
        &&& 0 <= self.current <= PPN_LIMIT
        &&& 0 <= self.end <= PPN_LIMIT
        &&& forall|i: int| 0 <= i < self.std.len() ==> #[trigger] self.std[i] < PPN_LIMIT + 262656
        &&& forall|i: int| 0 <= i < self.mega.len() ==> #[trigger] self.mega[i] < PPN_LIMIT + 262144
        &&& forall|i: int| 0 <= i < self.giga.len() ==> #[trigger] self.giga[i] < PPN_LIMIT
    }
}

/// An allocation takes the pages of one block, each once, and leaves all others as they were.
pub proof fn law_take_conserves(free: FreeFrames, size: PageSize, p: int)
    requires
        free.bounded(),
        free.current <= free.end,
        free.take(size) is Some,
    ensures
        ({
            let (page, rest) = free.take(size)->Some_0;
            &&& free.times_free(p) == rest.times_free(p) + holds(page, size.pages(), p)
            &&& rest.count() == free.count() - size.pages()
            &&& rest.bounded()
            &&& rest.current <= rest.end
        }),
{
    let (page, rest) = free.take(size)->Some_0;
    match size {
        PageSize::Page4K => {
            if free.std.len() == 0 && free.mega.len() > 0 {
                lemma_cover_pieces(page, 512, 1, p);
                assert forall|i: int| 0 <= i < rest.std.len() implies #[trigger] rest.std[i]
                    < PPN_LIMIT + 262656 by {
                    assert(rest.std[i] == page + (i + 1) * 1);
                }
            } else if free.std.len() == 0 && free.current >= free.end {
                lemma_cover_pieces(page, 512, 512, p);
                lemma_cover_pieces(page, 512, 1, p);
                assert forall|i: int| 0 <= i < rest.std.len() implies #[trigger] rest.std[i]
                    < PPN_LIMIT + 262656 by {
                    assert(rest.std[i] == page + (i + 1) * 1);
                }
                assert forall|i: int| 0 <= i < rest.mega.len() implies #[trigger] rest.mega[i]
                    < PPN_LIMIT + 262144 by {
                    assert(rest.mega[i] == page + (i + 1) * 512);
                }
            }
        },
        PageSize::Page2M => {
            if free.mega.len() == 0 {
                if free.giga.len() > 0 {
                    lemma_cover_pieces(page, 512, 512, p);
                    assert forall|i: int| 0 <= i < rest.mega.len() implies #[trigger] rest.mega[i]
                        < PPN_LIMIT + 262144 by {
                        assert(rest.mega[i] == page + (i + 1) * 512);
                    }
                } else {
                    lemma_take_fresh(free, 512, p);
                }
            }
        },
        PageSize::Page1G => {
            if free.giga.len() == 0 {
                lemma_take_fresh(free, 262144, p);
            }
        },
    }
}

/// A standard page is handed out exactly where a frame is free.
pub proof fn law_take_some(free: FreeFrames)
    requires
        free.bounded(),
        free.current <= free.end,
    ensures
        free.take(PageSize::Page4K) is Some <==> free.count() > 0,
{
}

proof fn lemma_take_fresh(free: FreeFrames, n: int, p: int)
    requires
        free.bounded(),
        free.current <= free.end,
        n == 512 || n == 262144,
        free.take_fresh(n) is Some,
    ensures
        ({
            let (page, rest) = free.take_fresh(n)->Some_0;
            &&& free.times_free(p) == rest.times_free(p) + holds(page, n, p)
            &&& rest.count() == free.count() - n
            &&& rest.bounded()
            &&& rest.current <= rest.end
        }),
{
    let (page, rest) = free.take_fresh(n)->Some_0;
    let c = carve(free.current, page);
    assert(free.current <= page);
    lemma_cover_carve(free.current, page, p);
    lemma_carve_inside(free.current, page);
    lemma_cover_join(free.std, c.std, 1, p);
    lemma_cover_join(free.mega, c.mega, 512, p);
    lemma_cover_join(free.giga, c.giga, 262144, p);
}

/// Giving a page back makes each of its pages free once more, and no other.
pub proof fn law_give_conserves(free: FreeFrames, page: u64, size: PageSize, p: int)
    ensures
        free.give(page, size).times_free(p) == free.times_free(p) + holds(
            page as int,
            size.pages(),
            p,
        ),
        free.give(page, size).count() == free.count() + size.pages(),
{
    match size {
        PageSize::Page4K => lemma_cover_push(free.std, page, 1, p),
        PageSize::Page2M => lemma_cover_push(free.mega, page, 512, p),
        PageSize::Page1G => lemma_cover_push(free.giga, page, 262144, p),
    }
}

/// While no page is free twice, a page that was handed out is not handed out
/// again: none of its frames stays free.
pub proof fn law_allocated_is_not_free(free: FreeFrames, size: PageSize, p: int)
    requires
        free.bounded(),
        free.current <= free.end,
        free.exclusive(),
        free.take(size) is Some,
        free.take(size)->Some_0.0 <= p < free.take(size)->Some_0.0 + size.pages(),
    ensures
        free.take(size)->Some_0.1.times_free(p) == 0,
        free.take(size)->Some_0.1.exclusive(),
{
    let (page, rest) = free.take(size)->Some_0;
    law_take_conserves(free, size, p);
    assert(free.times_free(p) <= 1);
    assert forall|q: int| #[trigger] rest.times_free(q) <= 1 by {
        law_take_conserves(free, size, q);
        assert(free.times_free(q) <= 1);
    }
}

/// Giving back pages that are not free keeps every page free at most once.
pub proof fn law_give_keeps_exclusive(free: FreeFrames, page: u64, size: PageSize)
    requires
        free.exclusive(),
        forall|p: int| page <= p < page + size.pages() ==> #[trigger] free.times_free(p) == 0,
    ensures
        free.give(page, size).exclusive(),
{
    assert forall|p: int| #[trigger] free.give(page, size).times_free(p) <= 1 by {
        law_give_conserves(free, page, size, p);
        assert(free.times_free(p) <= 1);
    }
}

impl View for StackFrameAllocator {
    type V = FreeFrames;

    closed spec fn view(&self) -> FreeFrames {
        FreeFrames {
            current: self.current as int,
            end: self.end as int,
            std: self.recycled_std@,
            mega: self.recycled_mega@,
            giga: self.recycled_giga@,
        }
    }
}

impl StackFrameAllocator {
    /// The allocator's numbers name frames.
    pub open spec fn wf(&self) -> bool {
        self@.bounded()
    }

    /// Makes an allocator without memory.
    pub fn new() -> (allocator: Self)
        ensures
            allocator.wf(),
            allocator@ == (FreeFrames {
                current: 0,
                end: 0,
                std: Seq::empty(),
                mega: Seq::empty(),
                giga: Seq::empty(),
            }),
    {
        StackFrameAllocator {
            current: 0,
            end: 0,
            recycled_std: Vec::new(),
            recycled_mega: Vec::new(),
            recycled_giga: Vec::new(),
        }
    }

    /// Gives the allocator the frames from `l` to `r`.
    pub fn init(&mut self, l: PhysPageNum, r: PhysPageNum)
        requires
            old(self).wf(),
            l.0 <= PPN_LIMIT,
            r.0 <= PPN_LIMIT,
        ensures
            final(self).wf(),
            final(self)@ == (FreeFrames { current: l.0 as int, end: r.0 as int, ..old(self)@ }),
    {
        self.current = l.0;
        self.end = r.0;
    }

    /// Puts the frames from `start` to `end` on the stacks, in the largest pages that fit.
    fn recycle_range(&mut self, start: u64, end: u64)
        ensures
            final(self)@ == (FreeFrames {
                std: old(self)@.std + carve(start as int, end as int).std,
                mega: old(self)@.mega + carve(start as int, end as int).mega,
                giga: old(self)@.giga + carve(start as int, end as int).giga,
                ..old(self)@
            }),
    {
        let mut pos: u64 = start;
        proof {
            let c = carve(pos as int, end as int);
            assert(self@.std + c.std =~= old(self)@.std + c.std);
        }
        while pos < end
            invariant
                self@.current == old(self)@.current,
                self@.end == old(self)@.end,
                self@.std + carve(pos as int, end as int).std == old(self)@.std + carve(
                    start as int,
                    end as int,
                ).std,
                self@.mega + carve(pos as int, end as int).mega == old(self)@.mega + carve(
                    start as int,
                    end as int,
                ).mega,
                self@.giga + carve(pos as int, end as int).giga == old(self)@.giga + carve(
                    start as int,
                    end as int,
                ).giga,
            decreases end - pos,
        {
            let ghost before = self@;
            if pos % 262144 == 0 && end - pos >= 262144 {
                self.recycled_giga.push(pos);
                proof {
                    let rest = carve(pos + 262144, end as int);
                    assert(before.giga + (seq![pos] + rest.giga) =~= self@.giga + rest.giga);
                }
                pos = pos + 262144;
            } else if pos % 512 == 0 && end - pos >= 512 {
                self.recycled_mega.push(pos);
                proof {
                    let rest = carve(pos + 512, end as int);
                    assert(before.mega + (seq![pos] + rest.mega) =~= self@.mega + rest.mega);
                }
                pos = pos + 512;
            } else {
                self.recycled_std.push(pos);
                proof {
                    let rest = carve(pos + 1, end as int);
                    assert(before.std + (seq![pos] + rest.std) =~= self@.std + rest.std);
                }
                pos = pos + 1;
            }
        }
        proof {
            assert(self@.std + Seq::<u64>::empty() =~= self@.std);
            assert(self@.mega + Seq::<u64>::empty() =~= self@.mega);
            assert(self@.giga + Seq::<u64>::empty() =~= self@.giga);
        }
    }

    /// Cuts the block at `base` into `total` blocks of `unit` pages, keeps the
    /// first and puts the others on a stack.
    fn split_into(base: u64, total: u64, unit: u64, recycler: &mut Vec<u64>) -> (first: u64)
        requires
            1 <= total,
            total <= 512,
            1 <= unit <= 512,
            base + total * unit <= u64::MAX,
        ensures
            first == base,
            final(recycler)@ == old(recycler)@ + pieces(base as int, total as int, unit as int),
    {
        let mut i: u64 = 1;
        assert(recycler@ =~= old(recycler)@ + pieces(base as int, 1, unit as int));
        while i < total
            invariant
                1 <= i <= total,
                total <= 512,
                1 <= unit <= 512,
                base + total * unit <= u64::MAX,
                recycler@ == old(recycler)@ + pieces(base as int, i as int, unit as int),
            decreases total - i,
        {
            assert(i * unit <= total * unit) by (nonlinear_arith)
                requires
                    i < total,
            ;
            recycler.push(base + i * unit);
            assert(recycler@ =~= old(recycler)@ + pieces(base as int, i + 1, unit as int));
            i = i + 1;
        }
        base
    }

    /// Returns the number of free standard pages.
    pub fn free_frames(&self) -> (count: u64)
        requires
            self@.current <= self@.end,
            self@.count() <= u64::MAX,
        ensures
            count == self@.count(),
    {
        (self.end - self.current) + self.recycled_std.len() as u64 + self.recycled_mega.len() as u64
            * 512 + self.recycled_giga.len() as u64 * 262144
    }

    /// Hands out a page of the given size, or returns `None` where there is none.
    pub fn alloc_frame(&mut self, page_size: PageSize) -> (page: Option<PhysPageNum>)
        requires
            old(self).wf(),
        ensures
            final(self).wf(),
            match old(self)@.take(page_size) {
                None => page is None && final(self)@ == old(self)@,
                Some((start, rest)) => page == Some(PhysPageNum((start as u64) % PPN_LIMIT))
                    && final(self)@ == rest,
            },
    {
        match page_size {
            PageSize::Page4K => self.alloc_std(),
            PageSize::Page2M => self.alloc_mega(),
            PageSize::Page1G => self.alloc_giga(),
        }
    }

    /// Hands out a standard page: one that came back, one split off a
    /// two-megabyte page, a fresh one, or one split off a one-gigabyte page.
    pub fn alloc_std(&mut self) -> (page: Option<PhysPageNum>)
        requires
            old(self).wf(),
        ensures
            final(self).wf(),
            match old(self)@.take_std() {
                None => page is None && final(self)@ == old(self)@,
                Some((start, rest)) => page == Some(PhysPageNum((start as u64) % PPN_LIMIT))
                    && final(self)@ == rest,
            },
    {
        if let Some(page) = self.recycled_std.pop() {
            Some(PhysPageNum::from(page))
        } else if let Some(mega) = self.recycled_mega.pop() {
            let first: u64 = Self::split_into(mega, 512, 1, &mut self.recycled_std);
            proof {
                assert(self@.std =~= pieces(mega as int, 512, 1));
                assert forall|i: int| 0 <= i < self@.std.len() implies #[trigger] self@.std[i]
                    < PPN_LIMIT + 262656 by {
                    assert(self@.std[i] == mega + (i + 1) * 1);
                }
            }
            Some(PhysPageNum::from(first))
        } else if self.current < self.end {
            self.current = self.current + 1;
            Some(PhysPageNum::from(self.current - 1))
        } else if let Some(giga) = self.recycled_giga.pop() {
            let first_mega: u64 = Self::split_into(giga, 512, 512, &mut self.recycled_mega);
            let first: u64 = Self::split_into(first_mega, 512, 1, &mut self.recycled_std);
            proof {
                assert(self@.std =~= pieces(giga as int, 512, 1));
                assert(self@.mega =~= pieces(giga as int, 512, 512));
                assert forall|i: int| 0 <= i < self@.std.len() implies #[trigger] self@.std[i]
                    < PPN_LIMIT + 262656 by {
                    assert(self@.std[i] == giga + (i + 1) * 1);
                }
                assert forall|i: int| 0 <= i < self@.mega.len() implies #[trigger] self@.mega[i]
                    < PPN_LIMIT + 262144 by {
                    assert(self@.mega[i] == giga + (i + 1) * 512);
                }
            }
            Some(PhysPageNum::from(first))
        } else {
            None
        }
    }

    /// Hands out fresh frames at a multiple of `pages`; the frames skipped go on the stacks.
    fn alloc_fresh(&mut self, pages: u64) -> (page: Option<PhysPageNum>)
        requires
            old(self).wf(),
            pages == 512 || pages == 262144,
        ensures
            final(self).wf(),
            match old(self)@.take_fresh(pages as int) {
                None => page is None && final(self)@ == old(self)@,
                Some((start, rest)) => page == Some(PhysPageNum((start as u64) % PPN_LIMIT))
                    && final(self)@ == rest,
            },
    {
        let aligned: u64 = if pages == 512 {
            (self.current + 511) / 512 * 512
        } else {
            (self.current + 262143) / 262144 * 262144
        };
        if aligned + pages > self.end {
            None
        } else {
            let current: u64 = self.current;
            self.recycle_range(current, aligned);
            self.current = aligned + pages;
            proof {
                lemma_carve_inside(current as int, aligned as int);
            }
            Some(PhysPageNum::from(aligned))
        }
    }

    /// Hands out a two-megabyte page: one that came back, one split off a
    /// one-gigabyte page, or a fresh one.
    pub fn alloc_mega(&mut self) -> (page: Option<PhysPageNum>)
        requires
            old(self).wf(),
        ensures
            final(self).wf(),
            match old(self)@.take_mega() {
                None => page is None && final(self)@ == old(self)@,
                Some((start, rest)) => page == Some(PhysPageNum((start as u64) % PPN_LIMIT))
                    && final(self)@ == rest,
            },
    {
        if let Some(page) = self.recycled_mega.pop() {
            Some(PhysPageNum::from(page))
        } else if let Some(giga) = self.recycled_giga.pop() {
            let first: u64 = Self::split_into(giga, 512, 512, &mut self.recycled_mega);
            proof {
                assert(self@.mega =~= pieces(giga as int, 512, 512));
                assert forall|i: int| 0 <= i < self@.mega.len() implies #[trigger] self@.mega[i]
                    < PPN_LIMIT + 262144 by {
                    assert(self@.mega[i] == giga + (i + 1) * 512);
                }
            }
            Some(PhysPageNum::from(first))
        } else {
            self.alloc_fresh(512)
        }
    }

    /// Hands out a one-gigabyte page: one that came back, or a fresh one.
    pub fn alloc_giga(&mut self) -> (page: Option<PhysPageNum>)
        requires
            old(self).wf(),
        ensures
            final(self).wf(),
            match old(self)@.take_giga() {
                None => page is None && final(self)@ == old(self)@,
                Some((start, rest)) => page == Some(PhysPageNum((start as u64) % PPN_LIMIT))
                    && final(self)@ == rest,
            },
    {
        if let Some(page) = self.recycled_giga.pop() {
            Some(PhysPageNum::from(page))
        } else {
            self.alloc_fresh(262144)
        }
    }

    /// Takes a page back.
    ///
    /// The page lies before the end of the allocator's memory and is not on
    /// the stack of its size.
    pub fn dealloc(&mut self, page: PhysPageNum, page_size: PageSize)
        requires
            old(self).wf(),
            page.0 < old(self)@.end,
            !old(self)@.stack(page_size).contains(page.0),
        ensures
            final(self).wf(),
            final(self)@ == old(self)@.give(page.0, page_size),
    {
        match page_size {
            PageSize::Page4K => {
                self.recycled_std.push(page.0);
            },
            PageSize::Page2M => {
                self.recycled_mega.push(page.0);
            },
            PageSize::Page1G => {
                self.recycled_giga.push(page.0);
            },
        }
        proof {
            let was = old(self)@;
            let now = was.give(page.0, page_size);
            assert(self@ == now);
            assert forall|i: int| 0 <= i < now.std.len() implies #[trigger] now.std[i] < PPN_LIMIT
                + 262656 by {
                assert(i < was.std.len() ==> now.std[i] == was.std[i]);
            }
            assert forall|i: int| 0 <= i < now.mega.len() implies #[trigger] now.mega[i]
                < PPN_LIMIT + 262144 by {
                assert(i < was.mega.len() ==> now.mega[i] == was.mega[i]);
            }
            assert forall|i: int| 0 <= i < now.giga.len() implies #[trigger] now.giga[i]
                < PPN_LIMIT by {
                assert(i < was.giga.len() ==> now.giga[i] == was.giga[i]);
            }
        }
    }

    /// Tells whether `dealloc` can take the page back.
    pub fn can_dealloc(&self, page: PhysPageNum, page_size: PageSize) -> (ok: bool)
        ensures
            ok == (page.0 < self@.end && !self@.stack(page_size).contains(page.0)),
    {
        let stack: &Vec<u64> = match page_size {
            PageSize::Page4K => &self.recycled_std,
            PageSize::Page2M => &self.recycled_mega,
            PageSize::Page1G => &self.recycled_giga,
        };
        let mut i: usize = 0;
        while i < stack.len()
            invariant
                i <= stack@.len(),
                stack@ == self@.stack(page_size),
                forall|j: int| 0 <= j < i ==> stack@[j] != page.0,
            decreases stack@.len() - i,
        {
            if stack[i] == page.0 {
                return false;
            }
            i = i + 1;
        }
        page.0 < self.end
    }

    /// Runs of frames are not handed out.
    pub fn alloc_con(&mut self, pages: usize) -> (page: Option<PhysPageNum>)
        ensures
            page is None,
            *final(self) == *old(self),
    {
        None
    }
}

/// A frame that is in use.
#[derive(Clone, Copy, Debug, PartialEq, Eq, Structural)]
pub struct FrameTracker {
    /// First standard page of the frame.
    pub ppn: PhysPageNum,
    /// Size of the frame.
    pub page_size: PageSize,
}

/// The allocator together with the number of users of each frame.
pub struct FramePool {
    allocator: StackFrameAllocator,
    counts: BTreeMap<u64, u64>,
}

/// What a pool of frames holds.
pub struct Frames {
    /// The free frames.
    pub free: FreeFrames,
    /// The users of each frame in use, by its first page.
    pub users: Map<u64, u64>,
}

impl Frames {
    /// The number of users of a frame; zero where it is not in use.
    pub open spec fn count(self, page: u64) -> int {
        if self.users.contains_key(page) {
            self.users[page] as int
        } else {
            0
        }
    }
}

/// From `before` to `after` frames were only taken: a page that was not free
/// has the users that it had, and is not free; a frame that was taken has one user.
pub open spec fn keeps_users(before: Frames, after: Frames) -> bool {
    forall|p: u64|
        #![trigger after.count(p)]
        #![trigger after.free.times_free(p as int)]
        (before.free.times_free(p as int) == 0 ==> after.count(p) == before.count(p)
            && after.free.times_free(p as int) == 0) && (after.count(p) == before.count(p)
            || after.count(p) == 1)
}

/// Taking frames twice is taking frames.
pub broadcast proof fn lemma_users_both(a: Frames, b: Frames, c: Frames)
    requires
        #[trigger] keeps_users(a, b),
        #[trigger] keeps_users(b, c),
    ensures
        keeps_users(a, c),
{
    assert forall|p: u64|
        #![trigger c.count(p)]
        (a.free.times_free(p as int) == 0 ==> c.count(p) == a.count(p) && c.free.times_free(
            p as int,
        ) == 0) && (c.count(p) == a.count(p) || c.count(p) == 1) by {
        assert(b.count(p) == a.count(p) || b.count(p) == 1);
        assert(c.count(p) == b.count(p) || c.count(p) == 1);
    }
}

impl View for FramePool {
    type V = Frames;

    closed spec fn view(&self) -> Frames {
        Frames { free: self.allocator@, users: self.counts@ }
    }
}

impl FramePool {
    /// The allocator's numbers name frames.
    pub closed spec fn wf(&self) -> bool {
        self.allocator.wf()
    }

    /// Makes a pool of the whole standard pages from address `start` to address `end`.
    pub fn init_frame_allocator(start: PhysAddr, end: PhysAddr) -> (pool: Self)
        requires
            start.0 < super::address::PA_LIMIT,
            end.0 < super::address::PA_LIMIT,
        ensures
            pool.wf(),
            pool@.free == (FreeFrames {
                current: super::address::pages_to_cover(start.0 as int),
                end: end.0 as int / 4096,
                std: Seq::empty(),
                mega: Seq::empty(),
                giga: Seq::empty(),
            }),
            pool@.users == Map::<u64, u64>::empty(),
    {
        let mut allocator = StackFrameAllocator::new();
        allocator.init(start.std_ceil(), end.std_floor());
        FramePool { allocator, counts: BTreeMap::new() }
    }

    /// Returns the number of free standard pages.
    pub fn get_free_frames(&self) -> (count: u64)
        requires
            self@.free.current <= self@.free.end,
            self@.free.count() <= u64::MAX,
        ensures
            count == self@.free.count(),
    {
        self.allocator.free_frames()
    }

    /// Hands out a frame with one user.
    pub fn frame_alloc(&mut self, page_size: PageSize) -> (frame: Option<FrameTracker>)
        requires
            old(self).wf(),
        ensures
            final(self).wf(),
            match old(self)@.free.take(page_size) {
                None => frame is None && final(self)@ == old(self)@,
                Some((start, rest)) => {
                    let page = (start as u64) % PPN_LIMIT;
                    &&& frame == Some(FrameTracker { ppn: PhysPageNum(page), page_size })
                    &&& final(self)@ == (Frames {
                        free: rest,
                        users: old(self)@.users.insert(page, 1),
                    })
                },
            },
    {
        match self.allocator.alloc_frame(page_size) {
            None => None,
            Some(ppn) => {
                self.counts.insert(ppn.0, 1);
                Some(FrameTracker { ppn, page_size })
            },
        }
    }

    /// Runs of frames are not handed out.
    pub fn frame_alloc_con(&mut self, pages: usize) -> (page: Option<PhysPageNum>)
        ensures
            page is None,
            *final(self) == *old(self),
    {
        self.allocator.alloc_con(pages)
    }

    /// Returns the number of users of a frame.
    pub fn frame_ref_count(&self, ppn: PhysPageNum) -> (count: u64)
        ensures
            count == self@.count(ppn.0),
    {
        match self.counts.get(&ppn.0) {
            None => 0,
            Some(count) => *count,
        }
    }

    /// Counts one more user of a frame.
    pub fn frame_add_ref(&mut self, ppn: PhysPageNum)
        requires
            old(self)@.count(ppn.0) < u64::MAX,
            old(self).wf(),
        ensures
            final(self).wf(),
            final(self)@ == (Frames {
                users: old(self)@.users.insert(ppn.0, (old(self)@.count(ppn.0) + 1) as u64),
                ..old(self)@
            }),
    {
        let count: u64 = self.frame_ref_count(ppn);
        self.counts.insert(ppn.0, count + 1);
    }

    /// Takes another hold of a frame in use.
    pub fn share(&mut self, frame: FrameTracker) -> (shared: FrameTracker)
        requires
            old(self)@.count(frame.ppn.0) < u64::MAX,
            old(self).wf(),
        ensures
            final(self).wf(),
            shared == frame,
            final(self)@ == (Frames {
                users: old(self)@.users.insert(
                    frame.ppn.0,
                    (old(self)@.count(frame.ppn.0) + 1) as u64,
                ),
                ..old(self)@
            }),
    {
        self.frame_add_ref(frame.ppn);
        frame
    }

    /// Counts one user less of a frame and returns how many are left.
    pub fn frame_release_ref(&mut self, ppn: PhysPageNum) -> (remain: u64)
        requires
            old(self)@.count(ppn.0) > 0,
            old(self).wf(),
        ensures
            final(self).wf(),
            remain == old(self)@.count(ppn.0) - 1,
            final(self)@ == (Frames {
                users: if remain == 0 {
                    old(self)@.users.remove(ppn.0)
                } else {
                    old(self)@.users.insert(ppn.0, remain)
                },
                ..old(self)@
            }),
    {
        let remain: u64 = self.frame_ref_count(ppn) - 1;
        if remain == 0 {
            self.counts.remove(&ppn.0);
        } else {
            self.counts.insert(ppn.0, remain);
        }
        remain
    }

    /// Lets go of a frame; the last user gives it back to the allocator.
    pub fn frame_dealloc(&mut self, ppn: PhysPageNum, page_size: PageSize)
        requires
            old(self).wf(),
            old(self)@.count(ppn.0) > 0,
            old(self)@.count(ppn.0) == 1 ==> ppn.0 < old(self)@.free.end && !old(self)@.free.stack(page_size).contains(ppn.0),
        ensures
            final(self).wf(),
            old(self)@.count(ppn.0) == 1 ==> final(self)@ == (Frames {
                free: old(self)@.free.give(ppn.0, page_size),
                users: old(self)@.users.remove(ppn.0),
            }),
            old(self)@.count(ppn.0) > 1 ==> final(self)@ == (Frames {
                users: old(self)@.users.insert(ppn.0, (old(self)@.count(ppn.0) - 1) as u64),
                ..old(self)@
            }),
    {
        let remain: u64 = self.frame_release_ref(ppn);
        if remain == 0 {
            self.allocator.dealloc(ppn, page_size);
        }
    }

    /// Tells whether `frame_dealloc` can let go of the frame.
    pub fn can_dealloc(&self, ppn: PhysPageNum, page_size: PageSize) -> (ok: bool)
        ensures
            ok == (self@.count(ppn.0) > 0 && (self@.count(ppn.0) == 1 ==> ppn.0 < self@.free.end
                && !self@.free.stack(page_size).contains(ppn.0))),
    {
        let count: u64 = self.frame_ref_count(ppn);
        count > 1 || (count == 1 && self.allocator.can_dealloc(ppn, page_size))
    }
}

/// Taking a hold of a frame and letting go of it leaves the users as they were.
pub proof fn law_share_release(frames: Frames, page: u64)
    requires
        0 < frames.count(page) < u64::MAX,
    ensures
        ({
            let shared = Frames {
                users: frames.users.insert(page, (frames.count(page) + 1) as u64),
                ..frames
            };
            &&& shared.count(page) == frames.count(page) + 1
            &&& shared.users.insert(page, (shared.count(page) - 1) as u64) == frames.users
        }),
{
    let shared = Frames {
        users: frames.users.insert(page, (frames.count(page) + 1) as u64),
        ..frames
    };
    assert(shared.users.insert(page, (shared.count(page) - 1) as u64) =~= frames.users);
}

} // verus!
