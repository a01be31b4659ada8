//! What holds of the frame allocator after any allocations and returns.

use vstd::prelude::*;

use super::address::{PageSize, PhysPageNum, PPN_LIMIT};
use super::frame_allocator::{
    holds, law_give_conserves, law_take_conserves, law_take_some, lemma_carve_inside, pieces,
    round_up, FreeFrames,
};

verus! {

/// A page that was handed out: its first frame, and its size.
pub struct Block {
    pub start: int,
    pub size: PageSize,
}

impl Block {
    /// The page lies between two frames, at a multiple of its size.
    pub open spec fn within(self, l: int, r: int) -> bool {
        &&& l <= self.start
        &&& self.start + self.size.pages() <= r
        &&& self.start % self.size.pages() == 0
    }

    /// The two pages have no frame in common.
    pub open spec fn disjoint(self, other: Block) -> bool {
        self.start + self.size.pages() <= other.start || other.start + other.size.pages()
            <= self.start
    }
}

/// In how many of the pages frame `p` lies.
pub open spec fn times_out(out: Seq<Block>, p: int) -> nat
    decreases out.len(),
{
    if out.len() == 0 {
        0
    } else {
        times_out(out.drop_last(), p) + holds(out.last().start, out.last().size.pages(), p)
    }
}

/// Large free pages lie at multiples of their size.
pub open spec fn stacks_aligned(free: FreeFrames) -> bool {
    &&& forall|i: int| 0 <= i < free.mega.len() ==> #[trigger] free.mega[i] % 512 == 0
    &&& forall|i: int| 0 <= i < free.giga.len() ==> #[trigger] free.giga[i] % 262144 == 0
}

/// The frames from `l` to `r` are each free once or in one of the pages that are out; no
/// other frame is either.
pub open spec fn accounts(free: FreeFrames, out: Seq<Block>, l: int, r: int) -> bool {
    &&& free.bounded()
    &&& free.current <= free.end
    &&& stacks_aligned(free)
    &&& forall|i: int| 0 <= i < out.len() ==> (#[trigger] out[i]).within(l, r)
    &&& forall|i: int, j: int|
        0 <= i < j < out.len() ==> (#[trigger] out[i]).disjoint(#[trigger] out[j])
    &&& forall|p: int|
        #![trigger free.times_free(p)]
        #![trigger times_out(out, p)]
        free.times_free(p) + times_out(out, p) == holds(l, r - l, p)
}

/// The state of the allocator when it got the frames from `l` to `r`.
pub open spec fn all_free(l: int, r: int) -> FreeFrames {
    FreeFrames { current: l, end: r, std: Seq::empty(), mega: Seq::empty(), giga: Seq::empty() }
}

proof fn lemma_out_push(out: Seq<Block>, block: Block, p: int)
    ensures
        times_out(out.push(block), p) == times_out(out, p) + holds(
            block.start,
            block.size.pages(),
            p,
        ),
{
    assert(out.push(block).drop_last() =~= out);
}

proof fn lemma_out_remove(out: Seq<Block>, i: int, p: int)
    requires
        0 <= i < out.len(),
    ensures
        times_out(out, p) == times_out(out.remove(i), p) + holds(
            out[i].start,
            out[i].size.pages(),
            p,
        ),
    decreases out.len(),
{
    if i == out.len() - 1 {
        assert(out.remove(i) =~= out.drop_last());
    } else {
        lemma_out_remove(out.drop_last(), i, p);
        assert(out.remove(i).drop_last() =~= out.drop_last().remove(i));
        assert(out.remove(i).last() == out.last());
    }
}

/// A frame of a page that is out is counted.
proof fn lemma_out_counts(out: Seq<Block>, i: int, p: int)
    requires
        0 <= i < out.len(),
        out[i].start <= p < out[i].start + out[i].size.pages(),
    ensures
        times_out(out, p) >= 1,
{
    lemma_out_remove(out, i, p);
}

/// In the beginning all frames are free.
pub proof fn law_all_free(l: int, r: int)
    requires
        0 <= l <= r <= PPN_LIMIT,
    ensures
        accounts(all_free(l, r), Seq::empty(), l, r),
{
}

/// A page is taken from where pages of its size lie.
proof fn lemma_taken_aligned(free: FreeFrames, size: PageSize)
    requires
        free.bounded(),
        free.current <= free.end,
        stacks_aligned(free),
        free.take(size) is Some,
    ensures
        free.take(size)->Some_0.0 % size.pages() == 0,
        stacks_aligned(free.take(size)->Some_0.1),
{
    let (page, rest) = free.take(size)->Some_0;
    let n = size.pages();
    assert(round_up(free.current, 512) % 512 == 0);
    assert(round_up(free.current, 262144) % 262144 == 0);
    lemma_carve_inside(free.current, round_up(free.current, 512));
    lemma_carve_inside(free.current, round_up(free.current, 262144));
    if free.giga.len() > 0 {
        let g = free.giga.last() as int;
        assert(free.giga[free.giga.len() - 1] % 262144 == 0);
        assert forall|i: int| 0 <= i < pieces(g, 512, 512).len() implies #[trigger] pieces(
            g,
            512,
            512,
        )[i] % 512 == 0 by {
            assert(pieces(g, 512, 512)[i] == g + (i + 1) * 512);
        }
    }
}

/// An allocation hands out a page within the memory of the allocator, at a multiple of its
/// size, that has no frame in common with a page that is out; as many frames less are free.
pub proof fn law_take_accounts(
    free: FreeFrames,
    out: Seq<Block>,
    l: int,
    r: int,
    size: PageSize,
)
    requires
        0 <= l <= r <= PPN_LIMIT,
        accounts(free, out, l, r),
    ensures
        free.take(size) matches Some((page, rest)) ==> {
            let block = Block { start: page, size };
            &&& block.within(l, r)
            &&& forall|i: int| 0 <= i < out.len() ==> (#[trigger] out[i]).disjoint(block)
            &&& accounts(rest, out.push(block), l, r)
            &&& rest.count() == free.count() - size.pages()
        },
        size == PageSize::Page4K ==> (free.take(size) is None <==> free.count() == 0),
{
    law_take_some(free);
    if let Some((page, rest)) = free.take(size) {
        let block = Block { start: page, size };
        let n = size.pages();
        law_take_conserves(free, size, page);
        law_take_conserves(free, size, page + n - 1);
        lemma_taken_aligned(free, size);
        assert(free.times_free(page) + times_out(out, page) == holds(l, r - l, page));
        assert(free.times_free(page + n - 1) + times_out(out, page + n - 1) == holds(
            l,
            r - l,
            page + n - 1,
        ));
        assert forall|p: int|
            #![trigger rest.times_free(p)]
            #![trigger times_out(out.push(block), p)]
            rest.times_free(p) + times_out(out.push(block), p) == holds(l, r - l, p) by {
            law_take_conserves(free, size, p);
            lemma_out_push(out, block, p);
            assert(free.times_free(p) + times_out(out, p) == holds(l, r - l, p));
        }
        assert forall|i: int| 0 <= i < out.len() implies (#[trigger] out[i]).disjoint(block) by {
            if !out[i].disjoint(block) {
                let p = if out[i].start <= page {
                    page
                } else {
                    out[i].start
                };
                lemma_out_counts(out, i, p);
                law_take_conserves(free, size, p);
                assert(free.times_free(p) + times_out(out, p) == holds(l, r - l, p));
            }
        }
        let all = out.push(block);
        assert forall|i: int, j: int| 0 <= i < j < all.len() implies (
        #[trigger] all[i]).disjoint(#[trigger] all[j]) by {
            if j < out.len() {
                assert(out[i].disjoint(out[j]));
            } else {
                assert(out[i].disjoint(block));
            }
        }
        assert forall|i: int| 0 <= i < all.len() implies (#[trigger] all[i]).within(l, r) by {
            if i < out.len() {
                assert(out[i].within(l, r));
            }
        }
    }
}

/// A page that is out can come back, with its own size.
pub proof fn law_give_accounts(free: FreeFrames, out: Seq<Block>, l: int, r: int, i: int)
    requires
        0 <= l <= r <= PPN_LIMIT,
        accounts(free, out, l, r),
        0 <= i < out.len(),
    ensures
        accounts(free.give(out[i].start as u64, out[i].size), out.remove(i), l, r),
        free.give(out[i].start as u64, out[i].size).count() == free.count() + out[i].size.pages(),
{
    let block = out[i];
    let page = block.start as u64;
    let back = free.give(page, block.size);
    let left = out.remove(i);
    assert(block.within(l, r));
    law_give_conserves(free, page, block.size, 0);
    assert forall|p: int|
        #![trigger back.times_free(p)]
        #![trigger times_out(left, p)]
        back.times_free(p) + times_out(left, p) == holds(l, r - l, p) by {
        law_give_conserves(free, page, block.size, p);
        lemma_out_remove(out, i, p);
        assert(free.times_free(p) + times_out(out, p) == holds(l, r - l, p));
    }
    assert forall|a: int| 0 <= a < left.len() implies (#[trigger] left[a]).within(l, r) by {
        assert(out[if a < i {
            a
        } else {
            a + 1
        }].within(l, r));
    }
    assert forall|a: int, b: int| 0 <= a < b < left.len() implies (#[trigger] left[a]).disjoint(
        #[trigger] left[b],
    ) by {
        let x = if a < i {
            a
        } else {
            a + 1
        };
        let y = if b < i {
            b
        } else {
            b + 1
        };
        assert(out[x].disjoint(out[y]));
    }
}

/// What is done with the allocator.
pub enum FrameStep {
    /// A page of a size is asked for.
    Take(PageSize),
    /// The page at a place of the list of those that are out comes back.
    Give(int),
}

/// The allocator and the pages that are out after steps; a page that is not out cannot come
/// back.
pub open spec fn after_steps(l: int, r: int, steps: Seq<FrameStep>) -> Option<
    (FreeFrames, Seq<Block>),
>
    decreases steps.len(),
{
    if steps.len() == 0 {
        Some((all_free(l, r), Seq::empty()))
    } else {
        match after_steps(l, r, steps.drop_last()) {
            None => None,
            Some((free, out)) => match steps.last() {
                FrameStep::Take(size) => match free.take(size) {
                    None => Some((free, out)),
                    Some((page, rest)) => Some((rest, out.push(Block { start: page, size }))),
                },
                FrameStep::Give(i) => if 0 <= i < out.len() {
                    Some((free.give(out[i].start as u64, out[i].size), out.remove(i)))
                } else {
                    None
                },
            },
        }
    }
}

/// Whatever was asked for and came back, every page that is out lies within the memory of
/// the allocator, at a multiple of its size, and no two have a frame in common; every other
/// frame of the memory is free, once.
pub proof fn law_every_history(l: PhysPageNum, r: PhysPageNum, steps: Seq<FrameStep>)
    requires
        l.0 <= r.0 <= PPN_LIMIT,
    ensures
        after_steps(l.0 as int, r.0 as int, steps) matches Some((free, out)) ==> accounts(
            free,
            out,
            l.0 as int,
            r.0 as int,
        ),
    decreases steps.len(),
{
    if steps.len() == 0 {
        law_all_free(l.0 as int, r.0 as int);
    } else {
        law_every_history(l, r, steps.drop_last());
        if let Some((free, out)) = after_steps(l.0 as int, r.0 as int, steps.drop_last()) {
            match steps.last() {
                FrameStep::Take(size) => law_take_accounts(
                    free,
                    out,
                    l.0 as int,
                    r.0 as int,
                    size,
                ),
                FrameStep::Give(i) => if 0 <= i < out.len() {
                    law_give_accounts(free, out, l.0 as int, r.0 as int, i);
                },
            }
        }
    }
}

} // verus!
