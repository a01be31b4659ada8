//! Which processors use which address space.
//!
//! A processor is entered for the address space it switches to before it
//! switches, and taken out of the one it leaves after that. The tables of an
//! address space that is gone are kept until the last processor has left it.

use std::collections::BTreeMap;

use vstd::prelude::*;
use vstd::std_specs::iter::IteratorSpec;

use super::frame_allocator::FrameTracker;

verus! {

broadcast use {vstd::std_specs::btree::group_btree_axioms, vstd::laws_cmp::group_laws_cmp};

/// The most processors.
pub const MAX_HARTS: u64 = 64;

/// The processor is in the set.
pub open spec fn has_hart(harts: u64, hart: u64) -> bool {
    harts & (1u64 << hart) != 0
}

/// The list holds the entries of the map, by key from the lowest up.
pub open spec fn lists(s: Seq<(u64, u64)>, m: Map<u64, u64>) -> bool {
    &&& forall|i: int, j: int| 0 <= i < j < s.len() ==> (#[trigger] s[i]).0 < (#[trigger] s[j]).0
    &&& forall|i: int|
        0 <= i < s.len() ==> m.contains_key((#[trigger] s[i]).0) && m[s[i].0] == s[i].1
    &&& forall|t: u64| #[trigger] m.contains_key(t) ==> s.contains((t, m[t]))
}

/// Where the translations of an address space have to be thrown away.
#[derive(Clone, Copy, Debug, PartialEq, Eq, Structural)]
pub struct FlushPlan {
    /// The number of the address space.
    pub asid: u64,
    /// On this processor.
    pub local: bool,
    /// On these others.
    pub remote: u64,
}

/// What a processor flushes of an address space that `harts` use.
pub open spec fn flush_plan(asid: u64, harts: u64, hart: u64) -> FlushPlan {
    FlushPlan { asid, local: has_hart(harts, hart), remote: harts & !(1u64 << hart) }
}

/// The number of the address space with a token.
pub open spec fn token_asid(token: u64) -> u64 {
    (token / 0x1000_0000_0000) % 0x1_0000
}

/// The processors of each address space in use, by its token.
pub struct SatpActive {
    token_harts: BTreeMap<u64, u64>,
    dying: BTreeMap<u64, Vec<FrameTracker>>,
}

/// How the uses of address spaces are after a processor went to another one.
pub open spec fn switched_to(
    before: &SatpActive,
    after: &SatpActive,
    hart: u64,
    old_token: u64,
    token: u64,
    switch: bool,
) -> bool {
    &&& after.wf()
    &&& switch <==> old_token != token
    &&& after.dying() == before.dying()
    &&& after.harts() == if switch {
        before.harts().insert(token, before.running(token) | (1u64 << hart))
    } else {
        before.harts()
    }
    &&& switch ==> has_hart(after.running(token), hart)
}

/// How the uses of address spaces are after a processor left one, and what is free then.
pub open spec fn switched_from(
    before: &SatpActive,
    after: &SatpActive,
    hart: u64,
    old_token: u64,
    frames: Option<Vec<FrameTracker>>,
) -> bool {
    &&& after.wf()
    &&& {
        let left = before.running(old_token) & !(1u64 << hart);
        if !before.harts().contains_key(old_token) {
            &&& frames is None
            &&& after.harts() == before.harts()
            &&& after.dying() == before.dying()
        } else if left != 0 {
            &&& frames is None
            &&& after.harts() == before.harts().insert(old_token, left)
            &&& after.dying() == before.dying()
        } else {
            &&& after.harts() == before.harts().remove(old_token)
            &&& after.dying() == before.dying().remove(old_token)
            &&& frames is Some <==> before.dying().contains_key(old_token)
            &&& frames matches Some(v) ==> v@ == before.dying()[old_token]
        }
    }
}

/// How the uses of address spaces are after one was given up, and what is free at once.
pub open spec fn retired(
    before: &SatpActive,
    after: &SatpActive,
    token: u64,
    frames: Vec<FrameTracker>,
    free: Option<Vec<FrameTracker>>,
) -> bool {
    &&& after.wf()
    &&& after.harts() == before.harts()
    &&& if before.running(token) != 0 {
        &&& free is None
        &&& after.dying() == before.dying().insert(token, frames@)
    } else {
        &&& free == Some(frames)
        &&& after.dying() == before.dying()
    }
}

impl SatpActive {
    /// The processors of each address space.
    pub closed spec fn harts(&self) -> Map<u64, u64> {
        self.token_harts@
    }

    /// The tables of the address spaces that are gone and still in use.
    pub closed spec fn dying(&self) -> Map<u64, Seq<FrameTracker>> {
        self.dying@.map_values(|v: Vec<FrameTracker>| v@)
    }

    /// An entry has a processor, and tables are only kept where there is an entry.
    pub open spec fn wf(&self) -> bool {
        &&& forall|t: u64| #[trigger] self.harts().contains_key(t) ==> self.harts()[t] != 0
        &&& forall|t: u64| #[trigger] self.dying().contains_key(t) ==> self.harts().contains_key(t)
    }

    /// The processors that use an address space.
    pub open spec fn running(&self, token: u64) -> u64 {
        if self.harts().contains_key(token) {
            self.harts()[token]
        } else {
            0
        }
    }

    /// Starts with no address space in use.
    pub fn new() -> (active: Self)
        ensures
            active.wf(),
            active.harts() == Map::<u64, u64>::empty(),
            active.dying() == Map::<u64, Seq<FrameTracker>>::empty(),
    {
        let active = SatpActive { token_harts: BTreeMap::new(), dying: BTreeMap::new() };
        assert(active.harts() =~= Map::<u64, u64>::empty());
        assert(active.dying() =~= Map::<u64, Seq<FrameTracker>>::empty());
        active
    }

    /// Returns the set of processors that use an address space.
    pub fn running_harts(&self, token: u64) -> (harts: u64)
        ensures
            harts == self.running(token),
    {
        match self.token_harts.get(&token) {
            Some(harts) => *harts,
            None => 0,
        }
    }

    /// Lists the address spaces in use with their processors, by token from the lowest up.
    pub fn active_tokens(&self) -> (tokens: Vec<(u64, u64)>)
        ensures
            lists(tokens@, self.harts()),
    {
        let mut tokens: Vec<(u64, u64)> = Vec::new();
        let iter = self.token_harts.iter();
        let ghost keys = iter.remaining().map_values(|kv: (&u64, &u64)| *kv.0);
        proof {
            vstd::std_specs::btree::axiom_increasing_seq_meaning(keys);
        }
        for entry in entries: iter
            invariant
                tokens@.len() == entries.index(),
                entries.seq() == self.token_harts.iter().remaining(),
                forall|i: int|
                    0 <= i < tokens@.len() ==> #[trigger] tokens@[i] == (
                        *entries.seq()[i].0,
                        *entries.seq()[i].1,
                    ),
        {
            tokens.push((*entry.0, *entry.1));
        }
        proof {
            let pairs = self.token_harts.iter().remaining();
            assert forall|i: int, j: int| 0 <= i < j < tokens@.len() implies (#[trigger] tokens@[i]).0
                < (#[trigger] tokens@[j]).0 by {
                assert(keys[i] == tokens@[i].0);
                assert(vstd::std_specs::cmp::OrdSpec::cmp_spec(&keys[i], &keys[j]) is Less);
                assert(keys[j] == tokens@[j].0);
            }
            assert forall|i: int| 0 <= i < tokens@.len() implies self.harts().contains_key(
                (#[trigger] tokens@[i]).0,
            ) && self.harts()[tokens@[i].0] == tokens@[i].1 by {
                assert(self.token_harts@.contains_key(*pairs[i].0));
            }
            assert forall|t: u64| #[trigger] self.harts().contains_key(t) implies tokens@.contains(
                (t, self.harts()[t]),
            ) by {
                assert(self.token_harts@.contains_key(t));
                assert(pairs.contains((&t, &self.token_harts@[t])));
                let i = choose|i: int|
                    0 <= i < pairs.len() && pairs[i] == (&t, &self.token_harts@[t]);
                assert(tokens@[i] == (t, self.harts()[t]));
            }
        }
        tokens
    }

    /// Tells where the translations of an address space have to be thrown away.
    pub fn flush_tlb_targets(&self, hart: u64, token: u64, asid: u64) -> (plan: FlushPlan)
        requires
            hart < MAX_HARTS,
        ensures
            plan == flush_plan(asid, self.running(token), hart),
    {
        let harts: u64 = self.running_harts(token);
        let bit: u64 = 1u64 << hart;
        FlushPlan { asid, local: harts & bit != 0, remote: harts & !bit }
    }

    /// Tells where the translations of the kernel have to be thrown away, under
    /// the number of every address space in use.
    pub fn flush_kernel_tlb_targets(&self, hart: u64) -> (plans: Vec<FlushPlan>)
        requires
            hart < MAX_HARTS,
        ensures
            exists|tokens: Seq<(u64, u64)>| #[trigger]
                lists(tokens, self.harts()) && plans@.len() == tokens.len() && forall|i: int|
                    0 <= i < plans@.len() ==> #[trigger] plans@[i] == flush_plan(
                        token_asid(tokens[i].0),
                        tokens[i].1,
                        hart,
                    ),
    {
        let tokens = self.active_tokens();
        let mut plans: Vec<FlushPlan> = Vec::new();
        let bit: u64 = 1u64 << hart;
        let mut i: usize = 0;
        while i < tokens.len()
            invariant
                i <= tokens@.len(),
                plans@.len() == i,
                bit == 1u64 << hart,
                forall|k: int|
                    0 <= k < i ==> #[trigger] plans@[k] == flush_plan(
                        token_asid(tokens@[k].0),
                        tokens@[k].1,
                        hart,
                    ),
            decreases tokens@.len() - i,
        {
            let (token, harts) = tokens[i];
            plans.push(
                FlushPlan {
                    asid: (token / 0x1000_0000_0000) % 0x1_0000,
                    local: harts & bit != 0,
                    remote: harts & !bit,
                },
            );
            i = i + 1;
        }
        assert(lists(tokens@, self.harts()));
        plans
    }

    /// Enters a processor for the address space it is about to switch to.
    ///
    /// Tells whether it has to switch: not where it uses that address space already.
    pub fn begin_switch(&mut self, hart: u64, old_token: u64, token: u64) -> (switch: bool)
        requires
            old(self).wf(),
            hart < MAX_HARTS,
        ensures
            switched_to(old(self), final(self), hart, old_token, token, switch),
    {
        if old_token == token {
            return false;
        }
        let harts: u64 = self.running_harts(token);
        let bit: u64 = 1u64 << hart;
        assert(harts | bit != 0 && (harts | bit) & bit != 0) by (bit_vector)
            requires
                bit == 1u64 << hart,
                hart < 64,
        ;
        self.token_harts.insert(token, harts | bit);
        proof {
            assert(self.harts() =~= old(self).harts().insert(token, harts | bit));
            assert forall|t: u64| #[trigger] self.dying().contains_key(t) implies
                self.harts().contains_key(t) by {
                assert(old(self).dying().contains_key(t));
            }
        }
        true
    }

    /// Takes a processor out of the address space that it has left.
    ///
    /// Returns the tables to let go of: those of an address space that is gone
    /// and that this processor was the last to leave.
    pub fn end_switch(&mut self, hart: u64, old_token: u64) -> (frames: Option<Vec<FrameTracker>>)
        requires
            old(self).wf(),
            hart < MAX_HARTS,
        ensures
            switched_from(old(self), final(self), hart, old_token, frames),
    {
        let harts: u64 = match self.token_harts.get(&old_token) {
            None => {
                return None;
            },
            Some(harts) => *harts,
        };
        assert(old(self).harts().contains_key(old_token));
        let left: u64 = harts & !(1u64 << hart);
        if left != 0 {
            self.token_harts.insert(old_token, left);
            proof {
                assert(self.harts() =~= old(self).harts().insert(old_token, left));
                assert forall|t: u64| #[trigger] self.dying().contains_key(t) implies
                    self.harts().contains_key(t) by {
                    assert(old(self).dying().contains_key(t));
                }
            }
            return None;
        }
        self.token_harts.remove(&old_token);
        let frames = self.dying.remove(&old_token);
        proof {
            assert(self.harts() =~= old(self).harts().remove(old_token));
            assert(self.dying() =~= old(self).dying().remove(old_token));
            assert forall|t: u64| #[trigger] self.harts().contains_key(t) implies self.harts()[t]
                != 0 by {
                assert(old(self).harts().contains_key(t));
            }
            assert forall|t: u64| #[trigger] self.dying().contains_key(t) implies
                self.harts().contains_key(t) by {
                assert(old(self).dying().contains_key(t));
            }
        }
        frames
    }

    /// Takes over the tables of an address space that is gone.
    ///
    /// They come back at once where no processor uses them, else they are kept.
    pub fn remove_token(&mut self, token: u64, frames: Vec<FrameTracker>) -> (free: Option<
        Vec<FrameTracker>,
    >)
        requires
            old(self).wf(),
        ensures
            retired(old(self), final(self), token, frames, free),
    {
        let harts: u64 = self.running_harts(token);
        if harts != 0 {
            let ghost kept = frames@;
            self.dying.insert(token, frames);
            proof {
                assert(self.dying() =~= old(self).dying().insert(token, kept));
                assert forall|t: u64| #[trigger] self.dying().contains_key(t) implies
                    self.harts().contains_key(t) by {
                    if t != token {
                        assert(old(self).dying().contains_key(t));
                    }
                }
            }
            None
        } else {
            Some(frames)
        }
    }
}

/// The tables of an address space that is gone are not let go of while a
/// processor uses them: they leave with the last processor.
pub proof fn law_tables_outlive_users(active: &SatpActive, token: u64)
    requires
        active.wf(),
        active.running(token) == 0,
    ensures
        !active.dying().contains_key(token),
{
    if active.dying().contains_key(token) {
        assert(active.harts().contains_key(token));
    }
}

/// A processor that has left an address space is not in its set, and the others stay.
pub proof fn law_left(harts: u64, hart: u64, other: u64)
    requires
        hart < MAX_HARTS,
        other < MAX_HARTS,
        hart != other,
    ensures
        !has_hart(harts & !(1u64 << hart), hart),
        has_hart(harts & !(1u64 << hart), other) == has_hart(harts, other),
{
    assert(harts & !(1u64 << hart) & (1u64 << hart) == 0) by (bit_vector);
    assert((harts & !(1u64 << hart)) & (1u64 << other) == harts & (1u64 << other)) by (bit_vector)
        requires
            hart < 64,
            other < 64,
            hart != other,
    ;
}

/// Every processor that uses an address space throws its translations away, and no other.
pub proof fn law_flush_reaches_users(active: &SatpActive, token: u64, asid: u64, hart: u64, user: u64)
    requires
        hart < MAX_HARTS,
        user < MAX_HARTS,
    ensures
        ({
            let plan = flush_plan(asid, active.running(token), hart);
            has_hart(active.running(token), user) == if user == hart {
                plan.local
            } else {
                has_hart(plan.remote, user)
            }
        }),
{
    if user != hart {
        law_left(active.running(token), hart, user);
    }
}

} // verus!
