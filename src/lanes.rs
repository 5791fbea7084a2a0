//! The lane-group counter of the data-parallel kernel.
//!
//! A lane group processes a fixed number of pixels in lockstep. Each step the
//! caller advances every lane's orbit unconditionally, keeps the new iterate
//! only on the lanes of `active_mask` (a predicated select, so a lane that has
//! escaped keeps its last value), and reports per lane whether the kept value
//! lies outside the escape radius. The mask is monotonic: a lane leaves it once
//! and never returns. Each lane therefore evolves exactly as a scalar
//! `EscapeCounter` fed the same flags, with no branch that differs per lane.
use vstd::prelude::*;
use crate::escape::{bounded_steps, counter_step, counting, STEP_LIMIT};

verus! {

/// Every lane of a group moves as a scalar counter offered its own flag.
pub open spec fn group_step(lanes: Seq<Seq<bool>>, escaped: Seq<bool>) -> Seq<Seq<bool>> {
    Seq::new(lanes.len(), |j: int| counter_step(lanes[j], escaped[j]))
}

/// Per-lane escape state of one group of pixels.
pub struct LaneGroup {
    unfinished: Vec<bool>,
    iters: Vec<u8>,
    steps: u8,
    seen: Ghost<Seq<Seq<bool>>>,
}

impl View for LaneGroup {
    type V = Seq<Seq<bool>>;

    /// For each lane, the flags its counter has consumed.
    closed spec fn view(&self) -> Seq<Seq<bool>> {
        self.seen@
    }
}

impl LaneGroup {
    /// The mask, the counts and the shared step number agree with the flags consumed.
    pub closed spec fn wf(&self) -> bool {
        &&& self.seen@.len() > 0
        &&& self.unfinished@.len() == self.seen@.len()
        &&& self.iters@.len() == self.seen@.len()
        &&& self.steps <= STEP_LIMIT
        &&& forall|j: int|
            0 <= j < self.seen@.len() ==> {
                &&& self.iters@[j] == bounded_steps(#[trigger] self.seen@[j])
                &&& self.unfinished@[j] == (bounded_steps(self.seen@[j]) == self.seen@[j].len())
                &&& self.seen@[j].len() <= self.steps
                &&& self.unfinished@[j] ==> self.seen@[j].len() == self.steps
            }
    }

    /// A group of `lanes` lanes, none of which has consumed a flag.
    pub fn new(lanes: usize) -> (r: LaneGroup)
        requires
            lanes > 0,
        ensures
            r.wf(),
            r@.len() == lanes,
            forall|j: int| 0 <= j < lanes ==> #[trigger] r@[j] == Seq::<bool>::empty(),
    {
        let mut unfinished: Vec<bool> = Vec::with_capacity(lanes);
        let mut iters: Vec<u8> = Vec::with_capacity(lanes);
        while unfinished.len() < lanes
            invariant
                unfinished@.len() == iters@.len(),
                unfinished@.len() <= lanes,
                forall|j: int| 0 <= j < unfinished@.len() ==> unfinished@[j] && iters@[j] == 0u8,
            decreases lanes - unfinished@.len(),
        {
            unfinished.push(true);
            iters.push(0u8);
        }
        let ghost seen = Seq::new(lanes as nat, |j: int| Seq::<bool>::empty());
        LaneGroup { unfinished, iters, steps: 0, seen: Ghost(seen) }
    }

    /// Number of lanes.
    pub fn lanes(&self) -> (r: usize)
        requires
            self.wf(),
        ensures
            r == self@.len(),
    {
        self.unfinished.len()
    }

    /// For each lane, whether it still iterates and so takes the next iterate.
    pub fn active_mask(&self) -> (r: Vec<bool>)
        requires
            self.wf(),
        ensures
            r@.len() == self@.len(),
            forall|j: int| 0 <= j < r@.len() ==> r@[j] == counting(#[trigger] self@[j]),
    {
        let n = self.unfinished.len();
        let mut r: Vec<bool> = Vec::with_capacity(n);
        while r.len() < n
            invariant
                self.wf(),
                n == self@.len(),
                r@.len() <= n,
                forall|j: int| 0 <= j < r@.len() ==> r@[j] == counting(#[trigger] self@[j]),
            decreases n - r@.len(),
        {
            let j = r.len();
            r.push(self.steps < 255 && self.unfinished[j]);
        }
        r
    }

    /// Whether some lane still iterates. Once none does, further steps change
    /// nothing, so the caller may stop early.
    pub fn is_running(&self) -> (r: bool)
        requires
            self.wf(),
        ensures
            r == exists|j: int| 0 <= j < self@.len() && counting(#[trigger] self@[j]),
    {
        if self.steps >= 255 {
            return false;
        }
        let n = self.unfinished.len();
        let mut j: usize = 0;
        while j < n
            invariant
                self.wf(),
                self.steps < STEP_LIMIT,
                n == self@.len(),
                j <= n,
                forall|k: int| 0 <= k < j ==> !counting(#[trigger] self@[k]),
            decreases n - j,
        {
            if self.unfinished[j] {
                assert(counting(self@[j as int]));
                return true;
            }
            j = j + 1;
        }
        false
    }

    /// Takes the outcome of the next step for every lane: `escaped[j]` tells
    /// whether lane `j`'s kept iterate lies outside the escape radius. Each
    /// lane's counter moves exactly as a scalar counter offered the same flag.
    pub fn observe(&mut self, escaped: &Vec<bool>)
        requires
            old(self).wf(),
            escaped@.len() == old(self)@.len(),
        ensures
            final(self).wf(),
            final(self)@ == group_step(old(self)@, escaped@),
    {
        if self.steps >= 255 {
            assert forall|j: int| 0 <= j < self@.len() implies #[trigger] self@[j] == counter_step(
                self@[j],
                escaped@[j],
            ) by {
                assert(!counting(self@[j]));
            }
            assert(self@ =~= group_step(self@, escaped@));
            return;
        }
        let ghost before = self.seen@;
        let n = self.unfinished.len();
        let mut j: usize = 0;
        while j < n
            invariant
                n == before.len(),
                self.seen@.len() == n,
                self.unfinished@.len() == n,
                self.iters@.len() == n,
                escaped@.len() == n,
                self.steps < STEP_LIMIT,
                j <= n,
                forall|k: int|
                    0 <= k < n ==> {
                        &&& self.iters@[k] == bounded_steps(#[trigger] self.seen@[k])
                        &&& self.unfinished@[k] == (bounded_steps(self.seen@[k])
                            == self.seen@[k].len())
                    },
                forall|k: int|
                    0 <= k < j ==> {
                        &&& #[trigger] self.seen@[k] == counter_step(before[k], escaped@[k])
                        &&& self.seen@[k].len() <= self.steps + 1
                        &&& self.unfinished@[k] ==> self.seen@[k].len() == self.steps + 1
                    },
                forall|k: int|
                    j <= k < n ==> {
                        &&& self.seen@[k] == #[trigger] before[k]
                        &&& before[k].len() <= self.steps
                        &&& self.unfinished@[k] ==> before[k].len() == self.steps
                    },
            decreases n - j,
        {
            if self.unfinished[j] {
                let ghost lane = self.seen@[j as int];
                assert(lane == before[j as int] && lane.len() == self.steps);
                proof {
                    crate::escape::lemma_bounded_steps_push(lane, escaped@[j as int]);
                }
                if escaped[j] {
                    self.unfinished.set(j, false);
                } else {
                    let c = self.iters[j];
                    self.iters.set(j, c + 1);
                }
                self.seen = Ghost(self.seen@.update(j as int, lane.push(escaped@[j as int])));
            }
            j = j + 1;
        }
        self.steps = self.steps + 1;
        assert(self@ =~= group_step(before, escaped@));
    }

    /// For each lane, the steps counted so far; once the group has stopped,
    /// the lane's pixel value.
    pub fn counts(&self) -> (r: &Vec<u8>)
        requires
            self.wf(),
        ensures
            r@.len() == self@.len(),
            forall|j: int| 0 <= j < r@.len() ==> r@[j] == bounded_steps(#[trigger] self@[j]),
    {
        &self.iters
    }
}

} // verus!
