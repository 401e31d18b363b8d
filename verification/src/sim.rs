//! The integer side of the growth model that feeds the complex: when a node
//! counts as active, what an edge has queued, and what a step reports. The
//! probabilities of the model, and the graph that carries these weights, stay
//! with the caller.

use vstd::prelude::*;

verus! {

/// What a node carries: the timestep at which it was last active, if ever.
pub struct NodeWeight {
    pub last_active: Option<usize>,
}

impl NodeWeight {
    /// Whether the node was last active at `timestep`.
    pub fn is_active(&self, timestep: usize) -> (active: bool)
        ensures
            active == (self.last_active == Some(timestep)),
    {
        match self.last_active {
            Some(last_active) => last_active == timestep,
            None => false,
        }
    }

    /// Records that the node is active at `timestep`.
    pub fn set_active(&mut self, timestep: usize)
        ensures
            final(self).last_active == Some(timestep),
    {
        self.last_active = Some(timestep);
    }

    /// Whether the node, at `timestep`, is still inside the refractory period
    /// that follows its last activity: fewer than `period` steps have passed.
    pub fn is_refractory(&self, timestep: usize, period: usize) -> (resting: bool)
        requires
            self.last_active matches Some(last) ==> last <= timestep,
        ensures
            resting == (self.last_active matches Some(last) && timestep - last < period),
    {
        match self.last_active {
            Some(last_active) => timestep - last_active < period,
            None => false,
        }
    }
}

/// An activation travelling along an edge: it arrives at timestep `at` and
/// was queued at timestep `queued_at`.
#[derive(Clone, Copy, Debug, PartialEq, Eq, Structural)]
pub struct Activation {
    pub at: usize,
    pub queued_at: usize,
}

impl Activation {
    /// Whether this activation is served before `other`: the one that arrives
    /// earlier goes first.
    pub fn goes_before(&self, other: &Activation) -> (first: bool)
        ensures
            first == (self.at < other.at),
    {
        self.at < other.at
    }
}

/// The activations of `queue` that arrive after `time`, in their order.
pub open spec fn pending_after(queue: Seq<Activation>, time: usize) -> Seq<Activation>
    decreases queue.len(),
{
    if queue.len() == 0 {
        queue
    } else if queue.last().at > time {
        pending_after(queue.drop_last(), time).push(queue.last())
    } else {
        pending_after(queue.drop_last(), time)
    }
}

/// Some activation of `queue` arrives at `time` or before.
pub open spec fn has_due(queue: Seq<Activation>, time: usize) -> bool {
    exists|i: int| 0 <= i < queue.len() && (#[trigger] queue[i]).at <= time
}

/// What an edge carries: how far it is myelinated, and the activations that
/// travel along it.
pub struct EdgeWeight {
    pub myelination: usize,
    pub activation_queue: Vec<Activation>,
}

impl Default for EdgeWeight {
    fn default() -> (edge: EdgeWeight)
        ensures
            edge.myelination == 0,
            edge.activation_queue@.len() == 0,
    {
        EdgeWeight { myelination: 0, activation_queue: Vec::new() }
    }
}

impl EdgeWeight {
    /// The activation that is served next: one that arrives earliest, or
    /// `None` where nothing is queued.
    pub fn next_activation(&self) -> (next: Option<Activation>)
        ensures
            match next {
                Some(a) => self.activation_queue@.contains(a) && forall|i: int|
                    0 <= i < self.activation_queue@.len() ==> a.at <= (#[trigger] self.activation_queue@[i]).at,
                None => self.activation_queue@.len() == 0,
            },
    {
        if self.activation_queue.len() == 0 {
            return None;
        }
        let mut best = self.activation_queue[0];
        let mut i: usize = 1;
        while i < self.activation_queue.len()
            invariant
                1 <= i <= self.activation_queue@.len(),
                self.activation_queue@.contains(best),
                forall|j: int| 0 <= j < i ==> best.at <= (#[trigger] self.activation_queue@[j]).at,
            decreases self.activation_queue@.len() - i,
        {
            if self.activation_queue[i].goes_before(&best) {
                best = self.activation_queue[i];
            }
            i += 1;
        }
        Some(best)
    }

    /// Serves every activation that arrives at `time` or before, and says
    /// whether there was one. The others stay queued, in their order.
    pub fn take_due(&mut self, time: usize) -> (fired: bool)
        ensures
            fired == has_due(old(self).activation_queue@, time),
            final(self).activation_queue@ == pending_after(old(self).activation_queue@, time),
            final(self).myelination == old(self).myelination,
    {
        let mut kept: Vec<Activation> = Vec::new();
        let mut fired = false;
        let ghost queue = self.activation_queue@;
        let mut i: usize = 0;
        while i < self.activation_queue.len()
            invariant
                i <= queue.len(),
                queue == self.activation_queue@,
                kept@ == pending_after(queue.subrange(0, i as int), time),
                fired == has_due(queue.subrange(0, i as int), time),
            decreases queue.len() - i,
        {
            let a = self.activation_queue[i];
            let ghost seen = queue.subrange(0, i as int);
            let ghost seen_next = queue.subrange(0, i + 1);
            proof {
                assert(seen_next.drop_last() == seen);
                assert(seen_next.last() == a);
                if has_due(seen, time) {
                    let j = choose|j: int| 0 <= j < seen.len() && (#[trigger] seen[j]).at <= time;
                    assert(seen_next[j].at <= time);
                }
                if a.at <= time {
                    assert(seen_next[i as int].at <= time);
                }
                if has_due(seen_next, time) {
                    let j = choose|j: int| 0 <= j < seen_next.len() && (#[trigger] seen_next[j]).at <= time;
                    if j < i {
                        assert(seen[j].at <= time);
                    }
                }
            }
            if a.at > time {
                kept.push(a);
            } else {
                fired = true;
            }
            i += 1;
        }
        proof {
            assert(queue.subrange(0, i as int) == queue);
        }
        self.activation_queue = kept;
        fired
    }

    /// Queues the activation that a node sends along this edge when it fires
    /// at `timestep`: it arrives one step later, and one more step later for
    /// each level of myelination that the edge lacks.
    pub fn schedule(&mut self, timestep: usize, max_myelination: usize)
        requires
            old(self).myelination <= max_myelination,
            timestep + 1 + (max_myelination - old(self).myelination) <= usize::MAX,
        ensures
            final(self).myelination == old(self).myelination,
            final(self).activation_queue@ == old(self).activation_queue@.push(
                (Activation {
                    at: (timestep + 1 + (max_myelination - old(self).myelination)) as usize,
                    queued_at: timestep,
                }),
            ),
    {
        let at = timestep + 1 + (max_myelination - self.myelination);
        self.activation_queue.push(Activation { at, queued_at: timestep });
    }

    /// One step of decay. An edge without myelination is lost: the answer is
    /// `true` and the edge is left as it is, for the caller to remove. Any
    /// other edge loses one level of myelination.
    pub fn decay(&mut self) -> (lost: bool)
        ensures
            lost == (old(self).myelination == 0),
            final(self).myelination == (if lost {
                0
            } else {
                old(self).myelination - 1
            }),
            final(self).activation_queue@ == old(self).activation_queue@,
    {
        if self.myelination == 0 {
            true
        } else {
            self.myelination -= 1;
            false
        }
    }

    /// One step of myelination: the edge gains a level unless it is at
    /// `max_myelination` or beyond. The answer says whether it did.
    pub fn myelinate(&mut self, max_myelination: usize) -> (gained: bool)
        ensures
            gained == (old(self).myelination < max_myelination),
            final(self).myelination == (if gained {
                old(self).myelination + 1
            } else {
                old(self).myelination as int
            }),
            final(self).activation_queue@ == old(self).activation_queue@,
    {
        if self.myelination < max_myelination {
            self.myelination += 1;
            true
        } else {
            false
        }
    }
}

/// What one step of the model did to the graph: the edges, as pairs of node
/// numbers, that it removed and that it added.
pub struct StepResult {
    pub removed_edges: Vec<(usize, usize)>,
    pub added_edges: Vec<(usize, usize)>,
}

} // verus!
