//! Histories: the navigation back/forward stacks, and the bounded undo
//! log of executed operations (first-in evicted, last-in undone).

use vstd::prelude::*;

verus! {

use std::collections::VecDeque;
use crate::pathname::FsPath;
use crate::fs_ops::{Op, op_paths_ok};

/// Back and forward stacks of visited directories.
pub struct NavHistory {
    back: Vec<FsPath>,
    forward: Vec<FsPath>,
}

impl NavHistory {
    /// The stack of places to go back to, oldest first.
    pub closed spec fn back_view(self) -> Seq<Seq<Seq<char>>> {
        self.back@.map_values(|p: FsPath| p@)
    }

    /// The stack of places to go forward to, oldest first.
    pub closed spec fn forward_view(self) -> Seq<Seq<Seq<char>>> {
        self.forward@.map_values(|p: FsPath| p@)
    }

    /// Visiting a new place records the current one and clears the
    /// forward stack.
    pub fn push(&mut self, cur: FsPath)
        ensures
            final(self).back_view() == old(self).back_view().push(cur@),
            final(self).forward_view() == Seq::<Seq<Seq<char>>>::empty(),
    {
        let ghost c = cur@;
        self.back.push(cur);
        self.forward.clear();
        proof {
            assert(self.back_view() =~= old(self).back_view().push(c));
            assert(self.forward_view() =~= Seq::<Seq<Seq<char>>>::empty());
        }
    }

    /// Steps back: the current place moves to the forward stack and the
    /// most recent back entry becomes current. Does nothing on an empty
    /// stack.
    pub fn back(&mut self, cur: &mut FsPath) -> (r: bool)
        ensures
            r == (old(self).back_view().len() > 0),
            !r ==> final(self).back_view() == old(self).back_view() && final(self).forward_view() == old(self).forward_view() && final(cur)@ == old(cur)@,
            r ==> final(self).back_view() == old(self).back_view().drop_last() && final(self).forward_view() == old(self).forward_view().push(old(cur)@) && final(cur)@ == old(self).back_view().last(),
    {
        match self.back.pop() {
            Some(prev) => {
                self.forward.push(cur.clone());
                *cur = prev;
                proof {
                    assert(self.back_view() =~= old(self).back_view().drop_last());
                    assert(self.forward_view() =~= old(self).forward_view().push(old(cur)@));
                }
                true
            },
            None => {
                proof {
                    assert(self.back_view() =~= old(self).back_view());
                }
                false
            },
        }
    }

    /// Steps forward again after a `back`.
    pub fn forward(&mut self, cur: &mut FsPath) -> (r: bool)
        ensures
            r == (old(self).forward_view().len() > 0),
            !r ==> final(self).back_view() == old(self).back_view() && final(self).forward_view() == old(self).forward_view() && final(cur)@ == old(cur)@,
            r ==> final(self).forward_view() == old(self).forward_view().drop_last() && final(self).back_view() == old(self).back_view().push(old(cur)@) && final(cur)@ == old(self).forward_view().last(),
    {
        match self.forward.pop() {
            Some(next) => {
                self.back.push(cur.clone());
                *cur = next;
                proof {
                    assert(self.forward_view() =~= old(self).forward_view().drop_last());
                    assert(self.back_view() =~= old(self).back_view().push(old(cur)@));
                }
                true
            },
            None => {
                proof {
                    assert(self.forward_view() =~= old(self).forward_view());
                }
                false
            },
        }
    }

    /// Whether a step back is possible.
    pub fn can_back(&self) -> (r: bool)
        ensures
            r == (self.back_view().len() > 0),
    {
        self.back.len() > 0
    }

    /// Whether a step forward is possible.
    pub fn can_forward(&self) -> (r: bool)
        ensures
            r == (self.forward_view().len() > 0),
    {
        self.forward.len() > 0
    }
}

impl Default for NavHistory {
    fn default() -> (r: Self)
        ensures
            r.back_view() == Seq::<Seq<Seq<char>>>::empty(),
            r.forward_view() == Seq::<Seq<Seq<char>>>::empty(),
    {
        let r = NavHistory { back: Vec::new(), forward: Vec::new() };
        proof {
            assert(r.back_view() =~= Seq::<Seq<Seq<char>>>::empty());
            assert(r.forward_view() =~= Seq::<Seq<Seq<char>>>::empty());
        }
        r
    }
}

/// The bounded log of executed operations: pushed in execution order,
/// evicted oldest-first once the capacity is reached, undone
/// newest-first. Its length never exceeds the configured capacity.
pub struct OpsHistory {
    undo: VecDeque<Op>,
    capacity: usize,
}

impl View for OpsHistory {
    type V = Seq<Op>;

    closed spec fn view(&self) -> Seq<Op> {
        self.undo@
    }
}

impl OpsHistory {
    /// The configured capacity.
    pub closed spec fn cap(self) -> nat {
        self.capacity as nat
    }

    /// The log never exceeds its capacity.
    pub open spec fn wf(self) -> bool {
        self@.len() <= self.cap()
    }

    /// Every held record carries usable (non-root) paths.
    pub open spec fn records_ok(self) -> bool {
        forall|i: int| 0 <= i < self@.len() ==> op_paths_ok(#[trigger] self@[i])
    }

    /// An empty log with the given capacity.
    pub fn new(cap: usize) -> (h: OpsHistory)
        requires
            cap >= 1,
        ensures
            h@ == Seq::<Op>::empty(),
            h.cap() == cap,
            h.wf(),
            h.records_ok(),
    {
        OpsHistory { undo: VecDeque::new(), capacity: cap }
    }

    /// Records an executed operation; at capacity, the oldest record is
    /// evicted first.
    pub fn push(&mut self, op: Op)
        requires
            old(self).wf(),
            old(self).cap() >= 1,
        ensures
            final(self).wf(),
            final(self).cap() == old(self).cap(),
            old(self).records_ok() && op_paths_ok(op) ==> final(self).records_ok(),
            old(self)@.len() < old(self).cap() ==> final(self)@ == old(self)@.push(op),
            old(self)@.len() == old(self).cap() ==> final(self)@ == old(self)@.drop_first().push(
                op,
            ),
    {
        if self.undo.len() == self.capacity {
            let _evicted = self.undo.pop_front();
            proof {
                assert(self.undo@ =~= old(self)@.drop_first());
            }
        }
        self.undo.push_back(op);
    }

    /// Hands out the most recent record, removing it: undo is one-shot.
    pub fn pop_undo(&mut self) -> (r: Option<Op>)
        ensures
            final(self).cap() == old(self).cap(),
            old(self).records_ok() ==> final(self).records_ok(),
            old(self).records_ok() && old(self)@.len() > 0 ==> op_paths_ok(old(self)@.last()),
            old(self)@.len() == 0 ==> r is None && final(self)@ == old(self)@,
            old(self)@.len() > 0 ==> (r matches Some(op) && op == old(self)@.last() && final(self)@ == old(self)@.drop_last()),
    {
        let r = self.undo.pop_back();
        proof {
            if old(self)@.len() > 0 {
                assert(self.undo@ =~= old(self)@.drop_last());
            }
        }
        r
    }
}

} // verus!
