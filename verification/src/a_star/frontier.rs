use vstd::prelude::*;
use crate::a_star::grid::Pos;

verus! {

/// A place waiting to be looked at, with the priority it waits at.
#[derive(Debug, Clone, Copy, PartialEq, Eq)]
pub struct PriorityState {
    pub cost: usize,
    pub pos: Pos,
}

/// Whether place `a` comes behind place `b`: further down, or in the same
/// row and further right.
pub open spec fn pos_after(a: Pos, b: Pos) -> bool {
    a.0 > b.0 || (a.0 == b.0 && a.1 > b.1)
}

impl PriorityState {
    /// Whether `self` is to be looked at before `other`: it has the lower
    /// cost, or the same cost and the place that comes behind.
    pub open spec fn outranks(self, other: PriorityState) -> bool {
        self.cost < other.cost || (self.cost == other.cost && pos_after(self.pos, other.pos))
    }

    /// Whether `self` is to be looked at before `other`.
    pub fn beats(&self, other: &PriorityState) -> (b: bool)
        ensures
            b == self.outranks(*other),
    {
        if self.cost != other.cost {
            self.cost < other.cost
        } else if self.pos.0 != other.pos.0 {
            self.pos.0 > other.pos.0
        } else {
            self.pos.1 > other.pos.1
        }
    }
}

/// The places waiting to be looked at. The one that outranks the others
/// leaves first.
pub struct Frontier {
    waiting: Vec<PriorityState>,
}

impl View for Frontier {
    type V = Seq<PriorityState>;

    /// The states that wait, in no order that matters.
    closed spec fn view(&self) -> Seq<PriorityState> {
        self.waiting@
    }
}

impl Frontier {
    pub fn new() -> (frontier: Self)
        ensures
            frontier@ == Seq::<PriorityState>::empty(),
    {
        Frontier { waiting: Vec::new() }
    }

    pub fn is_empty(&self) -> (b: bool)
        ensures
            b == (self@.len() == 0),
    {
        self.waiting.len() == 0
    }

    pub fn len(&self) -> (len: usize)
        ensures
            len == self@.len(),
    {
        self.waiting.len()
    }

    pub fn push(&mut self, state: PriorityState)
        ensures
            final(self)@ == old(self)@.push(state),
    {
        self.waiting.push(state);
    }

    /// Takes out the state that no other outranks, if any state waits.
    pub fn pop(&mut self) -> (top: Option<PriorityState>)
        ensures
            old(self)@.len() == 0 ==> top.is_none() && final(self)@ == old(self)@,
            old(self)@.len() > 0 ==> top.is_some() && exists|i: int|
                0 <= i < old(self)@.len() && top == Some(#[trigger] old(self)@[i]) && final(self)@
                    == old(self)@.remove(i),
            top matches Some(first) ==> forall|j: int|
                0 <= j < old(self)@.len() ==> !(#[trigger] old(self)@[j]).outranks(first),
    {
        if self.waiting.len() == 0 {
            return None;
        }
        let mut best: usize = 0;
        let mut j: usize = 1;
        while j < self.waiting.len()
            invariant
                self.waiting@ == old(self).waiting@,
                1 <= j <= self.waiting@.len(),
                best < j,
                forall|k: int| 0 <= k < j ==> !(#[trigger] self.waiting@[k]).outranks(self.waiting@[best as int]),
            decreases self.waiting@.len() - j,
        {
            if self.waiting[j].beats(&self.waiting[best]) {
                best = j;
            }
            j += 1;
        }
        let first = self.waiting.remove(best);
        assert(first == old(self)@[best as int]);
        Some(first)
    }
}

} // verus!
