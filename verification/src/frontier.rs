//! The frontier of the search: the states that wait to be expanded, each
//! with the priority it was given.

use vstd::prelude::*;
use crate::model::PuzzleView;
use crate::puzzle::Puzzle;

verus! {

/// A state that waits in the frontier.
struct Entry {
    priority: u64,
    state: Puzzle,
}

/// The states that wait to be expanded. `pop` hands out one of highest
/// priority.
pub struct Frontier {
    entries: Vec<Entry>,
}

impl View for Frontier {
    type V = Seq<(u64, PuzzleView)>;

    closed spec fn view(&self) -> Seq<(u64, PuzzleView)> {
        Seq::new(self.entries@.len(), |i: int| (self.entries@[i].priority, self.entries@[i].state@))
    }
}

/// Entry `i` is the one that is taken out next: none has a higher
/// priority, and every entry before it has a lower one.
pub open spec fn is_next(entries: Seq<(u64, PuzzleView)>, i: int) -> bool {
    &&& 0 <= i < entries.len()
    &&& forall|j: int| 0 <= j < entries.len() ==> (#[trigger] entries[j]).0 <= entries[i].0
    &&& forall|j: int| 0 <= j < i ==> (#[trigger] entries[j]).0 < entries[i].0
}

/// The index of the entry that is taken out next.
pub open spec fn next_index(entries: Seq<(u64, PuzzleView)>) -> int {
    choose|i: int| is_next(entries, i)
}

/// Only one entry is the one that is taken out next.
pub proof fn lemma_next_is_unique(entries: Seq<(u64, PuzzleView)>, i: int)
    requires
        is_next(entries, i),
    ensures
        next_index(entries) == i,
        is_next(entries, next_index(entries)),
{
    let j = next_index(entries);
    if j < i {
        assert(entries[j].0 < entries[i].0);
        assert(entries[i].0 <= entries[j].0);
    } else if i < j {
        assert(entries[i].0 < entries[j].0);
        assert(entries[j].0 <= entries[i].0);
    }
}

impl Frontier {
    /// An empty frontier.
    pub fn new() -> (res: Frontier)
        ensures
            res@ == Seq::<(u64, PuzzleView)>::empty(),
    {
        let res = Frontier { entries: Vec::new() };
        assert(res@ =~= Seq::<(u64, PuzzleView)>::empty());
        res
    }

    /// The states wait in a vector, so their number fits a `usize`.
    pub proof fn lemma_len_fits(&self)
        ensures
            self@.len() <= usize::MAX,
    {
        assert(self.entries.len() == self.entries@.len());
    }

    /// The number of waiting states.
    pub fn len(&self) -> (res: usize)
        ensures
            res == self@.len(),
    {
        self.entries.len()
    }

    /// Whether no state waits.
    pub fn is_empty(&self) -> (res: bool)
        ensures
            res == (self@.len() == 0),
    {
        self.entries.len() == 0
    }

    /// Adds `state` with the given priority.
    pub fn push(&mut self, state: Puzzle, priority: u64)
        ensures
            final(self)@ == old(self)@.push((priority, state@)),
    {
        self.entries.push(Entry { priority, state });
        assert(self@ =~= old(self)@.push((priority, state@)));
    }

    /// Takes out a state of highest priority, the one that was added first
    /// among those; `None` when no state waits.
    pub fn pop(&mut self) -> (res: Option<Puzzle>)
        ensures
            old(self)@.len() == 0 ==> res is None && final(self)@ == old(self)@,
            old(self)@.len() > 0 ==> {
                &&& res is Some
                &&& is_next(old(self)@, next_index(old(self)@))
                &&& res->0@ == old(self)@[next_index(old(self)@)].1
                &&& final(self)@ == old(self)@.remove(next_index(old(self)@))
            },
    {
        if self.entries.len() == 0 {
            return None;
        }
        let mut best: usize = 0;
        let mut i: usize = 1;
        while i < self.entries.len()
            invariant
                1 <= i <= self.entries.len(),
                best < i,
                forall|j: int| 0 <= j < i ==> self.entries@[j].priority <= self.entries@[best as int].priority,
                forall|j: int| 0 <= j < best ==> self.entries@[j].priority < self.entries@[best as int].priority,
            decreases self.entries.len() - i,
        {
            if self.entries[i].priority > self.entries[best].priority {
                best = i;
            }
            i += 1;
        }
        proof {
            lemma_next_is_unique(self@, best as int);
        }
        let entry = self.entries.remove(best);
        assert(self@ =~= old(self)@.remove(best as int));
        assert(entry.state@ == old(self)@[best as int].1);
        Some(entry.state)
    }
}

} // verus!
