use vstd::prelude::*;

use crate::rule::State;

verus! {

/// Where the engine stood at one point of its search: the counts, the read
/// cursor and the top-level nodes, so that a failed branch can be undone.
#[derive(Clone)]
pub struct Cache {
    pub counts: Vec<usize>,
    pub cur_pos: usize,
    pub states: Vec<State>,
}

impl Cache {
    pub fn new(counts: Vec<usize>, cur_pos: usize, states: Vec<State>) -> (r: Self)
        ensures
            r.counts == counts,
            r.cur_pos == cur_pos,
            r.states == states,
    {
        Cache { counts, cur_pos, states }
    }

    /// Hands back what was kept.
    pub fn extract(self) -> (r: (Vec<usize>, usize, Vec<State>))
        ensures
            r.0 == self.counts,
            r.1 == self.cur_pos,
            r.2 == self.states,
    {
        (self.counts, self.cur_pos, self.states)
    }
}

} // verus!
