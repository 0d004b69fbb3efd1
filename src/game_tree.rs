use vstd::prelude::*;

verus! {

/// A reward that a trajectory may record: a loss, a draw or a win.
pub open spec fn is_reward(r: i8) -> bool {
    -1 <= r <= 1
}

/// The record of one self-play game: the positions seen, as state vectors,
/// and the reward recorded with each.
pub struct GameTree {
    pub positions: Vec<Vec<i8>>,
    pub rewards: Vec<i8>,
}

impl GameTree {
    /// One reward per position, each a loss, a draw or a win.
    pub open spec fn wf(&self) -> bool {
        &&& self.positions.len() == self.rewards.len()
        &&& forall|i: int| 0 <= i < self.rewards.len() ==> is_reward(#[trigger] self.rewards[i])
    }

    pub open spec fn positions_view(&self) -> Seq<Seq<i8>> {
        self.positions@.map_values(|p: Vec<i8>| p@)
    }

    pub fn new(positions: Vec<Vec<i8>>, rewards: Vec<i8>) -> (r: GameTree)
        ensures
            r.positions@ == positions@,
            r.rewards@ == rewards@,
    {
        GameTree { positions, rewards }
    }

    /// Appends a position; its reward follows with `add_reward`.
    pub fn add_position(&mut self, new_position: Vec<i8>)
        ensures
            final(self).positions@ == old(self).positions@.push(new_position),
            final(self).rewards@ == old(self).rewards@,
    {
        self.positions.push(new_position);
    }

    /// Appends the reward of the position added last.
    pub fn add_reward(&mut self, new_reward: i8)
        ensures
            final(self).positions@ == old(self).positions@,
            final(self).rewards@ == old(self).rewards@.push(new_reward),
    {
        self.rewards.push(new_reward);
    }

    pub fn get_rewards(&self) -> (r: Vec<i8>)
        ensures
            r@ == self.rewards@,
    {
        self.rewards.clone()
    }

    pub fn get_positions(&self) -> (r: Vec<Vec<i8>>)
        ensures
            r@.map_values(|p: Vec<i8>| p@) == self.positions_view(),
    {
        let mut r: Vec<Vec<i8>> = Vec::new();
        let mut i: usize = 0;
        while i < self.positions.len()
            invariant
                i <= self.positions.len(),
                r.len() == i,
                forall|k: int| 0 <= k < i ==> (#[trigger] r[k])@ == self.positions[k]@,
            decreases self.positions.len() - i,
        {
            let p = self.positions[i].clone();
            r.push(p);
            i = i + 1;
        }
        assert(r@.map_values(|p: Vec<i8>| p@) =~= self.positions_view());
        r
    }
}

} // verus!
