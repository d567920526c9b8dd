use vstd::prelude::*;

verus! {

/// The two species of the population.
#[derive(Debug, Clone, Copy, PartialEq, Eq, Structural)]
pub enum Species {
    Prey,
    Predator,
}

/// Whether an agent still takes part in the simulation. A dead agent
/// records the tick at which it was caught; its last recorded position is
/// where that happened.
#[derive(Debug, Clone, Copy, PartialEq, Eq, Structural)]
pub enum State {
    Alive,
    Dead(usize),
}

/// One individual: its species, its status and its kinematic history, one
/// position and one velocity per tick while alive. The position and
/// velocity type `V` is the caller's; the library only keeps the record.
pub struct Agent<V> {
    pub positions: Vec<V>,
    pub velocities: Vec<V>,
    pub agent_type: Species,
    pub dead: State,
}

impl<V> Agent<V> {
    pub open spec fn alive(&self) -> bool {
        self.dead is Alive
    }

    /// The history is as long as the clock says: one entry per tick up to
    /// `cur` while alive, plus one more once this tick's move is recorded;
    /// a dead agent keeps the history it had when it was caught at tick
    /// `t`, the tick's move included.
    pub open spec fn history_ok(&self, cur: nat, moved: bool) -> bool {
        &&& self.positions@.len() == self.velocities@.len()
        &&& match self.dead {
            State::Alive => self.positions@.len() == cur + 1 + if moved { 1int } else { 0int },
            State::Dead(t) => t <= cur && self.positions@.len() == t + 2,
        }
    }

    /// A live agent with one recorded position and velocity.
    pub fn new(agent_type: Species, position: V, velocity: V) -> (r: Agent<V>)
        ensures
            r.positions@ == seq![position],
            r.velocities@ == seq![velocity],
            r.agent_type == agent_type,
            r.dead == State::Alive,
    {
        let mut positions: Vec<V> = Vec::new();
        positions.push(position);
        let mut velocities: Vec<V> = Vec::new();
        velocities.push(velocity);
        Agent { positions, velocities, agent_type, dead: State::Alive }
    }

    /// Appends one tick's position and velocity.
    pub fn update(&mut self, position: V, velocity: V)
        ensures
            final(self).positions@ == old(self).positions@.push(position),
            final(self).velocities@ == old(self).velocities@.push(velocity),
            final(self).agent_type == old(self).agent_type,
            final(self).dead == old(self).dead,
    {
        self.positions.push(position);
        self.velocities.push(velocity);
    }

    pub fn is_alive(&self) -> (r: bool)
        ensures
            r == self.alive(),
    {
        match self.dead {
            State::Alive => true,
            State::Dead(_) => false,
        }
    }

    /// Marks the agent as caught at tick `tick`.
    pub fn kill(&mut self, tick: usize)
        ensures
            final(self).dead == State::Dead(tick),
            final(self).positions == old(self).positions,
            final(self).velocities == old(self).velocities,
            final(self).agent_type == old(self).agent_type,
    {
        self.dead = State::Dead(tick);
    }

    pub fn is_prey(&self) -> (r: bool)
        ensures
            r == (self.agent_type == Species::Prey),
    {
        match self.agent_type {
            Species::Prey => true,
            Species::Predator => false,
        }
    }

    /// Number of ticks recorded.
    pub fn history_len(&self) -> (r: usize)
        ensures
            r == self.positions@.len(),
    {
        self.positions.len()
    }
}

} // verus!
