//! A two-species (prey and predator) flocking population on a square
//! domain. The library keeps the discrete engine: the square-cell bucket
//! index of the living agents, the window scans that find each agent's
//! neighbours, the agents' histories and life cycle, the tick protocol and
//! the predation rule. Positions and velocities are an opaque type chosen
//! by the caller, who computes the steering forces and moves.

pub mod settings;
pub mod grid;
pub mod agent;
pub mod model;
