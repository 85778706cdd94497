//! Factor-graph message-passing core of a multi-robot Gaussian belief
//! propagation planner: the iteration schedule, the spacing of planned
//! variables in time, factor kinds, per-variable message inboxes and the
//! topology of one robot's factor graph.

pub mod schedule;
pub mod timesteps;
pub mod formation;
pub mod factor;
pub mod message;
pub mod graph;
