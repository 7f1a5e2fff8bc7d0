//! A time-bounded resource-activation scheduler.
//!
//! Given a connected graph of nodes, each with a non-negative activation
//! reward rate, and a fixed time budget, the library computes activation
//! schedules that maximize cumulative reward: an exact memoized planner for a
//! single agent, and a heuristic beam-search scheduler for two cooperating
//! agents. Supporting modules provide the metric closure (all shortest-path
//! distances between reward-bearing nodes and the start node), a cache of
//! cumulative reward rates for every activation state, and a verified parser
//! for the textual graph description.

pub mod graph;
pub mod mask;
pub mod rates;
pub mod paths;
pub mod closure;
pub mod single;
pub mod dual;
pub mod outside;
pub mod parsing;
pub mod ranges;
pub mod grid;
pub mod rope;
pub mod stacks;
pub mod priority;
