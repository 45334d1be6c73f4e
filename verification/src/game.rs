//! The players of the game under one roof: what an agent is, the agent that
//! moves at random and the agent that searches.

pub use crate::search::{
    from_clock, Agent, AgentError, ConfigError, MinMaxAgent, RandomMover, Step,
};
pub use crate::table::TranspositionTable;
