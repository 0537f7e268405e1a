//! The agent: what it is asked to do, the role it plays, and the loop that
//! drives a goal to completion.
pub mod goal;
pub mod persona;
pub mod runner;

pub use goal::{Goal, GoalStatus};
pub use persona::{Persona, PersonaProfile};
pub use runner::{AgentRunner, RunOutcome, RunStep, StepKind, StopReason};
