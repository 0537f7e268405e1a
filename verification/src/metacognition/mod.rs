//! Self-monitoring of a running agent, in four layers:
//!
//! 1. [`SelfBelief`] and [`MetaController`]: what the agent believes of its
//!    own competence, and the choice of the next step by expected free
//!    energy.
//! 2. [`CoTMonitor`]: a watch on the quality of reasoning and on repeated
//!    tool calls.
//! 3. [`SelfModelStore`]: what the agent has learnt of itself.
//! 4. [`SchemaReviser`]: new dimensions and propositions out of failures
//!    that resemble each other.
//!
//! [`MetacognitionEngine`] ties them together.
pub mod cot_monitor;
pub mod engine;
pub mod meta_controller;
pub mod schema_reviser;
pub mod self_belief;
pub mod self_model_memory_adapter;
pub mod self_model_store;
pub mod self_proposition;

pub use cot_monitor::{CoTConfig, CoTMonitor};
pub use engine::{EngineConfig, MetacognitionEngine, MetacognitionEvent};
pub use meta_controller::{
    IterationObservation, MetaAction, MetaConfig, MetaController, MetaDecision, StopReason,
};
pub use schema_reviser::{
    FailureEvent, ProposalKind, ReviserConfig, SchemaProposal, SchemaReviser,
};
pub use self_belief::{BetaParam, SelfBelief};
pub use self_model_memory_adapter::{DEFAULT_BANK_ID as SELF_MODEL_BANK, SELFPROP_TAG};
pub use self_model_store::SelfModelStore;
pub use self_proposition::{make_proposition_id, SelfProposition};
