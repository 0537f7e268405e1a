//! Building blocks of an autonomous agent: goals, personas, metacognition,
//! long-term memory, tools and their rules, each with a machine-checked
//! contract.
pub mod agent;
pub mod ambient;
pub mod api;
pub mod channels;
pub mod config;
pub mod fixed;
pub mod json;
pub mod memory;
pub mod metacognition;
pub mod order;
pub mod strmap;
pub mod text;
pub mod tools;
pub mod window;
pub mod words;
