//! Tools and their rules: what each asks of its input, what it decides, and
//! how it words its answer.
pub mod bundle;
pub mod channel;
pub mod computer;
pub mod file_memory;
pub mod glob_tool;
pub mod http_fetch;
pub mod registry;
pub mod skill_md_tool;
pub mod sub_agent;

pub use channel::{ChannelListTool, ChannelPublishTool, ChannelReadTool};
pub use computer::ComputerTool;
pub use file_memory::{
    FileMemoryEntry, FileMemoryStore, MemoryListTool, MemoryReadTool, MemoryWriteTool,
};
pub use glob_tool::GlobTool;
pub use http_fetch::{HttpFetchTool, WebSearchTool};
pub use registry::{ToolError, ToolOutput, ToolRegistry};
pub use skill_md_tool::{MarkdownSkill, MarkdownSkillRegistry, SkillMdTool};
pub use sub_agent::TaskTool;
