//! Long-term memory.
//!
//! Facts are kept as units of a bank ([`model`]). They come in through
//! [`retain`], are found again by several arms of search whose ranks
//! [`fusion`] merges ([`recall`], [`bm25`], [`graph_retrieval`],
//! [`reranker`]), and are condensed into observations by [`consolidate`].
//! Sessions and the history of commands are stored as such units too.
pub mod bm25;
pub mod consolidate;
pub mod embed;
pub mod fusion;
pub mod graph_retrieval;
pub mod history;
pub mod llm;
pub mod manager;
pub mod model;
pub mod recall;
pub mod reranker;
pub mod retain;
pub mod session;
pub mod storage;
pub mod tally;

pub use bm25::{BM25Config, BM25Hit, BM25Index};
pub use consolidate::{ConsolidationConfig, ConsolidationEngine, ConsolidationResult};
pub use embed::HashEmbedder;
pub use fusion::{normalize_on_delta, reciprocal_rank_fusion, DEFAULT_RRF_K};
pub use graph_retrieval::{expand as graph_expand_with, GraphConfig, GraphHit};
pub use history::{HistoryEntry, HistoryFilter, HistoryManager, HistoryStats, HistoryType};
pub use llm::{
    ConsolidatedObservation, ConsolidationDecision, ExtractedEntity, ExtractedFact, NoopLlm,
};
pub use manager::{MemoryConfig, DEFAULT_BANK_ID};
pub use model::{
    Bank, Budget, Document, Entity, FactType, LinkType, MemoryEntry, MemoryLink, MemoryStatus,
    MemoryType, MemoryUnit, ObservationHistoryEntry, TagMatch,
};
pub use recall::{RecallEngine, RecallHit, RecallRequest, RecallResponse};
pub use reranker::{HeuristicReranker, RerankerConfig};
pub use retain::{RetainEngine, RetainItem, RetainResult};
pub use session::{Session, SessionInfo, SessionManager, SessionMessage, SessionStatus};
pub use storage::StorageBackend;
