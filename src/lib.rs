//! Real-time speech transcription core: voice activity detection, segmentation,
//! dual-tier scheduling, result deduplication and ordering, speaker matching and
//! context-aware correction.

pub mod text;
pub mod transcript;
pub mod dedup;
pub mod segments;
pub mod quality;
pub mod result_manager;
pub mod vad;
pub mod segmenter;
pub mod speaker;
pub mod context;
pub mod scheduler;
pub mod session;
pub mod preprocess;
pub mod orchestrator;
pub mod recognizer;
