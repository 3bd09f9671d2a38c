//! Markdown chunking and incremental index planning.

pub mod chunk;
pub mod files;
pub mod front_matter;
pub mod group;
pub mod hash;
pub mod markdown;
pub mod metadata;
pub mod order;
pub mod oversize;
pub mod pattern;
pub mod plan;
pub mod text;

pub use chunk::{format_chunk_debug, heading_path, truncate_preview, Chunk, CHUNKER_VERSION};
pub use group::group_chunks_by_path;
pub use hash::hash_chunks;
pub use markdown::split_markdown;
pub use oversize::{CHUNK_OVERLAP_CHARS, MAX_CHUNK_CHARS};
pub use plan::{plan_index, IndexPlan, StoredHashes};
