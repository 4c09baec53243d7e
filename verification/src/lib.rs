//! In-memory file-name index with ranked search, and the rules of the launcher around it.

pub mod bytes;
pub mod commands;
pub mod engine;
pub mod fx;
pub mod history;
pub mod hotkey;
pub mod index;
pub mod index_laws;
pub mod key_laws;
pub mod launcher_laws;
pub mod laws;
pub mod match_laws;
pub mod matcher;
pub mod mft;
pub mod model;
pub mod par;
pub mod py;
pub mod record_laws;
pub mod run_laws;
pub mod search_laws;
pub mod session;
pub mod settings;
pub mod shell_ops;
pub mod snapshot;
pub mod store_laws;
pub mod system_laws;
pub mod text;
pub mod text_laws;
pub mod topk;
pub mod types;
pub mod usn;
pub mod volume;
pub mod walker;

pub use engine::EngineStats;
pub use index::{Index, VolumeIndex};
pub use matcher::{search, SearchOptions, SearchOutcome, SearchResult};
