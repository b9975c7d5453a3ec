//! Subscription fetcher library: the source list, the "plain or base64"
//! decoding rule, line-preserving splitting of large outputs, and the link
//! index of the output directory.
//!
//! Modules:
//! - `config`: the `urls.json` source list, ordered by id;
//! - `decoder`: plain URI lists pass through, anything else is base64;
//! - `fetcher`: which HTTP answers carry a subscription;
//! - `splitter`: cutting content into parts at line boundaries;
//! - `saver`: where content is saved, whole or in parts;
//! - `service`: what follows each fetch and each save of a source;
//! - `settings`: settings from environment values and arguments;
//! - `urls`: the `urls.txt` index in natural order;
//! - `error`: the common error type;
//! - `order`, `text`: orders and character-level helpers.

pub mod config;
pub mod decoder;
pub mod error;
pub mod fetcher;
pub mod order;
pub mod saver;
pub mod service;
pub mod settings;
pub mod splitter;
pub mod text;
pub mod urls;

pub use config::{parse_sources, sources_from_entries, Source};
pub use decoder::{decode_if_needed, is_encoded};
pub use error::{Error, Result};
pub use fetcher::check_status;
pub use saver::{FileSaver, SavePlan};
pub use service::{after_fetch, after_save, Outcome, SyncService, SyncStep};
pub use settings::Settings;
pub use splitter::{
    count_configs, part_file_name, plan_file_split, select_large_files, split_by_config_count,
    split_content, DEFAULT_MAX_PER_FILE, MAX_PART_BYTES,
};
pub use urls::{raw_url_for, select_output_files, urls_index_content, RAW_BASE, URLS_FILE_NAME};
