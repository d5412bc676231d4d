//! Verified core of the Aspen photo studio: duplicate clustering, hash
//! caching, output naming and the deterministic edit plan.

pub mod text;
pub mod union_find;
pub mod dedupe;
pub mod dedupe_laws;
pub mod path_text;
pub mod settings;
pub mod discover;
pub mod cache;
pub mod fs_action;
pub mod tags;
pub mod quality;
pub mod text_trim;
pub mod paths;
pub mod pipeline;
pub mod assoc;
pub mod image_edit;
pub mod preview;
pub mod benchmark;
pub mod logging;
pub mod hashing;
pub mod vision;
pub mod run_files;
pub mod placement_laws;
