//! Verified core of a Minecraft modpack manager: dependency resolution,
//! conservative removal, instance detection and the text it produces.
use vstd::prelude::*;

pub mod text;
pub mod sort;
pub mod error;
pub mod domain;
pub mod graph;
pub mod removal;
pub mod resolver;
pub mod rescan;
pub mod mod_index;
pub mod import;
pub mod profiles;
pub mod install_record;
pub mod download;
pub mod file_integrity;
pub mod provider_fallback;
pub mod recipes;
pub mod recommendations;
pub mod reconciliation;
pub mod modrinth;
pub mod curseforge;
pub mod presets;
pub mod providers;
pub mod catalog;
pub mod organization;
pub mod secrets;
pub mod store;
pub mod requests;
pub mod json;
pub mod dependency_graph;
pub mod profile_records;
pub mod plan_store;
pub mod jar;
pub mod identify;

verus! {

} // verus!
