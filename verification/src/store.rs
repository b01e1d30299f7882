//! What the application keeps between runs.
use crate::domain::{ModPreset, ModpackProfile};
use vstd::prelude::*;

verus! {

/// The user's settings.
#[derive(Debug)]
pub struct StoredSettings {
    pub include_optional_dependencies: bool,
    pub download_concurrency: u8,
}

impl Default for StoredSettings {
    /// Optional dependencies off, three downloads at a time.
    fn default() -> (r: Self)
        ensures
            !r.include_optional_dependencies,
            r.download_concurrency == 3,
    {
        StoredSettings { include_optional_dependencies: false, download_concurrency: 3 }
    }
}

/// Everything the application stores.
#[derive(Debug)]
pub struct Database {
    pub profiles: Vec<ModpackProfile>,
    pub presets: Vec<ModPreset>,
    pub settings: StoredSettings,
}

impl Default for Database {
    /// No profiles, no presets, default settings.
    fn default() -> (r: Self)
        ensures
            r.profiles.len() == 0,
            r.presets.len() == 0,
            !r.settings.include_optional_dependencies,
            r.settings.download_concurrency == 3,
    {
        Database { profiles: Vec::new(), presets: Vec::new(), settings: StoredSettings::default() }
    }
}

} // verus!
