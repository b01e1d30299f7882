//! What the catalogs answer, as the library sees it.
use crate::domain::{ProfileTarget, ProjectRef, ProjectSummary};
use vstd::prelude::*;

verus! {

/// One page of a catalog's search.
#[derive(Debug)]
pub struct ProviderSearchResult {
    pub projects: Vec<ProjectSummary>,
    /// How many hits the catalog reports in all.
    pub total: u64,
}

/// What a modpack of a catalog contains.
#[derive(Debug)]
pub struct ProviderModpackContent {
    pub target: ProfileTarget,
    pub projects: Vec<ProjectRef>,
    pub source_file_count: usize,
    pub unresolved_file_count: usize,
    pub has_overrides: bool,
    pub warnings: Vec<String>,
}

} // verus!
