use mosaic_core::domain::{InstallReason, InstalledMod, ProjectRef, ProviderId};
use mosaic_core::graph::GraphEntry;
use mosaic_core::removal::{decide_removal, plan_removal};
use std::collections::HashSet;

fn project(id: &str) -> ProjectRef {
    ProjectRef { provider: ProviderId::Modrinth, project_id: id.into() }
}

fn installed(id: &str, reason: InstallReason) -> InstalledMod {
    InstalledMod {
        provider: ProviderId::Modrinth,
        project_id: id.into(),
        name: id.into(),
        version_id: "v1".into(),
        version_number: "1".into(),
        filename: format!("{id}.jar"),
        installed_at: String::new(),
        reason,
        hashes: Vec::new(),
        enabled: true,
        required_dependencies: Some(Vec::new()),
    }
}

fn entry(owner: &str, dependencies: &[&str]) -> GraphEntry {
    GraphEntry { owner: project(owner), dependencies: dependencies.iter().map(|id| project(id)).collect() }
}

fn set(keys: &[String]) -> HashSet<String> {
    keys.iter().cloned().collect()
}

#[test]
fn removes_the_full_orphaned_required_chain() {
    let mods = vec![
        installed("root", InstallReason::Requested),
        installed("library", InstallReason::Required),
        installed("core", InstallReason::Required),
    ];
    let graph = vec![entry("root", &["library"]), entry("library", &["core"])];

    let decision = plan_removal(&mods, &graph, &project("root").key()).unwrap();

    assert_eq!(decision.remove.len(), 3);
    assert!(decision.retained.is_empty());
}

#[test]
fn preserves_a_dependency_shared_by_another_root() {
    let mods = vec![
        installed("first", InstallReason::Requested),
        installed("second", InstallReason::Requested),
        installed("library", InstallReason::Required),
    ];
    let graph = vec![entry("first", &["library"]), entry("second", &["library"])];

    let decision = plan_removal(&mods, &graph, &project("first").key()).unwrap();

    assert_eq!(set(&decision.remove), HashSet::from([project("first").key()]));
    assert_eq!(set(&decision.retained), HashSet::from([project("library").key()]));
}

#[test]
fn preserves_a_dependency_used_by_any_remaining_mod_regardless_of_reason() {
    let mods = vec![
        installed("root", InstallReason::Requested),
        installed("other-component", InstallReason::Required),
        installed("library", InstallReason::Required),
    ];
    let graph = vec![entry("root", &["library"]), entry("other-component", &["library"])];

    let decision = plan_removal(&mods, &graph, &project("root").key()).unwrap();

    assert_eq!(set(&decision.remove), HashSet::from([project("root").key()]));
    assert_eq!(set(&decision.retained), HashSet::from([project("library").key()]));
}

#[test]
fn refuses_to_remove_a_dependency_that_is_still_used() {
    let mods = vec![installed("root", InstallReason::Requested), installed("library", InstallReason::Required)];
    let graph = vec![entry("root", &["library"])];

    assert!(plan_removal(&mods, &graph, &project("library").key()).is_err());
}

#[test]
fn removal_keeps_everything_a_remaining_mod_requires() {
    let mods = vec![
        installed("root", InstallReason::Requested),
        installed("library", InstallReason::Required),
        installed("shared", InstallReason::Required),
        installed("other", InstallReason::Requested),
    ];
    let graph = vec![entry("root", &["library", "shared"]), entry("other", &["shared"])];

    let decision = plan_removal(&mods, &graph, &project("root").key()).unwrap();

    assert_eq!(decision.remove[0], project("root").key());
    assert_eq!(set(&decision.remove), HashSet::from([project("root").key(), project("library").key()]));
    assert_eq!(set(&decision.retained), HashSet::from([project("shared").key()]));
}

#[test]
fn removal_of_a_missing_mod_is_refused() {
    let mods = vec![installed("root", InstallReason::Requested)];
    let graph = vec![entry("root", &[])];

    assert!(decide_removal(&mods, &graph, &project("absent"), 0, 0).is_err());
}

#[test]
fn unmanaged_files_keep_every_dependency() {
    let mods = vec![installed("root", InstallReason::Requested), installed("library", InstallReason::Required)];
    let graph = vec![entry("root", &["library"])];

    let decision = decide_removal(&mods, &graph, &project("root"), 1, 0).unwrap();

    assert_eq!(decision.remove, vec![project("root").key()]);
    assert_eq!(decision.retained, vec![project("library").key()]);
}

#[test]
fn unverified_graph_refuses_a_dependency_removal() {
    let mods = vec![installed("root", InstallReason::Requested), installed("library", InstallReason::Required)];
    let graph = vec![entry("root", &[])];

    assert!(decide_removal(&mods, &graph, &project("library"), 0, 1).is_err());
    assert!(decide_removal(&mods, &graph, &project("root"), 0, 1).is_ok());
}
