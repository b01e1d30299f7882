use mosaic_core::domain::{
    DependencyType, InstallReason, ModLoader, ProfileTarget, ProjectRef, ProjectSide, ProjectSummary, ProjectVersion,
    ProviderId, ReleaseChannel, ResolutionEdge, ResolutionNode, ResolutionPlan,
};
use mosaic_core::download::install_graph;
use mosaic_core::resolver::stronger_reason;
use std::collections::HashSet;

fn node(key: &str, id: &str, reason: InstallReason) -> ResolutionNode {
    ResolutionNode {
        key: key.into(),
        project: ProjectSummary {
            provider: ProviderId::Modrinth,
            project_id: id.into(),
            slug: id.into(),
            name: id.into(),
            summary: String::new(),
            author: String::new(),
            icon_url: None,
            website_url: String::new(),
            downloads: 0,
            updated_at: String::new(),
            categories: Vec::new(),
            supported_versions: Vec::new(),
            supported_loaders: Vec::new(),
            side: ProjectSide::Unknown,
            featured: None,
        },
        version: ProjectVersion {
            provider: ProviderId::Modrinth,
            project_id: id.into(),
            version_id: format!("{id}-version"),
            name: String::new(),
            version_number: "1".into(),
            minecraft_versions: vec!["1.20.1".into()],
            loaders: vec![ModLoader::Forge],
            channel: ReleaseChannel::Release,
            published_at: String::new(),
            downloads: 0,
            files: Vec::new(),
            dependencies: Vec::new(),
        },
        reason,
        parent_key: None,
        already_installed: false,
    }
}

#[test]
fn explicit_selection_is_never_downgraded_to_a_dependency() {
    assert!(matches!(
        stronger_reason(InstallReason::Required, InstallReason::Requested),
        InstallReason::Requested
    ));
    assert!(matches!(
        stronger_reason(InstallReason::Requested, InstallReason::Required),
        InstallReason::Requested
    ));
}

#[test]
fn required_dependencies_are_the_only_automatic_default() {
    let selected = HashSet::<String>::new();
    assert!(!selected.contains("modrinth:optional"));
    assert_eq!(DependencyType::Required, DependencyType::Required);
}

#[test]
fn graph_uses_the_actual_provider_keys_after_a_fallback() {
    let plan = ResolutionPlan {
        id: "plan".into(),
        target: ProfileTarget {
            minecraft_version: "1.20.1".into(),
            loader: ModLoader::Forge,
            release_channels: vec![ReleaseChannel::Release],
        },
        nodes: vec![
            node("curseforge:original-root", "actual-root", InstallReason::Requested),
            node("curseforge:original-library", "actual-library", InstallReason::Required),
        ],
        edges: vec![ResolutionEdge {
            from: "curseforge:original-root".into(),
            to: "curseforge:original-library".into(),
            dependency_type: DependencyType::Required,
        }],
        issues: Vec::new(),
        optional_dependencies: Vec::new(),
        manual_downloads: Vec::new(),
        downloadable_bytes: 0,
        can_install: true,
    };

    let graph = install_graph(&plan);

    assert!(!graph.iter().any(|entry| entry.key == "curseforge:original-root"));
    let root = graph.iter().find(|entry| entry.key == "modrinth:actual-root").unwrap();
    assert_eq!(
        root.dependencies,
        vec![ProjectRef { provider: ProviderId::Modrinth, project_id: "actual-library".into() }]
    );
}

#[test]
fn optional_choices_only_upgrade_plain_dependencies() {
    assert_eq!(stronger_reason(InstallReason::Required, InstallReason::Optional), InstallReason::Optional);
    assert_eq!(stronger_reason(InstallReason::Optional, InstallReason::Required), InstallReason::Optional);
    assert_eq!(stronger_reason(InstallReason::Requested, InstallReason::Optional), InstallReason::Requested);
}
