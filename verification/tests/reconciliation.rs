use mosaic_core::domain::{
    DependencyType, ModDependency, ModLoader, ProjectRef, ProjectSide, ProjectSummary, ProjectVersion, ProviderId,
    ReleaseChannel,
};
use mosaic_core::reconciliation::{required_only, Reconciliation};

fn project(provider: ProviderId, id: &str, name: &str) -> ProjectSummary {
    ProjectSummary {
        provider,
        project_id: id.into(),
        slug: name.to_ascii_lowercase(),
        name: name.into(),
        summary: String::new(),
        author: "author".into(),
        icon_url: None,
        website_url: format!("https://example.com/{id}"),
        downloads: 1,
        updated_at: String::new(),
        categories: Vec::new(),
        supported_versions: vec!["1.20.1".into()],
        supported_loaders: vec![ModLoader::Forge],
        side: ProjectSide::Both,
        featured: None,
    }
}

fn version(provider: ProviderId, project_id: &str, dependencies: Vec<ModDependency>) -> ProjectVersion {
    ProjectVersion {
        provider,
        project_id: project_id.into(),
        version_id: format!("{project_id}-version"),
        name: "Version".into(),
        version_number: "1.0.0".into(),
        minecraft_versions: vec!["1.20.1".into()],
        loaders: vec![ModLoader::Forge],
        channel: ReleaseChannel::Release,
        published_at: String::new(),
        downloads: 1,
        files: Vec::new(),
        dependencies,
    }
}

fn required(provider: ProviderId, id: &str) -> ModDependency {
    ModDependency {
        provider: Some(provider),
        project_id: Some(id.into()),
        version_id: None,
        filename: None,
        dependency_type: DependencyType::Required,
    }
}

#[test]
fn other_catalog_dependencies_prefer_the_original_catalog() {
    let tectonic = project(ProviderId::Curseforge, "tectonic-cf", "Tectonic");
    let current = version(ProviderId::Curseforge, "tectonic-cf", Vec::new());
    let mut merge = Reconciliation::begin(&current, Vec::new());
    let alternate = project(ProviderId::Modrinth, "library-mr", "Terrain Library");
    let preferred = project(ProviderId::Curseforge, "library-cf", "Terrain Library");
    assert!(!merge.passes_over(&tectonic, &alternate));
    let added = merge.accept(
        &required(ProviderId::Modrinth, "library-mr"),
        ProjectRef { provider: ProviderId::Modrinth, project_id: "library-mr".into() },
        alternate,
        Some(preferred),
    );
    assert!(added);
    let done = merge.finish(ProviderId::Modrinth).unwrap();
    assert_eq!(done.dependencies[0].provider, Some(ProviderId::Curseforge));
    assert_eq!(done.dependencies[0].project_id.as_deref(), Some("library-cf"));
    assert_eq!(done.metadata_provider, ProviderId::Modrinth);
}

#[test]
fn the_other_catalog_is_kept_when_the_original_has_no_match() {
    let current = version(ProviderId::Curseforge, "tectonic-cf", Vec::new());
    let mut merge = Reconciliation::begin(&current, Vec::new());
    let mut dependency = required(ProviderId::Modrinth, "library-mr");
    dependency.version_id = Some("v9".into());
    merge.accept(
        &dependency,
        ProjectRef { provider: ProviderId::Modrinth, project_id: "library-mr".into() },
        project(ProviderId::Modrinth, "library-mr", "Terrain Library"),
        None,
    );
    let done = merge.finish(ProviderId::Modrinth).unwrap();
    assert_eq!(done.dependencies[0].provider, Some(ProviderId::Modrinth));
    assert_eq!(done.dependencies[0].project_id.as_deref(), Some("library-mr"));
    assert_eq!(done.dependencies[0].version_id.as_deref(), Some("v9"));
}

#[test]
fn known_and_repeated_projects_are_not_added_twice() {
    let library = project(ProviderId::Curseforge, "library-cf", "Terrain Library");
    let current = version(ProviderId::Curseforge, "tectonic-cf", vec![required(ProviderId::Curseforge, "library-cf")]);
    let mut merge = Reconciliation::begin(&current, vec![library]);
    let tectonic = project(ProviderId::Curseforge, "tectonic-cf", "Tectonic");
    let alternate = project(ProviderId::Modrinth, "library-mr", "Terrain Library");
    assert!(merge.passes_over(&tectonic, &alternate));
    let same_ref = merge.accept(
        &required(ProviderId::Modrinth, "library-mr"),
        ProjectRef { provider: ProviderId::Modrinth, project_id: "library-mr".into() },
        alternate,
        Some(project(ProviderId::Curseforge, "library-cf", "Terrain Library")),
    );
    assert!(!same_ref);
    assert!(merge.finish(ProviderId::Modrinth).is_none());
}

#[test]
fn only_required_dependencies_are_merged() {
    let mut optional = required(ProviderId::Modrinth, "extra");
    optional.dependency_type = DependencyType::Optional;
    let deps = vec![optional, required(ProviderId::Modrinth, "core")];
    let kept = required_only(&deps);
    assert_eq!(kept.len(), 1);
    assert_eq!(kept[0].project_id.as_deref(), Some("core"));
}
