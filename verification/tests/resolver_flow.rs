use mosaic_core::domain::{
    DependencyType, DownloadFile, InstallReason, InstalledMod, IssueSeverity, ModDependency, ModLoader, ProfileTarget, ProjectRef,
    ProjectSide, ProjectSummary, ProjectVersion, ProviderId, ReleaseChannel, ResolutionIssueCode,
};
use mosaic_core::resolver::{DependencyResolution, ResolveAction, ResolveEvent, ResolveStep};

fn target() -> ProfileTarget {
    ProfileTarget { minecraft_version: "1.21.1".into(), loader: ModLoader::Fabric, release_channels: vec![ReleaseChannel::Release] }
}

fn summary(id: &str) -> ProjectSummary {
    ProjectSummary {
        provider: ProviderId::Modrinth,
        project_id: id.into(),
        slug: id.into(),
        name: id.to_uppercase(),
        summary: String::new(),
        author: String::new(),
        icon_url: None,
        website_url: String::new(),
        downloads: 0,
        updated_at: String::new(),
        categories: Vec::new(),
        supported_versions: Vec::new(),
        supported_loaders: Vec::new(),
        side: ProjectSide::Unknown,
        featured: None,
    }
}

fn version(id: &str, dependencies: Vec<ModDependency>) -> ProjectVersion {
    ProjectVersion {
        provider: ProviderId::Modrinth,
        project_id: id.into(),
        version_id: format!("{id}-v1"),
        name: id.into(),
        version_number: "1".into(),
        minecraft_versions: vec!["1.21.1".into()],
        loaders: vec![ModLoader::Fabric],
        channel: ReleaseChannel::Release,
        published_at: String::new(),
        downloads: 0,
        files: vec![DownloadFile {
            filename: format!("{id}.jar"),
            url: Some(format!("https://cdn.modrinth.com/{id}.jar")),
            size: 10,
            hashes: Vec::new(),
            primary: true,
        }],
        dependencies,
    }
}

fn dependency(id: &str, kind: DependencyType) -> ModDependency {
    ModDependency {
        provider: Some(ProviderId::Modrinth),
        project_id: Some(id.into()),
        version_id: None,
        filename: None,
        dependency_type: kind,
    }
}

fn without_url(mut version: ProjectVersion) -> ProjectVersion {
    version.files[0].url = None;
    version
}

fn catalog_version(id: &str) -> ProjectVersion {
    match id {
        "root" => version("root", vec![dependency("library", DependencyType::Required), dependency("extra", DependencyType::Optional)]),
        "cycle-a" => version("cycle-a", vec![dependency("cycle-b", DependencyType::Required)]),
        "cycle-b" => version("cycle-b", vec![dependency("cycle-a", DependencyType::Required)]),
        "restricted" | "hidden" => without_url(version(id, vec![dependency("library", DependencyType::Required)])),
        "hostile" => version("hostile", vec![dependency("enemy", DependencyType::Incompatible)]),
        other => version(other, Vec::new()),
    }
}

fn curseforge_copy(id: &str) -> (ProjectSummary, ProjectVersion) {
    let mut copy = summary(id);
    copy.provider = ProviderId::Curseforge;
    copy.project_id = format!("{id}-cf");
    let mut file = version(id, vec![dependency("library", DependencyType::Required)]);
    file.provider = ProviderId::Curseforge;
    file.files[0].url = Some(format!("https://edge.forgecdn.net/files/{id}.jar"));
    (copy, file)
}

fn answer(action: &ResolveAction) -> ResolveEvent {
    match action {
        ResolveAction::FetchProject(reference) => ResolveEvent::Project(Ok(summary(&reference.project_id))),
        ResolveAction::FetchCompatibleVersion { project, .. } => {
            ResolveEvent::CompatibleVersion(Ok(Some(catalog_version(&project.project_id))))
        }
        ResolveAction::FetchVersion { id, .. } => ResolveEvent::Version(Ok(catalog_version(id))),
        ResolveAction::FetchOptionalName(reference) => ResolveEvent::OptionalName(Ok(summary(&reference.project_id))),
        ResolveAction::FetchAlternate { source, .. } => {
            ResolveEvent::Alternate(if source.project_id == "restricted" { Some(curseforge_copy("restricted")) } else { None })
        }
        ResolveAction::FetchReconciled { version, .. } => ResolveEvent::Reconciled(if version.project_id == "partial" {
            let mut completed = version.dependencies.clone();
            completed.push(dependency("addon", DependencyType::Required));
            Some(completed)
        } else {
            None
        }),
    }
}

fn run(roots: Vec<ProjectRef>, selected: Vec<ProjectRef>) -> mosaic_core::domain::ResolutionPlan {
    let mut step = DependencyResolution::start(&target(), &Vec::new(), roots, &selected, true, false).unwrap();
    for _ in 0..100 {
        match step {
            ResolveStep::Finished(plan) => return plan,
            ResolveStep::Continue(resolution, action) => {
                let event = answer(&action);
                step = resolution.resume(event);
            }
        }
    }
    panic!("the resolution did not finish");
}

fn root() -> ProjectRef {
    ProjectRef { provider: ProviderId::Modrinth, project_id: "root".into() }
}

#[test]
fn a_preset_without_mods_is_refused() {
    let error = DependencyResolution::start(&target(), &Vec::new(), Vec::new(), &Vec::new(), true, false).unwrap_err();
    assert_eq!(error.text(), "A predefinição não contém mods.");
}

#[test]
fn required_dependencies_join_the_plan_and_optional_ones_wait() {
    let plan = run(vec![root()], Vec::new());
    let keys: Vec<&str> = plan.nodes.iter().map(|node| node.key.as_str()).collect();
    assert!(keys.contains(&"modrinth:root"));
    assert!(keys.contains(&"modrinth:library"));
    assert!(!keys.contains(&"modrinth:extra"));
    let root_node = plan.nodes.iter().find(|node| node.key == "modrinth:root").unwrap();
    assert_eq!(root_node.reason, InstallReason::Requested);
    let library = plan.nodes.iter().find(|node| node.key == "modrinth:library").unwrap();
    assert_eq!(library.reason, InstallReason::Required);
    assert_eq!(plan.optional_dependencies.len(), 1);
    assert!(!plan.optional_dependencies[0].selected);
    assert!(plan.can_install);
    assert_eq!(plan.downloadable_bytes, 20);
}

#[test]
fn a_selected_optional_dependency_is_installed() {
    let extra = ProjectRef { provider: ProviderId::Modrinth, project_id: "extra".into() };
    let plan = run(vec![root()], vec![extra]);
    let extra_node = plan.nodes.iter().find(|node| node.key == "modrinth:extra").unwrap();
    assert_eq!(extra_node.reason, InstallReason::Optional);
    assert!(plan.optional_dependencies[0].selected);
    assert_eq!(plan.downloadable_bytes, 30);
}

fn modrinth(id: &str) -> ProjectRef {
    ProjectRef { provider: ProviderId::Modrinth, project_id: id.into() }
}

#[test]
fn a_file_the_catalog_will_not_serve_is_taken_from_the_other_catalog() {
    let plan = run(vec![modrinth("restricted")], Vec::new());
    let node = plan.nodes.iter().find(|node| node.key == "modrinth:restricted").unwrap();
    assert_eq!(node.project.provider, ProviderId::Curseforge);
    assert_eq!(node.version.files[0].url.as_deref(), Some("https://edge.forgecdn.net/files/restricted.jar"));
    let warning = plan.issues.iter().find(|issue| issue.code == ResolutionIssueCode::ProviderFallback).unwrap();
    assert_eq!(warning.severity, IssueSeverity::Warning);
    assert!(plan.nodes.iter().any(|node| node.key == "modrinth:library"));
    assert!(plan.manual_downloads.is_empty());
    assert!(plan.can_install);
}

#[test]
fn a_file_without_any_copy_is_left_for_manual_download_without_blocking() {
    let plan = run(vec![modrinth("hidden"), modrinth("other")], Vec::new());
    assert!(!plan.nodes.iter().any(|node| node.key == "modrinth:hidden"));
    assert_eq!(plan.manual_downloads.len(), 1);
    assert_eq!(plan.manual_downloads[0].project.project_id, "hidden");
    assert_eq!(plan.manual_downloads[0].reason, InstallReason::Requested);
    let notice = plan.issues.iter().find(|issue| issue.code == ResolutionIssueCode::DistributionRestricted).unwrap();
    assert_eq!(notice.severity, IssueSeverity::Warning);
    assert!(plan.nodes.iter().any(|node| node.key == "modrinth:library"));
    assert!(plan.nodes.iter().any(|node| node.key == "modrinth:other"));
    assert!(plan.can_install);
}

#[test]
fn a_dependency_cycle_is_reported_as_a_warning() {
    let plan = run(vec![modrinth("cycle-a")], Vec::new());
    assert_eq!(plan.nodes.len(), 2);
    let cycle = plan.issues.iter().find(|issue| issue.code == ResolutionIssueCode::DependencyCycle).unwrap();
    assert_eq!(cycle.severity, IssueSeverity::Warning);
    assert_eq!(cycle.project, Some(modrinth("cycle-a")));
    assert!(plan.can_install);
}

#[test]
fn the_first_lookup_is_the_first_root_whose_catalog_is_enabled() {
    let disabled = ProjectRef { provider: ProviderId::Curseforge, project_id: "elsewhere".into() };
    let step = DependencyResolution::start(&target(), &Vec::new(), vec![disabled, root()], &Vec::new(), true, false).unwrap();
    match step {
        ResolveStep::Continue(_, ResolveAction::FetchProject(reference)) => assert_eq!(reference, root()),
        _ => panic!("expected the lookup of the first enabled root"),
    }
}

#[test]
fn no_enabled_catalog_finishes_an_empty_plan() {
    let disabled = ProjectRef { provider: ProviderId::Curseforge, project_id: "elsewhere".into() };
    let step = DependencyResolution::start(&target(), &Vec::new(), vec![disabled], &Vec::new(), true, false).unwrap();
    match step {
        ResolveStep::Finished(plan) => {
            assert!(plan.nodes.is_empty());
            assert!(!plan.can_install);
            assert_eq!(plan.issues[0].code, ResolutionIssueCode::ProviderError);
        }
        _ => panic!("expected a finished plan"),
    }
}

#[test]
fn an_answer_of_another_kind_asks_again() {
    let step = DependencyResolution::start(&target(), &Vec::new(), vec![root()], &Vec::new(), true, false).unwrap();
    let resolution = match step {
        ResolveStep::Continue(resolution, _) => resolution,
        _ => panic!("expected a lookup"),
    };
    match resolution.resume(ResolveEvent::Alternate(None)) {
        ResolveStep::Continue(_, ResolveAction::FetchProject(reference)) => assert_eq!(reference, root()),
        _ => panic!("expected the same lookup again"),
    }
}

#[test]
fn a_failed_lookup_is_reported_with_the_catalog_message() {
    let step = DependencyResolution::start(&target(), &Vec::new(), vec![root()], &Vec::new(), true, false).unwrap();
    let resolution = match step {
        ResolveStep::Continue(resolution, _) => resolution,
        _ => panic!("expected a lookup"),
    };
    match resolution.resume(ResolveEvent::Project(Err("offline".into()))) {
        ResolveStep::Finished(plan) => {
            assert_eq!(plan.issues[0].code, ResolutionIssueCode::ProviderError);
            assert_eq!(plan.issues[0].message, "offline");
            assert_eq!(plan.issues[0].project, Some(root()));
            assert!(!plan.can_install);
        }
        _ => panic!("expected a finished plan"),
    }
}

#[test]
fn a_required_dependency_declared_only_in_the_other_catalog_joins_the_plan() {
    let plan = run(vec![modrinth("partial")], Vec::new());
    let addon = plan.nodes.iter().find(|node| node.key == "modrinth:addon").unwrap();
    assert_eq!(addon.reason, InstallReason::Required);
    assert_eq!(addon.parent_key.as_deref(), Some("modrinth:partial"));
    let partial = plan.nodes.iter().find(|node| node.key == "modrinth:partial").unwrap();
    assert_eq!(partial.version.dependencies.len(), 1);
    assert_eq!(partial.version.dependencies[0].project_id.as_deref(), Some("addon"));
    assert!(plan.edges.iter().any(|edge| edge.from == "modrinth:partial" && edge.to == "modrinth:addon"));
    assert!(plan.can_install);
}

#[test]
fn an_incompatibility_with_an_installed_mod_blocks_the_plan() {
    let installed = vec![InstalledMod {
        provider: ProviderId::Modrinth,
        project_id: "enemy".into(),
        name: "Enemy".into(),
        version_id: "enemy-v1".into(),
        version_number: "1".into(),
        filename: "enemy.jar".into(),
        installed_at: String::new(),
        reason: InstallReason::Requested,
        hashes: Vec::new(),
        enabled: true,
        required_dependencies: None,
    }];
    let mut step = DependencyResolution::start(&target(), &installed, vec![modrinth("hostile")], &Vec::new(), true, false).unwrap();
    let plan = loop {
        match step {
            ResolveStep::Finished(plan) => break plan,
            ResolveStep::Continue(resolution, action) => step = resolution.resume(answer(&action)),
        }
    };
    let conflict = plan.issues.iter().find(|issue| issue.code == ResolutionIssueCode::IncompatibleMod).unwrap();
    assert_eq!(conflict.severity, IssueSeverity::Error);
    assert_eq!(conflict.project, Some(modrinth("enemy")));
    assert!(!plan.can_install);
}
