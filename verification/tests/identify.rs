use mosaic_core::domain::{DownloadFile, ModLoader, ProjectSide, ProjectSummary, ProjectVersion, ProviderId, ReleaseChannel};
use mosaic_core::identify::{IdentifyAction, IdentifyEvent, JarIdentification};

fn version(id: &str) -> ProjectVersion {
    ProjectVersion {
        provider: ProviderId::Modrinth,
        project_id: id.into(),
        version_id: format!("{id}-v1"),
        name: id.into(),
        version_number: "1".into(),
        minecraft_versions: vec!["1.21.1".into()],
        loaders: vec![ModLoader::Fabric],
        channel: ReleaseChannel::Release,
        published_at: String::new(),
        downloads: 0,
        files: vec![DownloadFile { filename: format!("{id}.jar"), url: None, size: 1, hashes: Vec::new(), primary: true }],
        dependencies: Vec::new(),
    }
}

fn summary(id: &str) -> ProjectSummary {
    ProjectSummary {
        provider: ProviderId::Modrinth,
        project_id: id.into(),
        slug: id.into(),
        name: id.into(),
        summary: String::new(),
        author: String::new(),
        icon_url: None,
        website_url: String::new(),
        downloads: 0,
        updated_at: String::new(),
        categories: Vec::new(),
        supported_versions: Vec::new(),
        supported_loaders: Vec::new(),
        side: ProjectSide::Unknown,
        featured: None,
    }
}

fn is_find(action: &Option<IdentifyAction>, provider: ProviderId, index: usize) -> bool {
    matches!(action, Some(IdentifyAction::FindVersion { provider: p, hash_index }) if *p == provider && *hash_index == index)
}

#[test]
fn each_catalog_is_asked_until_a_version_is_found_then_the_project_is_loaded() {
    let (state, action) = JarIdentification::start("sodium.jar".into(), 2, true, true);
    assert!(is_find(&action, ProviderId::Modrinth, 0));
    let (state, action) = state.step(IdentifyEvent::Version(Ok(None)));
    assert!(is_find(&action, ProviderId::Modrinth, 1));
    let (state, action) = state.step(IdentifyEvent::Version(Ok(Some(version("sodium")))));
    assert!(is_find(&action, ProviderId::Curseforge, 0));
    let (state, action) = state.step(IdentifyEvent::Version(Err("offline".into())));
    match &action {
        Some(IdentifyAction::LoadProject { provider, project_id }) => {
            assert_eq!(*provider, ProviderId::Modrinth);
            assert_eq!(project_id, "sodium");
        }
        _ => panic!("expected the project lookup"),
    }
    let (state, action) = state.step(IdentifyEvent::Project(Ok(summary("sodium"))));
    assert!(action.is_none());
    let (versions, selected, warnings) = state.finish();
    assert_eq!(versions.len(), 1);
    assert_eq!(selected.map(|(index, project)| (index, project.project_id)), Some((0, "sodium".to_string())));
    assert_eq!(warnings, vec!["sodium.jar não pôde ser identificado em curseforge: offline".to_string()]);
}

#[test]
fn curseforge_is_asked_about_the_first_hash_only() {
    let (state, action) = JarIdentification::start("a.jar".into(), 3, false, true);
    assert!(is_find(&action, ProviderId::Curseforge, 0));
    let (state, action) = state.step(IdentifyEvent::Version(Ok(None)));
    assert!(action.is_none());
    let (versions, selected, warnings) = state.finish();
    assert!(versions.is_empty() && selected.is_none() && warnings.is_empty());
}

#[test]
fn a_project_that_cannot_be_loaded_is_warned_about() {
    let (state, _) = JarIdentification::start("b.jar".into(), 1, true, false);
    let (state, _) = state.step(IdentifyEvent::Version(Ok(Some(version("b")))));
    let (state, action) = state.step(IdentifyEvent::Project(Err("gone".into())));
    assert!(action.is_none());
    let (_, selected, warnings) = state.finish();
    assert!(selected.is_none());
    assert_eq!(warnings, vec!["b.jar foi reconhecido em modrinth, mas o projeto não pôde ser carregado: gone".to_string()]);
}
