use mosaic_core::domain::{
    DownloadFile, FileHash, HashAlgorithm, InstallFailure, InstallReason, InstalledMod, ModLoader, ProjectSide,
    ProjectSummary, ProjectVersion, ProviderId, ReleaseChannel, ResolutionNode,
};
use mosaic_core::download::{
    download_source, install_queue, stale_filenames, tally_outcomes, temporary_name, verification_failure,
    NodeOutcome,
};
use mosaic_core::file_integrity::HashState;

fn node(id: &str, files: Vec<DownloadFile>, already_installed: bool) -> ResolutionNode {
    ResolutionNode {
        key: format!("modrinth:{id}"),
        project: ProjectSummary {
            provider: ProviderId::Modrinth,
            project_id: id.into(),
            slug: id.into(),
            name: id.into(),
            summary: String::new(),
            author: String::new(),
            icon_url: None,
            website_url: String::new(),
            downloads: 0,
            updated_at: String::new(),
            categories: Vec::new(),
            supported_versions: Vec::new(),
            supported_loaders: Vec::new(),
            side: ProjectSide::Unknown,
            featured: None,
        },
        version: ProjectVersion {
            provider: ProviderId::Modrinth,
            project_id: id.into(),
            version_id: format!("{id}-v"),
            name: id.into(),
            version_number: "1".into(),
            minecraft_versions: Vec::new(),
            loaders: vec![ModLoader::Fabric],
            channel: ReleaseChannel::Release,
            published_at: String::new(),
            downloads: 0,
            files,
            dependencies: Vec::new(),
        },
        reason: InstallReason::Requested,
        parent_key: None,
        already_installed,
    }
}

fn file(name: &str, url: Option<&str>, primary: bool) -> DownloadFile {
    DownloadFile {
        filename: name.into(),
        url: url.map(|u| u.to_string()),
        size: 7,
        hashes: vec![FileHash { algorithm: HashAlgorithm::Sha1, value: "abc".into() }],
        primary,
    }
}

fn record(id: &str, filename: &str) -> InstalledMod {
    InstalledMod {
        provider: ProviderId::Modrinth,
        project_id: id.into(),
        name: id.into(),
        version_id: "v".into(),
        version_number: "1".into(),
        filename: filename.into(),
        installed_at: String::new(),
        reason: InstallReason::Requested,
        hashes: Vec::new(),
        enabled: true,
        required_dependencies: None,
    }
}

#[test]
fn the_primary_file_is_downloaded() {
    let n = node(
        "sodium",
        vec![file("extra.jar", Some("https://cdn.modrinth.com/extra.jar"), false), file("sodium.jar", Some("https://cdn.modrinth.com/sodium.jar"), true)],
        false,
    );
    let source = download_source(&n).unwrap();
    assert_eq!(source.filename, "sodium.jar");
    assert_eq!(source.url, "https://cdn.modrinth.com/sodium.jar");
    assert_eq!(source.size, 7);
    assert_eq!(source.hashes.len(), 1);
}

#[test]
fn files_without_a_download_are_refused() {
    assert_eq!(
        download_source(&node("a", Vec::new(), false)).unwrap_err().text(),
        "O provedor não retornou um arquivo instalável."
    );
    assert_eq!(
        download_source(&node("a", vec![file("a.jar", None, true)], false)).unwrap_err().text(),
        "O provedor não disponibilizou uma URL de download."
    );
    assert_eq!(
        download_source(&node("a", vec![file("a.jar", Some("https://example.com/a.jar"), true)], false)).unwrap_err().text(),
        "Download recusado: domínio não autorizado (example.com)."
    );
}

#[test]
fn downloads_are_named_after_the_plan_until_verified() {
    assert_eq!(temporary_name("sodium.jar", "0123456789abcdef"), "sodium.jar.01234567.part");
    assert_eq!(verification_failure(HashAlgorithm::Sha512).text(), "A verificação Sha512 falhou.");
}

#[test]
fn installed_nodes_are_not_queued_again() {
    let nodes = vec![node("a", Vec::new(), true), node("b", Vec::new(), false), node("c", Vec::new(), true)];
    let (queue, done) = install_queue(nodes);
    assert_eq!(done, 2);
    assert_eq!(queue.len(), 1);
    assert_eq!(queue[0].key, "modrinth:b");
}

#[test]
fn outcomes_are_tallied() {
    let outcomes = vec![
        NodeOutcome::Installed(record("a", "a.jar")),
        NodeOutcome::Skipped,
        NodeOutcome::Failed(InstallFailure { project_key: "modrinth:c".into(), message: "x".into() }),
    ];
    let (installed, skipped, failed) = tally_outcomes(2, outcomes);
    assert_eq!(installed.len(), 1);
    assert_eq!(skipped, 3);
    assert_eq!(failed[0].project_key, "modrinth:c");
}

#[test]
fn replaced_files_are_listed_for_removal() {
    let previous = vec![record("a", "a-1.jar"), record("b", "b.jar")];
    let installed = vec![record("a", "a-2.jar"), record("b", "b.jar"), record("c", "c.jar")];
    assert_eq!(stale_filenames(&previous, &installed), vec!["a-1.jar".to_string()]);
}

#[test]
fn streamed_digests_match_whole_digests() {
    let mut state = HashState::new(HashAlgorithm::Sha1);
    state.update(b"a");
    state.update(b"bc");
    assert_eq!(state.finish(), "a9993e364706816aba3e25717850c26c9cd0d89d");
}
