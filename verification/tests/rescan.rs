use mosaic_core::domain::{FileHash, InstallReason, InstalledMod, ModLoader, ProjectRef, ProviderId};
use mosaic_core::mod_index::build_mod_index;
use mosaic_core::rescan::{
    compare_minecraft_versions, display_name_from_filename, first_minecraft_version, loader_from_text,
    looks_like_minecraft_version, minecraft_versions_from_mods_toml, target_from_instance_cfg, IdentifiedJar,
    JarTargetHint,
};
use std::cmp::Ordering;

fn installed(provider: ProviderId, project_id: &str, dependencies: Vec<ProjectRef>) -> InstalledMod {
    InstalledMod {
        provider,
        project_id: project_id.into(),
        name: project_id.into(),
        version_id: "version".into(),
        version_number: "1".into(),
        filename: format!("{project_id}.jar"),
        installed_at: "now".into(),
        reason: InstallReason::Requested,
        hashes: Vec::<FileHash>::new(),
        enabled: true,
        required_dependencies: Some(dependencies),
    }
}

fn no_hint() -> JarTargetHint {
    JarTargetHint { minecraft_versions: Vec::new(), loader: None }
}

#[test]
fn derives_a_readable_local_name_from_filename() {
    assert_eq!(display_name_from_filename("just-enough-items_1.20.1.jar"), "just enough items 1 20 1");
}

#[test]
fn recognizes_loader_names_without_confusing_neoforge_with_forge() {
    assert_eq!(loader_from_text("neoForge-21.1.1"), Some(ModLoader::Neoforge));
    assert_eq!(loader_from_text("fabric-loader-0.16"), Some(ModLoader::Fabric));
}

#[test]
fn compares_minecraft_versions_numerically() {
    assert_eq!(compare_minecraft_versions("1.20.10", "1.20.2"), Ordering::Greater);
}

#[test]
fn reads_the_minecraft_range_after_the_forge_dependency() {
    let versions = minecraft_versions_from_mods_toml(
        r#"
            [[dependencies.example]]
            modId="forge"
            versionRange="[47.2,)"
            [[dependencies.example]]
            modId="minecraft"
            versionRange="[1.20.1,1.21)"
            "#,
    );
    assert_eq!(versions, vec!["1.20.1"]);
}

#[test]
fn canonicalizes_cross_provider_dependencies_during_import() {
    let root = installed(
        ProviderId::Modrinth,
        "root",
        vec![ProjectRef { provider: ProviderId::Curseforge, project_id: "library-cf".into() }],
    );
    let library = installed(ProviderId::Modrinth, "library-mr", Vec::new());
    let mut identified = vec![
        IdentifiedJar { item: root, versions: Vec::new(), aliases: Vec::new(), warnings: Vec::new(), target_hint: no_hint() },
        IdentifiedJar {
            item: library,
            versions: Vec::new(),
            aliases: vec![
                ProjectRef { provider: ProviderId::Modrinth, project_id: "library-mr".into() },
                ProjectRef { provider: ProviderId::Curseforge, project_id: "library-cf".into() },
            ],
            warnings: Vec::new(),
            target_hint: no_hint(),
        },
    ];
    let mut warnings = Vec::new();
    let (mods, _, _) = build_mod_index(&mut identified, &mut warnings);

    let root = mods.iter().find(|item| item.project_id == "root").unwrap();
    let dependency = &root.required_dependencies.as_ref().unwrap()[0];
    assert_eq!(dependency.provider, ProviderId::Modrinth);
    assert_eq!(dependency.project_id, "library-mr");
    let library = mods.iter().find(|item| item.project_id == "library-mr").unwrap();
    assert!(matches!(library.reason, InstallReason::Required));
}

#[test]
fn minecraft_versions_order_by_their_numbers() {
    assert_eq!(compare_minecraft_versions("1.20", "1.20.0"), Ordering::Less);
    assert_eq!(compare_minecraft_versions("1.19.4", "1.20"), Ordering::Less);
    assert_eq!(compare_minecraft_versions("1.21.1", "1.21.1"), Ordering::Equal);
}

#[test]
fn finds_the_first_minecraft_version_in_text() {
    assert!(looks_like_minecraft_version("1.20.1"));
    assert!(!looks_like_minecraft_version("1.20.1-beta"));
    assert!(!looks_like_minecraft_version("1"));
    assert_eq!(first_minecraft_version("forge-1.20.1-47.2.0").as_deref(), Some("1.20.1"));
    assert_eq!(first_minecraft_version("no version here"), None);
}

#[test]
fn reads_a_multimc_instance_configuration() {
    let (version, loader) = target_from_instance_cfg("name=Pack\nIntendedVersion=1.20.1\n");
    assert_eq!(version.as_deref(), Some("1.20.1"));
    assert_eq!(loader, None);
}

#[test]
fn unknown_loader_text_names_no_loader() {
    assert_eq!(loader_from_text("vanilla"), None);
    assert_eq!(loader_from_text("forge-47.2.0"), Some(ModLoader::Forge));
    assert_eq!(loader_from_text("quilt-loader"), Some(ModLoader::Quilt));
}
