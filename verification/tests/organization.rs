use mosaic_core::domain::{InstallReason, InstalledMod, ModLoader, ProjectRef, ProjectSide, ProviderId};
use mosaic_core::domain::{ModpackProfile, ProfileTarget, ReleaseChannel};
use mosaic_core::organization::{
    check_classified_unchanged, check_export_destination, check_exported_unchanged, check_organizable,
    check_plan_owner, chosen_side, decide_classification, export_folder_name, first_with_name, has_jar_extension,
    manifest_entry, missing_file_warning, organization_item, organization_manifest, organized_file_name,
    side_folder, sort_items_by_name, synthetic_summary, ModOrganizationItem, OrganizationClassificationSource,
    StoredOrganizationItem,
};

fn item(id: &str, filename: &str, side: ProjectSide) -> ModOrganizationItem {
    ModOrganizationItem {
        project: ProjectRef { provider: ProviderId::Modrinth, project_id: id.into() },
        name: id.into(),
        filename: filename.into(),
        side,
        source: OrganizationClassificationSource::Provider,
    }
}

fn installed(provider: ProviderId, id: &str) -> InstalledMod {
    InstalledMod {
        provider,
        project_id: id.into(),
        name: format!("{id} name"),
        version_id: "v1".into(),
        version_number: "1".into(),
        filename: format!("{id}.jar"),
        installed_at: String::new(),
        reason: InstallReason::Requested,
        hashes: Vec::new(),
        enabled: true,
        required_dependencies: None,
    }
}

#[test]
fn each_side_has_its_folder() {
    assert_eq!(side_folder(ProjectSide::Client), ("Cliente", 0));
    assert_eq!(side_folder(ProjectSide::Server), ("Servidor", 1));
    assert_eq!(side_folder(ProjectSide::Both), ("Cliente e Servidor", 2));
    assert_eq!(side_folder(ProjectSide::Unknown), ("Não classificados", 3));
}

#[test]
fn the_catalog_side_wins_then_the_other_catalog() {
    assert_eq!(decide_classification(false, Some(ProjectSide::Client), None, None), (ProjectSide::Unknown, OrganizationClassificationSource::Unknown));
    assert_eq!(
        decide_classification(true, Some(ProjectSide::Server), Some(ProjectSide::Client), None),
        (ProjectSide::Server, OrganizationClassificationSource::Provider)
    );
    assert_eq!(
        decide_classification(true, Some(ProjectSide::Unknown), Some(ProjectSide::Client), None),
        (ProjectSide::Client, OrganizationClassificationSource::Provider)
    );
    assert_eq!(
        decide_classification(true, None, Some(ProjectSide::Unknown), Some((None, ProjectSide::Both))),
        (ProjectSide::Both, OrganizationClassificationSource::CrossProvider)
    );
    assert_eq!(
        decide_classification(true, None, None, Some((Some(ProjectSide::Server), ProjectSide::Both))),
        (ProjectSide::Server, OrganizationClassificationSource::CrossProvider)
    );
    assert_eq!(
        decide_classification(true, None, None, Some((None, ProjectSide::Unknown))),
        (ProjectSide::Unknown, OrganizationClassificationSource::Unknown)
    );
}

#[test]
fn applies_a_reviewed_manual_classification_choice() {
    let unknown = item("unknown", "unknown.jar", ProjectSide::Unknown);
    let assignments = vec![
        ("modrinth:unknown".to_string(), ProjectSide::Client),
        ("modrinth:other".to_string(), ProjectSide::Both),
        ("modrinth:unknown".to_string(), ProjectSide::Server),
    ];
    assert_eq!(chosen_side(&unknown, &assignments), ProjectSide::Server);
    assert_eq!(chosen_side(&unknown, &Vec::new()), ProjectSide::Unknown);
}

#[test]
fn manifest_lines_and_warnings_name_the_files() {
    let client = item("Client Mod", "client.jar", ProjectSide::Client);
    assert_eq!(manifest_entry("Cliente", &client), "Cliente/client.jar (Client Mod)");
    assert_eq!(
        missing_file_warning(&client),
        "Client Mod foi ignorado porque o arquivo client.jar não existe mais na pasta de mods."
    );
    assert_eq!(export_folder_name("pack", 1), "pack-mods-organizados");
    assert_eq!(export_folder_name("pack", 12), "pack-mods-organizados-12");
}

#[test]
fn the_manifest_lists_files_by_name() {
    let entries = vec!["Servidor/b.jar (B)".to_string(), "Cliente/a.jar (A)".to_string()];
    let manifest = organization_manifest("Pack", "1.20.1", ModLoader::Fabric, "agora", &entries, &Vec::new());
    assert_eq!(
        manifest,
        "Mosaic Modpack Studio 0.12.0\r\nModpack: Pack\r\nMinecraft: 1.20.1 · fabric\r\nGerado em: agora\r\nArquivos ignorados: 0\r\n\r\nCliente/a.jar (A)\r\nServidor/b.jar (B)\r\n"
    );
    let warnings = vec!["x sumiu".to_string()];
    let manifest = organization_manifest("Pack", "1.20.1", ModLoader::Forge, "agora", &Vec::new(), &warnings);
    assert!(manifest.ends_with("Arquivos ignorados: 1\r\n\r\n\r\n\r\nAVISOS\r\nx sumiu\r\n"));
}

#[test]
fn items_and_summaries_keep_the_installed_identity() {
    let mod_entry = installed(ProviderId::Curseforge, "123");
    let summary = synthetic_summary(&mod_entry);
    assert_eq!(summary.provider, ProviderId::Curseforge);
    assert_eq!(summary.project_id, "123");
    assert_eq!(summary.name, "123 name");
    assert_eq!(summary.side, ProjectSide::Unknown);
    let stored = organization_item(mod_entry, ProjectSide::Both, OrganizationClassificationSource::CrossProvider);
    assert_eq!(stored.item.project, ProjectRef { provider: ProviderId::Curseforge, project_id: "123".into() });
    assert_eq!(stored.item.filename, "123.jar");
    assert_eq!(stored.item.side, ProjectSide::Both);
}

fn profile_with(mods: Vec<InstalledMod>, updated_at: &str) -> ModpackProfile {
    ModpackProfile {
        id: "p".into(),
        name: "Pack".into(),
        description: String::new(),
        target: ProfileTarget {
            minecraft_version: "1.20.1".into(),
            loader: ModLoader::Fabric,
            release_channels: vec![ReleaseChannel::Release],
        },
        instance_path: "/instances/pack".into(),
        created_at: String::new(),
        updated_at: updated_at.into(),
        mods,
    }
}

#[test]
fn organizing_needs_mods_and_an_unchanged_profile_of_the_plan() {
    assert_eq!(
        check_organizable(&profile_with(Vec::new(), "1")).unwrap_err().text(),
        "Este modpack não possui mods instalados para organizar."
    );
    let profile = profile_with(vec![installed(ProviderId::Modrinth, "sodium")], "1");
    assert!(check_organizable(&profile).is_ok());
    assert!(check_plan_owner("p", "p").is_ok());
    assert_eq!(check_plan_owner("p", "q").unwrap_err().text(), "Esta classificação pertence a outro modpack.");
    assert!(check_classified_unchanged(&profile, "1").is_ok());
    assert_eq!(
        check_classified_unchanged(&profile, "0").unwrap_err().text(),
        "O modpack mudou depois da análise. Classifique os mods novamente."
    );
    assert_eq!(
        check_exported_unchanged(&profile, "0").unwrap_err().text(),
        "O modpack mudou durante a exportação. As pastas geradas foram descartadas."
    );
}

#[test]
fn exports_stay_outside_the_active_mods_folder() {
    assert!(check_export_destination("/home/user/exports", "/instances/pack/mods").is_ok());
    assert!(check_export_destination("/instances/pack", "/instances/pack/mods").is_ok());
    assert_eq!(
        check_export_destination("/instances/pack/mods/sub", "/instances/pack/mods").unwrap_err().text(),
        "Escolha um destino fora da pasta ativa de mods para evitar JARs duplicados no loader."
    );
    assert!(check_export_destination("/instances/pack/mods", "/instances/pack/mods").is_err());
    assert!(check_export_destination("/instances/pack/mods-old", "/instances/pack/mods").is_ok());
}

#[test]
fn exported_files_keep_bare_names() {
    assert_eq!(organized_file_name("sodium.jar").unwrap(), "sodium.jar");
    assert_eq!(organized_file_name("sub/sodium.jar").unwrap_err().text(), "Um mod registrado possui um caminho inseguro.");
    assert_eq!(organized_file_name("..").unwrap_err().text(), "Um mod possui um nome de arquivo inválido.");
}

#[test]
fn finds_jar_files_by_extension_and_name() {
    assert!(has_jar_extension("sodium.jar"));
    assert!(has_jar_extension("Sodium.JAR"));
    assert!(has_jar_extension("a.b.Jar"));
    assert!(!has_jar_extension(".jar"));
    assert!(!has_jar_extension("jar"));
    assert!(!has_jar_extension("sodium.jar.disabled"));
    assert!(!has_jar_extension(".."));
    let names = vec!["Lithium.jar".to_string(), "sodium.jar".to_string(), "SODIUM.JAR".to_string()];
    assert_eq!(first_with_name(&names, "Sodium.jar"), Some(1));
    assert_eq!(first_with_name(&names, "iris.jar"), None);
}

#[test]
fn classified_items_are_shown_by_name() {
    let stored = |name: &str| StoredOrganizationItem {
        item: ModOrganizationItem {
            project: ProjectRef { provider: ProviderId::Modrinth, project_id: name.into() },
            name: name.into(),
            filename: format!("{name}.jar"),
            side: ProjectSide::Unknown,
            source: OrganizationClassificationSource::Unknown,
        },
        hashes: Vec::new(),
    };
    let sorted = sort_items_by_name(vec![stored("zeta"), stored("Alpha"), stored("beta")]);
    let names: Vec<String> = sorted.into_iter().map(|entry| entry.item.name).collect();
    assert_eq!(names, vec!["Alpha", "beta", "zeta"]);
}
