use mosaic_core::domain::{InstallReason, InstalledMod, ProjectRef, ProviderId};
use mosaic_core::profiles::{
    render_mod_list, safe_folder_name, validate_distinct_instance_paths, validate_profile_metadata,
};

fn listed(filename: &str, name: &str) -> InstalledMod {
    InstalledMod {
        provider: ProviderId::Modrinth,
        project_id: filename.into(),
        name: name.into(),
        version_id: "version".into(),
        version_number: "1".into(),
        filename: filename.into(),
        installed_at: String::new(),
        reason: InstallReason::Requested,
        hashes: Vec::new(),
        enabled: true,
        required_dependencies: Some(Vec::new()),
    }
}

fn with_dependencies(project_id: &str, name: &str, reason: InstallReason, dependencies: &[&str]) -> InstalledMod {
    InstalledMod {
        provider: ProviderId::Modrinth,
        project_id: project_id.into(),
        name: name.into(),
        version_id: "version".into(),
        version_number: "1".into(),
        filename: format!("{project_id}.jar"),
        installed_at: String::new(),
        reason,
        hashes: Vec::new(),
        enabled: true,
        required_dependencies: Some(
            dependencies
                .iter()
                .map(|project_id| ProjectRef { provider: ProviderId::Modrinth, project_id: (*project_id).into() })
                .collect(),
        ),
    }
}

#[test]
fn validates_editable_profile_metadata() {
    assert!(validate_profile_metadata("Meu modpack", "Uma descrição").is_ok());
    assert!(validate_profile_metadata("   ", "").is_err());
    assert!(validate_profile_metadata("Pack", &"a".repeat(301)).is_err());
}

#[test]
fn renders_a_stable_plain_text_mod_list() {
    let mods = vec![listed("sodium.jar", "Sodium"), listed("JEI12021.23-forge.jar", "Just Enough\nItems")];

    assert_eq!(render_mod_list(&mods), "JEI12021.23-forge.jar (Just Enough Items)\r\nsodium.jar (Sodium)\r\n");
}

#[test]
fn annotates_shared_and_transitive_dependencies_in_the_mod_list() {
    let mods = vec![
        with_dependencies("alpha", "Mod Alpha", InstallReason::Requested, &["library"]),
        with_dependencies("beta", "Mod\nBeta", InstallReason::Requested, &["core"]),
        with_dependencies("library", "Library", InstallReason::Required, &["core"]),
        with_dependencies("core", "Core", InstallReason::Required, &[]),
    ];

    assert_eq!(
        render_mod_list(&mods),
        [
            "alpha.jar (Mod Alpha)\r\n",
            "beta.jar (Mod Beta)\r\n",
            "core.jar (Core) (DEPENDÊNCIA DE: Mod Alpha, Mod Beta)\r\n",
            "library.jar (Library) (DEPENDÊNCIA DE: Mod Alpha)\r\n",
        ]
        .concat()
    );
}

#[test]
fn dependency_annotations_tolerate_cycles() {
    let cyclic = |project_id: &str, depends_on: &str| {
        with_dependencies(project_id, &project_id.to_uppercase(), InstallReason::Required, &[depends_on])
    };

    let output = render_mod_list(&vec![cyclic("a", "b"), cyclic("b", "a")]);
    assert!(output.contains("a.jar (A) (DEPENDÊNCIA DE: B)"));
    assert!(output.contains("b.jar (B) (DEPENDÊNCIA DE: A)"));
}

#[test]
fn refuses_overlapping_instance_paths() {
    let source = "C:/packs/original";
    assert!(validate_distinct_instance_paths(source, source).is_err());
    assert!(validate_distinct_instance_paths(source, "C:/packs/original/copy").is_err());
    assert!(validate_distinct_instance_paths(source, "C:/packs").is_err());
    assert!(validate_distinct_instance_paths(source, "C:/copies/pack").is_ok());
}

#[test]
fn profile_names_become_safe_folder_names() {
    assert_eq!(safe_folder_name("Pack de Teste!"), "pack-de-teste");
    assert_eq!(safe_folder_name("???"), "modpack");
}

#[test]
fn metadata_errors_name_the_offending_field() {
    let long_name = "n".repeat(81);
    let error = validate_profile_metadata(&long_name, "").unwrap_err();
    assert_eq!(error.text(), "O nome deve ter entre 1 e 80 caracteres.");
    let error = validate_profile_metadata("Pack", &"d".repeat(301)).unwrap_err();
    assert_eq!(error.text(), "A descrição deve ter no máximo 300 caracteres.");
}
