use mosaic_core::domain::{
    CreateProfileInput, InstallReason, InstalledMod, ModLoader, ModpackProfile, ProfileTarget, ProviderId,
    ReleaseChannel, UpdateProfileInput,
};
use mosaic_core::download::file_name;
use mosaic_core::error::AppError;
use mosaic_core::graph::GraphEntry;
use mosaic_core::install_record::InstallGraphEntry;
use mosaic_core::profile_records::{
    default_profile_input, draft_duplicate, draft_profile, ensure_copy_source_unchanged, ensure_unchanged, find_profile, lockfile, most_recent_first,
    profile_folder, profile_from_draft, profile_position, record_installed, record_removed, registered_mod_filename,
    removable_mod_filename, remove_profile,
    replace_scanned_instance, update_profile, ProfileFolder,
};

fn target() -> ProfileTarget {
    ProfileTarget {
        minecraft_version: "1.21.1".into(),
        loader: ModLoader::Fabric,
        release_channels: vec![ReleaseChannel::Release],
    }
}

fn stored(id: &str, updated_at: &str) -> ModpackProfile {
    ModpackProfile {
        id: id.into(),
        name: format!("Perfil {id}"),
        description: String::new(),
        target: target(),
        instance_path: format!("/instances/{id}"),
        created_at: "2024-01-01T00:00:00+00:00".into(),
        updated_at: updated_at.into(),
        mods: Vec::new(),
    }
}

fn installed(project_id: &str, reason: InstallReason) -> InstalledMod {
    InstalledMod {
        provider: ProviderId::Modrinth,
        project_id: project_id.into(),
        name: project_id.into(),
        version_id: "v1".into(),
        version_number: "1.0".into(),
        filename: format!("{project_id}.jar"),
        installed_at: String::new(),
        reason,
        hashes: Vec::new(),
        enabled: true,
        required_dependencies: None,
    }
}

fn message<T>(result: Result<T, AppError>) -> String {
    match result {
        Ok(_) => panic!("expected an error"),
        Err(error) => error.text(),
    }
}

#[test]
fn finds_profiles_by_id_and_reports_missing_ones() {
    let profiles = vec![stored("a", "1"), stored("b", "2")];
    assert_eq!(profile_position(&profiles, "b"), Some(1));
    assert_eq!(profile_position(&profiles, "c"), None);
    assert_eq!(find_profile(&profiles, "a").unwrap().instance_path, "/instances/a");
    assert_eq!(message(find_profile(&profiles, "c")), "Este perfil não existe mais.");
}

#[test]
fn updates_name_and_description_trimmed() {
    let mut profiles = vec![stored("a", "1"), stored("b", "2")];
    let input = UpdateProfileInput { name: "  Novo nome ".into(), description: " Texto  ".into() };
    let updated = update_profile(&mut profiles, "b", &input, "3".into()).unwrap();
    assert_eq!(updated.name, "Novo nome");
    assert_eq!(updated.description, "Texto");
    assert_eq!(updated.updated_at, "3");
    assert_eq!(profiles[1].name, "Novo nome");
    assert_eq!(profiles[0].name, "Perfil a");
    assert_eq!(profiles[0].updated_at, "1");
}

#[test]
fn refuses_blank_names_before_looking_up_the_profile() {
    let mut profiles = vec![stored("a", "1")];
    let blank = UpdateProfileInput { name: "   ".into(), description: String::new() };
    assert_eq!(message(update_profile(&mut profiles, "missing", &blank, "2".into())), "O nome deve ter entre 1 e 80 caracteres.");
    let fine = UpdateProfileInput { name: "Nome".into(), description: String::new() };
    assert_eq!(message(update_profile(&mut profiles, "missing", &fine, "2".into())), "Perfil não encontrado.");
    assert_eq!(profiles[0].name, "Perfil a");
}

#[test]
fn replaces_a_rescanned_instance_only_when_unchanged() {
    let mut profiles = vec![stored("a", "1")];
    let stale = replace_scanned_instance(
        &mut profiles,
        "a",
        "/new".into(),
        target(),
        vec![installed("sodium", InstallReason::Requested)],
        "0",
        "2".into(),
    );
    assert_eq!(
        message(stale),
        "O modpack mudou enquanto a pasta era analisada. Faça uma nova análise antes de substituir."
    );
    assert_eq!(profiles[0].instance_path, "/instances/a");
    let replaced = replace_scanned_instance(
        &mut profiles,
        "a",
        "/new".into(),
        target(),
        vec![installed("sodium", InstallReason::Requested)],
        "1",
        "2".into(),
    )
    .unwrap();
    assert_eq!(replaced.instance_path, "/new");
    assert_eq!(replaced.mods.len(), 1);
    assert_eq!(profiles[0].updated_at, "2");
    let mut no_channels = target();
    no_channels.release_channels.clear();
    assert_eq!(
        message(replace_scanned_instance(&mut profiles, "a", "/x".into(), no_channels, Vec::new(), "2", "3".into())),
        "Selecione pelo menos um canal de lançamento."
    );
}

#[test]
fn records_installations_and_removals() {
    let mut profiles = vec![stored("a", "1")];
    assert_eq!(
        message(record_installed(&mut profiles, "x", Vec::new(), &Vec::new(), "2".into())),
        "Perfil não encontrado durante a instalação."
    );
    let graph = vec![InstallGraphEntry {
        key: "modrinth:sodium".into(),
        reason: InstallReason::Requested,
        dependencies: Vec::new(),
    }];
    let after = record_installed(
        &mut profiles,
        "a",
        vec![installed("sodium", InstallReason::Required)],
        &graph,
        "2".into(),
    )
    .unwrap();
    assert_eq!(after.mods.len(), 1);
    assert_eq!(after.mods[0].reason, InstallReason::Requested);
    assert_eq!(after.mods[0].required_dependencies, Some(Vec::new()));
    assert_eq!(profiles[0].updated_at, "2");

    let no_graph: Vec<GraphEntry> = Vec::new();
    assert_eq!(
        message(record_removed(&mut profiles, "a", &vec!["modrinth:sodium".into()], "1", &no_graph, "3".into())),
        "O modpack mudou durante a verificação. Tente remover novamente."
    );
    assert_eq!(profiles[0].mods.len(), 1);
    let removed =
        record_removed(&mut profiles, "a", &vec!["modrinth:sodium".into()], "2", &no_graph, "3".into()).unwrap();
    assert!(removed.mods.is_empty());
    assert_eq!(profiles[0].updated_at, "3");
    assert_eq!(
        message(record_removed(&mut profiles, "z", &Vec::new(), "3", &no_graph, "4".into())),
        "Perfil não encontrado."
    );
}

#[test]
fn checks_the_stamp_before_a_removal() {
    let profile = stored("a", "5");
    assert!(ensure_unchanged(&profile, "5").is_ok());
    assert_eq!(message(ensure_unchanged(&profile, "4")), "O modpack mudou durante a verificação. Tente remover novamente.");
}

#[test]
fn deleting_a_profile_removes_every_copy_of_its_id() {
    let mut profiles = vec![stored("a", "1"), stored("b", "2"), stored("a", "3")];
    remove_profile(&mut profiles, "a");
    assert_eq!(profiles.len(), 1);
    assert_eq!(profiles[0].id, "b");
    remove_profile(&mut profiles, "missing");
    assert_eq!(profiles.len(), 1);
}

#[test]
fn lists_the_most_recently_updated_first() {
    let profiles = vec![
        stored("old", "2024-01-01T00:00:00+00:00"),
        stored("new", "2024-03-01T00:00:00+00:00"),
        stored("tie-first", "2024-02-01T00:00:00+00:00"),
        stored("tie-second", "2024-02-01T00:00:00+00:00"),
    ];
    let ids: Vec<String> = most_recent_first(profiles).into_iter().map(|p| p.id).collect();
    assert_eq!(ids, vec!["new", "tie-first", "tie-second", "old"]);
}

#[test]
fn the_first_profile_targets_fabric_on_the_latest_release() {
    let input = default_profile_input();
    assert_eq!(input.name, "Meu primeiro modpack");
    assert_eq!(input.description.as_deref(), Some("Uma base limpa para sua próxima aventura."));
    assert_eq!(input.target.minecraft_version, "1.21.1");
    assert_eq!(input.target.loader, ModLoader::Fabric);
    assert_eq!(input.target.release_channels, vec![ReleaseChannel::Release, ReleaseChannel::Beta]);
    assert!(input.instance_path.is_none());
}

#[test]
fn drafts_a_profile_with_a_fresh_id_and_a_default_folder() {
    let draft = draft_profile(default_profile_input()).unwrap();
    assert_eq!(draft.id.len(), 36);
    assert_eq!(draft.name, "Meu primeiro modpack");
    match &draft.folder {
        ProfileFolder::UnderDefault { folder, short_id } => {
            assert_eq!(folder, "meu-primeiro-modpack");
            assert_eq!(short_id, &draft.id[..8]);
        }
        ProfileFolder::Chosen(_) => panic!("no folder was chosen"),
    }
    let profile = profile_from_draft(draft, "/root/pack".into(), Vec::new(), "2024-05-01T00:00:00+00:00".into());
    assert_eq!(profile.instance_path, "/root/pack");
    assert_eq!(profile.created_at, profile.updated_at);
    assert!(profile.mods.is_empty());
}

#[test]
fn drafts_keep_a_chosen_folder_and_trim_the_description() {
    let input = CreateProfileInput {
        name: "  Aventura ".into(),
        description: Some("  longa  ".into()),
        target: target(),
        instance_path: Some("/games/aventura".into()),
    };
    let draft = draft_profile(input).unwrap();
    assert_eq!(draft.name, "Aventura");
    assert_eq!(draft.description, "longa");
    assert!(matches!(&draft.folder, ProfileFolder::Chosen(path) if path == "/games/aventura"));
    let bad = CreateProfileInput {
        name: "Pack".into(),
        description: None,
        target: ProfileTarget { minecraft_version: "  ".into(), loader: ModLoader::Fabric, release_channels: vec![ReleaseChannel::Release] },
        instance_path: None,
    };
    assert_eq!(message(draft_profile(bad)), "Versão do Minecraft inválida.");
}

#[test]
fn folders_fall_back_to_the_default_root_for_blank_choices() {
    let folder = profile_folder(&Some("   ".into()), "Meu Pack!", "abcdefgh-ijkl");
    match folder {
        ProfileFolder::UnderDefault { folder, short_id } => {
            assert_eq!(folder, "meu-pack");
            assert_eq!(short_id, "abcdefgh");
        }
        ProfileFolder::Chosen(_) => panic!("a blank folder is no choice"),
    }
    match profile_folder(&None, "x", "ação-1234") {
        ProfileFolder::UnderDefault { short_id, .. } => assert_eq!(short_id, "ação-1"),
        ProfileFolder::Chosen(_) => panic!("no folder was chosen"),
    }
}

#[test]
fn lockfiles_name_their_format_and_writer() {
    let file = lockfile(stored("a", "1"), "2024-05-01T00:00:00+00:00".into());
    assert_eq!(file.format_version, 1);
    assert_eq!(file.generated_by, "Mosaic Modpack Studio 0.14.0");
    assert_eq!(file.generated_at, "2024-05-01T00:00:00+00:00");
    assert_eq!(file.profile.id, "a");
}

#[test]
fn drafts_a_copy_with_the_source_target_and_a_trimmed_description() {
    let source = stored("a", "7");
    let draft = draft_duplicate(&source, " Cópia ", &Some("  nova  ".into()), &None).unwrap();
    assert_eq!(draft.name, "Cópia");
    assert_eq!(draft.description, "nova");
    assert_eq!(draft.target, source.target);
    assert!(matches!(&draft.folder, ProfileFolder::UnderDefault { folder, .. } if folder == "c-pia"));
    let copy = profile_from_draft(draft, "/copies/a".into(), vec![installed("sodium", InstallReason::Requested)], "9".into());
    assert_eq!(copy.mods.len(), 1);
    assert_eq!(copy.updated_at, "9");
    let long = "a".repeat(301);
    assert_eq!(
        message(draft_duplicate(&source, "Cópia", &Some(long), &None)),
        "A descrição deve ter no máximo 300 caracteres."
    );
    assert!(ensure_copy_source_unchanged(&source, "7").is_ok());
    assert_eq!(
        message(ensure_copy_source_unchanged(&source, "6")),
        "O modpack original mudou durante a cópia. A operação foi cancelada; tente novamente."
    );
}

#[test]
fn registered_files_must_be_bare_names() {
    assert_eq!(file_name("mods/sodium.jar").as_deref(), Some("sodium.jar"));
    assert_eq!(file_name("/"), None);
    assert_eq!(file_name(".."), None);
    assert_eq!(registered_mod_filename("sodium.jar").unwrap(), "sodium.jar");
    assert_eq!(message(registered_mod_filename("../sodium.jar")), "Um mod registrado possui um caminho inseguro.");
    assert_eq!(message(registered_mod_filename("..")), "Um mod possui nome de arquivo inválido.");
    assert_eq!(removable_mod_filename("lithium.jar").unwrap(), "lithium.jar");
    assert_eq!(message(removable_mod_filename("a/lithium.jar")), "Um arquivo registrado possui um caminho inseguro.");
    assert_eq!(message(removable_mod_filename("")), "Nome de arquivo inválido.");
}

#[test]
fn reinstalling_a_requested_mod_keeps_it_requested() {
    let mut profile = stored("a", "1");
    profile.mods = vec![installed("sodium", InstallReason::Requested), installed("lithium", InstallReason::Required)];
    let mut profiles = vec![profile];
    let graph = vec![
        InstallGraphEntry { key: "modrinth:sodium".into(), reason: InstallReason::Required, dependencies: Vec::new() },
        InstallGraphEntry { key: "modrinth:lithium".into(), reason: InstallReason::Requested, dependencies: Vec::new() },
    ];
    let after = record_installed(
        &mut profiles,
        "a",
        vec![installed("sodium", InstallReason::Required), installed("lithium", InstallReason::Required)],
        &graph,
        "2".into(),
    )
    .unwrap();
    assert_eq!(after.mods.len(), 2);
    let sodium = after.mods.iter().find(|m| m.project_id == "sodium").unwrap();
    let lithium = after.mods.iter().find(|m| m.project_id == "lithium").unwrap();
    assert_eq!(sodium.reason, InstallReason::Requested);
    assert_eq!(lithium.reason, InstallReason::Requested);
}
