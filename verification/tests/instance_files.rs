use mosaic_core::domain::ModLoader;
use mosaic_core::import::{check_rescan_apply, instance_root, same_snapshot, InstanceRoot, JarSnapshot};
use mosaic_core::json::{
    find_string, instance_target, minecraft_versions_from_value, target_from_json, target_from_mmc_pack, JsonValue,
};

fn text(s: &str) -> JsonValue {
    JsonValue::Text(s.into())
}

fn object(members: Vec<(&str, JsonValue)>) -> JsonValue {
    let mut members: Vec<(String, JsonValue)> = members.into_iter().map(|(k, v)| (k.to_string(), v)).collect();
    members.sort_by(|a, b| a.0.cmp(&b.0));
    JsonValue::Object(members)
}

#[test]
fn detects_a_curseforge_instance_file() {
    let document = object(vec![
        ("gameVersion", text("1.20.1")),
        ("baseModLoader", object(vec![("name", text("forge-47.2.0"))])),
    ]);
    let (version, loader) = target_from_json(&document);
    assert_eq!(version.as_deref(), Some("1.20.1"));
    assert_eq!(loader, Some(ModLoader::Forge));
}

#[test]
fn detects_a_prism_pack_file() {
    let document = object(vec![(
        "components",
        JsonValue::Array(vec![
            object(vec![("uid", text("net.minecraft")), ("version", text("1.21.1"))]),
            object(vec![("uid", text("net.fabricmc.fabric-loader")), ("version", text("0.16.0"))]),
        ]),
    )]);
    let (version, loader) = target_from_mmc_pack(&document);
    assert_eq!(version.as_deref(), Some("1.21.1"));
    assert_eq!(loader, Some(ModLoader::Fabric));
}

#[test]
fn strings_are_found_depth_first() {
    let document = object(vec![
        ("a", object(vec![("loader", text("quilt"))])),
        ("loader", JsonValue::Other),
        ("modLoader", text("neoforge")),
    ]);
    assert_eq!(find_string(&document, &vec!["loader", "modLoader"]).as_deref(), Some("neoforge"));
    assert_eq!(find_string(&document, &vec!["loader"]).as_deref(), Some("quilt"));
    assert_eq!(find_string(&text("loader"), &vec!["loader"]), None);
}

#[test]
fn non_version_text_is_not_a_version() {
    let document = object(vec![("minecraft_version", text("latest")), ("loader", text("fabric-loader"))]);
    let (version, loader) = target_from_json(&document);
    assert_eq!(version, None);
    assert_eq!(loader, Some(ModLoader::Fabric));
}

#[test]
fn fabric_metadata_names_its_minecraft_versions() {
    let document = object(vec![
        ("schemaVersion", JsonValue::Other),
        ("depends", object(vec![("minecraft", JsonValue::Array(vec![text(">=1.20.1"), text("~1.21")]))])),
    ]);
    assert_eq!(minecraft_versions_from_value(&document), vec!["1.21".to_string(), "1.20.1".to_string()]);
    let forge_style = JsonValue::Array(vec![object(vec![("id", text("Minecraft")), ("versionRange", text("[1.20.1,1.21)"))])]);
    assert_eq!(minecraft_versions_from_value(&forge_style), vec!["1.20.1".to_string()]);
}

#[test]
fn instance_files_are_read_until_the_target_is_known() {
    let curseforge = object(vec![("gameVersion", text("1.20.1"))]);
    let prism = object(vec![(
        "components",
        JsonValue::Array(vec![object(vec![("uid", text("net.minecraftforge")), ("version", text("47"))])]),
    )]);
    let documents = vec![Some(curseforge), Some(prism), None, None];
    let target = instance_target(&documents, &Some("IntendedVersion=1.19.2\nfabric=1".to_string()));
    assert_eq!(target.minecraft_version.as_deref(), Some("1.20.1"));
    assert_eq!(target.loader, Some(ModLoader::Forge));
    assert_eq!(target.sources, vec!["perfil do CurseForge".to_string(), "perfil do Prism/MultiMC".to_string()]);
}

#[test]
fn the_instance_configuration_fills_the_gaps() {
    let documents = vec![None, None, Some(object(vec![("loader", text("fabric"))])), None];
    let target = instance_target(&documents, &Some("IntendedVersion=1.19.2\n".to_string()));
    assert_eq!(target.minecraft_version.as_deref(), Some("1.19.2"));
    assert_eq!(target.loader, Some(ModLoader::Fabric));
    assert_eq!(target.sources, vec!["perfil do Modrinth".to_string(), "configuração do Prism/MultiMC".to_string()]);
}

fn snap(filename: &str, sha1: &str) -> JarSnapshot {
    JarSnapshot { filename: filename.into(), sha1: sha1.into() }
}

#[test]
fn applies_a_rescan_only_to_an_unchanged_folder_of_its_profile() {
    let scanned = vec![snap("a.jar", "11"), snap("b.jar", "22")];
    assert!(same_snapshot(&scanned, &vec![snap("a.jar", "11"), snap("b.jar", "22")]));
    assert!(!same_snapshot(&scanned, &vec![snap("a.jar", "11"), snap("b.jar", "23")]));
    assert!(!same_snapshot(&scanned, &vec![snap("a.jar", "11")]));
    assert!(check_rescan_apply("p", "p", &scanned, &scanned).is_ok());
    assert_eq!(
        check_rescan_apply("p", "q", &scanned, &scanned).unwrap_err().text(),
        "A análise não pertence ao modpack selecionado."
    );
    assert_eq!(
        check_rescan_apply("p", "p", &scanned, &vec![snap("a.jar", "11")]).unwrap_err().text(),
        "A pasta de mods mudou depois da análise. Nada foi substituído; faça uma nova análise para usar os arquivos atuais."
    );
}

#[test]
fn a_chosen_folder_is_the_instance_or_its_mods_folder() {
    assert_eq!(instance_root(true, &Some("MyPack".into())).unwrap(), InstanceRoot::Chosen);
    assert_eq!(instance_root(false, &Some("MODS".into())).unwrap(), InstanceRoot::Parent);
    assert_eq!(instance_root(true, &Some("mods".into())).unwrap(), InstanceRoot::Chosen);
    assert_eq!(
        instance_root(false, &Some("saves".into())).unwrap_err().text(),
        "Escolha a pasta da instância que contém mods, ou a própria pasta chamada mods."
    );
    assert!(instance_root(false, &None).is_err());
}
