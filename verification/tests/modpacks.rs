use mosaic_core::domain::{DownloadFile, ModLoader, ProfileTarget, ProjectVersion, ProviderId, ReleaseChannel};
use mosaic_core::modrinth::{
    check_announced_archive_size, check_archive_size, newest_pack_version, pack_archive_file, read_pack_archive,
    release_versions, target_from_mrpack, GameVersion,
    PACK_ARCHIVE_LIMIT,
};
use std::io::Write;

fn pack_version(id: &str, minecraft: &str, loader: ModLoader, channel: ReleaseChannel, published_at: &str) -> ProjectVersion {
    ProjectVersion {
        provider: ProviderId::Modrinth,
        project_id: "pack".into(),
        version_id: id.into(),
        name: id.into(),
        version_number: "1".into(),
        minecraft_versions: vec![minecraft.into()],
        loaders: vec![loader],
        channel,
        published_at: published_at.into(),
        downloads: 0,
        files: Vec::new(),
        dependencies: Vec::new(),
    }
}

fn file(filename: &str, primary: bool) -> DownloadFile {
    DownloadFile { filename: filename.into(), url: Some(format!("https://cdn.modrinth.com/{filename}")), size: 1, hashes: Vec::new(), primary }
}

fn target() -> ProfileTarget {
    ProfileTarget {
        minecraft_version: "1.20.1".into(),
        loader: ModLoader::Fabric,
        release_channels: vec![ReleaseChannel::Release, ReleaseChannel::Beta],
    }
}

fn archive(entries: &[(&str, &str)]) -> Vec<u8> {
    let mut writer = zip::ZipWriter::new(std::io::Cursor::new(Vec::new()));
    for (name, text) in entries {
        writer
            .start_file(*name, zip::write::SimpleFileOptions::default().compression_method(zip::CompressionMethod::Stored))
            .unwrap();
        writer.write_all(text.as_bytes()).unwrap();
    }
    writer.finish().unwrap().into_inner()
}

#[test]
fn analyses_the_newest_version_that_fits_the_target() {
    let versions = vec![
        pack_version("old", "1.20.1", ModLoader::Fabric, ReleaseChannel::Release, "2024-01-01"),
        pack_version("forge", "1.20.1", ModLoader::Forge, ReleaseChannel::Release, "2024-09-01"),
        pack_version("alpha", "1.20.1", ModLoader::Fabric, ReleaseChannel::Alpha, "2024-08-01"),
        pack_version("new", "1.20.1", ModLoader::Fabric, ReleaseChannel::Beta, "2024-06-01"),
        pack_version("tie", "1.20.1", ModLoader::Fabric, ReleaseChannel::Release, "2024-06-01"),
        pack_version("other", "1.21", ModLoader::Fabric, ReleaseChannel::Release, "2024-12-01"),
    ];
    assert_eq!(newest_pack_version(&versions, &Some(target())).unwrap(), 3);
    assert_eq!(newest_pack_version(&versions, &None).unwrap(), 5);
    let wrong = ProfileTarget { minecraft_version: "1.7.10".into(), ..target() };
    assert_eq!(
        newest_pack_version(&versions, &Some(wrong)).unwrap_err().text(),
        "Este modpack não possui uma versão compatível para analisar."
    );
}

#[test]
fn reads_the_primary_pack_file_first() {
    let files = vec![file("extra.mrpack", false), file("readme.txt", true), file("pack.mrpack", true)];
    assert_eq!(pack_archive_file(&files).unwrap(), 2);
    let files = vec![file("readme.txt", true), file("pack.mrpack", false)];
    assert_eq!(pack_archive_file(&files).unwrap(), 1);
    assert_eq!(
        pack_archive_file(&vec![file("pack.zip", true)]).unwrap_err().text(),
        "A versão não contém um arquivo .mrpack."
    );
}

#[test]
fn refuses_archives_over_sixty_four_megabytes() {
    assert_eq!(PACK_ARCHIVE_LIMIT, 64 * 1024 * 1024);
    assert!(check_announced_archive_size(None).is_ok());
    assert!(check_announced_archive_size(Some(PACK_ARCHIVE_LIMIT)).is_ok());
    assert_eq!(
        check_announced_archive_size(Some(PACK_ARCHIVE_LIMIT + 1)).unwrap_err().text(),
        "O arquivo do modpack é grande demais para a prévia (limite de 64 MB)."
    );
    assert!(check_archive_size(10).is_ok());
    assert_eq!(
        check_archive_size(PACK_ARCHIVE_LIMIT + 1).unwrap_err().text(),
        "O arquivo do modpack excedeu o limite seguro de 64 MB."
    );
}

#[test]
fn reads_the_index_of_a_pack_and_notices_overrides() {
    let bytes = archive(&[("modrinth.index.json", "{\"files\":[]}"), ("overrides/config/a.toml", "x")]);
    let (text, overrides) = read_pack_archive(&bytes).unwrap();
    assert_eq!(text, "{\"files\":[]}");
    assert!(overrides);
    let bytes = archive(&[("modrinth.index.json", "{}"), ("mods/a.jar", "x")]);
    assert!(!read_pack_archive(&bytes).unwrap().1);
    let bytes = archive(&[("readme.txt", "x")]);
    assert_eq!(read_pack_archive(&bytes).unwrap_err().text(), "O .mrpack não contém modrinth.index.json.");
    let refused = read_pack_archive(&b"not a zip".to_vec()).unwrap_err().text();
    assert!(refused.starts_with("Arquivo .mrpack inválido: "));
}

#[test]
fn lists_minecraft_releases_newest_first() {
    let listed = |version: &str, kind: &str, date: &str| GameVersion {
        version: version.into(),
        version_type: kind.into(),
        date: date.into(),
    };
    let versions = vec![
        listed("1.20.1", "release", "2023-06-12"),
        listed("24w10a", "snapshot", "2024-03-06"),
        listed("1.21", "release", "2024-06-13"),
        listed("1.20.6", "release", "2024-04-29"),
    ];
    assert_eq!(release_versions(versions), vec!["1.21", "1.20.6", "1.20.1"]);
}

#[test]
fn reads_the_official_mrpack_index_and_detects_overrides() {
    let mut writer = zip::ZipWriter::new(std::io::Cursor::new(Vec::new()));
    writer.start_file("modrinth.index.json", zip::write::SimpleFileOptions::default()).unwrap();
    writer
        .write_all(br#"{"files":[{"path":"mods/example.jar","hashes":{"sha1":"abc"}}],"dependencies":{"minecraft":"1.21.1","fabric-loader":"0.16"}}"#)
        .unwrap();
    writer.start_file("overrides/config/example.json", zip::write::SimpleFileOptions::default()).unwrap();
    writer.write_all(b"{}").unwrap();
    let bytes = writer.finish().unwrap().into_inner();

    let (index_text, has_overrides) = read_pack_archive(&bytes).unwrap();
    let index: serde_json::Value = serde_json::from_str(&index_text).unwrap();
    let dependencies: Vec<(String, String)> = index["dependencies"]
        .as_object()
        .unwrap()
        .iter()
        .map(|(key, value)| (key.clone(), value.as_str().unwrap().to_string()))
        .collect();

    assert!(has_overrides);
    assert_eq!(index["files"].as_array().unwrap().len(), 1);
    assert_eq!(target_from_mrpack(&dependencies).loader, ModLoader::Fabric);
    assert_eq!(target_from_mrpack(&dependencies).minecraft_version, "1.21.1");
}
