use mosaic_core::domain::ModLoader;
use mosaic_core::jar::jar_metadata;
use std::io::Write;

fn jar(entries: &[(&str, &str)]) -> Vec<u8> {
    let mut writer = zip::ZipWriter::new(std::io::Cursor::new(Vec::new()));
    for (name, text) in entries {
        writer.start_file(*name, zip::write::SimpleFileOptions::default()).unwrap();
        writer.write_all(text.as_bytes()).unwrap();
    }
    writer.finish().unwrap().into_inner()
}

#[test]
fn fabric_metadata_wins_over_forge() {
    let bytes = jar(&[("META-INF/mods.toml", "forge"), ("fabric.mod.json", "{\"id\":\"x\"}")]);
    let (loader, text) = jar_metadata(&bytes).unwrap();
    assert_eq!(loader, ModLoader::Fabric);
    assert_eq!(text, "{\"id\":\"x\"}");
}

#[test]
fn neoforge_metadata_comes_before_forge() {
    let bytes = jar(&[("META-INF/mods.toml", "forge"), ("META-INF/neoforge.mods.toml", "neo")]);
    assert_eq!(jar_metadata(&bytes), Some((ModLoader::Neoforge, "neo".to_string())));
}

#[test]
fn an_oversized_metadata_file_is_skipped() {
    let huge = "x".repeat(1024 * 1024 + 1);
    let bytes = jar(&[("fabric.mod.json", huge.as_str()), ("quilt.mod.json", "quilt")]);
    assert_eq!(jar_metadata(&bytes), Some((ModLoader::Quilt, "quilt".to_string())));
}

#[test]
fn a_jar_without_metadata_or_a_broken_file_gives_nothing() {
    assert_eq!(jar_metadata(&jar(&[("README.txt", "hi")])), None);
    assert_eq!(jar_metadata(&b"not a zip".to_vec()), None);
}
