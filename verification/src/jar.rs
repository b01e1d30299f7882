//! The metadata file a mod jar carries for its loader.
use crate::domain::ModLoader;
use crate::modrinth::{archive_entry_size, archive_entry_text, zip_entry_size, zip_entry_text};
use vstd::prelude::*;

verus! {

/// Metadata files larger than this (1 MiB) are not read.
pub const METADATA_LIMIT: u64 = 1048576;

/// The metadata files looked for, in order, with the loader each one names.
pub open spec fn metadata_entry(i: int) -> (Seq<char>, ModLoader) {
    if i == 0 {
        ("fabric.mod.json"@, ModLoader::Fabric)
    } else if i == 1 {
        ("quilt.mod.json"@, ModLoader::Quilt)
    } else if i == 2 {
        ("META-INF/neoforge.mods.toml"@, ModLoader::Neoforge)
    } else {
        ("META-INF/mods.toml"@, ModLoader::Forge)
    }
}

/// The text of an entry of the jar, when the jar opens, the entry exists,
/// is at most `METADATA_LIMIT` bytes and reads as UTF-8.
pub open spec fn metadata_text(jar: Seq<u8>, name: Seq<char>) -> Option<Seq<char>> {
    match zip_entry_size(jar, name) {
        Ok(Some(size)) => if size <= METADATA_LIMIT {
            match zip_entry_text(jar, name) {
                Ok(Some(Ok(text))) => Some(text),
                _ => None,
            }
        } else {
            None
        },
        _ => None,
    }
}

/// The first metadata file, from the `i`-th on, that can be read, with its loader.
pub open spec fn first_metadata_from(jar: Seq<u8>, i: int) -> Option<(ModLoader, Seq<char>)>
    decreases 4 - i,
{
    if i < 0 || i >= 4 {
        None
    } else {
        match metadata_text(jar, metadata_entry(i).0) {
            Some(text) => Some((metadata_entry(i).1, text)),
            None => first_metadata_from(jar, i + 1),
        }
    }
}

/// The metadata a jar carries: Fabric's, else Quilt's, else NeoForge's,
/// else Forge's, whichever can be read first.
pub open spec fn first_metadata(jar: Seq<u8>) -> Option<(ModLoader, Seq<char>)> {
    first_metadata_from(jar, 0)
}

/// Reads one metadata file of the jar, within the size limit.
fn metadata_at(jar: &Vec<u8>, name: &str) -> (r: Option<String>)
    ensures
        match r {
            Some(text) => metadata_text(jar@, name@) == Some(text@),
            None => metadata_text(jar@, name@) is None,
        },
{
    match archive_entry_size(jar, name) {
        Ok(Some(size)) => {
            if size > METADATA_LIMIT {
                return None;
            }
            match archive_entry_text(jar, name) {
                Ok(Some(Ok(text))) => Some(text),
                _ => None,
            }
        },
        _ => None,
    }
}

/// The loader and the text of the first metadata file the jar carries.
pub fn jar_metadata(jar: &Vec<u8>) -> (r: Option<(ModLoader, String)>)
    ensures
        match r {
            Some((loader, text)) => first_metadata(jar@) == Some((loader, text@)),
            None => first_metadata(jar@) is None,
        },
{
    proof {
        reveal_with_fuel(first_metadata_from, 5);
    }
    if let Some(text) = metadata_at(jar, "fabric.mod.json") {
        return Some((ModLoader::Fabric, text));
    }
    if let Some(text) = metadata_at(jar, "quilt.mod.json") {
        return Some((ModLoader::Quilt, text));
    }
    if let Some(text) = metadata_at(jar, "META-INF/neoforge.mods.toml") {
        return Some((ModLoader::Neoforge, text));
    }
    if let Some(text) = metadata_at(jar, "META-INF/mods.toml") {
        return Some((ModLoader::Forge, text));
    }
    None
}

} // verus!
