//! How CurseForge's numeric codes map onto the library's vocabulary, and
//! the summary lists built from a mod's file indexes.
use crate::domain::{DependencyType, ModLoader, ReleaseChannel};
use crate::sort::{sort_by_text, sorted_by_text, text_keyed};
use crate::text::{chars_of, string_of, text_equal};
use vstd::prelude::*;

verus! {

/// CurseForge's id for a loader.
pub open spec fn loader_code(loader: ModLoader) -> u8 {
    match loader {
        ModLoader::Forge => 1,
        ModLoader::Fabric => 4,
        ModLoader::Quilt => 5,
        ModLoader::Neoforge => 6,
    }
}

/// The loader a CurseForge id stands for, if any.
pub open spec fn loader_of_code(id: u8) -> Option<ModLoader> {
    if id == 1 {
        Some(ModLoader::Forge)
    } else if id == 4 {
        Some(ModLoader::Fabric)
    } else if id == 5 {
        Some(ModLoader::Quilt)
    } else if id == 6 {
        Some(ModLoader::Neoforge)
    } else {
        None
    }
}

/// CurseForge's numeric id of a loader.
pub fn loader_id(loader: ModLoader) -> (r: u8)
    ensures
        r == loader_code(loader),
{
    match loader {
        ModLoader::Forge => 1,
        ModLoader::Fabric => 4,
        ModLoader::Quilt => 5,
        ModLoader::Neoforge => 6,
    }
}

/// The loader a CurseForge loader id stands for, if any.
pub fn loader_from_id(id: u8) -> (r: Option<ModLoader>)
    ensures
        r == loader_of_code(id),
{
    match id {
        1 => Some(ModLoader::Forge),
        4 => Some(ModLoader::Fabric),
        5 => Some(ModLoader::Quilt),
        6 => Some(ModLoader::Neoforge),
        _ => None,
    }
}

/// Every loader's id reads back as that loader, and an id that reads as a
/// loader is that loader's id.
pub proof fn lemma_loader_codes_round_trip(loader: ModLoader, id: u8)
    ensures
        loader_of_code(loader_code(loader)) == Some(loader),
        loader_of_code(id) == Some(loader) ==> loader_code(loader) == id,
{
}

/// The release channel of a CurseForge release type: 2 is beta, 3 alpha,
/// anything else a release.
pub fn channel_from_id(id: u8) -> (r: ReleaseChannel)
    ensures
        r == if id == 2 {
            ReleaseChannel::Beta
        } else if id == 3 {
            ReleaseChannel::Alpha
        } else {
            ReleaseChannel::Release
        },
{
    match id {
        2 => ReleaseChannel::Beta,
        3 => ReleaseChannel::Alpha,
        _ => ReleaseChannel::Release,
    }
}

/// The dependency kind of a CurseForge relation type; tools (4) and unknown
/// relations are not dependencies.
pub fn dependency_from_id(id: u8) -> (r: Option<DependencyType>)
    ensures
        r == if id == 1 || id == 6 {
            Some(DependencyType::Embedded)
        } else if id == 2 {
            Some(DependencyType::Optional)
        } else if id == 3 {
            Some(DependencyType::Required)
        } else if id == 5 {
            Some(DependencyType::Incompatible)
        } else {
            None
        },
{
    match id {
        1 | 6 => Some(DependencyType::Embedded),
        2 => Some(DependencyType::Optional),
        3 => Some(DependencyType::Required),
        5 => Some(DependencyType::Incompatible),
        _ => None,
    }
}

/// Some file index names this loader.
pub open spec fn names_loader(ids: Seq<u8>, loader: ModLoader) -> bool {
    exists|k: int| 0 <= k < ids.len() && #[trigger] loader_of_code(ids[k]) == Some(loader)
}

/// The loaders a mod's file indexes name, each once, ordered by name
/// (fabric, forge, neoforge, quilt).
pub open spec fn loaders_named(ids: Seq<u8>) -> Seq<ModLoader> {
    let a: Seq<ModLoader> = if names_loader(ids, ModLoader::Fabric) { seq![ModLoader::Fabric] } else { seq![] };
    let b = if names_loader(ids, ModLoader::Forge) { a.push(ModLoader::Forge) } else { a };
    let c = if names_loader(ids, ModLoader::Neoforge) { b.push(ModLoader::Neoforge) } else { b };
    if names_loader(ids, ModLoader::Quilt) { c.push(ModLoader::Quilt) } else { c }
}

fn any_names(ids: &Vec<u8>, loader: ModLoader) -> (r: bool)
    ensures
        r == names_loader(ids@, loader),
{
    let mut i: usize = 0;
    while i < ids.len()
        invariant
            i <= ids.len(),
            forall|k: int| 0 <= k < i ==> #[trigger] loader_of_code(ids@[k]) != Some(loader),
        decreases ids.len() - i,
    {
        if loader_from_id(ids[i]) == Some(loader) {
            return true;
        }
        i = i + 1;
    }
    false
}

/// The loaders among CurseForge's loader ids, in order.
pub fn supported_loaders(ids: &Vec<u8>) -> (r: Vec<ModLoader>)
    ensures
        r@ == loaders_named(ids@),
{
    let mut r: Vec<ModLoader> = Vec::new();
    if any_names(ids, ModLoader::Fabric) {
        r.push(ModLoader::Fabric);
    }
    if any_names(ids, ModLoader::Forge) {
        r.push(ModLoader::Forge);
    }
    if any_names(ids, ModLoader::Neoforge) {
        r.push(ModLoader::Neoforge);
    }
    if any_names(ids, ModLoader::Quilt) {
        r.push(ModLoader::Quilt);
    }
    assert(r@ =~= loaders_named(ids@));
    r
}

/// A sequence with each run of equal neighbours kept once.
pub open spec fn without_repeats(s: Seq<Seq<char>>) -> Seq<Seq<char>>
    decreases s.len(),
{
    if s.len() == 0 {
        Seq::empty()
    } else {
        let prev = without_repeats(s.drop_last());
        if s.len() >= 2 && s[s.len() - 2] == s.last() {
            prev
        } else {
            prev.push(s.last())
        }
    }
}

pub open spec fn unit_keyed(s: Seq<String>) -> Seq<(Seq<char>, ())> {
    s.map_values(|v: String| (v@, ()))
}

pub open spec fn keys_of(s: Seq<(Seq<char>, ())>) -> Seq<Seq<char>> {
    s.map_values(|p: (Seq<char>, ())| p.0)
}

pub open spec fn string_views(s: Seq<String>) -> Seq<Seq<char>> {
    s.map_values(|v: String| v@)
}

/// The Minecraft versions of a mod's file indexes, sorted, each once.
pub fn supported_versions(game_versions: &Vec<String>) -> (r: Vec<String>)
    ensures
        string_views(r@) == without_repeats(keys_of(sorted_by_text(unit_keyed(game_versions@)))),
{
    let mut pairs: Vec<(Vec<char>, ())> = Vec::new();
    let mut i: usize = 0;
    while i < game_versions.len()
        invariant
            i <= game_versions.len(),
            text_keyed(pairs@) == unit_keyed(game_versions@.take(i as int)),
        decreases game_versions.len() - i,
    {
        let ghost before = text_keyed(pairs@);
        let key = chars_of(game_versions[i].as_str());
        let ghost entry = (key@, ());
        pairs.push((key, ()));
        assert(text_keyed(pairs@) =~= before.push(entry));
        assert(game_versions@.take(i + 1) =~= game_versions@.take(i as int).push(game_versions@[i as int]));
        i = i + 1;
        assert(text_keyed(pairs@) =~= unit_keyed(game_versions@.take(i as int)));
    }
    assert(game_versions@.take(game_versions.len() as int) =~= game_versions@);
    let sorted = sort_by_text(pairs);
    let ghost keys = keys_of(text_keyed(sorted@));
    let mut r: Vec<String> = Vec::new();
    let mut k: usize = 0;
    while k < sorted.len()
        invariant
            k <= sorted.len(),
            keys == keys_of(text_keyed(sorted@)),
            string_views(r@) == without_repeats(keys.take(k as int)),
        decreases sorted.len() - k,
    {
        proof {
            assert(keys.take(k + 1).drop_last() =~= keys.take(k as int));
            assert(keys[k as int] == sorted@[k as int].0@);
        }
        let repeat = k > 0 && text_equal(&sorted[k - 1].0, &sorted[k].0);
        if !repeat {
            let ghost before = string_views(r@);
            r.push(string_of(sorted[k].0.as_slice()));
            assert(string_views(r@) =~= before.push(keys[k as int]));
        } else {
            assert(keys.take(k + 1)[k - 1] == sorted@[k - 1].0@);
        }
        k = k + 1;
    }
    assert(keys.take(sorted.len() as int) =~= keys);
    r
}

} // verus!
