//! The stored list of profiles and the changes made to it: lookups by id,
//! edits, replacements after a rescan, removals and recorded installations.
use crate::domain::{
    CreateProfileInput, InstalledMod, ModLoader, ModpackProfile, ProfileTarget, ReleaseChannel, UpdateProfileInput,
};
use crate::error::{fails_with, AppError};
use crate::download::{file_name, file_name_of};
use crate::graph::GraphEntry;
use crate::install_record::{
    deps_refreshed, drop_removed, graph_applied, merge_installed, merged_before_graph, remaining_after,
    InstallGraphEntry,
};
use crate::profiles::{
    folder_name, metadata_problem, safe_folder_name, target_problem, utf8_len, utf8_width, validate_profile_metadata,
    validate_target,
};
use crate::resolver::{hyphenated_uuid, new_uuid_text};
use crate::sort::{sort_by_text_desc, sorted_by_text_desc, text_keyed};
use crate::text::{all_whitespace, chars_of, is_blank, str_equal, string_of, texts, trim, trimmed};
use vstd::prelude::*;

verus! {

/// `i` is the first position of a profile with this id.
pub open spec fn first_with_id(profiles: Seq<ModpackProfile>, id: Seq<char>, i: int) -> bool {
    &&& 0 <= i < profiles.len()
    &&& profiles[i].id@ == id
    &&& forall|j: int| 0 <= j < i ==> (#[trigger] profiles[j]).id@ != id
}

/// Some profile has this id.
pub open spec fn has_profile(profiles: Seq<ModpackProfile>, id: Seq<char>) -> bool {
    exists|i: int| 0 <= i < profiles.len() && (#[trigger] profiles[i]).id@ == id
}

/// The position of the first profile with this id.
pub fn profile_position(profiles: &Vec<ModpackProfile>, id: &str) -> (r: Option<usize>)
    ensures
        match r {
            Some(i) => first_with_id(profiles@, id@, i as int),
            None => !has_profile(profiles@, id@),
        },
{
    let mut i: usize = 0;
    while i < profiles.len()
        invariant
            i <= profiles.len(),
            forall|j: int| 0 <= j < i ==> (#[trigger] profiles@[j]).id@ != id@,
        decreases profiles.len() - i,
    {
        if str_equal(profiles[i].id.as_str(), id) {
            return Some(i);
        }
        i = i + 1;
    }
    None
}

/// The stored profile with this id, or the error shown when it is gone.
pub fn find_profile(profiles: &Vec<ModpackProfile>, id: &str) -> (r: Result<ModpackProfile, AppError>)
    ensures
        !has_profile(profiles@, id@) ==> fails_with(r, "Este perfil não existe mais."@),
        has_profile(profiles@, id@) ==> r is Ok,
        r matches Ok(p) ==> exists|i: int| first_with_id(profiles@, id@, i) && p.same(#[trigger] profiles@[i]),
{
    match profile_position(profiles, id) {
        Some(i) => Ok(profiles[i].clone()),
        None => Err(AppError::message("Este perfil não existe mais.")),
    }
}

/// `q` is `p` with a new name and description, edited at `now`.
pub open spec fn renamed(p: ModpackProfile, q: ModpackProfile, name: Seq<char>, description: Seq<char>, now: Seq<char>) -> bool {
    &&& q.id == p.id
    &&& q.name@ == name
    &&& q.description@ == description
    &&& q.target == p.target
    &&& q.instance_path == p.instance_path
    &&& q.created_at == p.created_at
    &&& q.updated_at@ == now
    &&& q.mods == p.mods
}

/// The list is the old one with only position `i` changed, and `r` is a
/// copy of the new entry.
pub open spec fn changed_at(before: Seq<ModpackProfile>, after: Seq<ModpackProfile>, i: int, r: Result<ModpackProfile, AppError>) -> bool {
    &&& after == before.update(i, after[i])
    &&& r matches Ok(p) && p.same(after[i])
}

/// Renames a profile and rewrites its description, both trimmed; the
/// metadata is checked before the profile is looked up.
pub fn update_profile(profiles: &mut Vec<ModpackProfile>, id: &str, input: &UpdateProfileInput, now: String) -> (r: Result<ModpackProfile, AppError>)
    ensures
        ({
            let name = trim(input.name@);
            let description = trim(input.description@);
            match metadata_problem(name, description) {
                Some(m) => fails_with(r, m) && final(profiles)@ == old(profiles)@,
                None => if has_profile(old(profiles)@, id@) {
                    exists|i: int| #![trigger final(profiles)@[i]]
                        first_with_id(old(profiles)@, id@, i)
                        && changed_at(old(profiles)@, final(profiles)@, i, r)
                        && renamed(old(profiles)@[i], final(profiles)@[i], name, description, now@)
                } else {
                    fails_with(r, "Perfil não encontrado."@) && final(profiles)@ == old(profiles)@
                },
            }
        }),
{
    let name = trimmed(input.name.as_str());
    let description = trimmed(input.description.as_str());
    if let Err(error) = validate_profile_metadata(name.as_str(), description.as_str()) {
        return Err(error);
    }
    match profile_position(profiles, id) {
        None => Err(AppError::message("Perfil não encontrado.")),
        Some(i) => {
            let ghost before = profiles@;
            let mut profile = profiles.remove(i);
            profile.name = name;
            profile.description = description;
            profile.updated_at = now;
            let copy = profile.clone();
            profiles.insert(i, profile);
            assert(profiles@ =~= before.update(i as int, profiles@[i as int]));
            Ok(copy)
        },
    }
}

/// `q` is `p` pointed at a rescanned instance: its folder, target and mods
/// replaced, at `now`.
pub open spec fn rescanned(
    p: ModpackProfile,
    q: ModpackProfile,
    instance_path: Seq<char>,
    target: ProfileTarget,
    mods: Seq<InstalledMod>,
    now: Seq<char>,
) -> bool {
    &&& q.id == p.id
    &&& q.name == p.name
    &&& q.description == p.description
    &&& q.target == target
    &&& q.instance_path@ == instance_path
    &&& q.created_at == p.created_at
    &&& q.updated_at@ == now
    &&& q.mods@ == mods
}

/// Replaces a profile's folder, target and mods with what a rescan found,
/// provided the profile has not changed since the scan began.
pub fn replace_scanned_instance(
    profiles: &mut Vec<ModpackProfile>,
    id: &str,
    instance_path: String,
    target: ProfileTarget,
    mods: Vec<InstalledMod>,
    expected_updated_at: &str,
    now: String,
) -> (r: Result<ModpackProfile, AppError>)
    ensures
        match target_problem(target) {
            Some(m) => fails_with(r, m) && final(profiles)@ == old(profiles)@,
            None => if !has_profile(old(profiles)@, id@) {
                fails_with(r, "Perfil não encontrado."@) && final(profiles)@ == old(profiles)@
            } else {
                exists|i: int| #![trigger final(profiles)@[i]]
                    first_with_id(old(profiles)@, id@, i) && if old(profiles)@[i].updated_at@ != expected_updated_at@ {
                        fails_with(
                            r,
                            "O modpack mudou enquanto a pasta era analisada. Faça uma nova análise antes de substituir."@,
                        ) && final(profiles)@ == old(profiles)@
                    } else {
                        changed_at(old(profiles)@, final(profiles)@, i, r)
                            && rescanned(old(profiles)@[i], final(profiles)@[i], instance_path@, target, mods@, now@)
                    }
            },
        },
{
    if let Err(error) = validate_target(&target) {
        return Err(error);
    }
    match profile_position(profiles, id) {
        None => Err(AppError::message("Perfil não encontrado.")),
        Some(i) => {
            if !str_equal(profiles[i].updated_at.as_str(), expected_updated_at) {
                return Err(
                    AppError::message(
                        "O modpack mudou enquanto a pasta era analisada. Faça uma nova análise antes de substituir.",
                    ),
                );
            }
            let ghost before = profiles@;
            let mut profile = profiles.remove(i);
            profile.instance_path = instance_path;
            profile.target = target;
            profile.mods = mods;
            profile.updated_at = now;
            let copy = profile.clone();
            profiles.insert(i, profile);
            assert(profiles@ =~= before.update(i as int, profiles@[i as int]));
            Ok(copy)
        },
    }
}

/// `q` is `p` with an installation recorded at `now`: its mods merged with
/// the installed ones and given the reasons and dependencies of the graph.
pub open spec fn installs_recorded(
    p: ModpackProfile,
    q: ModpackProfile,
    installed: Seq<InstalledMod>,
    graph: Seq<InstallGraphEntry>,
    now: Seq<char>,
) -> bool {
    &&& q.id == p.id
    &&& q.name == p.name
    &&& q.description == p.description
    &&& q.target == p.target
    &&& q.instance_path == p.instance_path
    &&& q.created_at == p.created_at
    &&& q.updated_at@ == now
    &&& q.mods.len() == merged_before_graph(p.mods@, installed).len()
    &&& forall|k: int| 0 <= k < q.mods.len() ==> #[trigger] graph_applied(q.mods@[k], merged_before_graph(p.mods@, installed)[k], graph)
}

/// Records the mods an installation put in place.
pub fn record_installed(
    profiles: &mut Vec<ModpackProfile>,
    id: &str,
    installed: Vec<InstalledMod>,
    graph: &Vec<InstallGraphEntry>,
    now: String,
) -> (r: Result<ModpackProfile, AppError>)
    ensures
        !has_profile(old(profiles)@, id@) ==> fails_with(r, "Perfil não encontrado durante a instalação."@)
            && final(profiles)@ == old(profiles)@,
        has_profile(old(profiles)@, id@) ==> exists|i: int| #![trigger final(profiles)@[i]]
            first_with_id(old(profiles)@, id@, i)
            && changed_at(old(profiles)@, final(profiles)@, i, r)
            && installs_recorded(old(profiles)@[i], final(profiles)@[i], installed@, graph@, now@),
{
    match profile_position(profiles, id) {
        None => Err(AppError::message("Perfil não encontrado durante a instalação.")),
        Some(i) => {
            let ghost before = profiles@;
            let profile = profiles.remove(i);
            let ModpackProfile { id, name, description, target, instance_path, created_at, updated_at: _, mods } =
                profile;
            let merged = merge_installed(mods, installed, graph);
            let updated = ModpackProfile {
                id,
                name,
                description,
                target,
                instance_path,
                created_at,
                updated_at: now,
                mods: merged,
            };
            let copy = updated.clone();
            profiles.insert(i, updated);
            assert(profiles@ =~= before.update(i as int, profiles@[i as int]));
            Ok(copy)
        },
    }
}

/// Refuses to go on when the profile changed after `expected_updated_at`
/// was read.
pub fn ensure_unchanged(profile: &ModpackProfile, expected_updated_at: &str) -> (r: Result<(), AppError>)
    ensures
        profile.updated_at@ == expected_updated_at@ <==> r is Ok,
        profile.updated_at@ != expected_updated_at@ ==> fails_with(
            r,
            "O modpack mudou durante a verificação. Tente remover novamente."@,
        ),
{
    if str_equal(profile.updated_at.as_str(), expected_updated_at) {
        Ok(())
    } else {
        Err(AppError::message("O modpack mudou durante a verificação. Tente remover novamente."))
    }
}

/// `q` is `p` after a removal at `now`: the removed keys gone, and the other
/// mods given the dependencies the checked graph found.
pub open spec fn removals_recorded(
    p: ModpackProfile,
    q: ModpackProfile,
    removed: Seq<Seq<char>>,
    graph: Seq<GraphEntry>,
    now: Seq<char>,
) -> bool {
    &&& q.id == p.id
    &&& q.name == p.name
    &&& q.description == p.description
    &&& q.target == p.target
    &&& q.instance_path == p.instance_path
    &&& q.created_at == p.created_at
    &&& q.updated_at@ == now
    &&& q.mods.len() == remaining_after(p.mods@, removed).len()
    &&& forall|k: int| 0 <= k < q.mods.len() ==> #[trigger] deps_refreshed(q.mods@[k], remaining_after(p.mods@, removed)[k], graph)
}

/// Takes the removed mods off a profile, provided it has not changed since
/// the removal was planned.
pub fn record_removed(
    profiles: &mut Vec<ModpackProfile>,
    id: &str,
    removed: &Vec<String>,
    expected_updated_at: &str,
    graph: &Vec<GraphEntry>,
    now: String,
) -> (r: Result<ModpackProfile, AppError>)
    ensures
        !has_profile(old(profiles)@, id@) ==> fails_with(r, "Perfil não encontrado."@) && final(profiles)@ == old(profiles)@,
        has_profile(old(profiles)@, id@) ==> exists|i: int| #![trigger final(profiles)@[i]]
            first_with_id(old(profiles)@, id@, i) && if old(profiles)@[i].updated_at@ != expected_updated_at@ {
                fails_with(r, "O modpack mudou durante a verificação. Tente remover novamente."@)
                    && final(profiles)@ == old(profiles)@
            } else {
                changed_at(old(profiles)@, final(profiles)@, i, r)
                    && removals_recorded(old(profiles)@[i], final(profiles)@[i], texts(removed@), graph@, now@)
            },
{
    match profile_position(profiles, id) {
        None => Err(AppError::message("Perfil não encontrado.")),
        Some(i) => {
            if let Err(error) = ensure_unchanged(&profiles[i], expected_updated_at) {
                return Err(error);
            }
            let ghost before = profiles@;
            let profile = profiles.remove(i);
            let ModpackProfile { id, name, description, target, instance_path, created_at, updated_at: _, mods } =
                profile;
            let kept = drop_removed(mods, removed, graph);
            let updated = ModpackProfile {
                id,
                name,
                description,
                target,
                instance_path,
                created_at,
                updated_at: now,
                mods: kept,
            };
            let copy = updated.clone();
            profiles.insert(i, updated);
            assert(profiles@ =~= before.update(i as int, profiles@[i as int]));
            Ok(copy)
        },
    }
}

/// The profiles whose id is not `id`, in order.
pub open spec fn without_id(profiles: Seq<ModpackProfile>, id: Seq<char>) -> Seq<ModpackProfile> {
    profiles.filter(|p: ModpackProfile| p.id@ != id)
}

/// Deletes every profile with this id.
pub fn remove_profile(profiles: &mut Vec<ModpackProfile>, id: &str)
    ensures
        final(profiles)@ == without_id(old(profiles)@, id@),
{
    let ghost original = profiles@;
    let ghost keep = |p: ModpackProfile| p.id@ != id@;
    let mut kept: Vec<ModpackProfile> = Vec::new();
    let mut i: usize = 0;
    let n = profiles.len();
    while profiles.len() > 0
        invariant
            n == original.len(),
            i + profiles.len() == n,
            profiles@ == original.skip(i as int),
            kept@ == original.take(i as int).filter(keep),
            keep == (|p: ModpackProfile| p.id@ != id@),
        decreases profiles.len(),
    {
        let ghost rest = profiles@;
        let profile = profiles.remove(0);
        proof {
            assert(original.take(i + 1) =~= original.take(i as int).push(profile));
            original.take(i as int).lemma_filter_push(profile, keep);
        }
        if !str_equal(profile.id.as_str(), id) {
            kept.push(profile);
        }
        i = i + 1;
        assert(profiles@ =~= original.skip(i as int));
    }
    assert(original.take(n as int) =~= original);
    *profiles = kept;
}

/// What a first start creates when there is no profile yet.
pub fn default_profile_input() -> (r: CreateProfileInput)
    ensures
        r.name@ == "Meu primeiro modpack"@,
        r.description matches Some(d) && d@ == "Uma base limpa para sua próxima aventura."@,
        r.target.minecraft_version@ == "1.21.1"@,
        r.target.loader == ModLoader::Fabric,
        r.target.release_channels@ == seq![ReleaseChannel::Release, ReleaseChannel::Beta],
        r.instance_path is None,
{
    CreateProfileInput {
        name: String::from_str("Meu primeiro modpack"),
        description: Some(String::from_str("Uma base limpa para sua próxima aventura.")),
        target: ProfileTarget {
            minecraft_version: String::from_str("1.21.1"),
            loader: ModLoader::Fabric,
            release_channels: vec![ReleaseChannel::Release, ReleaseChannel::Beta],
        },
        instance_path: None,
    }
}

/// `k` characters of `s` take exactly `n` bytes: byte `n` falls on a
/// character boundary.
pub open spec fn byte_boundary(s: Seq<char>, n: int, k: int) -> bool {
    0 <= k <= s.len() && utf8_len(s.take(k)) == n
}

proof fn lemma_utf8_len_strict(s: Seq<char>, i: int, k: int)
    requires
        0 <= i < k <= s.len(),
    ensures
        utf8_len(s.take(i)) < utf8_len(s.take(k)),
    decreases k - i,
{
    assert(s.take(k).drop_last() =~= s.take(k - 1));
    if i < k - 1 {
        lemma_utf8_len_strict(s, i, k - 1);
    }
}

/// The text before byte `n`, as `&s[..n]` gives it.
fn byte_prefix(s: &str, n: usize) -> (r: String)
    requires
        n <= 1000,
        exists|k: int| byte_boundary(s@, n as int, k),
    ensures
        exists|k: int| byte_boundary(s@, n as int, k) && r@ == s@.take(k),
{
    let chars = chars_of(s);
    let mut head: Vec<char> = Vec::new();
    let mut total: usize = 0;
    let mut i: usize = 0;
    while total < n
        invariant
            chars@ == s@,
            i <= chars.len(),
            head@ == chars@.take(i as int),
            total == utf8_len(chars@.take(i as int)),
            total <= n,
            n <= 1000,
            exists|k: int| byte_boundary(s@, n as int, k),
        decreases n - total,
    {
        let ghost k = choose|k: int| byte_boundary(s@, n as int, k);
        proof {
            if k < i {
                lemma_utf8_len_strict(s@, k, i as int);
            }
            assert(k > i);
            assert(chars@.take(i + 1).drop_last() =~= chars@.take(i as int));
        }
        let code = chars[i] as u32;
        let w: usize = if code < 0x80 {
            1
        } else if code < 0x800 {
            2
        } else if code < 0x10000 {
            3
        } else {
            4
        };
        assert(w == utf8_width(chars@[i as int]));
        head.push(chars[i]);
        total = total + w;
        i = i + 1;
        assert(head@ =~= chars@.take(i as int));
        proof {
            if k > i {
                lemma_utf8_len_strict(s@, i as int, k);
            }
        }
    }
    assert(byte_boundary(s@, n as int, i as int));
    string_of(head.as_slice())
}

/// The folder the user chose for a new profile, unless missing or blank.
pub open spec fn chosen_folder(instance_path: Option<String>) -> Option<Seq<char>> {
    match instance_path {
        Some(p) => if all_whitespace(p@) {
            None
        } else {
            Some(p@)
        },
        None => None,
    }
}

/// Where a new profile's instance goes.
#[derive(Debug)]
pub enum ProfileFolder {
    /// The folder the user chose.
    Chosen(String),
    /// `folder/short_id` under the default root.
    UnderDefault { folder: String, short_id: String },
}

/// A profile checked and named, waiting for its folder.
#[derive(Debug)]
pub struct ProfileDraft {
    pub id: String,
    pub name: String,
    pub description: String,
    pub target: ProfileTarget,
    pub folder: ProfileFolder,
}

/// Where the instance of a new profile goes: the folder the user chose, or a
/// folder named after the profile holding one named by the first eight bytes
/// of the id.
pub fn profile_folder(instance_path: &Option<String>, name: &str, id: &str) -> (r: ProfileFolder)
    requires
        chosen_folder(*instance_path) is None ==> exists|k: int| byte_boundary(id@, 8, k),
    ensures
        match chosen_folder(*instance_path) {
            Some(p) => r matches ProfileFolder::Chosen(c) && c@ == p,
            None => r matches ProfileFolder::UnderDefault { folder, short_id } && folder@ == folder_name(name@)
                && exists|k: int| byte_boundary(id@, 8, k) && short_id@ == id@.take(k),
        },
{
    if let Some(path) = instance_path {
        if !is_blank(path.as_str()) {
            return ProfileFolder::Chosen(path.clone());
        }
    }
    ProfileFolder::UnderDefault { folder: safe_folder_name(name), short_id: byte_prefix(id, 8) }
}

proof fn lemma_uuid_prefix(id: Seq<char>)
    requires
        hyphenated_uuid(id),
    ensures
        byte_boundary(id, 8, 8),
{
    reveal_with_fuel(utf8_len, 9);
    let t = id.take(8);
    assert(t.drop_last() =~= id.take(7));
    assert(id.take(7).drop_last() =~= id.take(6));
    assert(id.take(6).drop_last() =~= id.take(5));
    assert(id.take(5).drop_last() =~= id.take(4));
    assert(id.take(4).drop_last() =~= id.take(3));
    assert(id.take(3).drop_last() =~= id.take(2));
    assert(id.take(2).drop_last() =~= id.take(1));
    assert(id.take(1).drop_last() =~= id.take(0));
    assert forall|k: int| 0 <= k < 8 implies utf8_width(#[trigger] id[k]) == 1 by {
        assert(id[k] == id[k]);
    }
}

/// The description a new profile is checked with: the one given, or none.
pub open spec fn given_description(description: Option<String>) -> Seq<char> {
    match description {
        Some(d) => d@,
        None => Seq::empty(),
    }
}

/// Checks a new profile's name, description and target, gives it a fresh
/// id, and says where its instance goes.
pub fn draft_profile(input: CreateProfileInput) -> (r: Result<ProfileDraft, AppError>)
    ensures
        ({
            let name = trim(input.name@);
            let description = given_description(input.description);
            match metadata_problem(name, description) {
                Some(m) => fails_with(r, m),
                None => match target_problem(input.target) {
                    Some(m) => fails_with(r, m),
                    None => r matches Ok(d) && hyphenated_uuid(d.id@) && d.name@ == name && d.description@ == trim(
                        description,
                    ) && d.target == input.target && match chosen_folder(input.instance_path) {
                        Some(p) => d.folder matches ProfileFolder::Chosen(c) && c@ == p,
                        None => d.folder matches ProfileFolder::UnderDefault { folder, short_id } && folder@
                            == folder_name(name) && short_id@ == d.id@.take(8),
                    },
                },
            }
        }),
{
    let name = trimmed(input.name.as_str());
    let description = match &input.description {
        Some(d) => d.clone(),
        None => String::new(),
    };
    if let Err(error) = validate_profile_metadata(name.as_str(), description.as_str()) {
        return Err(error);
    }
    if let Err(error) = validate_target(&input.target) {
        return Err(error);
    }
    let id = new_uuid_text();
    proof {
        lemma_uuid_prefix(id@);
    }
    let folder = profile_folder(&input.instance_path, name.as_str(), id.as_str());
    proof {
        if chosen_folder(input.instance_path) is None {
            let k = choose|k: int| byte_boundary(id@, 8, k) && (folder matches ProfileFolder::UnderDefault { short_id, .. } && short_id@ == id@.take(k));
            if k < 8 {
                lemma_utf8_len_strict(id@, k, 8);
            } else if k > 8 {
                lemma_utf8_len_strict(id@, 8, k);
            }
        }
    }
    let description = trimmed(description.as_str());
    Ok(ProfileDraft { id, name, description, target: input.target, folder })
}

/// Checks the name and description of a copy of `source`, gives it a fresh
/// id, and says where its instance goes; the copy keeps the source's target.
pub fn draft_duplicate(
    source: &ModpackProfile,
    name: &str,
    description: &Option<String>,
    instance_path: &Option<String>,
) -> (r: Result<ProfileDraft, AppError>)
    ensures
        ({
            let name = trim(name@);
            let description = trim(given_description(*description));
            match metadata_problem(name, description) {
                Some(m) => fails_with(r, m),
                None => r matches Ok(d) && hyphenated_uuid(d.id@) && d.name@ == name && d.description@ == description
                    && d.target.same(source.target) && match chosen_folder(*instance_path) {
                    Some(p) => d.folder matches ProfileFolder::Chosen(c) && c@ == p,
                    None => d.folder matches ProfileFolder::UnderDefault { folder, short_id } && folder@ == folder_name(
                        name,
                    ) && short_id@ == d.id@.take(8),
                },
            }
        }),
{
    let name = trimmed(name);
    let description = match description {
        Some(d) => trimmed(d.as_str()),
        None => String::new(),
    };
    assert(trim(Seq::<char>::empty()) == Seq::<char>::empty());
    if let Err(error) = validate_profile_metadata(name.as_str(), description.as_str()) {
        return Err(error);
    }
    let id = new_uuid_text();
    proof {
        lemma_uuid_prefix(id@);
    }
    let folder = profile_folder(instance_path, name.as_str(), id.as_str());
    proof {
        if chosen_folder(*instance_path) is None {
            let k = choose|k: int| byte_boundary(id@, 8, k) && (folder matches ProfileFolder::UnderDefault { short_id, .. } && short_id@ == id@.take(k));
            if k < 8 {
                lemma_utf8_len_strict(id@, k, 8);
            } else if k > 8 {
                lemma_utf8_len_strict(id@, 8, k);
            }
        }
    }
    Ok(ProfileDraft { id, name, description, target: source.target.clone(), folder })
}

/// Refuses to record a copy when its source changed while it was copied.
pub fn ensure_copy_source_unchanged(current: &ModpackProfile, expected_updated_at: &str) -> (r: Result<(), AppError>)
    ensures
        current.updated_at@ == expected_updated_at@ <==> r is Ok,
        current.updated_at@ != expected_updated_at@ ==> fails_with(
            r,
            "O modpack original mudou durante a cópia. A operação foi cancelada; tente novamente."@,
        ),
{
    if str_equal(current.updated_at.as_str(), expected_updated_at) {
        Ok(())
    } else {
        Err(AppError::message("O modpack original mudou durante a cópia. A operação foi cancelada; tente novamente."))
    }
}

/// The new profile with the given mods, created and updated at `now`.
pub fn profile_from_draft(draft: ProfileDraft, instance_path: String, mods: Vec<InstalledMod>, now: String) -> (r: ModpackProfile)
    ensures
        r.id == draft.id,
        r.name == draft.name,
        r.description == draft.description,
        r.target == draft.target,
        r.instance_path == instance_path,
        r.created_at@ == now@,
        r.updated_at == now,
        r.mods == mods,
{
    let ProfileDraft { id, name, description, target, folder: _ } = draft;
    ModpackProfile {
        id,
        name,
        description,
        target,
        instance_path,
        created_at: now.clone(),
        updated_at: now,
        mods,
    }
}

/// Each profile keyed by when it was last updated.
pub open spec fn keyed_by_update(profiles: Seq<ModpackProfile>) -> Seq<(Seq<char>, ModpackProfile)> {
    profiles.map_values(|p: ModpackProfile| (p.updated_at@, p))
}

/// The profiles, most recently updated first; profiles updated at the same
/// moment keep their order.
pub fn most_recent_first(profiles: Vec<ModpackProfile>) -> (r: Vec<ModpackProfile>)
    ensures
        r@ == sorted_by_text_desc(keyed_by_update(profiles@)).map_values(|e: (Seq<char>, ModpackProfile)| e.1),
{
    let ghost original = profiles@;
    let mut rest = profiles;
    let mut keyed: Vec<(Vec<char>, ModpackProfile)> = Vec::new();
    let mut i: usize = 0;
    let n = rest.len();
    while rest.len() > 0
        invariant
            n == original.len(),
            i + rest.len() == n,
            rest@ == original.skip(i as int),
            keyed.len() == i,
            text_keyed(keyed@) == keyed_by_update(original.take(i as int)),
        decreases rest.len(),
    {
        assert(rest@[0] == original[i as int]);
        let profile = rest.remove(0);
        let key = chars_of(profile.updated_at.as_str());
        let ghost before = keyed@;
        keyed.push((key, profile));
        assert(original.take(i + 1) =~= original.take(i as int).push(profile));
        assert(keyed@ =~= before.push((key, profile)));
        proof {
            let grown = original.take(i + 1);
            assert forall|k: int| 0 <= k < i + 1 implies #[trigger] text_keyed(keyed@)[k] == keyed_by_update(grown)[k] by {
                if k < i {
                    assert(text_keyed(before)[k] == keyed_by_update(original.take(i as int))[k]);
                    assert(grown[k] == original.take(i as int)[k]);
                } else {
                    assert(keyed@[k] == (key, profile));
                    assert(grown[k] == profile);
                }
            }
        }
        i = i + 1;
        assert(text_keyed(keyed@) =~= keyed_by_update(original.take(i as int)));
        assert(rest@ =~= original.skip(i as int));
    }
    assert(original.take(n as int) =~= original);
    let sorted = sort_by_text_desc(keyed);
    let ghost target = sorted_by_text_desc(keyed_by_update(original));
    let mut rest = sorted;
    let mut out: Vec<ModpackProfile> = Vec::new();
    let mut j: usize = 0;
    let m = rest.len();
    let ghost all = rest@;
    while rest.len() > 0
        invariant
            m == all.len(),
            j + rest.len() == m,
            rest@ == all.skip(j as int),
            text_keyed(all) == target,
            out@ == target.take(j as int).map_values(|e: (Seq<char>, ModpackProfile)| e.1),
        decreases rest.len(),
    {
        let (_, profile) = rest.remove(0);
        assert(target[j as int].1 == profile);
        out.push(profile);
        j = j + 1;
        assert(out@ =~= target.take(j as int).map_values(|e: (Seq<char>, ModpackProfile)| e.1));
        assert(rest@ =~= all.skip(j as int));
    }
    assert(target.take(m as int) =~= target);
    out
}

/// Once a profile is deleted no profile has its id, and every profile with
/// another id is still there.
pub proof fn law_deleted_profile_is_gone(profiles: Seq<ModpackProfile>, id: Seq<char>)
    ensures
        !has_profile(without_id(profiles, id), id),
        forall|i: int|
            0 <= i < profiles.len() && profiles[i].id@ != id ==> #[trigger] without_id(profiles, id).contains(profiles[i]),
{
    let keep = |p: ModpackProfile| p.id@ != id;
    profiles.filter_lemma(keep);
    let kept = profiles.filter(keep);
    if has_profile(kept, id) {
        let i = choose|i: int| 0 <= i < kept.len() && (#[trigger] kept[i]).id@ == id;
        assert(keep(kept[i]));
    }
}

/// The name a copied mod file keeps: its registered path must be a bare
/// file name.
pub fn registered_mod_filename(value: &str) -> (r: Result<String, AppError>)
    ensures
        file_name_of(value@) is None ==> fails_with(r, "Um mod possui nome de arquivo inválido."@),
        file_name_of(value@) matches Some(name) && name != value@ ==> fails_with(
            r,
            "Um mod registrado possui um caminho inseguro."@,
        ),
        file_name_of(value@) == Some(value@) ==> (r matches Ok(name) && name@ == value@),
{
    match file_name(value) {
        None => Err(AppError::message("Um mod possui nome de arquivo inválido.")),
        Some(name) => if str_equal(name.as_str(), value) {
            Ok(name)
        } else {
            Err(AppError::message("Um mod registrado possui um caminho inseguro."))
        },
    }
}

/// The name a removed mod file is moved aside under: its registered path
/// must be a bare file name.
pub fn removable_mod_filename(value: &str) -> (r: Result<String, AppError>)
    ensures
        file_name_of(value@) is None ==> fails_with(r, "Nome de arquivo inválido."@),
        file_name_of(value@) matches Some(name) && name != value@ ==> fails_with(
            r,
            "Um arquivo registrado possui um caminho inseguro."@,
        ),
        file_name_of(value@) == Some(value@) ==> (r matches Ok(name) && name@ == value@),
{
    match file_name(value) {
        None => Err(AppError::message("Nome de arquivo inválido.")),
        Some(name) => if str_equal(name.as_str(), value) {
            Ok(name)
        } else {
            Err(AppError::message("Um arquivo registrado possui um caminho inseguro."))
        },
    }
}

/// A profile exported with the version of its format and who wrote it.
#[derive(Debug)]
pub struct Lockfile {
    pub format_version: u8,
    pub generated_by: String,
    pub generated_at: String,
    pub profile: ModpackProfile,
}

/// The lockfile of a profile, written at `generated_at`: format version 1,
/// written by Mosaic Modpack Studio 0.14.0.
pub fn lockfile(profile: ModpackProfile, generated_at: String) -> (r: Lockfile)
    ensures
        r.format_version == 1,
        r.generated_by@ == "Mosaic Modpack Studio 0.14.0"@,
        r.generated_at == generated_at,
        r.profile == profile,
{
    Lockfile {
        format_version: 1,
        generated_by: String::from_str("Mosaic Modpack Studio 0.14.0"),
        generated_at,
        profile,
    }
}

} // verus!
