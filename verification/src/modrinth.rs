//! How Modrinth's vocabulary maps onto the library's: loaders, sides,
//! environments, and what a `.mrpack` index says about its pack.
use crate::domain::{
    DownloadFile, ModLoader, ProfileTarget, ProjectRef, ProjectSide, ProjectVersion, ProviderId, ReleaseChannel,
    SearchSide,
};
use crate::error::{fails_with, AppError};
use crate::sort::{sort_by_text_desc, sorted_by_text_desc, text_keyed};
use crate::text::{
    chars_of, decimal, decimal_string, ends_with, has_prefix, has_suffix, join2, lemma_text_lt_total,
    lemma_text_lt_transitive, starts_with, str_equal, text_less, text_lt,
};
use std::io::Read;
use vstd::prelude::*;

verus! {

/// The loader a Modrinth loader name stands for, if any.
pub open spec fn loader_named(name: Seq<char>) -> Option<ModLoader> {
    if name == "fabric"@ {
        Some(ModLoader::Fabric)
    } else if name == "forge"@ {
        Some(ModLoader::Forge)
    } else if name == "neoforge"@ {
        Some(ModLoader::Neoforge)
    } else if name == "quilt"@ {
        Some(ModLoader::Quilt)
    } else {
        None
    }
}

/// The loaders named in a list, in order; other names are skipped.
pub open spec fn known_loaders(values: Seq<Seq<char>>) -> Seq<ModLoader>
    decreases values.len(),
{
    if values.len() == 0 {
        Seq::empty()
    } else {
        match loader_named(values.last()) {
            Some(l) => known_loaders(values.drop_last()).push(l),
            None => known_loaders(values.drop_last()),
        }
    }
}

pub open spec fn string_views(s: Seq<String>) -> Seq<Seq<char>> {
    s.map_values(|v: String| v@)
}

fn loader_from_name(name: &str) -> (r: Option<ModLoader>)
    ensures
        r == loader_named(name@),
{
    if str_equal(name, "fabric") {
        Some(ModLoader::Fabric)
    } else if str_equal(name, "forge") {
        Some(ModLoader::Forge)
    } else if str_equal(name, "neoforge") {
        Some(ModLoader::Neoforge)
    } else if str_equal(name, "quilt") {
        Some(ModLoader::Quilt)
    } else {
        None
    }
}

/// The loaders among Modrinth's loader and category names.
pub fn normalize_loaders(values: &Vec<String>) -> (r: Vec<ModLoader>)
    ensures
        r@ == known_loaders(string_views(values@)),
{
    let ghost names = string_views(values@);
    let mut r: Vec<ModLoader> = Vec::new();
    let mut i: usize = 0;
    while i < values.len()
        invariant
            i <= values.len(),
            names == string_views(values@),
            r@ == known_loaders(names.take(i as int)),
        decreases values.len() - i,
    {
        proof {
            assert(names.take(i + 1).drop_last() =~= names.take(i as int));
            assert(names.take(i + 1).last() == values@[i as int]@);
        }
        match loader_from_name(values[i].as_str()) {
            Some(loader) => r.push(loader),
            None => {},
        }
        i = i + 1;
    }
    assert(names.take(values.len() as int) =~= names);
    r
}

/// Where a project runs, from Modrinth's client and server support: a side
/// is supported unless marked "unsupported".
pub open spec fn side_of_spec(client: Seq<char>, server: Seq<char>) -> ProjectSide {
    let on_client = client != "unsupported"@;
    let on_server = server != "unsupported"@;
    if on_client && on_server {
        ProjectSide::Both
    } else if on_client {
        ProjectSide::Client
    } else if on_server {
        ProjectSide::Server
    } else {
        ProjectSide::Unknown
    }
}

/// The side of a project from its client and server support.
pub fn side_of(client: &str, server: &str) -> (r: ProjectSide)
    ensures
        r == side_of_spec(client@, server@),
{
    let on_client = !str_equal(client, "unsupported");
    let on_server = !str_equal(server, "unsupported");
    if on_client && on_server {
        ProjectSide::Both
    } else if on_client {
        ProjectSide::Client
    } else if on_server {
        ProjectSide::Server
    } else {
        ProjectSide::Unknown
    }
}

/// Where a version runs, from Modrinth's environment of the version.
pub open spec fn environment_side(environment: Seq<char>) -> ProjectSide {
    if environment == "client_only"@ || environment == "client_only_server_optional"@
        || environment == "singleplayer_only"@ {
        ProjectSide::Client
    } else if environment == "server_only"@ || environment == "server_only_client_optional"@
        || environment == "dedicated_server_only"@ {
        ProjectSide::Server
    } else if environment == "client_and_server"@ || environment == "client_or_server"@
        || environment == "client_or_server_prefers_both"@ {
        ProjectSide::Both
    } else {
        ProjectSide::Unknown
    }
}

/// Each environment Modrinth documents has its side: the client-only ones
/// (`client_only`, `client_only_server_optional`, `singleplayer_only`) run on
/// the client, the server-only ones (`server_only`,
/// `server_only_client_optional`, `dedicated_server_only`) on the server, and
/// `client_and_server`, `client_or_server` and `client_or_server_prefers_both`
/// on both. Any other environment leaves the side unknown.
pub proof fn law_documented_environments(environment: Seq<char>)
    ensures
        environment == "client_only"@ ==> environment_side(environment) == ProjectSide::Client,
        environment == "client_only_server_optional"@ ==> environment_side(environment) == ProjectSide::Client,
        environment == "singleplayer_only"@ ==> environment_side(environment) == ProjectSide::Client,
        environment == "server_only"@ ==> environment_side(environment) == ProjectSide::Server,
        environment == "server_only_client_optional"@ ==> environment_side(environment) == ProjectSide::Server,
        environment == "dedicated_server_only"@ ==> environment_side(environment) == ProjectSide::Server,
        environment == "client_and_server"@ ==> environment_side(environment) == ProjectSide::Both,
        environment == "client_or_server"@ ==> environment_side(environment) == ProjectSide::Both,
        environment == "client_or_server_prefers_both"@ ==> environment_side(environment) == ProjectSide::Both,
        environment != "client_only"@ && environment != "client_only_server_optional"@
            && environment != "singleplayer_only"@ && environment != "server_only"@
            && environment != "server_only_client_optional"@ && environment != "dedicated_server_only"@
            && environment != "client_and_server"@ && environment != "client_or_server"@
            && environment != "client_or_server_prefers_both"@ ==> environment_side(environment)
            == ProjectSide::Unknown,
{
    reveal_strlit("client_only");
    reveal_strlit("client_only_server_optional");
    reveal_strlit("singleplayer_only");
    reveal_strlit("server_only");
    reveal_strlit("server_only_client_optional");
    reveal_strlit("dedicated_server_only");
    reveal_strlit("client_and_server");
    reveal_strlit("client_or_server");
    reveal_strlit("client_or_server_prefers_both");
    // No two of them share both their length and their first letter.
    assert("client_only"@.len() == 11 && "client_only"@[0] == 'c');
    assert("client_only_server_optional"@.len() == 27 && "client_only_server_optional"@[0] == 'c');
    assert("singleplayer_only"@.len() == 17 && "singleplayer_only"@[0] == 's');
    assert("server_only"@.len() == 11 && "server_only"@[0] == 's');
    assert("server_only_client_optional"@.len() == 27 && "server_only_client_optional"@[0] == 's');
    assert("dedicated_server_only"@.len() == 21 && "dedicated_server_only"@[0] == 'd');
    assert("client_and_server"@.len() == 17 && "client_and_server"@[0] == 'c');
    assert("client_or_server"@.len() == 16 && "client_or_server"@[0] == 'c');
    assert("client_or_server_prefers_both"@.len() == 29 && "client_or_server_prefers_both"@[0] == 'c');
}

/// The side of a version from its environment.
pub fn side_from_environment(environment: &str) -> (r: ProjectSide)
    ensures
        r == environment_side(environment@),
{
    if str_equal(environment, "client_only") || str_equal(environment, "client_only_server_optional")
        || str_equal(environment, "singleplayer_only") {
        ProjectSide::Client
    } else if str_equal(environment, "server_only") || str_equal(
        environment,
        "server_only_client_optional",
    ) || str_equal(environment, "dedicated_server_only") {
        ProjectSide::Server
    } else if str_equal(environment, "client_and_server") || str_equal(environment, "client_or_server")
        || str_equal(environment, "client_or_server_prefers_both") {
        ProjectSide::Both
    } else {
        ProjectSide::Unknown
    }
}

/// The value a `.mrpack` index gives a dependency key, if it lists it.
pub open spec fn dependency_value(deps: Seq<(Seq<char>, Seq<char>)>, key: Seq<char>) -> Option<Seq<char>> {
    if exists|k: int| 0 <= k < deps.len() && #[trigger] deps[k].0 == key {
        Some(deps[choose|k: int| 0 <= k < deps.len() && #[trigger] deps[k].0 == key].1)
    } else {
        None
    }
}

pub open spec fn pair_views(s: Seq<(String, String)>) -> Seq<(Seq<char>, Seq<char>)> {
    s.map_values(|p: (String, String)| (p.0@, p.1@))
}

/// No key occurs twice, as in the index's dependency map.
pub open spec fn distinct_keys(deps: Seq<(Seq<char>, Seq<char>)>) -> bool {
    forall|i: int, j: int| 0 <= i < j < deps.len() ==> #[trigger] deps[i].0 != #[trigger] deps[j].0
}

/// The loader a pack is built for: NeoForge, Forge or Quilt when the index
/// depends on its loader, Fabric otherwise.
pub open spec fn pack_loader(deps: Seq<(Seq<char>, Seq<char>)>) -> ModLoader {
    if dependency_value(deps, "neoforge"@) is Some {
        ModLoader::Neoforge
    } else if dependency_value(deps, "forge"@) is Some {
        ModLoader::Forge
    } else if dependency_value(deps, "quilt-loader"@) is Some {
        ModLoader::Quilt
    } else {
        ModLoader::Fabric
    }
}

fn lookup(deps: &Vec<(String, String)>, key: &str) -> (r: Option<String>)
    requires
        distinct_keys(pair_views(deps@)),
    ensures
        match dependency_value(pair_views(deps@), key@) {
            Some(v) => r matches Some(s) && s@ == v,
            None => r is None,
        },
{
    let ghost view = pair_views(deps@);
    let mut i: usize = 0;
    while i < deps.len()
        invariant
            i <= deps.len(),
            view == pair_views(deps@),
            distinct_keys(view),
            forall|k: int| 0 <= k < i ==> #[trigger] view[k].0 != key@,
        decreases deps.len() - i,
    {
        if str_equal(deps[i].0.as_str(), key) {
            proof {
                assert(view[i as int].0 == key@);
                let c = choose|k: int| 0 <= k < view.len() && #[trigger] view[k].0 == key@;
                if c != i {
                    if c < i {
                        assert(view[c].0 != key@);
                    } else {
                        assert(view[i as int].0 != view[c].0);
                    }
                }
            }
            return Some(deps[i].1.clone());
        }
        i = i + 1;
    }
    None
}

/// The target a `.mrpack` index describes: its Minecraft version (1.20.1
/// when it names none) and loader, with releases and betas.
pub fn target_from_mrpack(dependencies: &Vec<(String, String)>) -> (r: ProfileTarget)
    requires
        distinct_keys(pair_views(dependencies@)),
    ensures
        r.loader == pack_loader(pair_views(dependencies@)),
        r.minecraft_version@ == match dependency_value(pair_views(dependencies@), "minecraft"@) {
            Some(v) => v,
            None => "1.20.1"@,
        },
        r.release_channels@ == seq![ReleaseChannel::Release, ReleaseChannel::Beta],
{
    let loader = if lookup(dependencies, "neoforge").is_some() {
        ModLoader::Neoforge
    } else if lookup(dependencies, "forge").is_some() {
        ModLoader::Forge
    } else if lookup(dependencies, "quilt-loader").is_some() {
        ModLoader::Quilt
    } else {
        ModLoader::Fabric
    };
    let minecraft_version = match lookup(dependencies, "minecraft") {
        Some(v) => v,
        None => String::from_str("1.20.1"),
    };
    let mut channels: Vec<ReleaseChannel> = Vec::new();
    channels.push(ReleaseChannel::Release);
    channels.push(ReleaseChannel::Beta);
    ProfileTarget { minecraft_version, loader, release_channels: channels }
}

/// A path with its backslashes turned into slashes.
pub open spec fn with_slashes(path: Seq<char>) -> Seq<char> {
    path.map_values(|c: char| if c == '\\' { '/' } else { c })
}

fn slashed(path: &str) -> (r: Vec<char>)
    ensures
        r@ == with_slashes(path@),
{
    let chars = chars_of(path);
    let mut r: Vec<char> = Vec::new();
    let mut i: usize = 0;
    while i < chars.len()
        invariant
            i <= chars.len(),
            chars@ == path@,
            r@ == with_slashes(path@).take(i as int),
        decreases chars.len() - i,
    {
        let c = chars[i];
        r.push(if c == '\\' { '/' } else { c });
        i = i + 1;
        assert(r@ =~= with_slashes(path@).take(i as int));
    }
    assert(with_slashes(path@).take(chars.len() as int) =~= with_slashes(path@));
    r
}

/// A pack ships files outside its mods when it has an `overrides/` or
/// `client-overrides/` folder.
pub open spec fn overrides_present(names: Seq<Seq<char>>) -> bool {
    exists|k: int|
        0 <= k < names.len() && (has_prefix(with_slashes(#[trigger] names[k]), "overrides/"@)
            || has_prefix(with_slashes(names[k]), "client-overrides/"@))
}

/// Whether the archive's entries include an overrides folder.
pub fn has_overrides(names: &Vec<String>) -> (r: bool)
    ensures
        r == overrides_present(string_views(names@)),
{
    let ghost views = string_views(names@);
    let overrides = chars_of("overrides/");
    let client_overrides = chars_of("client-overrides/");
    let mut i: usize = 0;
    while i < names.len()
        invariant
            i <= names.len(),
            views == string_views(names@),
            overrides@ == "overrides/"@,
            client_overrides@ == "client-overrides/"@,
            forall|k: int|
                0 <= k < i ==> !has_prefix(with_slashes(#[trigger] views[k]), "overrides/"@)
                    && !has_prefix(with_slashes(views[k]), "client-overrides/"@),
        decreases names.len() - i,
    {
        let path = slashed(names[i].as_str());
        if starts_with(&path, &overrides) || starts_with(&path, &client_overrides) {
            assert(views[i as int] == names@[i as int]@);
            return true;
        }
        i = i + 1;
    }
    false
}

/// A file listed in a `.mrpack` index.
pub struct PackFile {
    pub path: String,
    pub sha1: String,
    /// The index's client environment for the file, when it gives one.
    pub client_env: Option<String>,
}

pub open spec fn in_mods_folder(f: PackFile) -> bool {
    has_prefix(with_slashes(f.path@), "mods/"@)
}

pub open spec fn env_is(f: PackFile, value: Seq<char>) -> bool {
    f.client_env matches Some(e) && e@ == value
}

/// The hashes of the pack's mods that run on a client, in index order.
pub open spec fn client_mod_hashes(files: Seq<PackFile>) -> Seq<Seq<char>>
    decreases files.len(),
{
    if files.len() == 0 {
        Seq::empty()
    } else {
        let prev = client_mod_hashes(files.drop_last());
        let f = files.last();
        if in_mods_folder(f) && !env_is(f, "unsupported"@) {
            prev.push(f.sha1@)
        } else {
            prev
        }
    }
}

/// How many of the pack's mods are optional on the client.
pub open spec fn optional_mod_count(files: Seq<PackFile>) -> nat
    decreases files.len(),
{
    if files.len() == 0 {
        0
    } else {
        let f = files.last();
        optional_mod_count(files.drop_last()) + if in_mods_folder(f) && env_is(f, "optional"@) {
            1nat
        } else {
            0nat
        }
    }
}

proof fn lemma_optional_count_bound(files: Seq<PackFile>)
    ensures
        optional_mod_count(files) <= files.len(),
    decreases files.len(),
{
    if files.len() > 0 {
        lemma_optional_count_bound(files.drop_last());
    }
}

fn env_equals(f: &PackFile, value: &str) -> (r: bool)
    ensures
        r == env_is(*f, value@),
{
    match &f.client_env {
        Some(e) => str_equal(e.as_str(), value),
        None => false,
    }
}

/// The mods a pack installs on a client, by hash, and how many of them are
/// optional.
pub fn pack_mod_hashes(files: &Vec<PackFile>) -> (r: (Vec<String>, usize))
    ensures
        string_views(r.0@) == client_mod_hashes(files@),
        r.1 == optional_mod_count(files@),
{
    let mods = chars_of("mods/");
    let mut hashes: Vec<String> = Vec::new();
    let mut optional: usize = 0;
    let mut i: usize = 0;
    while i < files.len()
        invariant
            i <= files.len(),
            mods@ == "mods/"@,
            string_views(hashes@) == client_mod_hashes(files@.take(i as int)),
            optional == optional_mod_count(files@.take(i as int)),
        decreases files.len() - i,
    {
        proof {
            assert(files@.take(i + 1).drop_last() =~= files@.take(i as int));
            lemma_optional_count_bound(files@.take(i as int));
        }
        let f = &files[i];
        let path = slashed(f.path.as_str());
        if starts_with(&path, &mods) {
            if env_equals(f, "optional") {
                optional = optional + 1;
            }
            if !env_equals(f, "unsupported") {
                let ghost before = hashes@;
                hashes.push(f.sha1.clone());
                assert(string_views(hashes@) =~= string_views(before).push(f.sha1@));
            }
        }
        i = i + 1;
    }
    assert(files@.take(files.len() as int) =~= files@);
    (hashes, optional)
}

/// Each project id once, the first time it occurs.
pub open spec fn first_occurrences(ids: Seq<Seq<char>>) -> Seq<Seq<char>>
    decreases ids.len(),
{
    if ids.len() == 0 {
        Seq::empty()
    } else {
        let prev = first_occurrences(ids.drop_last());
        if prev.contains(ids.last()) {
            prev
        } else {
            prev.push(ids.last())
        }
    }
}

pub open spec fn project_ids_of(refs: Seq<ProjectRef>) -> Seq<Seq<char>> {
    refs.map_values(|r: ProjectRef| r.project_id@)
}

/// The Modrinth projects a pack's files resolved to, each once.
pub fn modpack_projects(project_ids: &Vec<String>) -> (r: Vec<ProjectRef>)
    ensures
        project_ids_of(r@) == first_occurrences(string_views(project_ids@)),
        forall|k: int| 0 <= k < r.len() ==> #[trigger] r@[k].provider == ProviderId::Modrinth,
{
    let ghost ids = string_views(project_ids@);
    let mut r: Vec<ProjectRef> = Vec::new();
    let mut i: usize = 0;
    while i < project_ids.len()
        invariant
            i <= project_ids.len(),
            ids == string_views(project_ids@),
            project_ids_of(r@) == first_occurrences(ids.take(i as int)),
            forall|k: int| 0 <= k < r.len() ==> #[trigger] r@[k].provider == ProviderId::Modrinth,
        decreases project_ids.len() - i,
    {
        proof {
            assert(ids.take(i + 1).drop_last() =~= ids.take(i as int));
            assert(ids.take(i + 1).last() == project_ids@[i as int]@);
        }
        let id = &project_ids[i];
        let mut seen = false;
        let mut k: usize = 0;
        while k < r.len()
            invariant
                k <= r.len(),
                !seen ==> forall|j: int| 0 <= j < k ==> #[trigger] project_ids_of(r@)[j] != id@,
                seen ==> project_ids_of(r@).contains(id@),
            decreases r.len() - k,
        {
            if str_equal(r[k].project_id.as_str(), id.as_str()) {
                assert(project_ids_of(r@)[k as int] == id@);
                seen = true;
            }
            k = k + 1;
        }
        if !seen {
            let ghost before = project_ids_of(r@);
            r.push(ProjectRef { provider: ProviderId::Modrinth, project_id: id.clone() });
            assert(project_ids_of(r@) =~= before.push(id@));
        }
        i = i + 1;
    }
    assert(ids.take(project_ids.len() as int) =~= ids);
    r
}

/// The notes shown with a pack's contents: how many files are optional,
/// and how many could not be matched to a public Modrinth project.
pub open spec fn pack_warnings_spec(optional: nat, unresolved: nat) -> Seq<Seq<char>> {
    let first: Seq<Seq<char>> = if optional > 0 {
        seq![
            "O pack possui "@ + decimal(optional)
                + " arquivo(s) opcional(is); eles aparecem na seleção para você decidir durante a resolução."@,
        ]
    } else {
        seq![]
    };
    if unresolved > 0 {
        first.push(
            decimal(unresolved)
                + " arquivo(s) do índice não puderam ser associados a um projeto público da Modrinth."@,
        )
    } else {
        first
    }
}

/// The notes shown with a pack's contents.
pub fn pack_warnings(optional: u64, unresolved: u64) -> (r: Vec<String>)
    ensures
        string_views(r@) == pack_warnings_spec(optional as nat, unresolved as nat),
{
    let mut r: Vec<String> = Vec::new();
    if optional > 0 {
        let count = decimal_string(optional);
        let head = join2("O pack possui ", count.as_str());
        r.push(join2(
            head.as_str(),
            " arquivo(s) opcional(is); eles aparecem na seleção para você decidir durante a resolução.",
        ));
    }
    if unresolved > 0 {
        let count = decimal_string(unresolved);
        r.push(join2(
            count.as_str(),
            " arquivo(s) do índice não puderam ser associados a um projeto público da Modrinth.",
        ));
    }
    assert(string_views(r@) =~= pack_warnings_spec(optional as nat, unresolved as nat));
    r
}

/// A project found by a search passes the side filter: client or server
/// also take projects for both sides.
pub open spec fn side_passes(filter: SearchSide, side: ProjectSide) -> bool {
    match filter {
        SearchSide::Any => true,
        SearchSide::Client => side == ProjectSide::Client || side == ProjectSide::Both,
        SearchSide::Server => side == ProjectSide::Server || side == ProjectSide::Both,
        SearchSide::Both => side == ProjectSide::Both,
        SearchSide::Unknown => side == ProjectSide::Unknown,
    }
}

/// Whether a project's side passes the search's side filter.
pub fn side_matches(filter: SearchSide, side: ProjectSide) -> (r: bool)
    ensures
        r == side_passes(filter, side),
{
    match filter {
        SearchSide::Any => true,
        SearchSide::Client => side == ProjectSide::Client || side == ProjectSide::Both,
        SearchSide::Server => side == ProjectSide::Server || side == ProjectSide::Both,
        SearchSide::Both => side == ProjectSide::Both,
        SearchSide::Unknown => side == ProjectSide::Unknown,
    }
}

/// A pack version can be analysed for the target: with a target, it lists
/// the target's Minecraft version and loader and has one of its channels.
pub open spec fn pack_version_fits(version: ProjectVersion, target: Option<ProfileTarget>) -> bool {
    match target {
        None => true,
        Some(t) => {
            &&& string_views(version.minecraft_versions@).contains(t.minecraft_version@)
            &&& version.loaders@.contains(t.loader)
            &&& t.release_channels@.contains(version.channel)
        },
    }
}

fn version_fits(version: &ProjectVersion, target: &Option<ProfileTarget>) -> (r: bool)
    ensures
        r == pack_version_fits(*version, *target),
{
    match target {
        None => true,
        Some(t) => {
            let mut listed = false;
            let mut i: usize = 0;
            while i < version.minecraft_versions.len()
                invariant
                    i <= version.minecraft_versions.len(),
                    listed == exists|k: int| 0 <= k < i && (#[trigger] version.minecraft_versions@[k])@ == t.minecraft_version@,
                decreases version.minecraft_versions.len() - i,
            {
                if str_equal(version.minecraft_versions[i].as_str(), t.minecraft_version.as_str()) {
                    listed = true;
                }
                i = i + 1;
            }
            proof {
                let views = string_views(version.minecraft_versions@);
                if listed {
                    let k = choose|k: int| 0 <= k < i && (#[trigger] version.minecraft_versions@[k])@ == t.minecraft_version@;
                    assert(views[k] == t.minecraft_version@);
                }
                if views.contains(t.minecraft_version@) {
                    let k = choose|k: int| 0 <= k < views.len() && views[k] == t.minecraft_version@;
                    assert(version.minecraft_versions@[k]@ == t.minecraft_version@);
                }
            }
            let mut loader = false;
            let mut j: usize = 0;
            while j < version.loaders.len()
                invariant
                    j <= version.loaders.len(),
                    loader == exists|k: int| 0 <= k < j && version.loaders@[k] == t.loader,
                decreases version.loaders.len() - j,
            {
                if version.loaders[j] == t.loader {
                    loader = true;
                }
                j = j + 1;
            }
            let mut channel = false;
            let mut c: usize = 0;
            while c < t.release_channels.len()
                invariant
                    c <= t.release_channels.len(),
                    channel == exists|k: int| 0 <= k < c && t.release_channels@[k] == version.channel,
                decreases t.release_channels.len() - c,
            {
                if t.release_channels[c] == version.channel {
                    channel = true;
                }
                c = c + 1;
            }
            listed && loader && channel
        },
    }
}

/// `i` is the version a pack is analysed with: one that fits, published
/// after every fitting version before it and no earlier than any after it
/// (the first of the newest, as a stable sort by date, newest first, gives).
pub open spec fn newest_fitting(versions: Seq<ProjectVersion>, target: Option<ProfileTarget>, i: int) -> bool {
    &&& 0 <= i < versions.len()
    &&& pack_version_fits(versions[i], target)
    &&& forall|j: int|
        0 <= j < versions.len() && j != i && pack_version_fits(#[trigger] versions[j], target) ==> if j < i {
            text_lt(versions[j].published_at@, versions[i].published_at@)
        } else {
            !text_lt(versions[i].published_at@, versions[j].published_at@)
        }
}

/// The newest version of a pack that fits the target.
pub fn newest_pack_version(versions: &Vec<ProjectVersion>, target: &Option<ProfileTarget>) -> (r: Result<usize, AppError>)
    ensures
        match r {
            Ok(i) => newest_fitting(versions@, *target, i as int),
            Err(_) => fails_with(r, "Este modpack não possui uma versão compatível para analisar."@)
                && forall|j: int| 0 <= j < versions.len() ==> !pack_version_fits(#[trigger] versions@[j], *target),
        },
{
    let mut best: Option<usize> = None;
    let mut i: usize = 0;
    while i < versions.len()
        invariant
            i <= versions.len(),
            match best {
                None => forall|j: int| 0 <= j < i ==> !pack_version_fits(#[trigger] versions@[j], *target),
                Some(b) => b < i && pack_version_fits(versions@[b as int], *target) && forall|j: int|
                    0 <= j < i && j != b && pack_version_fits(#[trigger] versions@[j], *target) ==> if j < b {
                        text_lt(versions@[j].published_at@, versions@[b as int].published_at@)
                    } else {
                        !text_lt(versions@[b as int].published_at@, versions@[j].published_at@)
                    },
            },
        decreases versions.len() - i,
    {
        if version_fits(&versions[i], target) {
            match best {
                None => {
                    best = Some(i);
                },
                Some(b) => {
                    let newer = text_less(
                        &chars_of(versions[b].published_at.as_str()),
                        &chars_of(versions[i].published_at.as_str()),
                    );
                    if newer {
                        proof {
                            let di = versions@[i as int].published_at@;
                            let db = versions@[b as int].published_at@;
                            assert forall|j: int|
                                0 <= j < i + 1 && j != i && pack_version_fits(#[trigger] versions@[j], *target) implies text_lt(
                                versions@[j].published_at@,
                                di,
                            ) by {
                                let dj = versions@[j].published_at@;
                                if j < b {
                                    lemma_text_lt_transitive(dj, db, di);
                                } else if j > b {
                                    lemma_text_lt_total(db, dj);
                                    if text_lt(dj, db) {
                                        lemma_text_lt_transitive(dj, db, di);
                                    }
                                }
                            }
                        }
                        best = Some(i);
                    }
                },
            }
        }
        i = i + 1;
    }
    match best {
        Some(b) => Ok(b),
        None => Err(AppError::message("Este modpack não possui uma versão compatível para analisar.")),
    }
}

/// A `.mrpack` file, by its name.
pub open spec fn is_pack_file(f: DownloadFile) -> bool {
    has_suffix(f.filename@, ".mrpack"@)
}

/// The file a pack version is read from: its first primary `.mrpack` file,
/// else its first `.mrpack` file.
pub open spec fn chosen_pack_file(files: Seq<DownloadFile>, i: int) -> bool {
    &&& 0 <= i < files.len()
    &&& is_pack_file(files[i])
    &&& if exists|j: int| 0 <= j < files.len() && (#[trigger] files[j]).primary && is_pack_file(files[j]) {
        files[i].primary && forall|j: int| 0 <= j < i ==> !((#[trigger] files[j]).primary && is_pack_file(files[j]))
    } else {
        forall|j: int| 0 <= j < i ==> !is_pack_file(#[trigger] files[j])
    }
}

/// Picks the `.mrpack` file of a pack version.
pub fn pack_archive_file(files: &Vec<DownloadFile>) -> (r: Result<usize, AppError>)
    ensures
        match r {
            Ok(i) => chosen_pack_file(files@, i as int),
            Err(_) => fails_with(r, "A versão não contém um arquivo .mrpack."@)
                && forall|j: int| 0 <= j < files.len() ==> !is_pack_file(#[trigger] files@[j]),
        },
{
    let suffix = chars_of(".mrpack");
    let mut i: usize = 0;
    while i < files.len()
        invariant
            i <= files.len(),
            suffix@ == ".mrpack"@,
            forall|j: int| 0 <= j < i ==> !((#[trigger] files@[j]).primary && is_pack_file(files@[j])),
        decreases files.len() - i,
    {
        if files[i].primary && ends_with(&chars_of(files[i].filename.as_str()), &suffix) {
            return Ok(i);
        }
        i = i + 1;
    }
    let mut k: usize = 0;
    while k < files.len()
        invariant
            k <= files.len(),
            suffix@ == ".mrpack"@,
            forall|j: int| 0 <= j < files.len() ==> !((#[trigger] files@[j]).primary && is_pack_file(files@[j])),
            forall|j: int| 0 <= j < k ==> !is_pack_file(#[trigger] files@[j]),
        decreases files.len() - k,
    {
        if ends_with(&chars_of(files[k].filename.as_str()), &suffix) {
            return Ok(k);
        }
        k = k + 1;
    }
    Err(AppError::message("A versão não contém um arquivo .mrpack."))
}

/// The largest pack archive read for a preview: 64 MiB.
pub const PACK_ARCHIVE_LIMIT: u64 = 67108864;

/// Refuses an archive whose announced size is over the limit.
pub fn check_announced_archive_size(content_length: Option<u64>) -> (r: Result<(), AppError>)
    ensures
        (content_length matches Some(n) && n > PACK_ARCHIVE_LIMIT) ==> fails_with(
            r,
            "O arquivo do modpack é grande demais para a prévia (limite de 64 MB)."@,
        ),
        !(content_length matches Some(n) && n > PACK_ARCHIVE_LIMIT) ==> r is Ok,
{
    match content_length {
        Some(n) => if n > PACK_ARCHIVE_LIMIT {
            Err(AppError::message("O arquivo do modpack é grande demais para a prévia (limite de 64 MB)."))
        } else {
            Ok(())
        },
        None => Ok(()),
    }
}

/// Refuses a downloaded archive over the limit.
pub fn check_archive_size(size: u64) -> (r: Result<(), AppError>)
    ensures
        size > PACK_ARCHIVE_LIMIT ==> fails_with(r, "O arquivo do modpack excedeu o limite seguro de 64 MB."@),
        size <= PACK_ARCHIVE_LIMIT ==> r is Ok,
{
    if size > PACK_ARCHIVE_LIMIT {
        Err(AppError::message("O arquivo do modpack excedeu o limite seguro de 64 MB."))
    } else {
        Ok(())
    }
}

/// What the `zip` crate reads from an archive held in memory: the names of
/// its entries, or the text of the error that refused the archive.
pub uninterp spec fn zip_entry_names(bytes: Seq<u8>) -> Result<Seq<Seq<char>>, Seq<char>>;

/// What the `zip` crate gives for one entry of an archive held in memory,
/// read as UTF-8 text: the archive's error, no such entry, the read's
/// error, or the text.
pub uninterp spec fn zip_entry_text(bytes: Seq<u8>, name: Seq<char>) -> Result<
    Option<Result<Seq<char>, Seq<char>>>,
    Seq<char>,
>;

pub open spec fn entry_text_view(r: Result<Option<Result<String, String>>, String>) -> Result<
    Option<Result<Seq<char>, Seq<char>>>,
    Seq<char>,
> {
    match r {
        Err(m) => Err(m@),
        Ok(None) => Ok(None),
        Ok(Some(Err(m))) => Ok(Some(Err(m@))),
        Ok(Some(Ok(t))) => Ok(Some(Ok(t@))),
    }
}

/// `zip::ZipArchive::new` over the bytes, then `file_names`: the entries'
/// names, or the archive error's text. The result is claimed to be a
/// function of the bytes alone.
#[verifier::external_body]
fn archive_entry_names(bytes: &Vec<u8>) -> (r: Result<Vec<String>, String>)
    ensures
        match r {
            Ok(names) => zip_entry_names(bytes@) == Ok::<Seq<Seq<char>>, Seq<char>>(string_views(names@)),
            Err(m) => zip_entry_names(bytes@) == Err::<Seq<Seq<char>>, Seq<char>>(m@),
        },
{
    match zip::ZipArchive::new(std::io::Cursor::new(bytes.as_slice())) {
        Ok(archive) => Ok(archive.file_names().map(|name| name.to_string()).collect()),
        Err(error) => Err(error.to_string()),
    }
}

/// `zip::ZipArchive::new` over the bytes, `by_name`, then `read_to_string`:
/// the archive error's text, no entry when `by_name` fails, the read
/// error's text, or the entry's text. The result is claimed to be a
/// function of the bytes and the name alone.
#[verifier::external_body]
pub(crate) fn archive_entry_text(bytes: &Vec<u8>, name: &str) -> (r: Result<Option<Result<String, String>>, String>)
    ensures
        entry_text_view(r) == zip_entry_text(bytes@, name@),
{
    let mut archive = zip::ZipArchive::new(std::io::Cursor::new(bytes.as_slice())).map_err(|error| error.to_string())?;
    let Ok(mut entry) = archive.by_name(name) else {
        return Ok(None);
    };
    let mut text = String::new();
    Ok(Some(entry.read_to_string(&mut text).map(|_| text).map_err(|error| error.to_string())))
}

/// What the `zip` crate gives for the size of one entry of an archive held
/// in memory: the archive's error, no such entry, or its uncompressed size.
pub uninterp spec fn zip_entry_size(bytes: Seq<u8>, name: Seq<char>) -> Result<Option<u64>, Seq<char>>;

/// `zip::ZipArchive::new` over the bytes, `by_name`, then `size`: the
/// archive error's text, no entry when `by_name` fails, or the entry's
/// uncompressed size. The result is claimed to be a function of the bytes
/// and the name alone.
#[verifier::external_body]
pub(crate) fn archive_entry_size(bytes: &Vec<u8>, name: &str) -> (r: Result<Option<u64>, String>)
    ensures
        match r {
            Ok(size) => zip_entry_size(bytes@, name@) == Ok::<Option<u64>, Seq<char>>(size),
            Err(m) => zip_entry_size(bytes@, name@) == Err::<Option<u64>, Seq<char>>(m@),
        },
{
    let mut archive = zip::ZipArchive::new(std::io::Cursor::new(bytes.as_slice())).map_err(|error| error.to_string())?;
    let size = match archive.by_name(name) {
        Ok(entry) => Some(entry.size()),
        Err(_) => None,
    };
    Ok(size)
}

/// Reads a `.mrpack` held in memory: the text of its `modrinth.index.json`
/// and whether it ships overrides.
pub fn read_pack_archive(bytes: &Vec<u8>) -> (r: Result<(String, bool), AppError>)
    ensures
        match zip_entry_names(bytes@) {
            Err(m) => fails_with(r, "Arquivo .mrpack inválido: "@ + m),
            Ok(names) => match zip_entry_text(bytes@, "modrinth.index.json"@) {
                Err(m) => fails_with(r, "Arquivo .mrpack inválido: "@ + m),
                Ok(None) => fails_with(r, "O .mrpack não contém modrinth.index.json."@),
                Ok(Some(Err(m))) => fails_with(r, m),
                Ok(Some(Ok(text))) => r matches Ok((t, overrides)) && t@ == text && overrides == overrides_present(names),
            },
        },
{
    let names = match archive_entry_names(bytes) {
        Ok(names) => names,
        Err(error) => return Err(AppError::Message(join2("Arquivo .mrpack inválido: ", error.as_str()))),
    };
    let overrides = has_overrides(&names);
    match archive_entry_text(bytes, "modrinth.index.json") {
        Err(error) => Err(AppError::Message(join2("Arquivo .mrpack inválido: ", error.as_str()))),
        Ok(None) => Err(AppError::message("O .mrpack não contém modrinth.index.json.")),
        Ok(Some(Err(error))) => Err(AppError::Message(error)),
        Ok(Some(Ok(text))) => Ok((text, overrides)),
    }
}

/// A Minecraft version as Modrinth lists it.
#[derive(Debug)]
pub struct GameVersion {
    pub version: String,
    pub version_type: String,
    pub date: String,
}

/// The releases among the versions, in order, each keyed by its date.
pub open spec fn dated_releases(versions: Seq<GameVersion>) -> Seq<(Seq<char>, String)>
    decreases versions.len(),
{
    if versions.len() == 0 {
        Seq::empty()
    } else {
        let rest = dated_releases(versions.drop_last());
        let v = versions.last();
        if v.version_type@ == "release"@ {
            rest.push((v.date@, v.version))
        } else {
            rest
        }
    }
}

/// The Minecraft releases, newest first; releases of the same date keep
/// their order.
pub fn release_versions(versions: Vec<GameVersion>) -> (r: Vec<String>)
    ensures
        r@ == sorted_by_text_desc(dated_releases(versions@)).map_values(|e: (Seq<char>, String)| e.1),
{
    let ghost original = versions@;
    let mut rest = versions;
    let mut keyed: Vec<(Vec<char>, String)> = Vec::new();
    let mut i: usize = 0;
    let n = rest.len();
    while rest.len() > 0
        invariant
            n == original.len(),
            i + rest.len() == n,
            rest@ == original.skip(i as int),
            text_keyed(keyed@) == dated_releases(original.take(i as int)),
        decreases rest.len(),
    {
        assert(rest@[0] == original[i as int]);
        let item = rest.remove(0);
        proof {
            assert(original.take(i + 1).drop_last() =~= original.take(i as int));
            assert(original.take(i + 1).last() == item);
        }
        if str_equal(item.version_type.as_str(), "release") {
            let GameVersion { version, version_type: _, date } = item;
            let key = chars_of(date.as_str());
            let ghost before = keyed@;
            keyed.push((key, version));
            assert(text_keyed(keyed@) =~= text_keyed(before).push((key@, version)));
        }
        i = i + 1;
        assert(rest@ =~= original.skip(i as int));
    }
    assert(original.take(n as int) =~= original);
    let sorted = sort_by_text_desc(keyed);
    let ghost target = sorted_by_text_desc(dated_releases(original));
    let mut rest = sorted;
    let mut out: Vec<String> = Vec::new();
    let mut j: usize = 0;
    let m = rest.len();
    let ghost all = rest@;
    while rest.len() > 0
        invariant
            m == all.len(),
            j + rest.len() == m,
            rest@ == all.skip(j as int),
            text_keyed(all) == target,
            out@ == target.take(j as int).map_values(|e: (Seq<char>, String)| e.1),
        decreases rest.len(),
    {
        let (_, version) = rest.remove(0);
        assert(target[j as int].1 == version);
        out.push(version);
        j = j + 1;
        assert(out@ =~= target.take(j as int).map_values(|e: (Seq<char>, String)| e.1));
        assert(rest@ =~= all.skip(j as int));
    }
    assert(target.take(m as int) =~= target);
    out
}

} // verus!
