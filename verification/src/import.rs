//! The records made for files found in an instance, and the snapshot that
//! tells whether the mods folder changed between preview and apply.
use crate::domain::{
    DependencyType, FileHash, HashAlgorithm, InstallReason, InstalledMod, ProjectRef, ProjectSummary,
    ProjectVersion, ProviderId, provider_name, loader_name, ModLoader, ProfileTarget,
};
use crate::mod_index::{insert_ref, lemma_insert_ref_position, sorted_unique};
use crate::rescan::{display_name, display_name_from_filename, IdentifiedJar, JarTargetHint};
use crate::error::{fails_with, AppError};
use crate::file_integrity::{ascii_case_equal, eq_ignore_ascii_case};
use crate::text::{chars_of, join2, str_equal, text_less, text_lt, texts, to_lowercase, unicode_lowercase};
use vstd::prelude::*;

verus! {

/// A `.jar` file found in the mods folder, with its hashes and metadata.
#[derive(Debug)]
pub struct ScannedJar {
    pub filename: String,
    pub hashes: Vec<FileHash>,
    pub fingerprint: u32,
    pub target_hint: JarTargetHint,
}

/// One file of the mods folder as compared between preview and apply.
#[derive(Debug, PartialEq, Eq)]
pub struct JarSnapshot {
    pub filename: String,
    pub sha1: String,
}

/// The current time as RFC 3339 text: `chrono::Utc::now().to_rfc3339()`.
/// Nothing is claimed of the text, which depends on the clock.
#[verifier::external_body]
pub(crate) fn now_rfc3339() -> String {
    chrono::Utc::now().to_rfc3339()
}

/// The value of the first SHA-1 hash, if any.
pub open spec fn first_sha1(hashes: Seq<FileHash>) -> Option<Seq<char>>
    decreases hashes.len(),
{
    if hashes.len() == 0 {
        None
    } else if hashes[0].algorithm == HashAlgorithm::Sha1 {
        Some(hashes[0].value@)
    } else {
        first_sha1(hashes.drop_first())
    }
}

fn first_sha1_exec(hashes: &Vec<FileHash>) -> (r: Option<String>)
    ensures
        match first_sha1(hashes@) {
            Some(v) => r matches Some(x) && x@ == v,
            None => r is None,
        },
{
    let mut i: usize = 0;
    assert(hashes@.skip(0) =~= hashes@);
    while i < hashes.len()
        invariant
            i <= hashes.len(),
            first_sha1(hashes@) == first_sha1(hashes@.skip(i as int)),
        decreases hashes.len() - i,
    {
        assert(hashes@.skip(i as int)[0] == hashes@[i as int]);
        if hashes[i].algorithm == HashAlgorithm::Sha1 {
            return Some(hashes[i].value.clone());
        }
        assert(hashes@.skip(i as int).drop_first() =~= hashes@.skip(i + 1));
        i = i + 1;
    }
    None
}

/// The record for a file no catalog recognized: known by its SHA-1 (or its
/// name when it has none), named after the file.
pub fn local_installed_mod(jar: ScannedJar) -> (r: InstalledMod)
    ensures
        ({
            let sha1 = match first_sha1(jar.hashes@) {
                Some(v) => v,
                None => jar.filename@,
            };
            &&& r.provider == ProviderId::Local
            &&& r.project_id@ == "sha1:"@ + sha1
            &&& r.name@ == display_name(jar.filename@)
            &&& r.version_id@ == sha1
            &&& r.version_number@ == "Arquivo local"@
            &&& r.filename == jar.filename
            &&& r.reason == InstallReason::Requested
            &&& r.hashes == jar.hashes
            &&& r.enabled
            &&& r.required_dependencies matches Some(d) && d.len() == 0
        }),
{
    let sha1 = match first_sha1_exec(&jar.hashes) {
        Some(v) => v,
        None => jar.filename.clone(),
    };
    let project_id = join2("sha1:", sha1.as_str());
    let name = display_name_from_filename(jar.filename.as_str());
    InstalledMod {
        provider: ProviderId::Local,
        project_id,
        name,
        version_id: sha1,
        version_number: String::from_str("Arquivo local"),
        filename: jar.filename,
        installed_at: now_rfc3339(),
        reason: InstallReason::Requested,
        hashes: jar.hashes,
        enabled: true,
        required_dependencies: Some(Vec::new()),
    }
}

/// The required dependencies the versions declare with a catalog and project, in order.
pub open spec fn declared_requirements(versions: Seq<ProjectVersion>) -> Seq<ProjectRef>
    decreases versions.len(),
{
    if versions.len() == 0 {
        Seq::empty()
    } else {
        declared_requirements(versions.drop_last()) + requirements_of(versions.last().dependencies@)
    }
}

pub open spec fn requirements_of(deps: Seq<crate::domain::ModDependency>) -> Seq<ProjectRef>
    decreases deps.len(),
{
    if deps.len() == 0 {
        Seq::empty()
    } else {
        let d = deps.last();
        requirements_of(deps.drop_last()) + if d.dependency_type == DependencyType::Required && d.provider is Some
            && d.project_id is Some {
            seq![ProjectRef { provider: d.provider->0, project_id: d.project_id->0 }]
        } else {
            Seq::empty()
        }
    }
}

/// Inserts a reference in key order unless its key is there already.
fn insert_unique(out: &mut Vec<ProjectRef>, x: ProjectRef)
    ensures
        final(out)@ == insert_ref(old(out)@, x),
{
    let key = x.key();
    let kv = chars_of(key.as_str());
    let mut p: usize = 0;
    let mut stop = false;
    while !stop && p < out.len()
        invariant
            p <= out.len(),
            kv@ == x.key_view(),
            key@ == x.key_view(),
            forall|j: int| 0 <= j < p ==> #[trigger] out@[j].key_view() != x.key_view() && !text_lt(x.key_view(), out@[j].key_view()),
            stop ==> p < out.len() && (out@[p as int].key_view() == x.key_view() || text_lt(x.key_view(), out@[p as int].key_view())),
        decreases out.len() - p, if stop { 0int } else { 1int },
    {
        let other = out[p].key();
        if other == key || text_less(&kv, &chars_of(other.as_str())) {
            stop = true;
        } else {
            p = p + 1;
        }
    }
    proof {
        lemma_insert_ref_position(out@, x, p as int);
    }
    if !(stop && out[p].key() == key) {
        let ghost before = out@;
        out.insert(p, x);
        assert(out@ =~= before.take(p as int) + seq![x] + before.skip(p as int));
    }
}

/// The record for a file a catalog recognized: the project's identity, the
/// matched version, and the required dependencies of every matching catalog
/// version, sorted by key and without repeats.
pub fn installed_from_versions(
    project: ProjectSummary,
    selected_version: &ProjectVersion,
    versions: &Vec<ProjectVersion>,
    jar: ScannedJar,
) -> (r: InstalledMod)
    ensures
        r.provider == project.provider,
        r.project_id == project.project_id,
        r.name == project.name,
        r.version_id == selected_version.version_id,
        r.version_number == selected_version.version_number,
        r.filename == jar.filename,
        r.reason == InstallReason::Requested,
        r.hashes == jar.hashes,
        r.enabled,
        r.required_dependencies matches Some(d) && d@ == sorted_unique(declared_requirements(versions@)),
{
    let mut found: Vec<ProjectRef> = Vec::new();
    let ghost mut all: Seq<ProjectRef> = Seq::empty();
    let mut i: usize = 0;
    while i < versions.len()
        invariant
            i <= versions.len(),
            all == declared_requirements(versions@.take(i as int)),
            found@ == sorted_unique(all),
        decreases versions.len() - i,
    {
        let deps = &versions[i].dependencies;
        proof {
            assert(versions@.take(i + 1).drop_last() =~= versions@.take(i as int));
        }
        let ghost base = all;
        let mut j: usize = 0;
        while j < deps.len()
            invariant
                j <= deps.len(),
                all == base + requirements_of(deps@.take(j as int)),
                found@ == sorted_unique(all),
            decreases deps.len() - j,
        {
            let d = &deps[j];
            proof {
                assert(deps@.take(j + 1).drop_last() =~= deps@.take(j as int));
            }
            match (d.dependency_type, d.provider, &d.project_id) {
                (DependencyType::Required, Some(provider), Some(id)) => {
                    let r = ProjectRef { provider, project_id: id.clone() };
                    insert_unique(&mut found, r);
                    proof {
                        assert(requirements_of(deps@.take(j + 1)) =~= requirements_of(deps@.take(j as int)).push(r));
                        assert(base + requirements_of(deps@.take(j + 1)) =~= (base + requirements_of(deps@.take(j as int))).push(r));
                        assert((all.push(r)).drop_last() =~= all);
                        all = all.push(r);
                    }
                },
                _ => {
                    proof {
                        assert(requirements_of(deps@.take(j + 1)) =~= requirements_of(deps@.take(j as int)));
                    }
                },
            }
            j = j + 1;
        }
        assert(deps@.take(deps.len() as int) =~= deps@);
        i = i + 1;
    }
    assert(versions@.take(versions.len() as int) =~= versions@);
    InstalledMod {
        provider: project.provider,
        project_id: project.project_id,
        name: project.name,
        version_id: selected_version.version_id.clone(),
        version_number: selected_version.version_number.clone(),
        filename: jar.filename,
        installed_at: now_rfc3339(),
        reason: InstallReason::Requested,
        hashes: jar.hashes,
        enabled: true,
        required_dependencies: Some(found),
    }
}


/// For each file with a SHA-1: its lowercased name and that hash, in order.
pub open spec fn snapshot_entries(jars: Seq<ScannedJar>) -> Seq<(Seq<char>, Seq<char>)>
    decreases jars.len(),
{
    if jars.len() == 0 {
        Seq::empty()
    } else {
        snapshot_entries(jars.drop_last()) + match first_sha1(jars.last().hashes@) {
            Some(h) => seq![(unicode_lowercase(jars.last().filename@), h)],
            None => Seq::empty(),
        }
    }
}

/// Inserts an entry after every entry whose name is not greater.
pub open spec fn insert_by_name(s: Seq<(Seq<char>, Seq<char>)>, x: (Seq<char>, Seq<char>)) -> Seq<(Seq<char>, Seq<char>)>
    decreases s.len(),
{
    if s.len() == 0 {
        seq![x]
    } else if text_lt(x.0, s[0].0) {
        seq![x] + s
    } else {
        seq![s[0]] + insert_by_name(s.drop_first(), x)
    }
}

/// The entries stably sorted by name.
pub open spec fn sort_by_name(s: Seq<(Seq<char>, Seq<char>)>) -> Seq<(Seq<char>, Seq<char>)>
    decreases s.len(),
{
    if s.len() == 0 {
        Seq::empty()
    } else {
        insert_by_name(sort_by_name(s.drop_last()), s.last())
    }
}

pub open spec fn snapshot_view(v: Seq<JarSnapshot>) -> Seq<(Seq<char>, Seq<char>)> {
    v.map_values(|e: JarSnapshot| (e.filename@, e.sha1@))
}

proof fn lemma_insert_by_name_at(s: Seq<(Seq<char>, Seq<char>)>, x: (Seq<char>, Seq<char>), p: int)
    requires
        0 <= p <= s.len(),
        forall|j: int| 0 <= j < p ==> !text_lt(x.0, #[trigger] s[j].0),
        p < s.len() ==> text_lt(x.0, s[p].0),
    ensures
        insert_by_name(s, x) == s.take(p) + seq![x] + s.skip(p),
    decreases s.len(),
{
    if s.len() == 0 {
        assert(s.take(p) + seq![x] + s.skip(p) =~= seq![x]);
    } else if p == 0 {
        assert(s.take(p) + seq![x] + s.skip(p) =~= seq![x] + s);
    } else {
        let t = s.drop_first();
        assert forall|j: int| 0 <= j < p - 1 implies !text_lt(x.0, #[trigger] t[j].0) by {
            assert(t[j] == s[j + 1]);
        }
        lemma_insert_by_name_at(t, x, p - 1);
        assert(seq![s[0]] + (t.take(p - 1) + seq![x] + t.skip(p - 1)) =~= s.take(p) + seq![x] + s.skip(p));
    }
}

/// What the mods folder held at preview time: lowercased file names with
/// their SHA-1, sorted by name.
pub fn snapshot_from_scanned_jars(jars: &Vec<ScannedJar>) -> (r: Vec<JarSnapshot>)
    ensures
        snapshot_view(r@) == sort_by_name(snapshot_entries(jars@)),
{
    let mut out: Vec<JarSnapshot> = Vec::new();
    let ghost mut entries: Seq<(Seq<char>, Seq<char>)> = Seq::empty();
    let mut i: usize = 0;
    while i < jars.len()
        invariant
            i <= jars.len(),
            entries == snapshot_entries(jars@.take(i as int)),
            snapshot_view(out@) == sort_by_name(entries),
        decreases jars.len() - i,
    {
        proof {
            assert(jars@.take(i + 1).drop_last() =~= jars@.take(i as int));
        }
        match first_sha1_exec(&jars[i].hashes) {
            Some(sha1) => {
                let filename = to_lowercase(jars[i].filename.as_str());
                let name_chars = chars_of(filename.as_str());
                let ghost x = (filename@, sha1@);
                let mut p: usize = 0;
                let mut stop = false;
                while !stop && p < out.len()
                    invariant
                        p <= out.len(),
                        name_chars@ == x.0,
                        forall|j: int| 0 <= j < p ==> !text_lt(x.0, #[trigger] snapshot_view(out@)[j].0),
                        stop ==> p < out.len() && text_lt(x.0, snapshot_view(out@)[p as int].0),
                    decreases out.len() - p, if stop { 0int } else { 1int },
                {
                    if text_less(&name_chars, &chars_of(out[p].filename.as_str())) {
                        stop = true;
                    } else {
                        p = p + 1;
                    }
                }
                proof {
                    lemma_insert_by_name_at(snapshot_view(out@), x, p as int);
                    assert(snapshot_entries(jars@.take(i + 1)) =~= entries.push(x));
                    assert(entries.push(x).drop_last() =~= entries);
                }
                let ghost before = snapshot_view(out@);
                out.insert(p, JarSnapshot { filename, sha1 });
                proof {
                    assert(snapshot_view(out@) =~= before.take(p as int) + seq![x] + before.skip(p as int));
                    entries = entries.push(x);
                }
            },
            None => {
                proof {
                    assert(snapshot_entries(jars@.take(i + 1)) =~= entries);
                }
            },
        }
        i = i + 1;
    }
    assert(jars@.take(jars.len() as int) =~= jars@);
    out
}

/// How many of a file's hashes a catalog is asked about: CurseForge only
/// the first, Modrinth all of them.
pub fn hashes_to_try(provider: ProviderId, count: usize) -> (r: usize)
    ensures
        r == if provider == ProviderId::Curseforge && count > 1 { 1 } else { count },
{
    if provider == ProviderId::Curseforge && count > 1 {
        1
    } else {
        count
    }
}

/// The warning for a catalog that failed while identifying a file.
pub fn identification_warning(filename: &str, provider: ProviderId, error: &str) -> (r: String)
    ensures
        r@ == filename@ + " não pôde ser identificado em "@ + provider_name(provider) + ": "@ + error@,
{
    let a = join2(filename, " não pôde ser identificado em ");
    let b = join2(a.as_str(), provider.as_str());
    let c = join2(b.as_str(), ": ");
    join2(c.as_str(), error)
}

/// The warning for a recognized file whose project could not be loaded.
pub fn project_load_warning(filename: &str, provider: ProviderId, error: &str) -> (r: String)
    ensures
        r@ == filename@ + " foi reconhecido em "@ + provider_name(provider)
            + ", mas o projeto não pôde ser carregado: "@ + error@,
{
    let a = join2(filename, " foi reconhecido em ");
    let b = join2(a.as_str(), provider.as_str());
    let c = join2(b.as_str(), ", mas o projeto não pôde ser carregado: ");
    join2(c.as_str(), error)
}

pub open spec fn version_refs(versions: Seq<ProjectVersion>) -> Seq<ProjectRef> {
    versions.map_values(|v: ProjectVersion| ProjectRef { provider: v.provider, project_id: v.project_id })
}

/// What is known of a file once the catalogs answered: `versions` are the
/// versions that matched its hashes, and `selected` the first match whose
/// project could be loaded, with that project. Without one, the file is
/// kept as a local mod and nothing of the matches is kept.
pub fn identified_jar(
    jar: ScannedJar,
    versions: Vec<ProjectVersion>,
    selected: Option<(usize, ProjectSummary)>,
    warnings: Vec<String>,
) -> (r: IdentifiedJar)
    requires
        selected matches Some((i, _)) ==> i < versions.len(),
    ensures
        r.warnings@ == warnings@,
        r.target_hint == jar.target_hint,
        match selected {
            Some((i, project)) => {
                &&& r.versions@ == versions@
                &&& r.aliases@ == version_refs(versions@)
                &&& r.item.provider == project.provider
                &&& r.item.project_id == project.project_id
                &&& r.item.version_id == versions@[i as int].version_id
                &&& r.item.filename == jar.filename
                &&& r.item.required_dependencies matches Some(d) && d@ == sorted_unique(
                    declared_requirements(versions@),
                )
            },
            None => {
                &&& r.versions@.len() == 0
                &&& r.aliases@.len() == 0
                &&& r.item.provider == ProviderId::Local
                &&& r.item.filename == jar.filename
            },
        },
{
    let ScannedJar { filename, hashes, fingerprint, target_hint: hint } = jar;
    let jar = ScannedJar {
        filename,
        hashes,
        fingerprint,
        target_hint: JarTargetHint { minecraft_versions: Vec::new(), loader: None },
    };
    match selected {
        Some((i, project)) => {
            let mut aliases: Vec<ProjectRef> = Vec::new();
            let mut k: usize = 0;
            while k < versions.len()
                invariant
                    k <= versions.len(),
                    aliases@ == version_refs(versions@.take(k as int)),
                decreases versions.len() - k,
            {
                let r = ProjectRef { provider: versions[k].provider, project_id: versions[k].project_id.clone() };
                aliases.push(r);
                k = k + 1;
                assert(aliases@ =~= version_refs(versions@.take(k as int)));
            }
            assert(versions@.take(versions.len() as int) =~= versions@);
            let item = installed_from_versions(project, &versions[i], &versions, jar);
            IdentifiedJar { item, versions, aliases, warnings, target_hint: hint }
        },
        None => {
            let item = local_installed_mod(jar);
            IdentifiedJar { item, versions: Vec::new(), aliases: Vec::new(), warnings, target_hint: hint }
        },
    }
}

/// A version declares the target when it lists its Minecraft version (or
/// none) and its loader (or none).
pub open spec fn declares_target(v: ProjectVersion, target: ProfileTarget) -> bool {
    (v.minecraft_versions@.len() == 0 || texts(v.minecraft_versions@).contains(target.minecraft_version@))
        && (v.loaders@.len() == 0 || v.loaders@.contains(target.loader))
}

/// A recognized file none of whose versions declares the target.
pub open spec fn undeclared(j: IdentifiedJar, target: ProfileTarget) -> bool {
    j.versions@.len() > 0 && !(exists|k: int| 0 <= k < j.versions@.len() && declares_target(#[trigger] j.versions@[k], target))
}

pub open spec fn undeclared_text(j: IdentifiedJar, target: ProfileTarget) -> Seq<char> {
    j.item.filename@ + " foi identificado, mas não declara compatibilidade com Minecraft "@
        + target.minecraft_version@ + " / "@ + loader_name(target.loader) + "."@
}

/// The warnings of a rescan, file by file: each file's own, then one when
/// it is recognized but declares nothing compatible with the target.
pub open spec fn scan_warnings(identified: Seq<IdentifiedJar>, target: ProfileTarget) -> Seq<Seq<char>>
    decreases identified.len(),
{
    if identified.len() == 0 {
        Seq::empty()
    } else {
        let j = identified.last();
        let own = scan_warnings(identified.drop_last(), target) + texts(j.warnings@);
        if undeclared(j, target) {
            own.push(undeclared_text(j, target))
        } else {
            own
        }
    }
}

fn text_listed(list: &Vec<String>, value: &String) -> (r: bool)
    ensures
        r == texts(list@).contains(value@),
{
    let mut i: usize = 0;
    while i < list.len()
        invariant
            i <= list.len(),
            forall|k: int| 0 <= k < i ==> #[trigger] list@[k]@ != value@,
        decreases list.len() - i,
    {
        if crate::text::str_equal(list[i].as_str(), value.as_str()) {
            assert(texts(list@)[i as int] == value@);
            return true;
        }
        i = i + 1;
    }
    assert forall|k: int| 0 <= k < texts(list@).len() implies texts(list@)[k] != value@ by {
        assert(texts(list@)[k] == list@[k]@);
    }
    false
}

fn loader_listed(list: &Vec<ModLoader>, value: ModLoader) -> (r: bool)
    ensures
        r == list@.contains(value),
{
    let mut i: usize = 0;
    while i < list.len()
        invariant
            i <= list.len(),
            forall|k: int| 0 <= k < i ==> #[trigger] list@[k] != value,
        decreases list.len() - i,
    {
        if list[i] == value {
            return true;
        }
        i = i + 1;
    }
    false
}

fn declares(v: &ProjectVersion, target: &ProfileTarget) -> (r: bool)
    ensures
        r == declares_target(*v, *target),
{
    (v.minecraft_versions.len() == 0 || text_listed(&v.minecraft_versions, &target.minecraft_version))
        && (v.loaders.len() == 0 || loader_listed(&v.loaders, target.loader))
}

/// Appends the warnings of a rescan to `warnings`.
pub fn append_scan_warnings(identified: &Vec<IdentifiedJar>, target: &ProfileTarget, warnings: &mut Vec<String>)
    ensures
        texts(final(warnings)@) == texts(old(warnings)@) + scan_warnings(identified@, *target),
{
    let ghost start = texts(warnings@);
    let mut i: usize = 0;
    while i < identified.len()
        invariant
            i <= identified.len(),
            texts(warnings@) == start + scan_warnings(identified@.take(i as int), *target),
        decreases identified.len() - i,
    {
        proof {
            assert(identified@.take(i + 1).drop_last() =~= identified@.take(i as int));
        }
        let j = &identified[i];
        let mut k: usize = 0;
        while k < j.warnings.len()
            invariant
                k <= j.warnings.len(),
                texts(warnings@) == start + scan_warnings(identified@.take(i as int), *target) + texts(
                    j.warnings@.take(k as int),
                ),
            decreases j.warnings.len() - k,
        {
            let ghost before = texts(warnings@);
            warnings.push(j.warnings[k].clone());
            assert(texts(warnings@) =~= before.push(j.warnings@[k as int]@));
            assert(texts(j.warnings@.take(k + 1)) =~= texts(j.warnings@.take(k as int)).push(j.warnings@[k as int]@));
            assert(start + scan_warnings(identified@.take(i as int), *target) + texts(j.warnings@.take(k + 1))
                =~= before.push(j.warnings@[k as int]@));
            k = k + 1;
        }
        assert(j.warnings@.take(j.warnings.len() as int) =~= j.warnings@);
        let mut any = false;
        let mut m: usize = 0;
        while m < j.versions.len()
            invariant
                m <= j.versions.len(),
                any == exists|q: int| 0 <= q < m && declares_target(#[trigger] j.versions@[q], *target),
            decreases j.versions.len() - m,
        {
            if declares(&j.versions[m], target) {
                any = true;
            }
            m = m + 1;
        }
        if j.versions.len() > 0 && !any {
            let a = join2(j.item.filename.as_str(), " foi identificado, mas não declara compatibilidade com Minecraft ");
            let b = join2(a.as_str(), target.minecraft_version.as_str());
            let c = join2(b.as_str(), " / ");
            let d = join2(c.as_str(), target.loader.as_str());
            let e = join2(d.as_str(), ".");
            let ghost before = texts(warnings@);
            warnings.push(e);
            assert(texts(warnings@) =~= before.push(e@));
            assert(e@ =~= undeclared_text(*j, *target));
        }
        assert(texts(warnings@) =~= start + scan_warnings(identified@.take(i + 1), *target));
        i = i + 1;
    }
    assert(identified@.take(identified.len() as int) =~= identified@);
}

/// The two snapshots list the same files with the same hashes, in order.
pub fn same_snapshot(a: &Vec<JarSnapshot>, b: &Vec<JarSnapshot>) -> (r: bool)
    ensures
        r == (snapshot_view(a@) == snapshot_view(b@)),
{
    if a.len() != b.len() {
        assert(snapshot_view(a@).len() != snapshot_view(b@).len());
        return false;
    }
    let mut i: usize = 0;
    while i < a.len()
        invariant
            a.len() == b.len(),
            i <= a.len(),
            forall|j: int| 0 <= j < i ==> #[trigger] snapshot_view(a@)[j] == snapshot_view(b@)[j],
        decreases a.len() - i,
    {
        if !str_equal(a[i].filename.as_str(), b[i].filename.as_str()) || !str_equal(
            a[i].sha1.as_str(),
            b[i].sha1.as_str(),
        ) {
            assert(snapshot_view(a@)[i as int] != snapshot_view(b@)[i as int]);
            return false;
        }
        i = i + 1;
    }
    assert(snapshot_view(a@) =~= snapshot_view(b@));
    true
}

/// Accepts applying a rescan only to the profile it was made for and only
/// while the mods folder still holds the files it saw.
pub fn check_rescan_apply(
    scanned_profile_id: &str,
    profile_id: &str,
    scanned: &Vec<JarSnapshot>,
    current: &Vec<JarSnapshot>,
) -> (r: Result<(), AppError>)
    ensures
        scanned_profile_id@ != profile_id@ ==> fails_with(r, "A análise não pertence ao modpack selecionado."@),
        scanned_profile_id@ == profile_id@ && snapshot_view(scanned@) != snapshot_view(current@) ==> fails_with(
            r,
            "A pasta de mods mudou depois da análise. Nada foi substituído; faça uma nova análise para usar os arquivos atuais."@,
        ),
        r is Ok <==> scanned_profile_id@ == profile_id@ && snapshot_view(scanned@) == snapshot_view(current@),
{
    if !str_equal(scanned_profile_id, profile_id) {
        return Err(AppError::message("A análise não pertence ao modpack selecionado."));
    }
    if !same_snapshot(current, scanned) {
        return Err(
            AppError::message(
                "A pasta de mods mudou depois da análise. Nada foi substituído; faça uma nova análise para usar os arquivos atuais.",
            ),
        );
    }
    Ok(())
}

/// Which folder is the instance when the user picks one.
#[derive(Debug, Clone, Copy, PartialEq, Eq, Structural)]
pub enum InstanceRoot {
    /// The chosen folder, which holds a `mods` folder.
    Chosen,
    /// The parent of the chosen folder, which is itself the `mods` folder.
    Parent,
}

/// The instance a chosen folder stands for: the folder itself when it holds
/// a `mods` folder, else its parent when it is named `mods` in any ASCII
/// case; any other folder is refused.
pub fn instance_root(has_mods_folder: bool, folder_name: &Option<String>) -> (r: Result<InstanceRoot, AppError>)
    ensures
        has_mods_folder ==> r == Ok::<InstanceRoot, AppError>(InstanceRoot::Chosen),
        !has_mods_folder && (folder_name matches Some(n) && ascii_case_equal(n@, "mods"@)) ==> r
            == Ok::<InstanceRoot, AppError>(InstanceRoot::Parent),
        !has_mods_folder && !(folder_name matches Some(n) && ascii_case_equal(n@, "mods"@)) ==> fails_with(
            r,
            "Escolha a pasta da instância que contém mods, ou a própria pasta chamada mods."@,
        ),
{
    if has_mods_folder {
        return Ok(InstanceRoot::Chosen);
    }
    if let Some(name) = folder_name {
        if eq_ignore_ascii_case(name.as_str(), "mods") {
            return Ok(InstanceRoot::Parent);
        }
    }
    Err(AppError::message("Escolha a pasta da instância que contém mods, ou a própria pasta chamada mods."))
}

} // verus!
