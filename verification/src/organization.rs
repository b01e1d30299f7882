//! Sorting a profile's mods into client, server, both and unclassified
//! folders: how a mod's side is decided, where it goes, and the manifest
//! written beside the folders.
use crate::domain::{FileHash, InstalledMod, ModLoader, ModpackProfile, ProjectRef, ProjectSide, ProjectSummary, loader_name};
use crate::download::{file_name, file_name_of};
use crate::error::{fails_with, AppError};
use crate::file_integrity::{ascii_case_equal, eq_ignore_ascii_case};
use crate::profiles::{path_components_of, path_starts_with};
use crate::rescan::views;
use crate::sort::{sort_by_text, sorted_by_text, text_keyed};
use crate::text::{chars_of, decimal, string_of, text_equal, decimal_string, join2, join_strings, joined, str_equal, texts, to_lowercase, unicode_lowercase};
use vstd::prelude::*;

verus! {

/// Where a mod's side came from.
#[derive(Debug, Clone, Copy, PartialEq, Eq, Structural)]
pub enum OrganizationClassificationSource {
    /// The mod's own catalog.
    Provider,
    /// The same project in the other catalog.
    CrossProvider,
    /// Nobody could tell.
    Unknown,
}

/// A mod as the organizer shows it.
#[derive(Debug)]
pub struct ModOrganizationItem {
    pub project: ProjectRef,
    pub name: String,
    pub filename: String,
    pub side: ProjectSide,
    pub source: OrganizationClassificationSource,
}

/// An item with the hashes its file is found again by.
#[derive(Debug)]
pub struct StoredOrganizationItem {
    pub item: ModOrganizationItem,
    pub hashes: Vec<FileHash>,
}

/// The organizer's item for an installed mod.
pub fn organization_item(
    installed: InstalledMod,
    side: ProjectSide,
    source: OrganizationClassificationSource,
) -> (r: StoredOrganizationItem)
    ensures
        r.item.project.provider == installed.provider,
        r.item.project.project_id@ == installed.project_id@,
        r.item.name == installed.name,
        r.item.filename == installed.filename,
        r.item.side == side,
        r.item.source == source,
        r.hashes == installed.hashes,
{
    let project = installed.as_ref();
    StoredOrganizationItem {
        hashes: installed.hashes,
        item: ModOrganizationItem {
            project,
            name: installed.name,
            filename: installed.filename,
            side,
            source,
        },
    }
}

/// What is known of an installed mod when its catalog cannot describe it:
/// its catalog, id and name.
pub fn synthetic_summary(installed: &InstalledMod) -> (r: ProjectSummary)
    ensures
        r.provider == installed.provider,
        r.project_id@ == installed.project_id@,
        r.name@ == installed.name@,
        r.slug@.len() == 0,
        r.summary@.len() == 0,
        r.author@.len() == 0,
        r.icon_url is None,
        r.website_url@.len() == 0,
        r.downloads == 0,
        r.updated_at@.len() == 0,
        r.categories.len() == 0,
        r.supported_versions.len() == 0,
        r.supported_loaders.len() == 0,
        r.side == ProjectSide::Unknown,
        r.featured is None,
{
    ProjectSummary {
        provider: installed.provider,
        project_id: installed.project_id.clone(),
        slug: String::new(),
        name: installed.name.clone(),
        summary: String::new(),
        author: String::new(),
        icon_url: None,
        website_url: String::new(),
        downloads: 0,
        updated_at: String::new(),
        categories: Vec::new(),
        supported_versions: Vec::new(),
        supported_loaders: Vec::new(),
        side: ProjectSide::Unknown,
        featured: None,
    }
}

pub open spec fn known(side: Option<ProjectSide>) -> bool {
    side matches Some(s) && s != ProjectSide::Unknown
}

/// How a mod's side is decided, from what the catalogs answered: a local
/// mod is unclassified; otherwise the side its catalog gives the installed
/// version, else the side it gives the project; otherwise, for the same
/// project found in the other catalog (`cross`: the side that catalog gives
/// the version found, and the project's side), the version's side or else
/// the project's. `None` stands for no answer.
pub open spec fn classification(
    remote: bool,
    version_side: Option<ProjectSide>,
    project_side: Option<ProjectSide>,
    cross: Option<(Option<ProjectSide>, ProjectSide)>,
) -> (ProjectSide, OrganizationClassificationSource) {
    if !remote {
        (ProjectSide::Unknown, OrganizationClassificationSource::Unknown)
    } else if known(version_side) {
        (version_side->0, OrganizationClassificationSource::Provider)
    } else if known(project_side) {
        (project_side->0, OrganizationClassificationSource::Provider)
    } else {
        match cross {
            Some((alternate_version_side, alternate_project_side)) => {
                let side = if known(alternate_version_side) {
                    alternate_version_side->0
                } else {
                    alternate_project_side
                };
                if side != ProjectSide::Unknown {
                    (side, OrganizationClassificationSource::CrossProvider)
                } else {
                    (ProjectSide::Unknown, OrganizationClassificationSource::Unknown)
                }
            },
            None => (ProjectSide::Unknown, OrganizationClassificationSource::Unknown),
        }
    }
}

/// The side is given and is not `Unknown`.
pub fn is_known(side: Option<ProjectSide>) -> (r: bool)
    ensures
        r == known(side),
{
    match side {
        Some(s) => s != ProjectSide::Unknown,
        None => false,
    }
}

/// The side of a mod and where it came from, given what each catalog said.
pub fn decide_classification(
    remote: bool,
    version_side: Option<ProjectSide>,
    project_side: Option<ProjectSide>,
    cross: Option<(Option<ProjectSide>, ProjectSide)>,
) -> (r: (ProjectSide, OrganizationClassificationSource))
    ensures
        r == classification(remote, version_side, project_side, cross),
{
    if !remote {
        return (ProjectSide::Unknown, OrganizationClassificationSource::Unknown);
    }
    if is_known(version_side) {
        return (version_side.unwrap(), OrganizationClassificationSource::Provider);
    }
    if is_known(project_side) {
        return (project_side.unwrap(), OrganizationClassificationSource::Provider);
    }
    match cross {
        Some((alternate_version_side, alternate_project_side)) => {
            let side = if is_known(alternate_version_side) {
                alternate_version_side.unwrap()
            } else {
                alternate_project_side
            };
            if side != ProjectSide::Unknown {
                (side, OrganizationClassificationSource::CrossProvider)
            } else {
                (ProjectSide::Unknown, OrganizationClassificationSource::Unknown)
            }
        },
        None => (ProjectSide::Unknown, OrganizationClassificationSource::Unknown),
    }
}

/// The folder of a side, and its position among the four counters.
pub open spec fn folder_of(side: ProjectSide) -> (Seq<char>, usize) {
    match side {
        ProjectSide::Client => ("Cliente"@, 0),
        ProjectSide::Server => ("Servidor"@, 1),
        ProjectSide::Both => ("Cliente e Servidor"@, 2),
        ProjectSide::Unknown => ("Não classificados"@, 3),
    }
}

/// The export folder of a side and its counter.
pub fn side_folder(side: ProjectSide) -> (r: (&'static str, usize))
    ensures
        r.0@ == folder_of(side).0,
        r.1 == folder_of(side).1,
{
    match side {
        ProjectSide::Client => ("Cliente", 0),
        ProjectSide::Server => ("Servidor", 1),
        ProjectSide::Both => ("Cliente e Servidor", 2),
        ProjectSide::Unknown => ("Não classificados", 3),
    }
}

pub open spec fn assignment_views(s: Seq<(String, ProjectSide)>) -> Seq<(Seq<char>, ProjectSide)> {
    s.map_values(|a: (String, ProjectSide)| (a.0@, a.1))
}

/// The side the user gave a project key last, if any.
pub open spec fn assigned_side(assignments: Seq<(Seq<char>, ProjectSide)>, key: Seq<char>) -> Option<ProjectSide>
    decreases assignments.len(),
{
    if assignments.len() == 0 {
        None
    } else if assignments.last().0 == key {
        Some(assignments.last().1)
    } else {
        assigned_side(assignments.drop_last(), key)
    }
}

/// The side an item is exported with: the user's, else the classified one.
pub fn chosen_side(item: &ModOrganizationItem, assignments: &Vec<(String, ProjectSide)>) -> (r: ProjectSide)
    ensures
        r == match assigned_side(assignment_views(assignments@), item.project.key_view()) {
            Some(s) => s,
            None => item.side,
        },
{
    let key = item.project.key();
    let ghost views = assignment_views(assignments@);
    let mut i: usize = assignments.len();
    assert(views.take(i as int) =~= views);
    while i > 0
        invariant
            i <= assignments.len(),
            views == assignment_views(assignments@),
            key@ == item.project.key_view(),
            assigned_side(views, key@) == assigned_side(views.take(i as int), key@),
        decreases i,
    {
        proof {
            assert(views.take(i as int).drop_last() =~= views.take(i - 1));
        }
        if str_equal(assignments[i - 1].0.as_str(), key.as_str()) {
            return assignments[i - 1].1;
        }
        i = i - 1;
    }
    item.side
}

/// `folder/filename (name)`, the manifest line of an exported mod.
pub open spec fn manifest_line(folder: Seq<char>, item: ModOrganizationItem) -> Seq<char> {
    folder + "/"@ + item.filename@ + " ("@ + item.name@ + ")"@
}

/// The manifest line of an exported mod.
pub fn manifest_entry(folder: &str, item: &ModOrganizationItem) -> (r: String)
    ensures
        r@ == manifest_line(folder@, *item),
{
    let a = join2(folder, "/");
    let b = join2(a.as_str(), item.filename.as_str());
    let c = join2(b.as_str(), " (");
    let d = join2(c.as_str(), item.name.as_str());
    let r = join2(d.as_str(), ")");
    assert(r@ =~= manifest_line(folder@, *item));
    r
}

/// The warning for a mod whose file is gone from the mods folder.
pub fn missing_file_warning(item: &ModOrganizationItem) -> (r: String)
    ensures
        r@ == item.name@ + " foi ignorado porque o arquivo "@ + item.filename@
            + " não existe mais na pasta de mods."@,
{
    let a = join2(item.name.as_str(), " foi ignorado porque o arquivo ");
    let b = join2(a.as_str(), item.filename.as_str());
    let r = join2(b.as_str(), " não existe mais na pasta de mods.");
    assert(r@ =~= item.name@ + " foi ignorado porque o arquivo "@ + item.filename@
        + " não existe mais na pasta de mods."@);
    r
}

/// The name of the export folder: `<slug>-mods-organizados`, with `-<n>`
/// from the second attempt on.
pub fn export_folder_name(slug: &str, attempt: u8) -> (r: String)
    ensures
        attempt == 1 ==> r@ == slug@ + "-mods-organizados"@,
        attempt != 1 ==> r@ == slug@ + "-mods-organizados-"@ + decimal(attempt as nat),
{
    if attempt == 1 {
        join2(slug, "-mods-organizados")
    } else {
        let head = join2(slug, "-mods-organizados-");
        let n = decimal_string(attempt as u64);
        join2(head.as_str(), n.as_str())
    }
}

pub open spec fn lowercase_keyed(s: Seq<String>) -> Seq<(Seq<char>, String)> {
    s.map_values(|e: String| (unicode_lowercase(e@), e))
}

pub open spec fn entry_texts(s: Seq<(Seq<char>, String)>) -> Seq<Seq<char>> {
    s.map_values(|p: (Seq<char>, String)| p.1@)
}

/// The manifest written beside the folders: the pack, its target, when it
/// was generated, how many files were skipped, the exported files sorted
/// by lowercased line, and the warnings, if any. Lines end in CRLF.
pub open spec fn manifest_text(
    profile_name: Seq<char>,
    minecraft_version: Seq<char>,
    loader: ModLoader,
    generated_at: Seq<char>,
    entries: Seq<String>,
    warnings: Seq<String>,
) -> Seq<char> {
    "Mosaic Modpack Studio 0.12.0\r\nModpack: "@ + profile_name + "\r\nMinecraft: "@ + minecraft_version
        + " · "@ + loader_name(loader) + "\r\nGerado em: "@ + generated_at + "\r\nArquivos ignorados: "@
        + decimal(warnings.len()) + "\r\n\r\n"@ + joined(
        entry_texts(sorted_by_text(lowercase_keyed(entries))),
        "\r\n"@,
    ) + if warnings.len() == 0 {
        Seq::empty()
    } else {
        "\r\n\r\nAVISOS\r\n"@ + joined(texts(warnings), "\r\n"@)
    } + "\r\n"@
}

/// The text of `manifesto.txt`.
pub fn organization_manifest(
    profile_name: &str,
    minecraft_version: &str,
    loader: ModLoader,
    generated_at: &str,
    entries: &Vec<String>,
    warnings: &Vec<String>,
) -> (r: String)
    requires
        warnings.len() <= u64::MAX,
    ensures
        r@ == manifest_text(profile_name@, minecraft_version@, loader, generated_at@, entries@, warnings@),
{
    let mut pairs: Vec<(Vec<char>, String)> = Vec::new();
    let mut i: usize = 0;
    while i < entries.len()
        invariant
            i <= entries.len(),
            text_keyed(pairs@) == lowercase_keyed(entries@.take(i as int)),
        decreases entries.len() - i,
    {
        let lowered = to_lowercase(entries[i].as_str());
        let key = chars_of(lowered.as_str());
        let entry = entries[i].clone();
        let ghost before = text_keyed(pairs@);
        let ghost added = (key@, entry);
        pairs.push((key, entry));
        assert(text_keyed(pairs@) =~= before.push(added));
        assert(entries@.take(i + 1) =~= entries@.take(i as int).push(entries@[i as int]));
        i = i + 1;
    }
    assert(entries@.take(entries.len() as int) =~= entries@);
    let sorted = sort_by_text(pairs);
    let ghost sorted_view = text_keyed(sorted@);
    let mut lines: Vec<String> = Vec::new();
    let mut rest = sorted;
    let mut k: usize = 0;
    let total = rest.len();
    while rest.len() > 0
        invariant
            total == sorted_view.len(),
            k + rest.len() == total,
            text_keyed(rest@) == sorted_view.skip(k as int),
            texts(lines@) == entry_texts(sorted_view.take(k as int)),
        decreases rest.len(),
    {
        let ghost before = rest@;
        assert(text_keyed(before)[0] == sorted_view[k as int]);
        let pair = rest.remove(0);
        assert(text_keyed(rest@) =~= text_keyed(before).drop_first());
        let ghost old_lines = texts(lines@);
        let ghost line = pair.1;
        assert(line == sorted_view[k as int].1);
        lines.push(pair.1);
        assert(texts(lines@) =~= old_lines.push(line@));
        assert(sorted_view.take(k + 1) =~= sorted_view.take(k as int).push(sorted_view[k as int]));
        k = k + 1;
        assert(texts(lines@) =~= entry_texts(sorted_view.take(k as int)));
    }
    assert(sorted_view.take(total as int) =~= sorted_view);
    let body = join_strings(&lines, "\r\n");
    let a = join2("Mosaic Modpack Studio 0.12.0\r\nModpack: ", profile_name);
    let b = join2(a.as_str(), "\r\nMinecraft: ");
    let c = join2(b.as_str(), minecraft_version);
    let d = join2(c.as_str(), " · ");
    let e = join2(d.as_str(), loader.as_str());
    let f = join2(e.as_str(), "\r\nGerado em: ");
    let g = join2(f.as_str(), generated_at);
    let h = join2(g.as_str(), "\r\nArquivos ignorados: ");
    let count = decimal_string(warnings.len() as u64);
    let j = join2(h.as_str(), count.as_str());
    let kk = join2(j.as_str(), "\r\n\r\n");
    let l = join2(kk.as_str(), body.as_str());
    let m = if warnings.len() == 0 {
        l
    } else {
        let notes = join_strings(warnings, "\r\n");
        let n = join2(l.as_str(), "\r\n\r\nAVISOS\r\n");
        join2(n.as_str(), notes.as_str())
    };
    let r = join2(m.as_str(), "\r\n");
    assert(r@ =~= manifest_text(profile_name@, minecraft_version@, loader, generated_at@, entries@, warnings@));
    r
}

/// Refuses to organize a profile without mods.
pub fn check_organizable(profile: &ModpackProfile) -> (r: Result<(), AppError>)
    ensures
        profile.mods.len() == 0 ==> fails_with(r, "Este modpack não possui mods instalados para organizar."@),
        profile.mods.len() > 0 ==> r is Ok,
{
    if profile.mods.len() == 0 {
        Err(AppError::message("Este modpack não possui mods instalados para organizar."))
    } else {
        Ok(())
    }
}

/// Each item keyed by its lowercased name.
pub open spec fn items_keyed_by_name(items: Seq<StoredOrganizationItem>) -> Seq<(Seq<char>, StoredOrganizationItem)> {
    items.map_values(|s: StoredOrganizationItem| (unicode_lowercase(s.item.name@), s))
}

/// The classified items in the order they are shown: by lowercased name,
/// ties keeping their order.
pub fn sort_items_by_name(items: Vec<StoredOrganizationItem>) -> (r: Vec<StoredOrganizationItem>)
    ensures
        r@ == sorted_by_text(items_keyed_by_name(items@)).map_values(|e: (Seq<char>, StoredOrganizationItem)| e.1),
{
    let ghost original = items@;
    let mut rest = items;
    let mut keyed: Vec<(Vec<char>, StoredOrganizationItem)> = Vec::new();
    let mut i: usize = 0;
    let n = rest.len();
    while rest.len() > 0
        invariant
            n == original.len(),
            i + rest.len() == n,
            rest@ == original.skip(i as int),
            keyed.len() == i,
            text_keyed(keyed@) == items_keyed_by_name(original.take(i as int)),
        decreases rest.len(),
    {
        assert(rest@[0] == original[i as int]);
        let item = rest.remove(0);
        let key = chars_of(to_lowercase(item.item.name.as_str()).as_str());
        let ghost before = keyed@;
        keyed.push((key, item));
        proof {
            let grown = original.take(i + 1);
            assert forall|k: int| 0 <= k < i + 1 implies #[trigger] text_keyed(keyed@)[k]
                == items_keyed_by_name(grown)[k] by {
                if k < i {
                    assert(text_keyed(before)[k] == items_keyed_by_name(original.take(i as int))[k]);
                    assert(grown[k] == original.take(i as int)[k]);
                } else {
                    assert(keyed@[k] == (key, item));
                    assert(grown[k] == item);
                }
            }
        }
        i = i + 1;
        assert(text_keyed(keyed@) =~= items_keyed_by_name(original.take(i as int)));
        assert(rest@ =~= original.skip(i as int));
    }
    assert(original.take(n as int) =~= original);
    let sorted = sort_by_text(keyed);
    let ghost target = sorted_by_text(items_keyed_by_name(original));
    let mut rest = sorted;
    let mut out: Vec<StoredOrganizationItem> = Vec::new();
    let mut j: usize = 0;
    let m = rest.len();
    let ghost all = rest@;
    while rest.len() > 0
        invariant
            m == all.len(),
            j + rest.len() == m,
            rest@ == all.skip(j as int),
            text_keyed(all) == target,
            out@ == target.take(j as int).map_values(|e: (Seq<char>, StoredOrganizationItem)| e.1),
        decreases rest.len(),
    {
        let (_, item) = rest.remove(0);
        assert(target[j as int].1 == item);
        out.push(item);
        j = j + 1;
        assert(out@ =~= target.take(j as int).map_values(|e: (Seq<char>, StoredOrganizationItem)| e.1));
        assert(rest@ =~= all.skip(j as int));
    }
    assert(target.take(m as int) =~= target);
    out
}

/// Refuses a classification made for another profile.
pub fn check_plan_owner(plan_profile_id: &str, profile_id: &str) -> (r: Result<(), AppError>)
    ensures
        plan_profile_id@ == profile_id@ <==> r is Ok,
        plan_profile_id@ != profile_id@ ==> fails_with(r, "Esta classificação pertence a outro modpack."@),
{
    if str_equal(plan_profile_id, profile_id) {
        Ok(())
    } else {
        Err(AppError::message("Esta classificação pertence a outro modpack."))
    }
}

/// Refuses to export when the profile changed after it was classified.
pub fn check_classified_unchanged(profile: &ModpackProfile, expected_updated_at: &str) -> (r: Result<(), AppError>)
    ensures
        profile.updated_at@ == expected_updated_at@ <==> r is Ok,
        profile.updated_at@ != expected_updated_at@ ==> fails_with(
            r,
            "O modpack mudou depois da análise. Classifique os mods novamente."@,
        ),
{
    if str_equal(profile.updated_at.as_str(), expected_updated_at) {
        Ok(())
    } else {
        Err(AppError::message("O modpack mudou depois da análise. Classifique os mods novamente."))
    }
}

/// Refuses an export during which the profile changed.
pub fn check_exported_unchanged(profile: &ModpackProfile, expected_updated_at: &str) -> (r: Result<(), AppError>)
    ensures
        profile.updated_at@ == expected_updated_at@ <==> r is Ok,
        profile.updated_at@ != expected_updated_at@ ==> fails_with(
            r,
            "O modpack mudou durante a exportação. As pastas geradas foram descartadas."@,
        ),
{
    if str_equal(profile.updated_at.as_str(), expected_updated_at) {
        Ok(())
    } else {
        Err(AppError::message("O modpack mudou durante a exportação. As pastas geradas foram descartadas."))
    }
}

/// Refuses an export folder inside the active mods folder, where the loader
/// would find every mod twice.
pub fn check_export_destination(parent: &str, mods_root: &str) -> (r: Result<(), AppError>)
    ensures
        path_starts_with(parent@, mods_root@) ==> fails_with(
            r,
            "Escolha um destino fora da pasta ativa de mods para evitar JARs duplicados no loader."@,
        ),
        !path_starts_with(parent@, mods_root@) ==> r is Ok,
{
    let a = path_components_of(parent);
    let b = path_components_of(mods_root);
    let mut inside = b.len() <= a.len();
    if inside {
        let mut i: usize = 0;
        while i < b.len()
            invariant
                b.len() <= a.len(),
                i <= b.len(),
                inside == forall|j: int| 0 <= j < i ==> a@[j]@ == b@[j]@,
            decreases b.len() - i,
        {
            if !text_equal(&a[i], &b[i]) {
                inside = false;
            }
            i = i + 1;
        }
        proof {
            if inside {
                assert(views(a@).take(b.len() as int) =~= views(b@));
            } else {
                let j = choose|j: int| 0 <= j < b.len() && a@[j]@ != b@[j]@;
                assert(views(a@).take(b.len() as int)[j] != views(b@)[j]);
            }
        }
    }
    if inside {
        Err(AppError::message("Escolha um destino fora da pasta ativa de mods para evitar JARs duplicados no loader."))
    } else {
        Ok(())
    }
}

/// The name an exported mod file keeps: its registered path must be a bare
/// file name.
pub fn organized_file_name(value: &str) -> (r: Result<String, AppError>)
    ensures
        file_name_of(value@) is None ==> fails_with(r, "Um mod possui um nome de arquivo inválido."@),
        file_name_of(value@) matches Some(name) && name != value@ ==> fails_with(
            r,
            "Um mod registrado possui um caminho inseguro."@,
        ),
        file_name_of(value@) == Some(value@) ==> (r matches Ok(name) && name@ == value@),
{
    match file_name(value) {
        None => Err(AppError::message("Um mod possui um nome de arquivo inválido.")),
        Some(name) => if str_equal(name.as_str(), value) {
            Ok(name)
        } else {
            Err(AppError::message("Um mod registrado possui um caminho inseguro."))
        },
    }
}

/// The position of the last dot of a text.
pub open spec fn last_dot(s: Seq<char>) -> Option<int>
    decreases s.len(),
{
    if s.len() == 0 {
        None
    } else if s.last() == '.' {
        Some(s.len() - 1)
    } else {
        last_dot(s.drop_last())
    }
}

/// `Path::extension` of a file name: what follows its last dot, unless that
/// dot opens the name, or the name is `..`.
pub open spec fn extension_of(name: Seq<char>) -> Option<Seq<char>> {
    if name == ".."@ {
        None
    } else {
        match last_dot(name) {
            Some(k) => if k == 0 {
                None
            } else {
                Some(name.skip(k + 1))
            },
            None => None,
        }
    }
}

/// The file is a `.jar`, in any ASCII case.
pub fn has_jar_extension(name: &str) -> (r: bool)
    ensures
        r == (extension_of(name@) matches Some(e) && ascii_case_equal(e, "jar"@)),
{
    proof {
        reveal_strlit("..");
    }
    if str_equal(name, "..") {
        return false;
    }
    let chars = chars_of(name);
    let mut i: usize = chars.len();
    assert(chars@.take(i as int) =~= chars@);
    while i > 0
        invariant
            i <= chars.len(),
            chars@ == name@,
            name@ != ".."@,
            last_dot(chars@) == last_dot(chars@.take(i as int)),
        decreases i,
    {
        assert(chars@.take(i as int).drop_last() =~= chars@.take(i - 1));
        if chars[i - 1] == '.' {
            if i == 1 {
                return false;
            }
            let mut tail: Vec<char> = Vec::new();
            let mut j: usize = i;
            while j < chars.len()
                invariant
                    i <= j <= chars.len(),
                    tail@ == chars@.subrange(i as int, j as int),
                decreases chars.len() - j,
            {
                tail.push(chars[j]);
                j = j + 1;
                assert(tail@ =~= chars@.subrange(i as int, j as int));
            }
            assert(tail@ =~= chars@.skip(i as int));
            let text = string_of(tail.as_slice());
            assert(last_dot(chars@.take(i as int)) == Some(i - 1));
            return eq_ignore_ascii_case(text.as_str(), "jar");
        }
        i = i - 1;
    }
    assert(chars@.take(0) =~= Seq::<char>::empty());
    false
}

/// The first of the found files whose name matches `filename`, ignoring case.
pub fn first_with_name(names: &Vec<String>, filename: &str) -> (r: Option<usize>)
    ensures
        match r {
            Some(i) => i < names.len() && unicode_lowercase(names@[i as int]@) == unicode_lowercase(filename@)
                && forall|j: int| 0 <= j < i ==> unicode_lowercase((#[trigger] names@[j])@) != unicode_lowercase(filename@),
            None => forall|j: int| 0 <= j < names.len() ==> unicode_lowercase((#[trigger] names@[j])@) != unicode_lowercase(filename@),
        },
{
    let key = to_lowercase(filename);
    let mut i: usize = 0;
    while i < names.len()
        invariant
            i <= names.len(),
            key@ == unicode_lowercase(filename@),
            forall|j: int| 0 <= j < i ==> unicode_lowercase((#[trigger] names@[j])@) != unicode_lowercase(filename@),
        decreases names.len() - i,
    {
        let lowered = to_lowercase(names[i].as_str());
        if str_equal(lowered.as_str(), key.as_str()) {
            return Some(i);
        }
        i = i + 1;
    }
    None
}

} // verus!
