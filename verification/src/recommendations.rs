//! The decisions behind the recommendation feed: which page of the official
//! catalogs to ask for, which of their packs to show, which collections to
//! rotate in, and what a collection's preview keeps of its searches.
use crate::domain::{loader_name, ProfileTarget, ProjectRef, ProjectSummary, ReleaseChannel};
use crate::error::{fails_with, AppError};
use crate::recipes::{recipe_at, recipe_default_at, MosaicRecipe, RECIPE_COUNT};
use crate::sort::{sort_by_text, sorted_by_text, text_keyed};
use crate::text::{chars_of, join2, str_equal, to_lowercase, unicode_lowercase};
use vstd::prelude::*;

verus! {

/// How many packs each catalog is asked for, and how many pages the seed
/// rotates through.
pub const FEED_PAGE: u64 = 6;

/// How many official packs the feed shows at most.
pub const OFFICIAL_SLOTS: usize = 10;

/// How many collections the feed shows.
pub const RECIPE_SLOTS: usize = 4;

/// The offset of the catalog page the seed selects: one of six pages of six.
pub fn feed_offset(seed: u64) -> (r: u32)
    ensures
        r == (seed % FEED_PAGE) * FEED_PAGE,
{
    let page = seed % FEED_PAGE;
    (page * FEED_PAGE) as u32
}

/// The collections the seed rotates in: four consecutive positions of the
/// catalogue, starting at the seed, wrapping around.
pub fn feed_recipe_indices(seed: u64) -> (r: Vec<usize>)
    ensures
        r.len() == RECIPE_SLOTS,
        forall|i: int| 0 <= i < RECIPE_SLOTS ==> #[trigger] r@[i] == (i + seed) % (RECIPE_COUNT as int),
{
    let base = (seed % 5) as usize;
    let mut r: Vec<usize> = Vec::new();
    let mut i: usize = 0;
    while i < RECIPE_SLOTS
        invariant
            i <= RECIPE_SLOTS,
            base == seed % 5,
            r.len() == i,
            forall|j: int| 0 <= j < i ==> #[trigger] r@[j] == (j + seed) % (RECIPE_COUNT as int),
        decreases RECIPE_SLOTS - i,
    {
        proof {
            vstd::arithmetic::div_mod::lemma_add_mod_noop(i as int, seed as int, 5);
            vstd::arithmetic::div_mod::lemma_small_mod(i as nat, 5);
        }
        r.push((i + base) % 5);
        i = i + 1;
    }
    r
}

/// Places `x` after every element with at least as many downloads.
pub open spec fn insert_by_downloads(s: Seq<ProjectSummary>, x: ProjectSummary) -> Seq<ProjectSummary>
    decreases s.len(),
{
    if s.len() == 0 {
        seq![x]
    } else if x.downloads > s[0].downloads {
        seq![x] + s
    } else {
        seq![s[0]] + insert_by_downloads(s.drop_first(), x)
    }
}

/// The stable sort by downloads, most downloaded first.
pub open spec fn by_downloads(s: Seq<ProjectSummary>) -> Seq<ProjectSummary>
    decreases s.len(),
{
    if s.len() == 0 {
        Seq::empty()
    } else {
        insert_by_downloads(by_downloads(s.drop_last()), s.last())
    }
}

proof fn lemma_insert_by_downloads_at(s: Seq<ProjectSummary>, x: ProjectSummary, p: int)
    requires
        0 <= p <= s.len(),
        forall|j: int| 0 <= j < p ==> x.downloads <= #[trigger] s[j].downloads,
        p < s.len() ==> x.downloads > s[p].downloads,
    ensures
        insert_by_downloads(s, x) == s.take(p) + seq![x] + s.skip(p),
    decreases s.len(),
{
    if s.len() == 0 {
        assert(s.take(p) + seq![x] + s.skip(p) =~= seq![x]);
    } else if p == 0 {
        assert(s.take(0) + seq![x] + s.skip(0) =~= seq![x] + s);
    } else {
        let t = s.drop_first();
        assert forall|j: int| 0 <= j < p - 1 implies x.downloads <= #[trigger] t[j].downloads by {
            assert(t[j] == s[j + 1]);
        }
        lemma_insert_by_downloads_at(t, x, p - 1);
        assert(seq![s[0]] + (t.take(p - 1) + seq![x] + t.skip(p - 1)) =~= s.take(p) + seq![x]
            + s.skip(p));
    }
}

/// Sorts projects by downloads, most downloaded first, keeping the given
/// order among equals.
pub fn sort_by_downloads(projects: Vec<ProjectSummary>) -> (r: Vec<ProjectSummary>)
    ensures
        r@ == by_downloads(projects@),
{
    let ghost original = projects@;
    let mut rest = projects;
    let mut out: Vec<ProjectSummary> = Vec::new();
    let mut i: usize = 0;
    let n = rest.len();
    while rest.len() > 0
        invariant
            n == original.len(),
            i + rest.len() == n,
            rest@ == original.skip(i as int),
            out@ == by_downloads(original.take(i as int)),
            out.len() == i,
        decreases rest.len(),
    {
        let x = rest.remove(0);
        let mut p: usize = 0;
        while p < out.len() && x.downloads <= out[p].downloads
            invariant
                p <= out.len(),
                forall|j: int| 0 <= j < p ==> x.downloads <= #[trigger] out@[j].downloads,
            decreases out.len() - p,
        {
            p = p + 1;
        }
        proof {
            lemma_insert_by_downloads_at(out@, x, p as int);
            assert(original.take(i + 1).drop_last() =~= original.take(i as int));
            assert(original.take(i + 1).last() == x);
        }
        out.insert(p, x);
        assert(out@ =~= by_downloads(original.take(i + 1)));
        i = i + 1;
        assert(rest@ =~= original.skip(i as int));
    }
    assert(original.take(n as int) =~= original);
    out
}

proof fn lemma_by_downloads_len(s: Seq<ProjectSummary>)
    ensures
        by_downloads(s).len() == s.len(),
    decreases s.len(),
{
    if s.len() > 0 {
        lemma_by_downloads_len(s.drop_last());
        lemma_insert_by_downloads_len(by_downloads(s.drop_last()), s.last());
    }
}

proof fn lemma_insert_by_downloads_len(s: Seq<ProjectSummary>, x: ProjectSummary)
    ensures
        insert_by_downloads(s, x).len() == s.len() + 1,
    decreases s.len(),
{
    if s.len() > 0 {
        lemma_insert_by_downloads_len(s.drop_first(), x);
    }
}

/// The official packs the feed shows: the ten most downloaded of both
/// catalogs, ties kept in the order the catalogs gave them.
pub fn official_highlights(projects: Vec<ProjectSummary>) -> (r: Vec<ProjectSummary>)
    ensures
        r@ == by_downloads(projects@).take(
            if projects.len() < OFFICIAL_SLOTS { projects.len() as int } else { OFFICIAL_SLOTS as int },
        ),
{
    let ghost given = projects@;
    let mut out = sort_by_downloads(projects);
    proof {
        lemma_by_downloads_len(given);
    }
    out.truncate(OFFICIAL_SLOTS);
    assert(given.len() < OFFICIAL_SLOTS ==> by_downloads(given).take(given.len() as int) =~= by_downloads(given));
    out
}

/// Why an official pack is shown.
pub open spec fn official_reason_text(target: Option<ProfileTarget>) -> Seq<char> {
    match target {
        Some(t) => "Compatível com Minecraft "@ + t.minecraft_version@ + " + "@ + loader_name(t.loader),
        None => "Em destaque nos catálogos oficiais"@,
    }
}

/// Why an official pack is shown.
pub fn official_reason(target: &Option<ProfileTarget>) -> (r: String)
    ensures
        r@ == official_reason_text(*target),
{
    match target {
        Some(t) => {
            let head = join2("Compatível com Minecraft ", t.minecraft_version.as_str());
            let middle = join2(head.as_str(), " + ");
            join2(middle.as_str(), t.loader.as_str())
        },
        None => {
            let r = join2("Em destaque nos catálogos oficiais", "");
            proof {
                reveal_strlit("");
            }
            assert(r@ =~= official_reason_text(*target));
            r
        },
    }
}

/// Why a collection is shown: adapted to the current profile, or offered as is.
pub fn mosaic_reason(has_target: bool) -> (r: &'static str)
    ensures
        r@ == if has_target {
            "Coleção adaptada ao seu modpack atual"@
        } else {
            "Receita modular criada pelo Mosaic"@
        },
{
    if has_target {
        "Coleção adaptada ao seu modpack atual"
    } else {
        "Receita modular criada pelo Mosaic"
    }
}

/// The target a collection is built for: the selected profile's, else the
/// collection's own default with releases and betas.
pub fn recipe_target(recipe: &MosaicRecipe, target: &Option<ProfileTarget>) -> (r: ProfileTarget)
    ensures
        match target {
            Some(t) => r.same(*t),
            None => {
                &&& r.minecraft_version@ == recipe.default_target.0@
                &&& r.loader == recipe.default_target.1
                &&& r.release_channels@ == seq![ReleaseChannel::Release, ReleaseChannel::Beta]
            },
        },
{
    match target {
        Some(t) => t.clone(),
        None => {
            let mut channels: Vec<ReleaseChannel> = Vec::new();
            channels.push(ReleaseChannel::Release);
            channels.push(ReleaseChannel::Beta);
            let version = join2(recipe.default_target.0, "");
            proof {
                reveal_strlit("");
            }
            assert(version@ =~= recipe.default_target.0@);
            ProfileTarget {
                minecraft_version: version,
                loader: recipe.default_target.1,
                release_channels: channels,
            }
        },
    }
}

/// `provider:project_id`, the key two search hits are told apart by.
pub fn project_key(project: &ProjectSummary) -> (r: String)
    ensures
        r@ == crate::domain::project_key(project.provider, project.project_id@),
{
    let head = join2(project.provider.as_str(), ":");
    proof {
        reveal_strlit(":");
    }
    let r = join2(head.as_str(), project.project_id.as_str());
    assert(r@ =~= crate::domain::project_key(project.provider, project.project_id@));
    r
}

pub open spec fn hit_key(p: ProjectSummary) -> Seq<char> {
    crate::domain::project_key(p.provider, p.project_id@)
}

pub open spec fn has_hit_key(s: Seq<ProjectSummary>, key: Seq<char>) -> bool {
    exists|k: int| 0 <= k < s.len() && #[trigger] hit_key(s[k]) == key
}

/// The hits a collection keeps, in query order: each found project once,
/// the first time it is found.
pub open spec fn kept_hits(found: Seq<Option<ProjectSummary>>) -> Seq<ProjectSummary>
    decreases found.len(),
{
    if found.len() == 0 {
        Seq::empty()
    } else {
        let prev = kept_hits(found.drop_last());
        match found.last() {
            Some(p) => if has_hit_key(prev, hit_key(p)) {
                prev
            } else {
                prev.push(p)
            },
            None => prev,
        }
    }
}

pub open spec fn missing_text(query: Seq<char>) -> Seq<char> {
    query + " não possui uma versão compatível nesse destino e foi ignorado."@
}

/// One warning for each query that found nothing, in query order.
pub open spec fn missing_warnings(queries: Seq<Seq<char>>, found: Seq<Option<ProjectSummary>>) -> Seq<Seq<char>>
    decreases found.len(),
{
    if found.len() == 0 {
        Seq::empty()
    } else {
        let prev = missing_warnings(queries.drop_last(), found.drop_last());
        match found.last() {
            Some(_) => prev,
            None => prev.push(missing_text(queries.last())),
        }
    }
}

pub open spec fn by_lowercase_name(s: Seq<ProjectSummary>) -> Seq<(Seq<char>, ProjectSummary)> {
    s.map_values(|p: ProjectSummary| (unicode_lowercase(p.name@), p))
}

pub open spec fn items_of(s: Seq<(Seq<char>, ProjectSummary)>) -> Seq<ProjectSummary> {
    s.map_values(|p: (Seq<char>, ProjectSummary)| p.1)
}

pub open spec fn str_views(s: Seq<&str>) -> Seq<Seq<char>> {
    s.map_values(|q: &str| q@)
}

pub open spec fn string_views(s: Seq<String>) -> Seq<Seq<char>> {
    s.map_values(|q: String| q@)
}

fn has_key(keys: &Vec<String>, key: &String) -> (r: bool)
    ensures
        r == exists|k: int| 0 <= k < keys.len() && #[trigger] keys@[k]@ == key@,
{
    let mut i: usize = 0;
    while i < keys.len()
        invariant
            i <= keys.len(),
            forall|k: int| 0 <= k < i ==> #[trigger] keys@[k]@ != key@,
        decreases keys.len() - i,
    {
        if str_equal(keys[i].as_str(), key.as_str()) {
            return true;
        }
        i = i + 1;
    }
    false
}

/// Sorts projects stably by their lowercased names.
pub fn sort_by_lowercase_name(projects: Vec<ProjectSummary>) -> (r: Vec<ProjectSummary>)
    ensures
        r@ == items_of(sorted_by_text(by_lowercase_name(projects@))),
{
    let mut kept = projects;
    let ghost kept_all = kept@;
    let mut pairs: Vec<(Vec<char>, ProjectSummary)> = Vec::new();
    let mut j: usize = 0;
    let m = kept.len();
    while kept.len() > 0
        invariant
            m == kept_all.len(),
            j + kept.len() == m,
            kept@ == kept_all.skip(j as int),
            text_keyed(pairs@) == by_lowercase_name(kept_all.take(j as int)),
        decreases kept.len(),
    {
        let ghost before = kept@;
        assert(before[0] == kept_all[j as int]);
        let project = kept.remove(0);
        assert(kept@ =~= before.drop_first());
        assert(kept_all.take(j + 1) =~= kept_all.take(j as int).push(project));
        let lowered = to_lowercase(project.name.as_str());
        let key = chars_of(lowered.as_str());
        let ghost entry = (key@, project);
        let ghost old_pairs = pairs@;
        pairs.push((key, project));
        assert(text_keyed(pairs@) =~= text_keyed(old_pairs).push(entry));
        j = j + 1;
        assert(kept@ =~= kept_all.skip(j as int));
        assert(text_keyed(pairs@) =~= by_lowercase_name(kept_all.take(j as int)));
    }
    assert(kept_all.take(m as int) =~= kept_all);
    let sorted = sort_by_text(pairs);
    let ghost sorted_view = text_keyed(sorted@);
    let mut out: Vec<ProjectSummary> = Vec::new();
    let mut rest_sorted = sorted;
    let mut k: usize = 0;
    let total = rest_sorted.len();
    while rest_sorted.len() > 0
        invariant
            total == sorted_view.len(),
            k + rest_sorted.len() == total,
            text_keyed(rest_sorted@) == sorted_view.skip(k as int),
            out@ == items_of(sorted_view.take(k as int)),
        decreases rest_sorted.len(),
    {
        let ghost before = rest_sorted@;
        assert(text_keyed(before)[0] == sorted_view[k as int]);
        let pair = rest_sorted.remove(0);
        assert(text_keyed(rest_sorted@) =~= text_keyed(before).drop_first());
        out.push(pair.1);
        k = k + 1;
        assert(out@ =~= items_of(sorted_view.take(k as int)));
    }
    assert(sorted_view.take(total as int) =~= sorted_view);
    out
}

/// What a collection's preview shows of its searches, given what each query
/// found (`found[i]` answers `queries[i]`): the projects found, each once,
/// sorted by lowercased name (stably), and a warning per query that found
/// nothing. A collection none of whose queries found anything is refused.
pub fn mosaic_projects(queries: &Vec<&str>, found: Vec<Option<ProjectSummary>>) -> (r: Result<
    (Vec<ProjectSummary>, Vec<String>),
    AppError,
>)
    requires
        queries.len() == found.len(),
    ensures
        kept_hits(found@).len() == 0 ==> fails_with(
            r,
            "Nenhum mod desta coleção está disponível para o destino escolhido."@,
        ),
        kept_hits(found@).len() > 0 ==> (r matches Ok((projects, warnings)) && projects@ == items_of(
            sorted_by_text(by_lowercase_name(kept_hits(found@))),
        ) && string_views(warnings@) == missing_warnings(str_views(queries@), found@)),
{
    let ghost all_found = found@;
    let ghost all_queries = str_views(queries@);
    let mut rest = found;
    let mut kept: Vec<ProjectSummary> = Vec::new();
    let mut keys: Vec<String> = Vec::new();
    let mut warnings: Vec<String> = Vec::new();
    let mut i: usize = 0;
    let n = rest.len();
    while rest.len() > 0
        invariant
            n == all_found.len(),
            n == queries.len(),
            all_queries == str_views(queries@),
            i + rest.len() == n,
            rest@ == all_found.skip(i as int),
            kept@ == kept_hits(all_found.take(i as int)),
            keys.len() == kept.len(),
            forall|k: int| 0 <= k < keys.len() ==> #[trigger] keys@[k]@ == hit_key(kept@[k]),
            string_views(warnings@) == missing_warnings(
                all_queries.take(i as int),
                all_found.take(i as int),
            ),
        decreases rest.len(),
    {
        let item = rest.remove(0);
        proof {
            assert(all_found.take(i + 1).drop_last() =~= all_found.take(i as int));
            assert(all_found.take(i + 1).last() == item);
            assert(all_queries.take(i + 1).drop_last() =~= all_queries.take(i as int));
            assert(all_queries.take(i + 1).last() == queries@[i as int]@);
        }
        match item {
            Some(project) => {
                let key = project_key(&project);
                let seen = has_key(&keys, &key);
                proof {
                    if seen {
                        let k = choose|k: int| 0 <= k < keys.len() && #[trigger] keys@[k]@ == key@;
                        assert(hit_key(kept@[k]) == hit_key(project));
                    } else {
                        assert forall|k: int| 0 <= k < kept.len() implies #[trigger] hit_key(kept@[k])
                            != hit_key(project) by {
                            assert(keys@[k]@ == hit_key(kept@[k]));
                        }
                    }
                }
                if !seen {
                    kept.push(project);
                    keys.push(key);
                }
            },
            None => {
                let warning = join2(
                    queries[i],
                    " não possui uma versão compatível nesse destino e foi ignorado.",
                );
                warnings.push(warning);
            },
        }
        i = i + 1;
        assert(rest@ =~= all_found.skip(i as int));
        assert(string_views(warnings@) =~= missing_warnings(
            all_queries.take(i as int),
            all_found.take(i as int),
        ));
    }
    assert(all_found.take(n as int) =~= all_found);
    assert(all_queries.take(n as int) =~= all_queries);
    if kept.len() == 0 {
        return Err(AppError::message("Nenhum mod desta coleção está disponível para o destino escolhido."));
    }
    let projects = sort_by_lowercase_name(kept);
    Ok((projects, warnings))
}

pub open spec fn failure_text(reference: ProjectRef, error: AppError) -> Seq<char> {
    match error {
        AppError::Message(m) => "Não foi possível carregar "@ + reference.key_view() + ": "@ + m@,
    }
}

/// The projects of an official pack that could be loaded.
pub open spec fn loaded_projects(results: Seq<(ProjectRef, Result<ProjectSummary, AppError>)>) -> Seq<ProjectSummary>
    decreases results.len(),
{
    if results.len() == 0 {
        Seq::empty()
    } else {
        let prev = loaded_projects(results.drop_last());
        match results.last().1 {
            Ok(p) => prev.push(p),
            Err(_) => prev,
        }
    }
}

/// One warning per project that could not be loaded, in the order given.
pub open spec fn load_failures(results: Seq<(ProjectRef, Result<ProjectSummary, AppError>)>) -> Seq<Seq<char>>
    decreases results.len(),
{
    if results.len() == 0 {
        Seq::empty()
    } else {
        let prev = load_failures(results.drop_last());
        match results.last().1 {
            Ok(_) => prev,
            Err(e) => prev.push(failure_text(results.last().0, e)),
        }
    }
}

/// What an official pack's preview shows, given what loading each of its
/// projects gave: the loaded projects sorted stably by lowercased name, and
/// the pack's own warnings followed by one per project that failed.
pub fn official_projects(
    warnings: Vec<String>,
    results: Vec<(ProjectRef, Result<ProjectSummary, AppError>)>,
) -> (r: (Vec<ProjectSummary>, Vec<String>))
    ensures
        r.0@ == items_of(sorted_by_text(by_lowercase_name(loaded_projects(results@)))),
        string_views(r.1@) == string_views(warnings@) + load_failures(results@),
{
    let ghost all = results@;
    let ghost given = string_views(warnings@);
    let mut warnings = warnings;
    let mut rest = results;
    let mut projects: Vec<ProjectSummary> = Vec::new();
    let mut i: usize = 0;
    let n = rest.len();
    while rest.len() > 0
        invariant
            n == all.len(),
            i + rest.len() == n,
            rest@ == all.skip(i as int),
            projects@ == loaded_projects(all.take(i as int)),
            string_views(warnings@) == given + load_failures(all.take(i as int)),
        decreases rest.len(),
    {
        let (reference, result) = rest.remove(0);
        proof {
            assert(all.take(i + 1).drop_last() =~= all.take(i as int));
            assert(all.take(i + 1).last() == (reference, result));
        }
        match result {
            Ok(project) => {
                projects.push(project);
            },
            Err(error) => {
                let key = reference.key();
                let head = join2("Não foi possível carregar ", key.as_str());
                let middle = join2(head.as_str(), ": ");
                let message = error.text();
                let text = join2(middle.as_str(), message.as_str());
                let ghost old_warnings = warnings@;
                warnings.push(text);
                assert(string_views(warnings@) =~= string_views(old_warnings).push(text@));
            },
        }
        i = i + 1;
        assert(rest@ =~= all.skip(i as int));
    }
    assert(all.take(n as int) =~= all);
    (sort_by_lowercase_name(projects), warnings)
}

/// Refuses a feed for the current profile when no profile is selected.
pub fn check_feed_scope(for_current_profile: bool, target: &Option<ProfileTarget>) -> (r: Result<(), AppError>)
    ensures
        for_current_profile && target is None ==> fails_with(
            r,
            "Selecione um modpack para receber recomendações compatíveis."@,
        ),
        !(for_current_profile && target is None) ==> r is Ok,
{
    if for_current_profile && target.is_none() {
        Err(AppError::message("Selecione um modpack para receber recomendações compatíveis."))
    } else {
        Ok(())
    }
}

} // verus!
