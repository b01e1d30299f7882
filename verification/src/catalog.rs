//! Searching both catalogs at once: what a search may ask, which catalogs
//! take part, and how their answers are merged.
use crate::domain::{CatalogSearchResult, ProjectSummary, ProviderId, ProviderStatus, SearchFilters};
use crate::error::{fails_with, AppError};
use crate::profiles::{utf8_len, utf8_longer_than};
use crate::providers::ProviderSearchResult;
use crate::recommendations::{by_downloads, sort_by_downloads};
use crate::text::{chars_of, join2};
use vstd::prelude::*;

verus! {

/// Accepts a catalog search: a query of at most 200 bytes, a Minecraft
/// version of 1 to 32 bytes, and at least one catalog.
pub fn validate_filters(filters: &SearchFilters) -> (r: Result<(), AppError>)
    ensures
        utf8_len(filters.query@) > 200 ==> fails_with(r, "A busca deve ter no máximo 200 caracteres."@),
        utf8_len(filters.query@) <= 200 && (filters.minecraft_version@.len() == 0 || utf8_len(
            filters.minecraft_version@,
        ) > 32) ==> fails_with(r, "Versão do Minecraft inválida."@),
        utf8_len(filters.query@) <= 200 && !(filters.minecraft_version@.len() == 0 || utf8_len(
            filters.minecraft_version@,
        ) > 32) && filters.providers.len() == 0 ==> fails_with(r, "Selecione pelo menos um catálogo."@),
        r is Ok <==> utf8_len(filters.query@) <= 200 && filters.minecraft_version@.len() > 0 && utf8_len(
            filters.minecraft_version@,
        ) <= 32 && filters.providers.len() > 0,
{
    if utf8_longer_than(filters.query.as_str(), 200) {
        return Err(AppError::message("A busca deve ter no máximo 200 caracteres."));
    }
    if chars_of(filters.minecraft_version.as_str()).len() == 0 || utf8_longer_than(
        filters.minecraft_version.as_str(),
        32,
    ) {
        return Err(AppError::message("Versão do Minecraft inválida."));
    }
    if filters.providers.len() == 0 {
        return Err(AppError::message("Selecione pelo menos um catálogo."));
    }
    Ok(())
}

/// A catalog takes part in searches: Modrinth always, CurseForge once it
/// is configured.
pub open spec fn catalog_enabled(id: ProviderId, curseforge_enabled: bool) -> bool {
    id == ProviderId::Modrinth || (id == ProviderId::Curseforge && curseforge_enabled)
}

/// The requested catalogs that take part, in the order requested.
pub open spec fn enabled_of(requested: Seq<ProviderId>, curseforge_enabled: bool) -> Seq<ProviderId>
    decreases requested.len(),
{
    if requested.len() == 0 {
        Seq::empty()
    } else if catalog_enabled(requested.last(), curseforge_enabled) {
        enabled_of(requested.drop_last(), curseforge_enabled).push(requested.last())
    } else {
        enabled_of(requested.drop_last(), curseforge_enabled)
    }
}

/// Only the two remote catalogs can be searched.
pub open spec fn remote_only(requested: Seq<ProviderId>) -> bool {
    forall|k: int| 0 <= k < requested.len() ==> #[trigger] requested[k] != ProviderId::Local
}

/// The catalogs a search asks: the requested ones, CurseForge only when it is enabled.
pub fn active_providers(requested: &Vec<ProviderId>, curseforge_enabled: bool) -> (r: Vec<ProviderId>)
    requires
        remote_only(requested@),
    ensures
        r@ == enabled_of(requested@, curseforge_enabled),
{
    let mut r: Vec<ProviderId> = Vec::new();
    let mut i: usize = 0;
    while i < requested.len()
        invariant
            i <= requested.len(),
            r@ == enabled_of(requested@.take(i as int), curseforge_enabled),
        decreases requested.len() - i,
    {
        proof {
            assert(requested@.take(i + 1).drop_last() =~= requested@.take(i as int));
        }
        let id = requested[i];
        let enabled = match id {
            ProviderId::Modrinth => true,
            ProviderId::Curseforge => curseforge_enabled,
            ProviderId::Local => false,
        };
        if enabled {
            r.push(id);
        }
        i = i + 1;
    }
    assert(requested@.take(requested.len() as int) =~= requested@);
    r
}

pub type SearchAnswer = (ProviderId, Result<ProviderSearchResult, AppError>);

pub open spec fn status_view(s: ProviderStatus) -> (bool, bool, Option<Seq<char>>) {
    (
        s.enabled,
        s.ok,
        match s.message {
            Some(m) => Some(m@),
            None => None,
        },
    )
}

/// A catalog's status before any answer: enabled or not, and why it is not
/// searched when it is not.
pub open spec fn initial_status(id: ProviderId, requested: Seq<ProviderId>, curseforge_enabled: bool) -> (
    bool,
    bool,
    Option<Seq<char>>,
) {
    let enabled = id == ProviderId::Modrinth || curseforge_enabled;
    (
        enabled,
        false,
        if !requested.contains(id) {
            Some("Desativado no filtro."@)
        } else if !enabled {
            Some("Configure o provedor em Ajustes."@)
        } else {
            None
        },
    )
}

/// A catalog's status: that of its last answer, if it answered.
pub open spec fn final_status(
    id: ProviderId,
    requested: Seq<ProviderId>,
    curseforge_enabled: bool,
    answers: Seq<SearchAnswer>,
) -> (bool, bool, Option<Seq<char>>)
    decreases answers.len(),
{
    if answers.len() == 0 {
        initial_status(id, requested, curseforge_enabled)
    } else if answers.last().0 == id {
        match answers.last().1 {
            Ok(_) => (true, true, None),
            Err(AppError::Message(m)) => (true, false, Some(m@)),
        }
    } else {
        final_status(id, requested, curseforge_enabled, answers.drop_last())
    }
}

/// The hits of every successful answer, in answer order.
pub open spec fn found_projects(answers: Seq<SearchAnswer>) -> Seq<ProjectSummary>
    decreases answers.len(),
{
    if answers.len() == 0 {
        Seq::empty()
    } else {
        found_projects(answers.drop_last()) + match answers.last().1 {
            Ok(result) => result.projects@,
            Err(_) => Seq::empty(),
        }
    }
}

/// The totals of every successful answer, added up.
pub open spec fn found_total(answers: Seq<SearchAnswer>) -> int
    decreases answers.len(),
{
    if answers.len() == 0 {
        0
    } else {
        found_total(answers.drop_last()) + match answers.last().1 {
            Ok(result) => result.total as int,
            Err(_) => 0,
        }
    }
}

pub open spec fn catalog_label(id: ProviderId) -> Seq<char> {
    if id == ProviderId::Modrinth {
        "Modrinth"@
    } else {
        "CurseForge"@
    }
}

/// One warning per failed answer, naming the catalog.
pub open spec fn search_warnings(answers: Seq<SearchAnswer>) -> Seq<Seq<char>>
    decreases answers.len(),
{
    if answers.len() == 0 {
        Seq::empty()
    } else {
        let prev = search_warnings(answers.drop_last());
        match answers.last().1 {
            Ok(_) => prev,
            Err(AppError::Message(m)) => prev.push(catalog_label(answers.last().0) + ": "@ + m@),
        }
    }
}

pub open spec fn string_views(s: Seq<String>) -> Seq<Seq<char>> {
    s.map_values(|v: String| v@)
}

proof fn lemma_found_total_grows(answers: Seq<SearchAnswer>, i: int)
    requires
        0 <= i <= answers.len(),
    ensures
        found_total(answers.take(i)) <= found_total(answers),
        found_total(answers.take(i)) >= 0,
    decreases answers.len() - i,
{
    if i < answers.len() {
        lemma_found_total_grows(answers, i + 1);
        assert(answers.take(i + 1).drop_last() =~= answers.take(i));
    } else {
        assert(answers.take(i) =~= answers);
    }
    lemma_found_total_nonneg(answers.take(i));
}

proof fn lemma_found_total_nonneg(answers: Seq<SearchAnswer>)
    ensures
        found_total(answers) >= 0,
    decreases answers.len(),
{
    if answers.len() > 0 {
        lemma_found_total_nonneg(answers.drop_last());
    }
}

fn status(enabled: bool, ok: bool, message: Option<String>) -> (r: ProviderStatus)
    ensures
        r.enabled == enabled,
        r.ok == ok,
        r.message == message,
{
    ProviderStatus { enabled, ok, message }
}

/// Merges the catalogs' answers into one result: every hit, most
/// downloaded first (ties in answer order); the totals added up; one
/// warning per failed catalog; and a status for Modrinth and CurseForge, in
/// that order.
pub fn merge_search(
    requested: &Vec<ProviderId>,
    curseforge_enabled: bool,
    answers: Vec<SearchAnswer>,
) -> (r: CatalogSearchResult)
    requires
        found_total(answers@) <= u64::MAX,
    ensures
        r.projects@ == by_downloads(found_projects(answers@)),
        r.total == found_total(answers@),
        string_views(r.warnings@) == search_warnings(answers@),
        r.providers.len() == 2,
        r.providers@[0].0@ == "modrinth"@,
        status_view(r.providers@[0].1) == final_status(ProviderId::Modrinth, requested@, curseforge_enabled, answers@),
        r.providers@[1].0@ == "curseforge"@,
        status_view(r.providers@[1].1) == final_status(ProviderId::Curseforge, requested@, curseforge_enabled, answers@),
{
    let mut modrinth = status(true, false, None);
    let mut curseforge = status(curseforge_enabled, false, None);
    let mut asked_modrinth = false;
    let mut asked_curseforge = false;
    let mut j: usize = 0;
    while j < requested.len()
        invariant
            j <= requested.len(),
            asked_modrinth == requested@.take(j as int).contains(ProviderId::Modrinth),
            asked_curseforge == requested@.take(j as int).contains(ProviderId::Curseforge),
        decreases requested.len() - j,
    {
        proof {
            let t = requested@.take(j as int);
            let t1 = requested@.take(j + 1);
            assert(t1 =~= t.push(requested@[j as int]));
            assert forall|x: ProviderId| t1.contains(x) <==> (t.contains(x) || x == requested@[j as int]) by {
                if t.contains(x) {
                    let k = choose|k: int| 0 <= k < t.len() && t[k] == x;
                    assert(t1[k] == x);
                }
                if x == requested@[j as int] {
                    assert(t1[j as int] == x);
                }
                if t1.contains(x) {
                    let k = choose|k: int| 0 <= k < t1.len() && t1[k] == x;
                    if k < j {
                        assert(t[k] == x);
                    }
                }
            }
        }
        match requested[j] {
            ProviderId::Modrinth => asked_modrinth = true,
            ProviderId::Curseforge => asked_curseforge = true,
            ProviderId::Local => {},
        }
        j = j + 1;
    }
    assert(requested@.take(requested.len() as int) =~= requested@);
    if !asked_modrinth {
        modrinth.message = Some(String::from_str("Desativado no filtro."));
    }
    if !asked_curseforge {
        curseforge.message = Some(String::from_str("Desativado no filtro."));
    } else if !curseforge_enabled {
        curseforge.message = Some(String::from_str("Configure o provedor em Ajustes."));
    }
    let ghost all = answers@;
    let mut rest = answers;
    let mut projects: Vec<ProjectSummary> = Vec::new();
    let mut warnings: Vec<String> = Vec::new();
    let mut total: u64 = 0;
    let mut i: usize = 0;
    let n = rest.len();
    proof {
        lemma_found_total_grows(all, 0);
    }
    while rest.len() > 0
        invariant
            n == all.len(),
            i + rest.len() == n,
            rest@ == all.skip(i as int),
            found_total(all) <= u64::MAX,
            projects@ == found_projects(all.take(i as int)),
            total == found_total(all.take(i as int)),
            string_views(warnings@) == search_warnings(all.take(i as int)),
            status_view(modrinth) == final_status(ProviderId::Modrinth, requested@, curseforge_enabled, all.take(i as int)),
            status_view(curseforge) == final_status(ProviderId::Curseforge, requested@, curseforge_enabled, all.take(i as int)),
        decreases rest.len(),
    {
        let (id, answer) = rest.remove(0);
        proof {
            assert(all.take(i + 1).drop_last() =~= all.take(i as int));
            assert(all.take(i + 1).last() == (id, answer));
            lemma_found_total_grows(all, i + 1);
        }
        match answer {
            Ok(result) => {
                let mut found = result.projects;
                let ghost before = projects@;
                let ghost added = found@;
                projects.append(&mut found);
                assert(projects@ =~= before + added);
                total = total + result.total;
                if id == ProviderId::Modrinth {
                    modrinth = status(true, true, None);
                } else if id == ProviderId::Curseforge {
                    curseforge = status(true, true, None);
                }
            },
            Err(error) => {
                let message = error.text();
                let label = if id == ProviderId::Modrinth { "Modrinth" } else { "CurseForge" };
                let head = join2(label, ": ");
                let text = join2(head.as_str(), message.as_str());
                let ghost before = string_views(warnings@);
                warnings.push(text);
                assert(string_views(warnings@) =~= before.push(text@));
                if id == ProviderId::Modrinth {
                    modrinth = status(true, false, Some(message));
                } else if id == ProviderId::Curseforge {
                    let again = error.text();
                    curseforge = status(true, false, Some(again));
                }
            },
        }
        i = i + 1;
        assert(rest@ =~= all.skip(i as int));
    }
    assert(all.take(n as int) =~= all);
    let mut providers: Vec<(String, ProviderStatus)> = Vec::new();
    providers.push((String::from_str("modrinth"), modrinth));
    providers.push((String::from_str("curseforge"), curseforge));
    CatalogSearchResult { projects: sort_by_downloads(projects), total, warnings, providers }
}

} // verus!
