//! Recognizing the same project in another catalog, when the first one
//! cannot provide a download.
use crate::domain::{ProjectSummary, ProjectVersion, ProviderId};
use crate::resolver::{downloadable, primary_file};
use crate::sort::{sort_by_rank, sorted_by_rank};
use crate::text::{all_whitespace, is_blank};
use crate::rescan::{split_by, split_chars, views, Cut};
use crate::text::{ascii_lower, ascii_lower_char, chars_of, is_ascii_alnum, is_ascii_alnum_char, text_equal};
use vstd::prelude::*;

verus! {

/// The other catalog to look in; a local file is looked for on Modrinth.
pub fn alternate_id(id: ProviderId) -> (r: ProviderId)
    ensures
        r == match id {
            ProviderId::Modrinth => ProviderId::Curseforge,
            _ => ProviderId::Modrinth,
        },
{
    match id {
        ProviderId::Modrinth => ProviderId::Curseforge,
        ProviderId::Curseforge | ProviderId::Local => ProviderId::Modrinth,
    }
}

/// The name a catalog is shown with.
pub fn provider_label(provider: ProviderId) -> (r: &'static str)
    ensures
        r@ == match provider {
            ProviderId::Modrinth => "Modrinth"@,
            ProviderId::Curseforge => "CurseForge"@,
            ProviderId::Local => "Local"@,
        },
{
    match provider {
        ProviderId::Modrinth => "Modrinth",
        ProviderId::Curseforge => "CurseForge",
        ProviderId::Local => "Local",
    }
}

/// The ASCII letters and digits of the text, lowercased.
pub open spec fn identity_of(s: Seq<char>) -> Seq<char>
    decreases s.len(),
{
    if s.len() == 0 {
        Seq::empty()
    } else if is_ascii_alnum(s.last()) {
        identity_of(s.drop_last()).push(ascii_lower(s.last()))
    } else {
        identity_of(s.drop_last())
    }
}

/// A name reduced to its lowercased letters and digits, to compare projects across catalogs.
pub(crate) fn normalized_identity(value: &str) -> (r: Vec<char>)
    ensures
        r@ == identity_of(value@),
{
    let chars = chars_of(value);
    let mut out: Vec<char> = Vec::new();
    let mut i: usize = 0;
    while i < chars.len()
        invariant
            i <= chars.len(),
            out@ == identity_of(chars@.take(i as int)),
        decreases chars.len() - i,
    {
        proof {
            assert(chars@.take(i + 1).drop_last() =~= chars@.take(i as int));
        }
        if is_ascii_alnum_char(chars[i]) {
            out.push(ascii_lower_char(chars[i]));
        }
        i = i + 1;
    }
    assert(chars@.take(chars.len() as int) =~= chars@);
    out
}

pub open spec fn ascii_lowered(s: Seq<char>) -> Seq<char> {
    s.map_values(|c: char| ascii_lower(c))
}

/// Words that only say which loader or that it is a mod.
pub open spec fn filler_word(w: Seq<char>) -> bool {
    let l = ascii_lowered(w);
    l == "fabric"@ || l == "forge"@ || l == "neoforge"@ || l == "quilt"@ || l == "mod"@
}

/// The words of the title (runs of ASCII letters and digits), without
/// loader names and `mod`, joined and lowercased.
pub open spec fn title_of(s: Seq<char>) -> Seq<char> {
    ascii_lowered(kept_words(split_by(s, Cut::NotAlnum)))
}

pub open spec fn kept_words(words: Seq<Seq<char>>) -> Seq<char>
    decreases words.len(),
{
    if words.len() == 0 {
        Seq::empty()
    } else if filler_word(words.last()) {
        kept_words(words.drop_last())
    } else {
        kept_words(words.drop_last()) + words.last()
    }
}

fn lowered(s: &Vec<char>) -> (r: Vec<char>)
    ensures
        r@ == ascii_lowered(s@),
{
    let mut out: Vec<char> = Vec::new();
    let mut i: usize = 0;
    while i < s.len()
        invariant
            i <= s.len(),
            out@ == ascii_lowered(s@.take(i as int)),
        decreases s.len() - i,
    {
        out.push(ascii_lower_char(s[i]));
        assert(out@ =~= ascii_lowered(s@.take(i + 1)));
        i = i + 1;
    }
    assert(s@.take(s.len() as int) =~= s@);
    out
}

fn normalized_title(value: &str) -> (r: Vec<char>)
    ensures
        r@ == title_of(value@),
{
    let words = split_chars(&chars_of(value), Cut::NotAlnum);
    let ghost wv = views(words@);
    let mut joined: Vec<char> = Vec::new();
    let mut i: usize = 0;
    while i < words.len()
        invariant
            i <= words.len(),
            wv == views(words@),
            wv == split_by(value@, Cut::NotAlnum),
            joined@ == kept_words(wv.take(i as int)),
        decreases words.len() - i,
    {
        proof {
            assert(wv.take(i + 1).drop_last() =~= wv.take(i as int));
            assert(wv.take(i + 1).last() == words@[i as int]@);
        }
        let lower = lowered(&words[i]);
        let filler = text_equal(&lower, &chars_of("fabric")) || text_equal(&lower, &chars_of("forge")) || text_equal(
            &lower,
            &chars_of("neoforge"),
        ) || text_equal(&lower, &chars_of("quilt")) || text_equal(&lower, &chars_of("mod"));
        if !filler {
            let ghost before = joined@;
            let mut k: usize = 0;
            while k < words[i].len()
                invariant
                    i < words.len(),
                    k <= words@[i as int].len(),
                    joined@ == before + words@[i as int]@.take(k as int),
                decreases words@[i as int].len() - k,
            {
                joined.push(words[i][k]);
                assert(joined@ =~= before + words@[i as int]@.take(k + 1));
                k = k + 1;
            }
            assert(words@[i as int]@.take(words@[i as int].len() as int) =~= words@[i as int]@);
        }
        i = i + 1;
    }
    assert(wv.take(words.len() as int) =~= wv);
    lowered(&joined)
}

/// How sure a match is: 6 for the same slug, 5 for the same name, 3 for the
/// same title of at least five characters, plus 2 for the same author; 0
/// when none of the first three holds.
pub open spec fn identity_score_spec(source: ProjectSummary, candidate: ProjectSummary) -> int {
    let slug_matches = source.slug@.len() > 0 && identity_of(source.slug@) == identity_of(candidate.slug@);
    let name_matches = identity_of(source.name@) == identity_of(candidate.name@);
    let title = title_of(source.name@);
    let title_matches = title.len() >= 5 && title == title_of(candidate.name@);
    let base = if slug_matches {
        6int
    } else if name_matches {
        5int
    } else if title_matches {
        3int
    } else {
        0int
    };
    if base == 0 {
        0
    } else if source.author@.len() > 0 && identity_of(source.author@) == identity_of(candidate.author@) {
        base + 2
    } else {
        base
    }
}

/// How sure it is that `candidate` is the same project as `source`.
pub fn identity_score(source: &ProjectSummary, candidate: &ProjectSummary) -> (r: u8)
    ensures
        r == identity_score_spec(*source, *candidate),
{
    let slug_matches = chars_of(source.slug.as_str()).len() > 0 && text_equal(
        &normalized_identity(source.slug.as_str()),
        &normalized_identity(candidate.slug.as_str()),
    );
    let name_matches = text_equal(&normalized_identity(source.name.as_str()), &normalized_identity(candidate.name.as_str()));
    let title = normalized_title(source.name.as_str());
    let title_matches = title.len() >= 5 && text_equal(&title, &normalized_title(candidate.name.as_str()));
    let score: u8 = if slug_matches {
        6
    } else if name_matches {
        5
    } else if title_matches {
        3
    } else {
        return 0;
    };
    if chars_of(source.author.as_str()).len() > 0 && text_equal(
        &normalized_identity(source.author.as_str()),
        &normalized_identity(candidate.author.as_str()),
    ) {
        score + 2
    } else {
        score
    }
}

/// `candidate` can stand in for `source`.
pub fn projects_equivalent(source: &ProjectSummary, candidate: &ProjectSummary) -> (r: bool)
    ensures
        r == (identity_score_spec(*source, *candidate) > 0),
{
    identity_score(source, candidate) > 0
}

/// The candidates that can stand in for `source`, in the order given.
pub open spec fn equivalent_only(source: ProjectSummary, s: Seq<ProjectSummary>) -> Seq<ProjectSummary>
    decreases s.len(),
{
    if s.len() == 0 {
        Seq::empty()
    } else if identity_score_spec(source, s.last()) > 0 {
        equivalent_only(source, s.drop_last()).push(s.last())
    } else {
        equivalent_only(source, s.drop_last())
    }
}

pub open spec fn ranked_by_identity(source: ProjectSummary, s: Seq<ProjectSummary>) -> Seq<((u8, u64), ProjectSummary)> {
    s.map_values(|c: ProjectSummary| ((identity_score_spec(source, c) as u8, c.downloads), c))
}

pub open spec fn rank_items(s: Seq<((u8, u64), ProjectSummary)>) -> Seq<ProjectSummary> {
    s.map_values(|p: ((u8, u64), ProjectSummary)| p.1)
}

/// The order in which search hits are tried as a stand-in for `source`: only
/// the equivalent ones, surest match first, then most downloaded, ties kept
/// in the order the catalog gave them.
pub fn rank_candidates(source: &ProjectSummary, candidates: Vec<ProjectSummary>) -> (r: Vec<ProjectSummary>)
    ensures
        r@ == rank_items(sorted_by_rank(ranked_by_identity(*source, equivalent_only(*source, candidates@)))),
{
    let ghost all = candidates@;
    let mut rest = candidates;
    let mut keyed: Vec<((u8, u64), ProjectSummary)> = Vec::new();
    let mut i: usize = 0;
    let n = rest.len();
    while rest.len() > 0
        invariant
            n == all.len(),
            i + rest.len() == n,
            rest@ == all.skip(i as int),
            keyed@ == ranked_by_identity(*source, equivalent_only(*source, all.take(i as int))),
        decreases rest.len(),
    {
        let candidate = rest.remove(0);
        proof {
            assert(all.take(i + 1).drop_last() =~= all.take(i as int));
            assert(all.take(i + 1).last() == candidate);
        }
        let score = identity_score(source, &candidate);
        if score > 0 {
            let ghost before = keyed@;
            keyed.push(((score, candidate.downloads), candidate));
            assert(keyed@ =~= ranked_by_identity(*source, equivalent_only(*source, all.take(i + 1))));
        }
        i = i + 1;
        assert(rest@ =~= all.skip(i as int));
    }
    assert(all.take(n as int) =~= all);
    let sorted = sort_by_rank(keyed);
    let ghost sorted_view = sorted@;
    let mut out: Vec<ProjectSummary> = Vec::new();
    let mut rest_sorted = sorted;
    let mut k: usize = 0;
    let total = rest_sorted.len();
    while rest_sorted.len() > 0
        invariant
            total == sorted_view.len(),
            k + rest_sorted.len() == total,
            rest_sorted@ == sorted_view.skip(k as int),
            out@ == rank_items(sorted_view.take(k as int)),
        decreases rest_sorted.len(),
    {
        let pair = rest_sorted.remove(0);
        out.push(pair.1);
        k = k + 1;
        assert(out@ =~= rank_items(sorted_view.take(k as int)));
        assert(rest_sorted@ =~= sorted_view.skip(k as int));
    }
    assert(sorted_view.take(total as int) =~= sorted_view);
    out
}

/// The searches tried for a stand-in: by slug, then by name, skipping blank
/// ones.
pub open spec fn equivalent_queries_spec(source: ProjectSummary) -> Seq<Seq<char>> {
    let by_slug: Seq<Seq<char>> = if all_whitespace(source.slug@) { seq![] } else { seq![source.slug@] };
    if all_whitespace(source.name@) { by_slug } else { by_slug.push(source.name@) }
}

/// The searches that look for the same project in the other catalog.
pub fn equivalent_queries(source: &ProjectSummary) -> (r: Vec<String>)
    ensures
        r@.map_values(|q: String| q@) == equivalent_queries_spec(*source),
{
    let mut r: Vec<String> = Vec::new();
    if !is_blank(source.slug.as_str()) {
        r.push(source.slug.clone());
    }
    if !is_blank(source.name.as_str()) {
        r.push(source.name.clone());
    }
    assert(r@.map_values(|q: String| q@) =~= equivalent_queries_spec(*source));
    r
}

/// A found version can stand in when no download is required, or when its
/// primary file can be downloaded.
pub fn usable_version(version: &ProjectVersion, require_download: bool) -> (r: bool)
    ensures
        r == (!require_download || downloadable(*version)),
{
    if !require_download {
        return true;
    }
    match primary_file(version) {
        Some(file) => file.url.is_some(),
        None => false,
    }
}

} // verus!
