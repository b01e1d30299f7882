//! Rules for profiles: what names, descriptions and targets are accepted,
//! folder names, instance paths, and the plain-text list of a profile's mods.
use crate::domain::{InstallReason, InstalledMod, ProfileTarget, ProjectRef};
use crate::error::{fails_with, AppError};
use crate::graph::{
    closed_under, depends_on, graph_keys, has_key, marked_keys, reach_good, reach_marks, reachable_keys,
    GraphEntry,
};
use crate::mod_index::{insert_index, lemma_insert_index_at, pair_lt, sorted_prefix};
use crate::rescan::{split_by, split_chars, views, Cut};
use crate::text::{text_equal, text_less, text_lt};
use crate::text::{
    all_whitespace, chars_of, is_ascii_alnum, is_ascii_alnum_char, is_blank, squeeze_whitespace,
    squeeze_whitespace_chars, string_of, to_lowercase, unicode_lowercase, joined, join_strings, join2, texts,
};
use vstd::prelude::*;

verus! {

/// Bytes the character takes in UTF-8.
pub open spec fn utf8_width(c: char) -> int {
    if (c as u32) < 0x80 {
        1
    } else if (c as u32) < 0x800 {
        2
    } else if (c as u32) < 0x10000 {
        3
    } else {
        4
    }
}

/// `str::len`: the length of the text in UTF-8 bytes.
pub open spec fn utf8_len(s: Seq<char>) -> int
    decreases s.len(),
{
    if s.len() == 0 {
        0
    } else {
        utf8_len(s.drop_last()) + utf8_width(s.last())
    }
}

proof fn lemma_utf8_len_grows(s: Seq<char>, i: int)
    requires
        0 <= i <= s.len(),
    ensures
        utf8_len(s.take(i)) <= utf8_len(s),
    decreases s.len() - i,
{
    if i < s.len() {
        lemma_utf8_len_grows(s, i + 1);
        assert(s.take(i + 1).drop_last() =~= s.take(i));
    } else {
        assert(s.take(i) =~= s);
    }
}

/// Whether the text takes more than `limit` bytes in UTF-8.
pub(crate) fn utf8_longer_than(s: &str, limit: u64) -> (r: bool)
    requires
        limit <= 1000,
    ensures
        r == (utf8_len(s@) > limit),
{
    let chars = chars_of(s);
    let mut n: u64 = 0;
    let mut i: usize = 0;
    while i < chars.len()
        invariant
            i <= chars.len(),
            chars@ == s@,
            limit <= 1000,
            n == utf8_len(chars@.take(i as int)),
            n <= limit,
        decreases chars.len() - i,
    {
        proof {
            assert(chars@.take(i + 1).drop_last() =~= chars@.take(i as int));
        }
        let code = chars[i] as u32;
        let w: u64 = if code < 0x80 {
            1
        } else if code < 0x800 {
            2
        } else if code < 0x10000 {
            3
        } else {
            4
        };
        assert(w == utf8_width(chars@[i as int]));
        n = n + w;
        i = i + 1;
        assert(n == utf8_len(chars@.take(i as int)));
        if n > limit {
            proof {
                lemma_utf8_len_grows(chars@, i as int);
            }
            return true;
        }
    }
    assert(chars@.take(chars.len() as int) =~= chars@);
    false
}

/// What is wrong with a profile's name and description, if anything.
pub open spec fn metadata_problem(name: Seq<char>, description: Seq<char>) -> Option<Seq<char>> {
    if all_whitespace(name) || name.len() > 80 {
        Some("O nome deve ter entre 1 e 80 caracteres."@)
    } else if description.len() > 300 {
        Some("A descrição deve ter no máximo 300 caracteres."@)
    } else {
        None
    }
}

/// What is wrong with a profile's target, if anything.
pub open spec fn target_problem(target: ProfileTarget) -> Option<Seq<char>> {
    if all_whitespace(target.minecraft_version@) || utf8_len(target.minecraft_version@) > 32 {
        Some("Versão do Minecraft inválida."@)
    } else if target.release_channels.len() == 0 {
        Some("Selecione pelo menos um canal de lançamento."@)
    } else {
        None
    }
}

/// Accepts a profile's name and description: a name that is not blank and
/// has at most 80 characters, a description of at most 300 characters.
pub fn validate_profile_metadata(name: &str, description: &str) -> (r: Result<(), AppError>)
    ensures
        match metadata_problem(name@, description@) {
            Some(m) => fails_with(r, m),
            None => r is Ok,
        },
        (all_whitespace(name@) || name@.len() > 80) ==> fails_with(r, "O nome deve ter entre 1 e 80 caracteres."@),
        !(all_whitespace(name@) || name@.len() > 80) && description@.len() > 300 ==> fails_with(
            r,
            "A descrição deve ter no máximo 300 caracteres."@,
        ),
        r is Ok <==> !(all_whitespace(name@) || name@.len() > 80) && description@.len() <= 300,
{
    let name_chars = chars_of(name);
    if is_blank(name) || name_chars.len() > 80 {
        return Err(AppError::message("O nome deve ter entre 1 e 80 caracteres."));
    }
    if chars_of(description).len() > 300 {
        return Err(AppError::message("A descrição deve ter no máximo 300 caracteres."));
    }
    Ok(())
}

/// Accepts a profile's target: a Minecraft version that is not blank and
/// has at most 32 bytes, and at least one release channel.
pub fn validate_target(target: &ProfileTarget) -> (r: Result<(), AppError>)
    ensures
        match target_problem(*target) {
            Some(m) => fails_with(r, m),
            None => r is Ok,
        },
        (all_whitespace(target.minecraft_version@) || utf8_len(target.minecraft_version@) > 32) ==> fails_with(
            r,
            "Versão do Minecraft inválida."@,
        ),
        !(all_whitespace(target.minecraft_version@) || utf8_len(target.minecraft_version@) > 32)
            && target.release_channels.len() == 0 ==> fails_with(r, "Selecione pelo menos um canal de lançamento."@),
        r is Ok <==> !(all_whitespace(target.minecraft_version@) || utf8_len(target.minecraft_version@) > 32)
            && target.release_channels.len() > 0,
{
    if is_blank(target.minecraft_version.as_str()) || utf8_longer_than(target.minecraft_version.as_str(), 32) {
        return Err(AppError::message("Versão do Minecraft inválida."));
    }
    if target.release_channels.len() == 0 {
        return Err(AppError::message("Selecione pelo menos um canal de lançamento."));
    }
    Ok(())
}

pub open spec fn folder_char(c: char) -> char {
    if is_ascii_alnum(c) || c == '-' || c == '_' {
        c
    } else {
        '-'
    }
}

/// The text without leading dashes.
pub open spec fn strip_leading_dashes(s: Seq<char>) -> Seq<char>
    decreases s.len(),
{
    if s.len() > 0 && s[0] == '-' {
        strip_leading_dashes(s.drop_first())
    } else {
        s
    }
}

/// The text without trailing dashes.
pub open spec fn strip_trailing_dashes(s: Seq<char>) -> Seq<char>
    decreases s.len(),
{
    if s.len() > 0 && s.last() == '-' {
        strip_trailing_dashes(s.drop_last())
    } else {
        s
    }
}

/// A folder name made from a profile name: lowercased, every character but
/// ASCII letters, digits, `-` and `_` turned into `-`, dashes trimmed at both
/// ends, and `modpack` when nothing is left.
pub open spec fn folder_name(value: Seq<char>) -> Seq<char> {
    let mapped = unicode_lowercase(value).map_values(|c: char| folder_char(c));
    let trimmed = strip_trailing_dashes(strip_leading_dashes(mapped));
    if trimmed.len() == 0 {
        "modpack"@
    } else {
        trimmed
    }
}

proof fn lemma_strip_leading(s: Seq<char>, i: int)
    requires
        0 <= i <= s.len(),
        forall|j: int| 0 <= j < i ==> s[j] == '-',
    ensures
        strip_leading_dashes(s) == strip_leading_dashes(s.subrange(i, s.len() as int)),
    decreases i,
{
    if i > 0 {
        assert(s.drop_first().subrange(i - 1, s.drop_first().len() as int) =~= s.subrange(i, s.len() as int));
        lemma_strip_leading(s.drop_first(), i - 1);
    } else {
        assert(s.subrange(0, s.len() as int) =~= s);
    }
}

proof fn lemma_strip_trailing(s: Seq<char>, k: int)
    requires
        0 <= k <= s.len(),
        forall|j: int| k <= j < s.len() ==> s[j] == '-',
    ensures
        strip_trailing_dashes(s) == strip_trailing_dashes(s.subrange(0, k)),
    decreases s.len() - k,
{
    if k < s.len() {
        assert(s.drop_last().subrange(0, k) =~= s.subrange(0, k));
        lemma_strip_trailing(s.drop_last(), k);
    } else {
        assert(s.subrange(0, k) =~= s);
    }
}

/// The folder a new profile's instance goes in, named after the profile.
pub fn safe_folder_name(value: &str) -> (r: String)
    ensures
        r@ == folder_name(value@),
{
    let lower = to_lowercase(value);
    let chars = chars_of(lower.as_str());
    let mut mapped: Vec<char> = Vec::new();
    let mut i: usize = 0;
    while i < chars.len()
        invariant
            i <= chars.len(),
            mapped@ == chars@.take(i as int).map_values(|c: char| folder_char(c)),
        decreases chars.len() - i,
    {
        let c = chars[i];
        if is_ascii_alnum_char(c) || c == '-' || c == '_' {
            mapped.push(c);
        } else {
            mapped.push('-');
        }
        assert(mapped@ =~= chars@.take(i + 1).map_values(|c: char| folder_char(c)));
        i = i + 1;
    }
    assert(chars@.take(chars.len() as int) =~= chars@);
    let ghost m = mapped@;
    let mut start: usize = 0;
    while start < mapped.len() && mapped[start] == '-'
        invariant
            start <= mapped.len(),
            m == mapped@,
            forall|j: int| 0 <= j < start ==> m[j] == '-',
        decreases mapped.len() - start,
    {
        start = start + 1;
    }
    proof {
        lemma_strip_leading(m, start as int);
    }
    let ghost rest = m.subrange(start as int, m.len() as int);
    let mut end: usize = mapped.len();
    while end > start && mapped[end - 1] == '-'
        invariant
            start <= end <= mapped.len(),
            m == mapped@,
            forall|j: int| end <= j < m.len() ==> m[j] == '-',
        decreases end,
    {
        end = end - 1;
    }
    proof {
        assert(start < m.len() ==> m[start as int] != '-');
        assert(rest == strip_leading_dashes(m));
        lemma_strip_trailing(rest, end - start);
        assert(rest.subrange(0, end - start) =~= m.subrange(start as int, end as int));
        if start < m.len() {
            assert(strip_leading_dashes(rest) == rest) by {
                assert(rest[0] != '-');
            }
        }
    }
    if end == start {
        proof {
            reveal_strlit("modpack");
        }
        return String::from_str("modpack");
    }
    let mut out: Vec<char> = Vec::new();
    let mut k: usize = start;
    while k < end
        invariant
            start <= k <= end <= mapped.len(),
            out@ == mapped@.subrange(start as int, k as int),
        decreases end - k,
    {
        out.push(mapped[k]);
        k = k + 1;
    }
    string_of(out.as_slice())
}

/// The name a mod is listed with: its whitespace runs turned into single spaces.
pub fn normalized_mod_name(item: &InstalledMod) -> (r: String)
    ensures
        r@ == squeeze_whitespace(item.name@),
{
    let squeezed = squeeze_whitespace_chars(&chars_of(item.name.as_str()));
    string_of(squeezed.as_slice())
}


/// The mod declares a required dependency with key `k`.
pub open spec fn requires_key(m: InstalledMod, k: Seq<char>) -> bool {
    match m.required_dependencies {
        Some(d) => exists|j: int| 0 <= j < d.len() && (#[trigger] d@[j]).key_view() == k,
        None => false,
    }
}

/// Some mod of the list has key `k`.
pub open spec fn listed_key(mods: Seq<InstalledMod>, k: Seq<char>) -> bool {
    exists|i: int| 0 <= i < mods.len() && (#[trigger] mods[i]).key_view() == k
}

/// In the list of users of `x`, `b` is reached from `a`: a mod with key
/// `b` other than `x` requires `a`.
pub open spec fn users_edge(mods: Seq<InstalledMod>, x: Seq<char>, a: Seq<char>, b: Seq<char>) -> bool {
    b != x && exists|i: int| 0 <= i < mods.len() && (#[trigger] mods[i]).key_view() == b && requires_key(mods[i], a)
}

pub open spec fn users_good(s: Set<Seq<char>>, mods: Seq<InstalledMod>, x: Seq<char>) -> bool {
    &&& forall|b: Seq<char>| #[trigger] users_edge(mods, x, x, b) ==> s.contains(b)
    &&& forall|a: Seq<char>, b: Seq<char>| #[trigger] s.contains(a) && #[trigger] users_edge(mods, x, a, b) ==> s.contains(b)
}

/// The mods that need `x`, directly or through other mods, never passing
/// through `x` itself: the smallest set closed under "requires".
pub open spec fn users_reach(mods: Seq<InstalledMod>, x: Seq<char>) -> Set<Seq<char>> {
    Set::new(|k: Seq<char>| forall|s: Set<Seq<char>>| #[trigger] users_good(s, mods, x) ==> s.contains(k))
}

/// The index of the first mod with key `k`.
pub open spec fn first_with_key(mods: Seq<InstalledMod>, i: int) -> bool {
    0 <= i < mods.len() && forall|j: int| 0 <= j < i ==> (#[trigger] mods[j]).key_view() != mods[i].key_view()
}

/// The reason of the first mod with key `k`.
pub open spec fn first_reason(mods: Seq<InstalledMod>, k: Seq<char>) -> InstallReason {
    let i = choose|i: int| first_with_key(mods, i) && mods[i].key_view() == k;
    mods[i].reason
}

/// Whom a dependency is listed for: the mods that need it and were not
/// themselves installed as dependencies; when there are none, the mods that
/// require it directly.
pub open spec fn root_users(mods: Seq<InstalledMod>, x: Seq<char>) -> Set<Seq<char>> {
    let reached = Set::new(|k: Seq<char>| users_reach(mods, x).contains(k) && first_reason(mods, k) != InstallReason::Required);
    if reached == Set::<Seq<char>>::empty() {
        Set::new(|k: Seq<char>| listed_key(mods, k) && exists|i: int| 0 <= i < mods.len() && (#[trigger] mods[i]).key_view() == k && requires_key(mods[i], x))
    } else {
        reached
    }
}

/// The key users are listed by: lowercased normalized name, then key.
pub open spec fn user_key(m: InstalledMod) -> (Seq<char>, Seq<char>) {
    (unicode_lowercase(squeeze_whitespace(m.name@)), m.key_view())
}


proof fn lemma_depends_on_push(g: Seq<GraphEntry>, e: GraphEntry, a: Seq<char>, b: Seq<char>)
    requires
        e.dependencies.len() == 1,
    ensures
        depends_on(g.push(e), a, b) <==> (depends_on(g, a, b) || (e.owner.key_view() == a
            && e.dependencies@[0].key_view() == b)),
{
    let h = g.push(e);
    if depends_on(g, a, b) {
        let (x, d) = choose|x: int, d: int|
            #![trigger g[x].dependencies@[d]]
            0 <= x < g.len() && 0 <= d < g[x].dependencies@.len() && g[x].owner.key_view() == a
                && g[x].dependencies@[d].key_view() == b;
        assert(h[x] == g[x]);
        assert(h[x].dependencies@[d].key_view() == b);
    }
    if e.owner.key_view() == a && e.dependencies@[0].key_view() == b {
        assert(h[g.len() as int] == e);
        assert(h[g.len() as int].dependencies@[0].key_view() == b);
    }
    if depends_on(h, a, b) {
        let (x, d) = choose|x: int, d: int|
            #![trigger h[x].dependencies@[d]]
            0 <= x < h.len() && 0 <= d < h[x].dependencies@.len() && h[x].owner.key_view() == a
                && h[x].dependencies@[d].key_view() == b;
        if x < g.len() {
            assert(g[x] == h[x]);
            assert(g[x].dependencies@[d].key_view() == b);
        }
    }
}

fn own_ref_of(m: &InstalledMod) -> (r: ProjectRef)
    ensures
        r.key_view() == m.key_view(),
{
    ProjectRef { provider: m.provider, project_id: m.project_id.clone() }
}

/// The graph whose edges go from a dependency to the mods (other than `x`)
/// that require it.
fn users_graph(mods: &Vec<InstalledMod>, x: &String) -> (g: Vec<GraphEntry>)
    ensures
        forall|a: Seq<char>, b: Seq<char>| depends_on(g@, a, b) <==> #[trigger] users_edge(mods@, x@, a, b),
{
    let mut g: Vec<GraphEntry> = Vec::new();
    let mut i: usize = 0;
    while i < mods.len()
        invariant
            i <= mods.len(),
            forall|a: Seq<char>, b: Seq<char>| depends_on(g@, a, b) <==> (b != x@ && exists|k: int|
                0 <= k < i && (#[trigger] mods@[k]).key_view() == b && requires_key(mods@[k], a)),
        decreases mods.len() - i,
    {
        let own = own_ref_of(&mods[i]);
        let own_key = own.key();
        if own_key != *x {
            match &mods[i].required_dependencies {
                Some(deps) => {
                    let mut j: usize = 0;
                    while j < deps.len()
                        invariant
                            i < mods.len(),
                            j <= deps.len(),
                            own.key_view() == mods@[i as int].key_view(),
                            own_key@ == own.key_view(),
                            own_key@ != x@,
                            mods@[i as int].required_dependencies == Some(*deps),
                            forall|a: Seq<char>, b: Seq<char>| depends_on(g@, a, b) <==> (b != x@ && ((exists|k: int|
                                0 <= k < i && (#[trigger] mods@[k]).key_view() == b && requires_key(mods@[k], a))
                                || (b == own.key_view() && exists|d: int| 0 <= d < j && (#[trigger] deps@[d]).key_view() == a))),
                        decreases deps.len() - j,
                    {
                        let mut targets: Vec<ProjectRef> = Vec::new();
                        targets.push(own.clone());
                        let entry = GraphEntry { owner: deps[j].clone(), dependencies: targets };
                        let ghost before = g@;
                        g.push(entry);
                        proof {
                            assert forall|a: Seq<char>, b: Seq<char>| depends_on(g@, a, b) <==> (b != x@ && ((exists|k: int|
                                0 <= k < i && (#[trigger] mods@[k]).key_view() == b && requires_key(mods@[k], a))
                                || (b == own.key_view() && exists|d: int| 0 <= d < j + 1 && (#[trigger] deps@[d]).key_view() == a))) by {
                                lemma_depends_on_push(before, entry, a, b);
                                if b == own.key_view() && deps@[j as int].key_view() == a {
                                    assert(b != x@);
                                }
                                if b == own.key_view() && exists|d: int| 0 <= d < j + 1 && (#[trigger] deps@[d]).key_view() == a {
                                    let d = choose|d: int| 0 <= d < j + 1 && (#[trigger] deps@[d]).key_view() == a;
                                    if d < j {
                                        assert(depends_on(before, a, b));
                                    }
                                }
                            }
                        }
                        j = j + 1;
                    }
                    proof {
                        assert forall|a: Seq<char>, b: Seq<char>| depends_on(g@, a, b) <==> (b != x@ && exists|k: int|
                            0 <= k < i + 1 && (#[trigger] mods@[k]).key_view() == b && requires_key(mods@[k], a)) by {
                            if b == own.key_view() && requires_key(mods@[i as int], a) {
                                let d = choose|d: int| 0 <= d < deps.len() && (#[trigger] deps@[d]).key_view() == a;
                            }
                            if exists|k: int| 0 <= k < i + 1 && (#[trigger] mods@[k]).key_view() == b && requires_key(mods@[k], a) {
                                let k = choose|k: int| 0 <= k < i + 1 && (#[trigger] mods@[k]).key_view() == b && requires_key(mods@[k], a);
                                if k == i {
                                    let d = choose|d: int| 0 <= d < deps.len() && (#[trigger] deps@[d]).key_view() == a;
                                }
                            }
                        }
                    }
                },
                None => {
                    proof {
                        assert forall|a: Seq<char>, b: Seq<char>| depends_on(g@, a, b) <==> (b != x@ && exists|k: int|
                            0 <= k < i + 1 && (#[trigger] mods@[k]).key_view() == b && requires_key(mods@[k], a)) by {
                            if exists|k: int| 0 <= k < i + 1 && (#[trigger] mods@[k]).key_view() == b && requires_key(mods@[k], a) {
                                let k = choose|k: int| 0 <= k < i + 1 && (#[trigger] mods@[k]).key_view() == b && requires_key(mods@[k], a);
                                assert(k != i);
                            }
                        }
                    }
                },
            }
        } else {
            proof {
                assert forall|a: Seq<char>, b: Seq<char>| depends_on(g@, a, b) <==> (b != x@ && exists|k: int|
                    0 <= k < i + 1 && (#[trigger] mods@[k]).key_view() == b && requires_key(mods@[k], a)) by {
                    if exists|k: int| 0 <= k < i + 1 && (#[trigger] mods@[k]).key_view() == b && requires_key(mods@[k], a) {
                        let k = choose|k: int| 0 <= k < i + 1 && (#[trigger] mods@[k]).key_view() == b && requires_key(mods@[k], a);
                        if k == i {
                            assert(b == x@);
                        }
                    }
                }
            }
        }
        i = i + 1;
    }
    g
}


pub open spec fn own_keys_of(mods: Seq<InstalledMod>) -> Seq<Seq<char>> {
    mods.map_values(|m: InstalledMod| m.key_view())
}

proof fn lemma_users_reach_is_graph_reach(
    mods: Seq<InstalledMod>,
    x: Seq<char>,
    g: Seq<GraphEntry>,
    roots: Seq<bool>,
)
    requires
        forall|a: Seq<char>, b: Seq<char>| depends_on(g, a, b) <==> #[trigger] users_edge(mods, x, a, b),
        roots.len() == mods.len(),
        forall|i: int| 0 <= i < mods.len() ==> (#[trigger] roots[i] <==> users_edge(mods, x, x, mods[i].key_view())),
    ensures
        reachable_keys(marked_keys(own_keys_of(mods), roots), g, own_keys_of(mods)) == users_reach(mods, x),
{
    let kv = own_keys_of(mods);
    let r0 = marked_keys(kv, roots);
    assert forall|s: Set<Seq<char>>| reach_good(s, r0, g, kv) <==> #[trigger] users_good(s, mods, x) by {
        if reach_good(s, r0, g, kv) {
            assert forall|b: Seq<char>| #[trigger] users_edge(mods, x, x, b) implies s.contains(b) by {
                let i = choose|i: int| 0 <= i < mods.len() && (#[trigger] mods[i]).key_view() == b && requires_key(mods[i], x);
                assert(kv[i] == b);
                assert(roots[i]);
                assert(r0.contains(b));
                assert(has_key(kv, b));
            }
            assert forall|a: Seq<char>, b: Seq<char>| #[trigger] s.contains(a) && #[trigger] users_edge(mods, x, a, b) implies s.contains(b) by {
                let i = choose|i: int| 0 <= i < mods.len() && (#[trigger] mods[i]).key_view() == b && requires_key(mods[i], a);
                assert(kv[i] == b);
                assert(has_key(kv, b));
                assert(depends_on(g, a, b));
            }
        }
        if users_good(s, mods, x) {
            assert forall|k: Seq<char>| #[trigger] r0.contains(k) && has_key(kv, k) implies s.contains(k) by {
                let i = choose|i: int| 0 <= i < kv.len() && roots[i] && #[trigger] kv[i] == k;
                assert(users_edge(mods, x, x, mods[i].key_view()));
            }
            assert forall|a: Seq<char>, b: Seq<char>|
                #![trigger s.contains(a), depends_on(g, a, b)]
                s.contains(a) && depends_on(g, a, b) && has_key(kv, b) implies s.contains(b) by {
                assert(users_edge(mods, x, a, b));
            }
        }
    }
    assert(reachable_keys(r0, g, kv) =~= users_reach(mods, x)) by {
        assert forall|k: Seq<char>| reachable_keys(r0, g, kv).contains(k) <==> users_reach(mods, x).contains(k) by {
            if reachable_keys(r0, g, kv).contains(k) {
                assert forall|s: Set<Seq<char>>| #[trigger] users_good(s, mods, x) implies s.contains(k) by {
                    assert(reach_good(s, r0, g, kv));
                }
            }
            if users_reach(mods, x).contains(k) {
                assert forall|s: Set<Seq<char>>| #[trigger] reach_good(s, r0, g, kv) implies s.contains(k) by {
                    assert(users_good(s, mods, x));
                }
            }
        }
    }
}

fn requires_key_exec(m: &InstalledMod, k: &String) -> (r: bool)
    ensures
        r == requires_key(*m, k@),
{
    match &m.required_dependencies {
        Some(deps) => {
            let mut j: usize = 0;
            while j < deps.len()
                invariant
                    j <= deps.len(),
                    m.required_dependencies == Some(*deps),
                    forall|d: int| 0 <= d < j ==> (#[trigger] deps@[d]).key_view() != k@,
                decreases deps.len() - j,
            {
                if deps[j].key() == *k {
                    proof {
                        let d = m.required_dependencies->0;
                        assert(d == *deps);
                        assert(d@[j as int].key_view() == k@);
                    }
                    return true;
                }
                j = j + 1;
            }
            false
        },
        None => false,
    }
}


proof fn lemma_reach_listed(mods: Seq<InstalledMod>, x: Seq<char>, k: Seq<char>)
    requires
        users_reach(mods, x).contains(k),
    ensures
        listed_key(mods, k),
{
    let s = Set::new(|k: Seq<char>| listed_key(mods, k));
    assert(users_good(s, mods, x)) by {
        assert forall|b: Seq<char>| #[trigger] users_edge(mods, x, x, b) implies s.contains(b) by {
            let i = choose|i: int| 0 <= i < mods.len() && (#[trigger] mods[i]).key_view() == b && requires_key(mods[i], x);
        }
        assert forall|a: Seq<char>, b: Seq<char>| #[trigger] s.contains(a) && #[trigger] users_edge(mods, x, a, b) implies s.contains(b) by {
            let i = choose|i: int| 0 <= i < mods.len() && (#[trigger] mods[i]).key_view() == b && requires_key(mods[i], a);
        }
    }
}

proof fn lemma_first_exists(mods: Seq<InstalledMod>, i: int) -> (j: int)
    requires
        0 <= i < mods.len(),
    ensures
        first_with_key(mods, j),
        mods[j].key_view() == mods[i].key_view(),
    decreases i,
{
    if exists|j: int| 0 <= j < i && (#[trigger] mods[j]).key_view() == mods[i].key_view() {
        let j = choose|j: int| 0 <= j < i && (#[trigger] mods[j]).key_view() == mods[i].key_view();
        lemma_first_exists(mods, j)
    } else {
        i
    }
}

proof fn lemma_first_unique(mods: Seq<InstalledMod>, i: int, j: int)
    requires
        first_with_key(mods, i),
        first_with_key(mods, j),
        mods[i].key_view() == mods[j].key_view(),
    ensures
        i == j,
{
    if i < j {
        assert(mods[i].key_view() != mods[j].key_view());
    } else if j < i {
        assert(mods[j].key_view() != mods[i].key_view());
    }
}

proof fn lemma_first_reason(mods: Seq<InstalledMod>, j: int)
    requires
        first_with_key(mods, j),
    ensures
        first_reason(mods, mods[j].key_view()) == mods[j].reason,
{
    let k = mods[j].key_view();
    let i = choose|i: int| first_with_key(mods, i) && mods[i].key_view() == k;
    lemma_first_unique(mods, i, j);
}

/// Whether the mod at `j` is the first with its key.
fn is_first(keys: &Vec<String>, j: usize) -> (r: bool)
    requires
        j < keys.len(),
    ensures
        r == forall|i: int| 0 <= i < j ==> (#[trigger] keys@[i])@ != keys@[j as int]@,
{
    let mut i: usize = 0;
    while i < j
        invariant
            i <= j < keys.len(),
            forall|y: int| 0 <= y < i ==> (#[trigger] keys@[y])@ != keys@[j as int]@,
        decreases j - i,
    {
        if keys[i] == keys[j] {
            return false;
        }
        i = i + 1;
    }
    true
}

/// Some mod with key `k` requires `x`.
fn some_requires(mods: &Vec<InstalledMod>, keys: &Vec<String>, k: &String, x: &String) -> (r: bool)
    requires
        keys.len() == mods.len(),
        forall|i: int| 0 <= i < mods.len() ==> (#[trigger] keys@[i])@ == mods@[i].key_view(),
    ensures
        r == exists|i: int| 0 <= i < mods.len() && (#[trigger] mods@[i]).key_view() == k@ && requires_key(mods@[i], x@),
{
    let mut i: usize = 0;
    while i < mods.len()
        invariant
            i <= mods.len(),
            keys.len() == mods.len(),
            forall|y: int| 0 <= y < mods.len() ==> (#[trigger] keys@[y])@ == mods@[y].key_view(),
            forall|y: int| 0 <= y < i ==> !((#[trigger] mods@[y]).key_view() == k@ && requires_key(mods@[y], x@)),
        decreases mods.len() - i,
    {
        if keys[i] == *k && requires_key_exec(&mods[i], x) {
            assert(keys@[i as int]@ == mods@[i as int].key_view());
            return true;
        }
        assert(keys@[i as int]@ == mods@[i as int].key_view());
        i = i + 1;
    }
    false
}

/// Mod `j` is listed among the users of `x`.
pub open spec fn is_user_candidate(mods: Seq<InstalledMod>, x: Seq<char>, j: int) -> bool {
    first_with_key(mods, j) && root_users(mods, x).contains(mods[j].key_view())
}

/// The mods listed as users of `x`, by position, in list order.
pub open spec fn user_candidates(mods: Seq<InstalledMod>, x: Seq<char>, n: nat) -> Seq<int>
    decreases n,
{
    if n == 0 {
        Seq::empty()
    } else {
        user_candidates(mods, x, (n - 1) as nat) + if is_user_candidate(mods, x, n - 1) {
            seq![n - 1]
        } else {
            Seq::<int>::empty()
        }
    }
}

pub open spec fn candidate_keys(mods: Seq<InstalledMod>, c: Seq<int>) -> Seq<(Seq<char>, Seq<char>)> {
    c.map_values(|j: int| user_key(mods[j]))
}

/// The users of `x` in the order they are named: stably sorted by
/// lowercased normalized name, then key.
pub open spec fn users_listing(mods: Seq<InstalledMod>, x: Seq<char>) -> Seq<int> {
    let c = user_candidates(mods, x, mods.len());
    sorted_prefix(candidate_keys(mods, c), c.len()).map_values(|p: int| c[p])
}

fn user_key_exec(m: &InstalledMod) -> (r: (Vec<char>, Vec<char>))
    ensures
        (r.0@, r.1@) == user_key(*m),
{
    let name = normalized_mod_name(m);
    let lower = to_lowercase(name.as_str());
    let key = own_ref_of(m).key();
    (chars_of(lower.as_str()), chars_of(key.as_str()))
}

fn key_pair_less(a: &(Vec<char>, Vec<char>), b: &(Vec<char>, Vec<char>)) -> (r: bool)
    ensures
        r == pair_lt((a.0@, a.1@), (b.0@, b.1@)),
{
    text_less(&a.0, &b.0) || (text_equal(&a.0, &b.0) && text_less(&a.1, &b.1))
}


pub open spec fn positions(v: Seq<usize>) -> Seq<int> {
    v.map_values(|u: usize| u as int)
}

/// The users listed for the mod with key `x`.
fn users_of(mods: &Vec<InstalledMod>, keys: &Vec<String>, x: &String) -> (r: Vec<usize>)
    requires
        keys.len() == mods.len(),
        forall|i: int| 0 <= i < mods.len() ==> (#[trigger] keys@[i])@ == mods@[i].key_view(),
    ensures
        positions(r@) == users_listing(mods@, x@),
        forall|q: int| 0 <= q < r.len() ==> #[trigger] r@[q] < mods.len(),
{
    let ghost ms = mods@;
    let ghost kv = own_keys_of(ms);
    assert forall|i: int| 0 <= i < keys.len() implies #[trigger] kv[i] == keys@[i]@ by {}
    let g = users_graph(mods, x);
    let gk = graph_keys(&g);
    let n = mods.len();
    let mut roots: Vec<bool> = Vec::new();
    let mut i: usize = 0;
    while i < n
        invariant
            n == mods.len(),
            keys.len() == mods.len(),
            forall|y: int| 0 <= y < mods.len() ==> (#[trigger] keys@[y])@ == mods@[y].key_view(),
            i <= n,
            roots.len() == i,
            forall|y: int| 0 <= y < i ==> (#[trigger] roots@[y] <==> users_edge(mods@, x@, x@, mods@[y].key_view())),
        decreases n - i,
    {
        let edge = keys[i] != *x && some_requires(mods, keys, &keys[i], x);
        proof {
            assert(keys@[i as int]@ == mods@[i as int].key_view());
        }
        roots.push(edge);
        i = i + 1;
    }
    let marks = reach_marks(keys, Ghost(kv), &g, &gk, &roots);
    proof {
        lemma_users_reach_is_graph_reach(ms, x@, g@, roots@);
    }
    let mut any_reached = false;
    let mut j: usize = 0;
    while j < n
        invariant
            n == mods.len(),
            keys.len() == mods.len(),
            marks.len() == n,
            forall|y: int| 0 <= y < mods.len() ==> (#[trigger] keys@[y])@ == mods@[y].key_view(),
            forall|y: int| 0 <= y < n ==> (#[trigger] marks@[y] <==> users_reach(mods@, x@).contains(keys@[y]@)),
            j <= n,
            any_reached == exists|y: int| 0 <= y < j && first_with_key(mods@, y) && #[trigger] marks@[y] && mods@[y].reason != InstallReason::Required,
        decreases n - j,
    {
        if is_first(keys, j) && marks[j] && mods[j].reason != InstallReason::Required {
            proof {
                assert forall|y: int| 0 <= y < j implies (#[trigger] mods@[y]).key_view() != mods@[j as int].key_view() by {
                    assert(keys@[y]@ != keys@[j as int]@);
                }
            }
            any_reached = true;
        }
        j = j + 1;
    }
    let ghost reached = Set::new(|k: Seq<char>| users_reach(mods@, x@).contains(k) && first_reason(mods@, k) != InstallReason::Required);
    proof {
        if any_reached {
            let y = choose|y: int| 0 <= y < n && first_with_key(mods@, y) && #[trigger] marks@[y] && mods@[y].reason != InstallReason::Required;
            lemma_first_reason(mods@, y);
            assert(reached.contains(mods@[y].key_view()));
        } else {
            assert forall|k: Seq<char>| !reached.contains(k) by {
                if reached.contains(k) {
                    lemma_reach_listed(mods@, x@, k);
                    let i0 = choose|i: int| 0 <= i < mods@.len() && (#[trigger] mods@[i]).key_view() == k;
                    let y = lemma_first_exists(mods@, i0);
                    lemma_first_reason(mods@, y);
                    assert(marks@[y]);
                }
            }
            assert(reached =~= Set::<Seq<char>>::empty());
        }
    }
    let mut cands: Vec<usize> = Vec::new();
    let mut c: usize = 0;
    while c < n
        invariant
            n == mods.len(),
            keys.len() == mods.len(),
            marks.len() == n,
            forall|y: int| 0 <= y < mods.len() ==> (#[trigger] keys@[y])@ == mods@[y].key_view(),
            forall|y: int| 0 <= y < n ==> (#[trigger] marks@[y] <==> users_reach(mods@, x@).contains(keys@[y]@)),
            reached == Set::new(|k: Seq<char>| users_reach(mods@, x@).contains(k) && first_reason(mods@, k) != InstallReason::Required),
            any_reached <==> reached != Set::<Seq<char>>::empty(),
            c <= n,
            positions(cands@) == user_candidates(mods@, x@, c as nat),
            forall|p: int| 0 <= p < cands.len() ==> #[trigger] cands@[p] < n,
        decreases n - c,
    {
        let first = is_first(keys, c);
        let chosen = if first {
            if any_reached {
                marks[c] && mods[c].reason != InstallReason::Required
            } else {
                some_requires(mods, keys, &keys[c], x)
            }
        } else {
            false
        };
        proof {
            assert(keys@[c as int]@ == mods@[c as int].key_view());
            if first {
                assert forall|y: int| 0 <= y < c implies (#[trigger] mods@[y]).key_view() != mods@[c as int].key_view() by {
                    assert(keys@[y]@ != keys@[c as int]@);
                }
                lemma_first_reason(mods@, c as int);
                assert(listed_key(mods@, mods@[c as int].key_view()));
            } else {
                assert(!first_with_key(mods@, c as int));
            }
            assert(chosen == is_user_candidate(mods@, x@, c as int));
        }
        let ghost before = positions(cands@);
        if chosen {
            cands.push(c);
            assert(positions(cands@) =~= before.push(c as int));
        }
        assert(user_candidates(mods@, x@, (c + 1) as nat) =~= user_candidates(mods@, x@, c as nat) + if is_user_candidate(mods@, x@, c as int) {
            seq![c as int]
        } else {
            Seq::<int>::empty()
        });
        c = c + 1;
    }
    let ghost cv = positions(cands@);
    let ghost table = candidate_keys(mods@, cv);
    let mut out: Vec<usize> = Vec::new();
    let mut out_keys: Vec<(Vec<char>, Vec<char>)> = Vec::new();
    let mut m: usize = 0;
    while m < cands.len()
        invariant
            m <= cands.len(),
            n == mods.len(),
            cv == positions(cands@),
            table == candidate_keys(mods@, cv),
            forall|p: int| 0 <= p < cands.len() ==> #[trigger] cands@[p] < n,
            out.len() == m,
            out_keys.len() == m,
            sorted_prefix(table, m as nat).len() == m,
            forall|q: int| 0 <= q < m ==> {
                let p = #[trigger] sorted_prefix(table, m as nat)[q];
                &&& 0 <= p < m
                &&& out@[q] as int == cv[p]
                &&& (out_keys@[q].0@, out_keys@[q].1@) == table[p]
            },
        decreases cands.len() - m,
    {
        let idx = cands[m];
        let key = user_key_exec(&mods[idx]);
        assert((key.0@, key.1@) == table[m as int]);
        let ghost order = sorted_prefix(table, m as nat);
        let mut p: usize = 0;
        let mut stop = false;
        while !stop && p < out.len()
            invariant
                p <= out.len(),
                out.len() == m,
                out_keys.len() == m,
                order == sorted_prefix(table, m as nat),
                order.len() == m,
                (key.0@, key.1@) == table[m as int],
                forall|q: int| 0 <= q < m ==> (out_keys@[q].0@, out_keys@[q].1@) == table[#[trigger] order[q]],
                forall|q: int| 0 <= q < p ==> !pair_lt(table[m as int], #[trigger] table[order[q]]),
                stop ==> p < out.len() && pair_lt(table[m as int], table[order[p as int]]),
            decreases out.len() - p, if stop { 0int } else { 1int },
        {
            if key_pair_less(&key, &out_keys[p]) {
                stop = true;
            } else {
                p = p + 1;
            }
        }
        proof {
            lemma_insert_index_at(order, table, m as int, p as int);
            assert(sorted_prefix(table, (m + 1) as nat) == order.take(p as int) + seq![m as int] + order.skip(p as int));
        }
        let ghost before_out = out@;
        let ghost before_keys = out_keys@;
        out.insert(p, idx);
        out_keys.insert(p, key);
        proof {
            let neworder = sorted_prefix(table, (m + 1) as nat);
            assert forall|q: int| 0 <= q < m + 1 implies {
                let pp = #[trigger] sorted_prefix(table, (m + 1) as nat)[q];
                &&& 0 <= pp < m + 1
                &&& out@[q] as int == cv[pp]
                &&& (out_keys@[q].0@, out_keys@[q].1@) == table[pp]
            } by {
                if q < p {
                    assert(neworder[q] == order[q]);
                    assert(out@[q] == before_out[q]);
                    assert(out_keys@[q] == before_keys[q]);
                } else if q > p {
                    assert(neworder[q] == order[q - 1]);
                    assert(out@[q] == before_out[q - 1]);
                    assert(out_keys@[q] == before_keys[q - 1]);
                } else {
                    assert(neworder[q] == m);
                }
            }
        }
        m = m + 1;
    }
    proof {
        let listing = users_listing(mods@, x@);
        assert(cv == user_candidates(mods@, x@, mods@.len()));
        assert(positions(out@) =~= listing);
        assert forall|q: int| 0 <= q < out.len() implies #[trigger] out@[q] < mods.len() by {
            let p = sorted_prefix(table, cands.len() as nat)[q];
            assert(cv[p] == cands@[p] as int);
        }
    }
    out
}

/// For each mod, the mods its listing names as needing it (by position).
pub fn dependency_root_users(mods: &Vec<InstalledMod>) -> (r: Vec<Vec<usize>>)
    ensures
        r.len() == mods.len(),
        forall|t: int| 0 <= t < mods.len() ==> positions(#[trigger] r@[t]@) == users_listing(mods@, mods@[t].key_view()),
        forall|t: int, q: int| 0 <= t < mods.len() && 0 <= q < r@[t].len() ==> #[trigger] r@[t]@[q] < mods.len(),
{
    let mut keys: Vec<String> = Vec::new();
    let mut i: usize = 0;
    while i < mods.len()
        invariant
            i <= mods.len(),
            keys.len() == i,
            forall|y: int| 0 <= y < i ==> (#[trigger] keys@[y])@ == mods@[y].key_view(),
        decreases mods.len() - i,
    {
        keys.push(own_ref_of(&mods[i]).key());
        i = i + 1;
    }
    let mut out: Vec<Vec<usize>> = Vec::new();
    let mut t: usize = 0;
    while t < mods.len()
        invariant
            t <= mods.len(),
            keys.len() == mods.len(),
            forall|y: int| 0 <= y < mods.len() ==> (#[trigger] keys@[y])@ == mods@[y].key_view(),
            out.len() == t,
            forall|y: int| 0 <= y < t ==> positions(#[trigger] out@[y]@) == users_listing(mods@, mods@[y].key_view()),
            forall|y: int, q: int| 0 <= y < t && 0 <= q < out@[y].len() ==> #[trigger] out@[y]@[q] < mods.len(),
        decreases mods.len() - t,
    {
        let users = users_of(mods, &keys, &keys[t]);
        out.push(users);
        t = t + 1;
    }
    out
}


/// ` (DEPENDÊNCIA DE: a, b)` naming who needs the mod at `t`, or nothing.
pub open spec fn users_suffix(mods: Seq<InstalledMod>, t: int) -> Seq<char> {
    let users = users_listing(mods, mods[t].key_view());
    if users.len() == 0 {
        Seq::empty()
    } else {
        " (DEPENDÊNCIA DE: "@ + joined(users.map_values(|u: int| squeeze_whitespace(mods[u].name@)), ", "@) + ")"@
    }
}

/// The line of the mod at `t`: file name, normalized name, and who needs it.
pub open spec fn mod_line(mods: Seq<InstalledMod>, t: int) -> Seq<char> {
    mods[t].filename@ + " ("@ + squeeze_whitespace(mods[t].name@) + ")"@ + users_suffix(mods, t)
}

/// Inserts a line before the first one whose lowercased text is greater.
pub open spec fn insert_line(sorted: Seq<Seq<char>>, x: Seq<char>) -> Seq<Seq<char>>
    decreases sorted.len(),
{
    if sorted.len() == 0 {
        seq![x]
    } else if text_lt(unicode_lowercase(x), unicode_lowercase(sorted[0])) {
        seq![x] + sorted
    } else {
        seq![sorted[0]] + insert_line(sorted.drop_first(), x)
    }
}

/// The lines stably sorted by their lowercased text.
pub open spec fn sort_lines(lines: Seq<Seq<char>>) -> Seq<Seq<char>>
    decreases lines.len(),
{
    if lines.len() == 0 {
        Seq::empty()
    } else {
        insert_line(sort_lines(lines.drop_last()), lines.last())
    }
}

/// The exported mod list: one line per mod, sorted case-insensitively, each
/// ended by CRLF.
pub open spec fn mod_list_text(mods: Seq<InstalledMod>) -> Seq<char> {
    let lines = sort_lines(Seq::new(mods.len(), |t: int| mod_line(mods, t)));
    if mods.len() == 0 {
        Seq::empty()
    } else {
        joined(lines, "\r\n"@) + "\r\n"@
    }
}

proof fn lemma_insert_line_at(s: Seq<Seq<char>>, x: Seq<char>, p: int)
    requires
        0 <= p <= s.len(),
        forall|j: int| 0 <= j < p ==> !text_lt(unicode_lowercase(x), unicode_lowercase(#[trigger] s[j])),
        p < s.len() ==> text_lt(unicode_lowercase(x), unicode_lowercase(s[p])),
    ensures
        insert_line(s, x) == s.take(p) + seq![x] + s.skip(p),
    decreases s.len(),
{
    if s.len() == 0 {
        assert(s.take(p) + seq![x] + s.skip(p) =~= seq![x]);
    } else if p == 0 {
        assert(s.take(p) + seq![x] + s.skip(p) =~= seq![x] + s);
    } else {
        let t = s.drop_first();
        assert forall|j: int| 0 <= j < p - 1 implies !text_lt(unicode_lowercase(x), unicode_lowercase(#[trigger] t[j])) by {
            assert(t[j] == s[j + 1]);
        }
        lemma_insert_line_at(t, x, p - 1);
        assert(seq![s[0]] + (t.take(p - 1) + seq![x] + t.skip(p - 1)) =~= s.take(p) + seq![x] + s.skip(p));
    }
}

/// The plain-text list of a profile's mods, as exported.
pub fn render_mod_list(mods: &Vec<InstalledMod>) -> (r: String)
    ensures
        r@ == mod_list_text(mods@),
{
    let users = dependency_root_users(mods);
    let ghost lines = Seq::new(mods@.len(), |t: int| mod_line(mods@, t));
    let mut sorted: Vec<String> = Vec::new();
    let mut sorted_keys: Vec<Vec<char>> = Vec::new();
    let mut t: usize = 0;
    while t < mods.len()
        invariant
            t <= mods.len(),
            users.len() == mods.len(),
            forall|y: int| 0 <= y < mods.len() ==> positions(#[trigger] users@[y]@) == users_listing(mods@, mods@[y].key_view()),
            forall|y: int, q: int| 0 <= y < mods.len() && 0 <= q < users@[y].len() ==> #[trigger] users@[y]@[q] < mods.len(),
            lines == Seq::new(mods@.len(), |t: int| mod_line(mods@, t)),
            texts(sorted@) == sort_lines(lines.take(t as int)),
            sorted_keys.len() == sorted.len(),
            forall|q: int| 0 <= q < sorted.len() ==> (#[trigger] sorted_keys@[q])@ == unicode_lowercase(sorted@[q]@),
        decreases mods.len() - t,
    {
        let item = &mods[t];
        let user_list = &users[t];
        let mut names: Vec<String> = Vec::new();
        let mut u: usize = 0;
        while u < user_list.len()
            invariant
                u <= user_list.len(),
                t < mods.len(),
                positions(user_list@) == users_listing(mods@, mods@[t as int].key_view()),
                forall|q: int| 0 <= q < user_list.len() ==> #[trigger] user_list@[q] < mods.len(),
                texts(names@) == positions(user_list@).take(u as int).map_values(|v: int| squeeze_whitespace(mods@[v].name@)),
            decreases user_list.len() - u,
        {
            let index = user_list[u];
            proof {
                let listing = users_listing(mods@, mods@[t as int].key_view());
                let c = user_candidates(mods@, mods@[t as int].key_view(), mods@.len());
                assert(positions(user_list@)[u as int] == index as int);
                assert(listing[u as int] == index as int);
            }
            let ghost before = texts(names@);
            names.push(normalized_mod_name(&mods[index]));
            assert(texts(names@) =~= before.push(squeeze_whitespace(mods@[index as int].name@)));
            assert(positions(user_list@).take(u + 1).map_values(|v: int| squeeze_whitespace(mods@[v].name@)) =~= positions(
                user_list@,
            ).take(u as int).map_values(|v: int| squeeze_whitespace(mods@[v].name@)).push(squeeze_whitespace(mods@[index as int].name@)));
            u = u + 1;
        }
        assert(positions(user_list@).take(user_list.len() as int) =~= positions(user_list@));
        let head = join2(item.filename.as_str(), " (");
        let name = normalized_mod_name(item);
        let middle = join2(head.as_str(), name.as_str());
        let base = join2(middle.as_str(), ")");
        let line = if names.len() == 0 {
            base
        } else {
            let joined_names = join_strings(&names, ", ");
            let a = join2(base.as_str(), " (DEPENDÊNCIA DE: ");
            let b = join2(a.as_str(), joined_names.as_str());
            join2(b.as_str(), ")")
        };
        assert(line@ == lines[t as int]);
        let lower = to_lowercase(line.as_str());
        let lower_chars = chars_of(lower.as_str());
        let mut p: usize = 0;
        let mut stop = false;
        while !stop && p < sorted.len()
            invariant
                p <= sorted.len(),
                sorted_keys.len() == sorted.len(),
                forall|q: int| 0 <= q < sorted.len() ==> (#[trigger] sorted_keys@[q])@ == unicode_lowercase(sorted@[q]@),
                lower_chars@ == unicode_lowercase(line@),
                forall|q: int| 0 <= q < p ==> !text_lt(unicode_lowercase(line@), unicode_lowercase(#[trigger] texts(sorted@)[q])),
                stop ==> p < sorted.len() && text_lt(unicode_lowercase(line@), unicode_lowercase(texts(sorted@)[p as int])),
            decreases sorted.len() - p, if stop { 0int } else { 1int },
        {
            assert(texts(sorted@)[p as int] == sorted@[p as int]@);
            if text_less(&lower_chars, &sorted_keys[p]) {
                stop = true;
            } else {
                p = p + 1;
            }
        }
        proof {
            lemma_insert_line_at(texts(sorted@), line@, p as int);
            assert(lines.take(t + 1).drop_last() =~= lines.take(t as int));
            assert(lines.take(t + 1).last() == line@);
        }
        let ghost before = texts(sorted@);
        let ghost before_sorted = sorted@;
        let ghost before_keys = sorted_keys@;
        sorted.insert(p, line);
        sorted_keys.insert(p, lower_chars);
        proof {
            assert(texts(sorted@) =~= before.take(p as int) + seq![line@] + before.skip(p as int));
            assert forall|q: int| 0 <= q < sorted.len() implies (#[trigger] sorted_keys@[q])@ == unicode_lowercase(sorted@[q]@) by {
                if q < p {
                    assert(sorted_keys@[q] == before_keys[q]);
                    assert(sorted@[q] == before_sorted[q]);
                } else if q > p {
                    assert(sorted_keys@[q] == before_keys[q - 1]);
                    assert(sorted@[q] == before_sorted[q - 1]);
                }
            }
        }
        t = t + 1;
    }
    assert(lines.take(mods.len() as int) =~= lines);
    if mods.len() == 0 {
        return String::new();
    }
    let body = join_strings(&sorted, "\r\n");
    join2(body.as_str(), "\r\n")
}


/// The pieces that are names: neither empty nor `.`.
pub open spec fn named_parts(pieces: Seq<Seq<char>>) -> Seq<Seq<char>>
    decreases pieces.len(),
{
    if pieces.len() == 0 {
        Seq::empty()
    } else if pieces.last().len() == 0 || pieces.last() == "."@ {
        named_parts(pieces.drop_last())
    } else {
        named_parts(pieces.drop_last()).push(pieces.last())
    }
}

/// `Path::components` on `/`-separated paths: the root (written `/`) or a
/// leading `.`, then the names; empty and `.` pieces vanish.
pub open spec fn path_components(s: Seq<char>) -> Seq<Seq<char>> {
    let pieces = split_by(s, Cut::At('/'));
    let head = if s.len() > 0 && s[0] == '/' {
        seq!["/"@]
    } else if pieces.len() > 0 && pieces[0] == "."@ {
        seq!["."@]
    } else {
        Seq::empty()
    };
    head + named_parts(pieces)
}

/// `Path::starts_with`: the components of `base` begin those of `path`.
pub open spec fn path_starts_with(path: Seq<char>, base: Seq<char>) -> bool {
    let a = path_components(path);
    let b = path_components(base);
    b.len() <= a.len() && a.take(b.len() as int) == b
}

/// The components of a path, each as its characters.
pub(crate) fn path_components_of(s: &str) -> (r: Vec<Vec<char>>)
    ensures
        views(r@) == path_components(s@),
{
    let chars = chars_of(s);
    let pieces = split_chars(&chars, Cut::At('/'));
    let ghost pv = views(pieces@);
    proof {
        crate::rescan::lemma_split_nonempty(chars@, Cut::At('/'));
        reveal_strlit(".");
        reveal_strlit("/");
    }
    let dot = chars_of(".");
    let mut out: Vec<Vec<char>> = Vec::new();
    if chars.len() > 0 && chars[0] == '/' {
        out.push(chars_of("/"));
    } else if pieces.len() > 0 && text_equal(&pieces[0], &dot) {
        assert(pv[0] == pieces@[0]@);
        out.push(chars_of("."));
    } else {
        assert(pieces.len() > 0 ==> pv[0] == pieces@[0]@);
    }
    let ghost head = views(out@);
    let mut i: usize = 0;
    while i < pieces.len()
        invariant
            i <= pieces.len(),
            pv == views(pieces@),
            dot@ == "."@,
            views(out@) == head + named_parts(pv.take(i as int)),
        decreases pieces.len() - i,
    {
        proof {
            assert(pv.take(i + 1).drop_last() =~= pv.take(i as int));
            assert(pv.take(i + 1).last() == pieces@[i as int]@);
        }
        if pieces[i].len() > 0 && !text_equal(&pieces[i], &dot) {
            let ghost before = views(out@);
            out.push(pieces[i].clone());
            assert(views(out@) =~= before.push(pieces@[i as int]@));
        }
        i = i + 1;
    }
    assert(pv.take(pieces.len() as int) =~= pv);
    out
}

fn components_start_with(a: &Vec<Vec<char>>, b: &Vec<Vec<char>>) -> (r: bool)
    ensures
        r == (views(b@).len() <= views(a@).len() && views(a@).take(views(b@).len() as int) == views(b@)),
{
    if b.len() > a.len() {
        return false;
    }
    let mut i: usize = 0;
    while i < b.len()
        invariant
            b.len() <= a.len(),
            i <= b.len(),
            forall|j: int| 0 <= j < i ==> a@[j]@ == b@[j]@,
        decreases b.len() - i,
    {
        if !text_equal(&a[i], &b[i]) {
            assert(views(a@).take(b.len() as int)[i as int] != views(b@)[i as int]);
            return false;
        }
        i = i + 1;
    }
    assert(views(a@).take(b.len() as int) =~= views(b@));
    true
}

/// Refuses a copy that would be the original instance, lie inside it, or contain it.
pub fn validate_distinct_instance_paths(source: &str, destination: &str) -> (r: Result<(), AppError>)
    ensures
        r is Err <==> (path_components(source@) == path_components(destination@) || path_starts_with(source@, destination@)
            || path_starts_with(destination@, source@)),
        r is Err ==> fails_with(
            r,
            "A cópia precisa ficar fora da pasta original e não pode conter a instância original."@,
        ),
{
    let a = path_components_of(source);
    let b = path_components_of(destination);
    let same = components_start_with(&a, &b) && components_start_with(&b, &a);
    proof {
        if path_components(source@) == path_components(destination@) {
            assert(views(a@).take(views(b@).len() as int) =~= views(b@));
        }
        if components_start_with_spec(views(a@), views(b@)) && components_start_with_spec(views(b@), views(a@)) {
            assert(views(a@) =~= views(b@));
        }
    }
    if same || components_start_with(&a, &b) || components_start_with(&b, &a) {
        return Err(AppError::message("A cópia precisa ficar fora da pasta original e não pode conter a instância original."));
    }
    Ok(())
}

pub open spec fn components_start_with_spec(a: Seq<Seq<char>>, b: Seq<Seq<char>>) -> bool {
    b.len() <= a.len() && a.take(b.len() as int) == b
}

} // verus!
