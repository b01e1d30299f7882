//! What an installation does before and around each download: the graph it
//! records, which file and hash it trusts, and which names and origins it
//! accepts.
use crate::domain::{
    DependencyType, FileHash, HashAlgorithm, InstallFailure, InstallProgress, InstallReason, InstalledMod, ProfileTarget,
    ProgressState, ProjectRef, ProviderId, ResolutionEdge, ResolutionNode, ResolutionPlan,
};
use crate::error::{fails_with, AppError};
use crate::install_record::InstallGraphEntry;
use crate::mod_index::ref_keys;
use crate::rescan::opt_text;
use crate::resolver::{primary_file, primary_index};
use crate::import::now_rfc3339;
use crate::profiles::path_components;
use crate::text::{chars_of, has_suffix, join2, string_of, to_lowercase, unicode_lowercase, ends_with, str_equal, text_equal};
use crate::rescan::{split_by, split_chars, views, Cut};
use vstd::prelude::*;

verus! {

/// The project a node was actually resolved to (which may differ from the
/// key it was asked for under, after a fallback to another catalog).
pub open spec fn actual_ref(n: ResolutionNode) -> ProjectRef {
    ProjectRef { provider: n.project.provider, project_id: n.project.project_id }
}

/// The last node with this plan key.
pub open spec fn node_for(nodes: Seq<ResolutionNode>, k: Seq<char>) -> Option<ResolutionNode>
    decreases nodes.len(),
{
    if nodes.len() == 0 {
        None
    } else if nodes.last().key@ == k {
        Some(nodes.last())
    } else {
        node_for(nodes.drop_last(), k)
    }
}

/// The reason of the last node resolved to this project.
pub open spec fn reason_of_actual(nodes: Seq<ResolutionNode>, k: Seq<char>) -> Option<InstallReason>
    decreases nodes.len(),
{
    if nodes.len() == 0 {
        None
    } else if actual_ref(nodes.last()).key_view() == k {
        Some(nodes.last().reason)
    } else {
        reason_of_actual(nodes.drop_last(), k)
    }
}

/// The projects the project `k` requires according to the plan's edges,
/// each once, in edge order, named by the projects they were resolved to.
pub open spec fn graph_targets(nodes: Seq<ResolutionNode>, edges: Seq<ResolutionEdge>, k: Seq<char>) -> Seq<ProjectRef>
    decreases edges.len(),
{
    if edges.len() == 0 {
        Seq::empty()
    } else {
        let acc = graph_targets(nodes, edges.drop_last(), k);
        let e = edges.last();
        match (node_for(nodes, e.from@), node_for(nodes, e.to@)) {
            (Some(o), Some(t)) => if e.dependency_type == DependencyType::Required && actual_ref(o).key_view() == k
                && !ref_keys(acc).contains(actual_ref(t).key_view()) {
                acc.push(actual_ref(t))
            } else {
                acc
            },
            _ => acc,
        }
    }
}

/// Some node was resolved to the project with key `k`.
pub open spec fn resolved_to(nodes: Seq<ResolutionNode>, k: Seq<char>) -> bool {
    exists|n: int| 0 <= n < nodes.len() && actual_ref(#[trigger] nodes[n]).key_view() == k
}

fn actual_ref_exec(n: &ResolutionNode) -> (r: ProjectRef)
    ensures
        r == actual_ref(*n),
{
    ProjectRef { provider: n.project.provider, project_id: n.project.project_id.clone() }
}

fn node_for_exec(nodes: &Vec<ResolutionNode>, k: &String) -> (r: Option<usize>)
    ensures
        match node_for(nodes@, k@) {
            Some(n) => r matches Some(i) && i < nodes.len() && nodes@[i as int] == n,
            None => r is None,
        },
{
    let mut i: usize = nodes.len();
    assert(nodes@.take(i as int) =~= nodes@);
    while i > 0
        invariant
            i <= nodes.len(),
            node_for(nodes@, k@) == node_for(nodes@.take(i as int), k@),
        decreases i,
    {
        let ghost prefix = nodes@.take(i as int);
        assert(prefix.last() == nodes@[i - 1]);
        assert(prefix.drop_last() =~= nodes@.take(i - 1));
        if nodes[i - 1].key == *k {
            return Some(i - 1);
        }
        i = i - 1;
    }
    None
}

fn entry_position(entries: &Vec<InstallGraphEntry>, k: &String) -> (r: Option<usize>)
    ensures
        match r {
            Some(i) => i < entries.len() && entries@[i as int].key@ == k@,
            None => forall|i: int| 0 <= i < entries.len() ==> (#[trigger] entries@[i]).key@ != k@,
        },
{
    let mut i: usize = 0;
    while i < entries.len()
        invariant
            i <= entries.len(),
            forall|y: int| 0 <= y < i ==> (#[trigger] entries@[y]).key@ != k@,
        decreases entries.len() - i,
    {
        if entries[i].key == *k {
            return Some(i);
        }
        i = i + 1;
    }
    None
}

proof fn lemma_reason_of_actual_found(nodes: Seq<ResolutionNode>, n: int)
    requires
        0 <= n < nodes.len(),
    ensures
        reason_of_actual(nodes, actual_ref(nodes[n]).key_view()) is Some,
    decreases nodes.len(),
{
    if n < nodes.len() - 1 && actual_ref(nodes.last()).key_view() != actual_ref(nodes[n]).key_view() {
        assert(nodes.drop_last()[n] == nodes[n]);
        lemma_reason_of_actual_found(nodes.drop_last(), n);
    }
}

/// The dependency graph an installation records: one entry per project the
/// plan resolved, named by the project actually resolved, with the reason of
/// its last node and the projects its required edges lead to.
pub fn install_graph(plan: &ResolutionPlan) -> (r: Vec<InstallGraphEntry>)
    ensures
        forall|i: int, j: int| 0 <= i < j < r.len() ==> (#[trigger] r@[i]).key@ != (#[trigger] r@[j]).key@,
        forall|k: Seq<char>| (exists|i: int| 0 <= i < r.len() && (#[trigger] r@[i]).key@ == k) <==> resolved_to(plan.nodes@, k),
        forall|i: int| 0 <= i < r.len() ==> Some((#[trigger] r@[i]).reason) == reason_of_actual(plan.nodes@, r@[i].key@),
        forall|i: int| 0 <= i < r.len() ==> (#[trigger] r@[i]).dependencies@ == graph_targets(plan.nodes@, plan.edges@, r@[i].key@),
{
    let nodes = &plan.nodes;
    let mut entries: Vec<InstallGraphEntry> = Vec::new();
    let mut i: usize = 0;
    while i < nodes.len()
        invariant
            i <= nodes.len(),
            forall|a: int, b: int| 0 <= a < b < entries.len() ==> (#[trigger] entries@[a]).key@ != (#[trigger] entries@[b]).key@,
            forall|k: Seq<char>| (exists|a: int| 0 <= a < entries.len() && (#[trigger] entries@[a]).key@ == k) <==> resolved_to(nodes@.take(i as int), k),
            forall|a: int| 0 <= a < entries.len() ==> Some((#[trigger] entries@[a]).reason) == reason_of_actual(nodes@.take(i as int), entries@[a].key@),
            forall|a: int| 0 <= a < entries.len() ==> (#[trigger] entries@[a]).dependencies@.len() == 0,
        decreases nodes.len() - i,
    {
        let actual = actual_ref_exec(&nodes[i]);
        let key = actual.key();
        let ghost prefix = nodes@.take(i + 1);
        proof {
            assert(prefix.drop_last() =~= nodes@.take(i as int));
            assert(prefix.last() == nodes@[i as int]);
        }
        let ghost before = entries@;
        match entry_position(&entries, &key) {
            Some(p) => {
                entries[p].reason = nodes[i].reason;
                proof {
                    assert forall|a: int| 0 <= a < entries.len() && a != p implies #[trigger] entries@[a] == before[a] by {}
                    assert forall|k: Seq<char>| (exists|a: int| 0 <= a < entries.len() && (#[trigger] entries@[a]).key@ == k) <==> resolved_to(prefix, k) by {
                        if exists|a: int| 0 <= a < entries.len() && (#[trigger] entries@[a]).key@ == k {
                            let a = choose|a: int| 0 <= a < entries.len() && (#[trigger] entries@[a]).key@ == k;
                            assert(before[a].key@ == k);
                            assert(resolved_to(nodes@.take(i as int), k));
                            let n = choose|n: int| 0 <= n < nodes@.take(i as int).len() && actual_ref(#[trigger] nodes@.take(i as int)[n]).key_view() == k;
                            assert(prefix[n] == nodes@.take(i as int)[n]);
                        }
                        if resolved_to(prefix, k) {
                            let n = choose|n: int| 0 <= n < prefix.len() && actual_ref(#[trigger] prefix[n]).key_view() == k;
                            if n < i {
                                assert(nodes@.take(i as int)[n] == prefix[n]);
                                assert(resolved_to(nodes@.take(i as int), k));
                                let a = choose|a: int| 0 <= a < before.len() && (#[trigger] before[a]).key@ == k;
                                assert(entries@[a].key@ == k);
                            } else {
                                assert(entries@[p as int].key@ == k);
                            }
                        }
                    }
                }
            },
            None => {
                entries.push(InstallGraphEntry { key, reason: nodes[i].reason, dependencies: Vec::new() });
                proof {
                    assert forall|a: int| 0 <= a < before.len() implies #[trigger] entries@[a] == before[a] by {}
                    assert forall|k: Seq<char>| (exists|a: int| 0 <= a < entries.len() && (#[trigger] entries@[a]).key@ == k) <==> resolved_to(prefix, k) by {
                        if exists|a: int| 0 <= a < entries.len() && (#[trigger] entries@[a]).key@ == k {
                            let a = choose|a: int| 0 <= a < entries.len() && (#[trigger] entries@[a]).key@ == k;
                            if a < before.len() {
                                assert(before[a].key@ == k);
                                assert(resolved_to(nodes@.take(i as int), k));
                                let n = choose|n: int| 0 <= n < nodes@.take(i as int).len() && actual_ref(#[trigger] nodes@.take(i as int)[n]).key_view() == k;
                                assert(prefix[n] == nodes@.take(i as int)[n]);
                            } else {
                                assert(actual_ref(prefix[i as int]).key_view() == k);
                            }
                        }
                        if resolved_to(prefix, k) {
                            let n = choose|n: int| 0 <= n < prefix.len() && actual_ref(#[trigger] prefix[n]).key_view() == k;
                            if n < i {
                                assert(nodes@.take(i as int)[n] == prefix[n]);
                                assert(resolved_to(nodes@.take(i as int), k));
                                let a = choose|a: int| 0 <= a < before.len() && (#[trigger] before[a]).key@ == k;
                                assert(entries@[a].key@ == k);
                            } else {
                                assert(entries@[before.len() as int].key@ == k);
                            }
                        }
                    }
                }
            },
        }
        i = i + 1;
    }
    assert(nodes@.take(nodes.len() as int) =~= nodes@);
    let edges = &plan.edges;
    let mut e: usize = 0;
    while e < edges.len()
        invariant
            e <= edges.len(),
            nodes == &plan.nodes,
            forall|a: int, b: int| 0 <= a < b < entries.len() ==> (#[trigger] entries@[a]).key@ != (#[trigger] entries@[b]).key@,
            forall|k: Seq<char>| (exists|a: int| 0 <= a < entries.len() && (#[trigger] entries@[a]).key@ == k) <==> resolved_to(nodes@, k),
            forall|a: int| 0 <= a < entries.len() ==> Some((#[trigger] entries@[a]).reason) == reason_of_actual(nodes@, entries@[a].key@),
            forall|a: int| 0 <= a < entries.len() ==> (#[trigger] entries@[a]).dependencies@ == graph_targets(nodes@, edges@.take(e as int), entries@[a].key@),
        decreases edges.len() - e,
    {
        let edge = &edges[e];
        proof {
            assert(edges@.take(e + 1).drop_last() =~= edges@.take(e as int));
            assert(edges@.take(e + 1).last() == *edge);
        }
        if edge.dependency_type == DependencyType::Required {
            match (node_for_exec(nodes, &edge.from), node_for_exec(nodes, &edge.to)) {
                (Some(o), Some(t)) => {
                    let owner = actual_ref_exec(&nodes[o]);
                    let project = actual_ref_exec(&nodes[t]);
                    let owner_key = owner.key();
                    let project_key = project.key();
                    proof {
                        assert(resolved_to(nodes@, owner_key@));
                    }
                    match entry_position(&entries, &owner_key) {
                        Some(p) => {
                            let mut present = false;
                            let mut d: usize = 0;
                            while d < entries[p].dependencies.len()
                                invariant
                                    p < entries.len(),
                                    d <= entries@[p as int].dependencies.len(),
                                    present == ref_keys(entries@[p as int].dependencies@.take(d as int)).contains(project_key@),
                                decreases entries@[p as int].dependencies.len() - d,
                            {
                                let ghost deps = entries@[p as int].dependencies@;
                                let ghost shorter = ref_keys(deps.take(d as int));
                                let ghost longer = ref_keys(deps.take(d + 1));
                                proof {
                                    assert(longer =~= shorter.push(deps[d as int].key_view()));
                                    if shorter.contains(project_key@) {
                                        let x = choose|x: int| 0 <= x < shorter.len() && shorter[x] == project_key@;
                                        assert(longer[x] == project_key@);
                                    }
                                    if longer.contains(project_key@) && !shorter.contains(project_key@) {
                                        let x = choose|x: int| 0 <= x < longer.len() && longer[x] == project_key@;
                                        if x < shorter.len() {
                                            assert(shorter[x] == project_key@);
                                        }
                                    }
                                }
                                if entries[p].dependencies[d].key() == project_key {
                                    present = true;
                                    assert(longer[d as int] == project_key@);
                                }
                                d = d + 1;
                            }
                            assert(entries@[p as int].dependencies@.take(entries@[p as int].dependencies.len() as int) =~= entries@[p as int].dependencies@);
                            let ghost before = entries@;
                            if !present {
                                entries[p].dependencies.push(project);
                            }
                            proof {
                                assert forall|a: int| 0 <= a < entries.len() implies (#[trigger] entries@[a]).key == before[a].key
                                    && entries@[a].reason == before[a].reason by {
                                    if a != p {
                                        assert(entries@[a] == before[a]);
                                    }
                                }
                                assert forall|k: Seq<char>| (exists|a: int| 0 <= a < entries.len() && (#[trigger] entries@[a]).key@ == k) <==> resolved_to(nodes@, k) by {
                                    if exists|a: int| 0 <= a < entries.len() && (#[trigger] entries@[a]).key@ == k {
                                        let a = choose|a: int| 0 <= a < entries.len() && (#[trigger] entries@[a]).key@ == k;
                                        assert(before[a].key@ == k);
                                    }
                                    if resolved_to(nodes@, k) {
                                        let a = choose|a: int| 0 <= a < before.len() && (#[trigger] before[a]).key@ == k;
                                        assert(entries@[a].key@ == k);
                                    }
                                }
                                assert forall|a: int| 0 <= a < entries.len() implies (#[trigger] entries@[a]).dependencies@ == graph_targets(nodes@, edges@.take(e + 1), entries@[a].key@) by {
                                    if a != p {
                                        assert(entries@[a] == before[a]);
                                        assert(before[a].key@ != owner_key@);
                                    }
                                }
                            }
                        },
                        None => {
                            proof {
                                assert(false);
                            }
                        },
                    }
                },
                _ => {},
            }
        }
        e = e + 1;
    }
    assert(edges@.take(edges.len() as int) =~= edges@);
    entries
}


/// Index of the first hash of the algorithm.
pub open spec fn first_hash_of(hashes: Seq<FileHash>, algorithm: HashAlgorithm) -> Option<int>
    decreases hashes.len(),
{
    if hashes.len() == 0 {
        None
    } else if hashes[0].algorithm == algorithm {
        Some(0)
    } else {
        match first_hash_of(hashes.drop_first(), algorithm) {
            Some(i) => Some(i + 1),
            None => None,
        }
    }
}

/// The hash a download is checked against: SHA-512, else SHA-1, else the first one.
pub open spec fn preferred_index(hashes: Seq<FileHash>) -> Option<int> {
    match first_hash_of(hashes, HashAlgorithm::Sha512) {
        Some(i) => Some(i),
        None => match first_hash_of(hashes, HashAlgorithm::Sha1) {
            Some(i) => Some(i),
            None => if hashes.len() > 0 {
                Some(0)
            } else {
                None
            },
        },
    }
}

fn first_hash_exec(hashes: &Vec<FileHash>, algorithm: HashAlgorithm) -> (r: Option<usize>)
    ensures
        match r {
            Some(j) => first_hash_of(hashes@, algorithm) == Some(j as int) && j < hashes.len(),
            None => first_hash_of(hashes@, algorithm) is None,
        },
{
    let mut i: usize = 0;
    assert(hashes@.skip(0) =~= hashes@);
    while i < hashes.len()
        invariant
            i <= hashes.len(),
            first_hash_of(hashes@, algorithm) == match first_hash_of(hashes@.skip(i as int), algorithm) {
                Some(x) => Some(x + i),
                None => None,
            },
        decreases hashes.len() - i,
    {
        assert(hashes@.skip(i as int)[0] == hashes@[i as int]);
        if hashes[i].algorithm == algorithm {
            return Some(i);
        }
        assert(hashes@.skip(i as int).drop_first() =~= hashes@.skip(i + 1));
        i = i + 1;
    }
    None
}

/// The hash a downloaded file is checked against.
pub fn preferred_hash(hashes: &Vec<FileHash>) -> (r: Option<&FileHash>)
    ensures
        match preferred_index(hashes@) {
            Some(i) => r matches Some(h) && 0 <= i < hashes.len() && *h == hashes@[i],
            None => r is None,
        },
{
    match first_hash_exec(hashes, HashAlgorithm::Sha512) {
        Some(i) => Some(&hashes[i]),
        None => match first_hash_exec(hashes, HashAlgorithm::Sha1) {
            Some(i) => Some(&hashes[i]),
            None => if hashes.len() > 0 {
                Some(&hashes[0])
            } else {
                None
            },
        },
    }
}

/// `Path::file_name`: the last component when it is a name.
pub open spec fn file_name_of(v: Seq<char>) -> Option<Seq<char>> {
    let c = path_components(v);
    if c.len() > 0 && c.last() != "/"@ && c.last() != "."@ && c.last() != ".."@ {
        Some(c.last())
    } else {
        None
    }
}

/// `Path::file_name`: the last component of a path, when it is a name.
pub fn file_name(value: &str) -> (r: Option<String>)
    ensures
        match r {
            Some(name) => file_name_of(value@) == Some(name@),
            None => file_name_of(value@) is None,
        },
{
    let components = crate::profiles::path_components_of(value);
    proof {
        reveal_strlit("/");
        reveal_strlit(".");
        reveal_strlit("..");
    }
    let n = components.len();
    let ghost cv = views(components@);
    if n == 0 || text_equal(&components[n - 1], &chars_of("/")) || text_equal(&components[n - 1], &chars_of("."))
        || text_equal(&components[n - 1], &chars_of("..")) {
        proof {
            if n > 0 {
                assert(cv.last() == components@[n - 1]@);
            }
        }
        return None;
    }
    assert(cv.last() == components@[n - 1]@);
    Some(string_of(components[n - 1].as_slice()))
}

/// Control characters (`char::is_control`).
pub open spec fn is_control(c: char) -> bool {
    (c as u32) < 0x20 || (0x7f <= (c as u32) && (c as u32) <= 0x9f)
}

pub open spec fn unsafe_in_name(c: char) -> bool {
    c == '<' || c == '>' || c == ':' || c == '"' || c == '/' || c == '\\' || c == '|' || c == '?' || c == '*'
        || is_control(c)
}

pub open spec fn name_char(c: char) -> char {
    if unsafe_in_name(c) {
        '_'
    } else {
        c
    }
}

/// A mod archive: `.jar`, `.zip` or `.mrpack`, in any case.
pub open spec fn mod_extension(name: Seq<char>) -> bool {
    let lower = unicode_lowercase(name);
    has_suffix(lower, ".jar"@) || has_suffix(lower, ".zip"@) || has_suffix(lower, ".mrpack"@)
}

/// Accepts a file name from a catalog only when it is a bare name of a mod
/// archive, and replaces characters Windows refuses with `_`.
pub fn safe_filename(value: &str) -> (r: Result<String, AppError>)
    ensures
        file_name_of(value@) is None ==> fails_with(r, "O nome do arquivo retornado pelo provedor é inválido."@),
        file_name_of(value@) matches Some(name) && (name != value@ || !mod_extension(name)) ==> fails_with(
            r,
            "O arquivo retornado pelo provedor não é um mod válido."@,
        ),
        r matches Ok(s) ==> file_name_of(value@) == Some(value@) && mod_extension(value@) && s@ == value@.map_values(
            |c: char| name_char(c),
        ),
        file_name_of(value@) == Some(value@) && mod_extension(value@) ==> r is Ok,
{
    let components = crate::profiles::path_components_of(value);
    proof {
        reveal_strlit("/");
        reveal_strlit(".");
        reveal_strlit("..");
    }
    let n = components.len();
    let ghost cv = views(components@);
    if n == 0 || text_equal(&components[n - 1], &chars_of("/")) || text_equal(&components[n - 1], &chars_of("."))
        || text_equal(&components[n - 1], &chars_of("..")) {
        proof {
            if n > 0 {
                assert(cv.last() == components@[n - 1]@);
            }
        }
        return Err(AppError::message("O nome do arquivo retornado pelo provedor é inválido."));
    }
    assert(cv.last() == components@[n - 1]@);
    let name = &components[n - 1];
    let chars = chars_of(value);
    let name_text = string_of(name.as_slice());
    let lower = to_lowercase(name_text.as_str());
    let lower_chars = chars_of(lower.as_str());
    if !text_equal(name, &chars) || !(ends_with(&lower_chars, &chars_of(".jar")) || ends_with(&lower_chars, &chars_of(".zip"))
        || ends_with(&lower_chars, &chars_of(".mrpack"))) {
        return Err(AppError::message("O arquivo retornado pelo provedor não é um mod válido."));
    }
    let mut out: Vec<char> = Vec::new();
    let mut i: usize = 0;
    while i < chars.len()
        invariant
            i <= chars.len(),
            out@ == chars@.take(i as int).map_values(|c: char| name_char(c)),
        decreases chars.len() - i,
    {
        let c = chars[i];
        let code = c as u32;
        let bad = c == '<' || c == '>' || c == ':' || c == '"' || c == '/' || c == '\\' || c == '|' || c == '?' || c == '*'
            || code < 0x20 || (0x7f <= code && code <= 0x9f);
        if bad {
            out.push('_');
        } else {
            out.push(c);
        }
        assert(out@ =~= chars@.take(i + 1).map_values(|c: char| name_char(c)));
        i = i + 1;
    }
    assert(chars@.take(chars.len() as int) =~= chars@);
    Ok(string_of(out.as_slice()))
}

/// What `url::Url::parse` makes of a text: its scheme and host, or the
/// error's message.
pub uninterp spec fn parsed_url(text: Seq<char>) -> Result<(Seq<char>, Option<Seq<char>>), Seq<char>>;

/// Calls `url::Url::parse` and reads the parsed URL's `scheme` and
/// `host_str`, or the error's text. The contract claims only that this is
/// the named parse of the text.
#[verifier::external_body]
fn parse_url(text: &str) -> (r: Result<(String, Option<String>), String>)
    ensures
        match (r, parsed_url(text@)) {
            (Ok((scheme, host)), Ok((s, h))) => scheme@ == s && opt_text(host) == h,
            (Err(message), Err(m)) => message@ == m,
            _ => false,
        },
{
    match url::Url::parse(text) {
        Ok(url) => Ok((url.scheme().to_string(), url.host_str().map(|host| host.to_string()))),
        Err(error) => Err(error.to_string()),
    }
}

/// Hosts a catalog's files may come from.
pub open spec fn host_allowed(provider: ProviderId, host: Seq<char>) -> bool {
    match provider {
        ProviderId::Modrinth => host == "cdn.modrinth.com"@ || has_suffix(host, ".modrinth.com"@),
        ProviderId::Curseforge => has_suffix(host, ".forgecdn.net"@) || has_suffix(host, ".curseforge.com"@),
        ProviderId::Local => false,
    }
}

/// Why a download address is refused, if it is: it must parse, use HTTPS
/// and name one of the catalog's own hosts.
pub open spec fn url_verdict(value: Seq<char>, provider: ProviderId) -> Option<Seq<char>> {
    match parsed_url(value) {
        Err(m) => Some("URL inválida: "@ + m),
        Ok((scheme, host)) => if scheme != "https"@ {
            Some("Download recusado: a origem não usa HTTPS."@)
        } else {
            let h = unicode_lowercase(
                match host {
                    Some(h) => h,
                    None => Seq::empty(),
                },
            );
            if host_allowed(provider, h) {
                None
            } else {
                Some("Download recusado: domínio não autorizado ("@ + h + ")."@)
            }
        },
    }
}

/// Accepts a download address only over HTTPS and from the catalog's own hosts.
pub fn validate_download_url(value: &str, provider: ProviderId) -> (r: Result<(), AppError>)
    ensures
        match url_verdict(value@, provider) {
            None => r is Ok,
            Some(m) => fails_with(r, m),
        },
{
    match parse_url(value) {
        Err(message) => {
            let text = join2("URL inválida: ", message.as_str());
            Err(AppError::Message(text))
        },
        Ok((scheme, host)) => {
            if !str_equal(scheme.as_str(), "https") {
                return Err(AppError::message("Download recusado: a origem não usa HTTPS."));
            }
            let raw = match host {
                Some(h) => h,
                None => String::new(),
            };
            let lower = to_lowercase(raw.as_str());
            let chars = chars_of(lower.as_str());
            let allowed = match provider {
                ProviderId::Modrinth => str_equal(lower.as_str(), "cdn.modrinth.com") || ends_with(&chars, &chars_of(".modrinth.com")),
                ProviderId::Curseforge => ends_with(&chars, &chars_of(".forgecdn.net")) || ends_with(&chars, &chars_of(".curseforge.com")),
                ProviderId::Local => false,
            };
            if !allowed {
                let head = join2("Download recusado: domínio não autorizado (", lower.as_str());
                let text = join2(head.as_str(), ").");
                return Err(AppError::Message(text));
            }
            Ok(())
        },
    }
}

/// A progress report for one node of a plan; it names the node's file, or
/// its project when there is no file.
pub fn progress(
    plan_id: &str,
    node: &ResolutionNode,
    state: ProgressState,
    received_bytes: u64,
    total_bytes: u64,
    message: Option<String>,
) -> (r: InstallProgress)
    ensures
        r.plan_id@ == plan_id@,
        r.project_key == node.key,
        r.filename@ == match primary_index(node.version.files@) {
            Some(i) => node.version.files@[i].filename@,
            None => node.project.name@,
        },
        r.state == state,
        r.received_bytes == received_bytes,
        r.total_bytes == total_bytes,
        r.message == message,
{
    let filename = match primary_file(&node.version) {
        Some(file) => file.filename.clone(),
        None => node.project.name.clone(),
    };
    InstallProgress {
        plan_id: String::from_str(plan_id),
        project_key: node.key.clone(),
        filename,
        state,
        received_bytes,
        total_bytes,
        message,
    }
}

/// The record of a mod once its file is in place.
pub fn installed_mod(node: &ResolutionNode, filename: String, hashes: Vec<FileHash>, required_dependencies: Vec<ProjectRef>) -> (r: InstalledMod)
    ensures
        r.provider == node.project.provider,
        r.project_id == node.project.project_id,
        r.name == node.project.name,
        r.version_id == node.version.version_id,
        r.version_number == node.version.version_number,
        r.filename == filename,
        r.reason == node.reason,
        r.hashes == hashes,
        r.enabled,
        r.required_dependencies == Some(required_dependencies),
{
    InstalledMod {
        provider: node.project.provider,
        project_id: node.project.project_id.clone(),
        name: node.project.name.clone(),
        version_id: node.version.version_id.clone(),
        version_number: node.version.version_number.clone(),
        filename,
        installed_at: now_rfc3339(),
        reason: node.reason,
        hashes,
        enabled: true,
        required_dependencies: Some(required_dependencies),
    }
}

/// An installation starts only from a plan without blocking problems,
/// resolved for the profile's current target.
pub fn check_installable(plan: &ResolutionPlan, target: &ProfileTarget) -> (r: Result<(), AppError>)
    ensures
        !plan.can_install ==> fails_with(r, "Este plano contém conflitos que precisam ser resolvidos antes da instalação."@),
        plan.can_install && !target.same(plan.target) ==> fails_with(
            r,
            "O perfil mudou depois da resolução. Gere um novo plano de instalação."@,
        ),
        r is Ok <==> plan.can_install && target.same(plan.target),
{
    if !plan.can_install {
        return Err(AppError::message("Este plano contém conflitos que precisam ser resolvidos antes da instalação."));
    }
    let mut same = target.minecraft_version == plan.target.minecraft_version && target.loader == plan.target.loader
        && target.release_channels.len() == plan.target.release_channels.len();
    if same {
        let mut i: usize = 0;
        while i < target.release_channels.len()
            invariant
                i <= target.release_channels.len(),
                target.release_channels.len() == plan.target.release_channels.len(),
                same == forall|j: int| 0 <= j < i ==> target.release_channels@[j] == plan.target.release_channels@[j],
            decreases target.release_channels.len() - i,
        {
            if target.release_channels[i] != plan.target.release_channels[i] {
                same = false;
            }
            i = i + 1;
        }
        if same {
            assert(target.release_channels@ =~= plan.target.release_channels@);
        }
    }
    if !same {
        return Err(AppError::message("O perfil mudou depois da resolução. Gere um novo plano de instalação."));
    }
    Ok(())
}

/// Where a node's file comes from and what it is saved as.
#[derive(Debug)]
pub struct DownloadSource {
    pub url: String,
    pub filename: String,
    pub size: u64,
    pub hashes: Vec<FileHash>,
}

/// Why a file name from a catalog is refused, if it is: it must be a bare
/// name ending in `.jar`, `.zip` or `.mrpack`.
pub open spec fn filename_verdict(value: Seq<char>) -> Option<Seq<char>> {
    if file_name_of(value) is None {
        Some("O nome do arquivo retornado pelo provedor é inválido."@)
    } else if file_name_of(value) != Some(value) || !mod_extension(value) {
        Some("O arquivo retornado pelo provedor não é um mod válido."@)
    } else {
        None
    }
}

/// Picks the file to download for a node: its primary file, which must
/// have a URL on the catalog's own HTTPS hosts and a plain mod file name.
pub fn download_source(node: &ResolutionNode) -> (r: Result<DownloadSource, AppError>)
    ensures
        match primary_index(node.version.files@) {
            None => fails_with(r, "O provedor não retornou um arquivo instalável."@),
            Some(i) => {
                let file = node.version.files@[i];
                match file.url {
                    None => fails_with(r, "O provedor não disponibilizou uma URL de download."@),
                    Some(url) => match url_verdict(url@, node.project.provider) {
                        Some(m) => fails_with(r, m),
                        None => match filename_verdict(file.filename@) {
                            Some(m) => fails_with(r, m),
                            None => r matches Ok(source) && source.url@ == url@ && source.size == file.size
                                && source.hashes@ == file.hashes@ && source.filename@
                                == file.filename@.map_values(|c: char| name_char(c)),
                        },
                    },
                }
            },
        },
{
    let file = match primary_file(&node.version) {
        Some(file) => file,
        None => {
            return Err(AppError::message("O provedor não retornou um arquivo instalável."));
        },
    };
    let url = match &file.url {
        Some(url) => url,
        None => {
            return Err(AppError::message("O provedor não disponibilizou uma URL de download."));
        },
    };
    match validate_download_url(url.as_str(), node.project.provider) {
        Ok(()) => {},
        Err(e) => {
            return Err(e);
        },
    }
    let filename = match safe_filename(file.filename.as_str()) {
        Ok(name) => name,
        Err(e) => {
            return Err(e);
        },
    };
    let hashes = file.hashes.clone();
    assert(hashes@ =~= file.hashes@);
    Ok(DownloadSource { url: url.clone(), filename, size: file.size, hashes })
}

/// The name a hash algorithm is reported under.
pub open spec fn algorithm_label(algorithm: HashAlgorithm) -> Seq<char> {
    match algorithm {
        HashAlgorithm::Sha1 => "Sha1"@,
        HashAlgorithm::Sha512 => "Sha512"@,
        HashAlgorithm::Md5 => "Md5"@,
    }
}

/// The error for a download whose hash does not match.
pub fn verification_failure(algorithm: HashAlgorithm) -> (r: AppError)
    ensures
        r matches AppError::Message(m) && m@ == "A verificação "@ + algorithm_label(algorithm) + " falhou."@,
{
    let label = match algorithm {
        HashAlgorithm::Sha1 => "Sha1",
        HashAlgorithm::Sha512 => "Sha512",
        HashAlgorithm::Md5 => "Md5",
    };
    let head = join2("A verificação ", label);
    AppError::Message(join2(head.as_str(), " falhou."))
}

/// The name a download is written under until it is verified: the file
/// name, the first eight characters of the plan id, and `.part`.
pub fn temporary_name(filename: &str, plan_id: &str) -> (r: String)
    requires
        plan_id@.len() >= 8,
    ensures
        r@ == filename@ + "."@ + plan_id@.take(8) + ".part"@,
{
    let chars = chars_of(plan_id);
    let mut head: Vec<char> = Vec::new();
    let mut i: usize = 0;
    while i < 8
        invariant
            i <= 8,
            chars@ == plan_id@,
            plan_id@.len() >= 8,
            head@ == plan_id@.take(i as int),
        decreases 8 - i,
    {
        head.push(chars[i]);
        i = i + 1;
        assert(head@ =~= plan_id@.take(i as int));
    }
    let prefix = string_of(head.as_slice());
    let a = join2(filename, ".");
    let b = join2(a.as_str(), prefix.as_str());
    join2(b.as_str(), ".part")
}

/// The nodes a plan still has to install, and how many it already has.
pub open spec fn pending_nodes(nodes: Seq<ResolutionNode>) -> Seq<ResolutionNode>
    decreases nodes.len(),
{
    if nodes.len() == 0 {
        Seq::empty()
    } else if nodes.last().already_installed {
        pending_nodes(nodes.drop_last())
    } else {
        pending_nodes(nodes.drop_last()).push(nodes.last())
    }
}

pub open spec fn installed_count(nodes: Seq<ResolutionNode>) -> nat
    decreases nodes.len(),
{
    if nodes.len() == 0 {
        0
    } else {
        installed_count(nodes.drop_last()) + if nodes.last().already_installed { 1nat } else { 0nat }
    }
}

proof fn lemma_installed_count_bound(nodes: Seq<ResolutionNode>)
    ensures
        installed_count(nodes) <= nodes.len(),
    decreases nodes.len(),
{
    if nodes.len() > 0 {
        lemma_installed_count_bound(nodes.drop_last());
    }
}

/// Splits a plan's nodes into those to install, in order, and the count of
/// those already installed.
pub fn install_queue(nodes: Vec<ResolutionNode>) -> (r: (Vec<ResolutionNode>, usize))
    ensures
        r.0@ == pending_nodes(nodes@),
        r.1 == installed_count(nodes@),
{
    let ghost all = nodes@;
    let mut rest = nodes;
    let mut queue: Vec<ResolutionNode> = Vec::new();
    let mut done: usize = 0;
    let mut i: usize = 0;
    let n = rest.len();
    while rest.len() > 0
        invariant
            n == all.len(),
            i + rest.len() == n,
            rest@ == all.skip(i as int),
            queue@ == pending_nodes(all.take(i as int)),
            done == installed_count(all.take(i as int)),
        decreases rest.len(),
    {
        let node = rest.remove(0);
        proof {
            assert(all.take(i + 1).drop_last() =~= all.take(i as int));
            assert(all.take(i + 1).last() == node);
            lemma_installed_count_bound(all.take(i as int));
        }
        if node.already_installed {
            done = done + 1;
        } else {
            queue.push(node);
        }
        i = i + 1;
        assert(rest@ =~= all.skip(i as int));
    }
    assert(all.take(n as int) =~= all);
    (queue, done)
}

/// What happened to one queued node.
#[derive(Debug)]
pub enum NodeOutcome {
    Installed(InstalledMod),
    Skipped,
    Failed(InstallFailure),
}

pub open spec fn outcome_installed(s: Seq<NodeOutcome>) -> Seq<InstalledMod>
    decreases s.len(),
{
    if s.len() == 0 {
        Seq::empty()
    } else {
        match s.last() {
            NodeOutcome::Installed(m) => outcome_installed(s.drop_last()).push(m),
            _ => outcome_installed(s.drop_last()),
        }
    }
}

pub open spec fn outcome_failed(s: Seq<NodeOutcome>) -> Seq<InstallFailure>
    decreases s.len(),
{
    if s.len() == 0 {
        Seq::empty()
    } else {
        match s.last() {
            NodeOutcome::Failed(f) => outcome_failed(s.drop_last()).push(f),
            _ => outcome_failed(s.drop_last()),
        }
    }
}

pub open spec fn outcome_skipped(s: Seq<NodeOutcome>) -> nat
    decreases s.len(),
{
    if s.len() == 0 {
        0
    } else {
        outcome_skipped(s.drop_last()) + match s.last() {
            NodeOutcome::Skipped => 1nat,
            _ => 0nat,
        }
    }
}

proof fn lemma_skipped_bound(s: Seq<NodeOutcome>)
    ensures
        outcome_skipped(s) <= s.len(),
    decreases s.len(),
{
    if s.len() > 0 {
        lemma_skipped_bound(s.drop_last());
    }
}

/// Sorts the outcomes: the mods installed and the failures, in order, and
/// the nodes skipped added to those that were already installed.
pub fn tally_outcomes(already_installed: usize, outcomes: Vec<NodeOutcome>) -> (r: (
    Vec<InstalledMod>,
    usize,
    Vec<InstallFailure>,
))
    requires
        already_installed + outcomes.len() <= usize::MAX,
    ensures
        r.0@ == outcome_installed(outcomes@),
        r.1 == already_installed + outcome_skipped(outcomes@),
        r.2@ == outcome_failed(outcomes@),
{
    let ghost all = outcomes@;
    let mut rest = outcomes;
    let mut installed: Vec<InstalledMod> = Vec::new();
    let mut failed: Vec<InstallFailure> = Vec::new();
    let mut skipped = already_installed;
    let mut i: usize = 0;
    let n = rest.len();
    while rest.len() > 0
        invariant
            n == all.len(),
            already_installed + n <= usize::MAX,
            i + rest.len() == n,
            rest@ == all.skip(i as int),
            installed@ == outcome_installed(all.take(i as int)),
            failed@ == outcome_failed(all.take(i as int)),
            skipped == already_installed + outcome_skipped(all.take(i as int)),
        decreases rest.len(),
    {
        let outcome = rest.remove(0);
        proof {
            assert(all.take(i + 1).drop_last() =~= all.take(i as int));
            assert(all.take(i + 1).last() == outcome);
            lemma_skipped_bound(all.take(i as int));
        }
        match outcome {
            NodeOutcome::Installed(item) => installed.push(item),
            NodeOutcome::Skipped => skipped = skipped + 1,
            NodeOutcome::Failed(failure) => failed.push(failure),
        }
        i = i + 1;
        assert(rest@ =~= all.skip(i as int));
    }
    assert(all.take(n as int) =~= all);
    (installed, skipped, failed)
}

/// The previous record of a key, the last one listed.
pub open spec fn previous_record(previous: Seq<InstalledMod>, k: Seq<char>) -> Option<InstalledMod>
    decreases previous.len(),
{
    if previous.len() == 0 {
        None
    } else if previous.last().key_view() == k {
        Some(previous.last())
    } else {
        previous_record(previous.drop_last(), k)
    }
}

/// The files an installation leaves behind: for each installed mod whose
/// previous record had another file name, that old file name.
pub open spec fn stale_files(previous: Seq<InstalledMod>, installed: Seq<InstalledMod>) -> Seq<Seq<char>>
    decreases installed.len(),
{
    if installed.len() == 0 {
        Seq::empty()
    } else {
        let prev = stale_files(previous, installed.drop_last());
        match previous_record(previous, installed.last().key_view()) {
            Some(old) => if old.filename@ != installed.last().filename@ {
                prev.push(old.filename@)
            } else {
                prev
            },
            None => prev,
        }
    }
}

fn previous_index(previous: &Vec<InstalledMod>, key: &String) -> (r: Option<usize>)
    ensures
        match previous_record(previous@, key@) {
            Some(old) => r matches Some(i) && i < previous.len() && previous@[i as int] == old,
            None => r is None,
        },
{
    let mut i: usize = previous.len();
    assert(previous@.take(i as int) =~= previous@);
    while i > 0
        invariant
            i <= previous.len(),
            previous_record(previous@, key@) == previous_record(previous@.take(i as int), key@),
        decreases i,
    {
        proof {
            assert(previous@.take(i as int).drop_last() =~= previous@.take(i - 1));
        }
        let k = previous[i - 1].as_ref().key();
        if str_equal(k.as_str(), key.as_str()) {
            return Some(i - 1);
        }
        i = i - 1;
    }
    None
}

/// The files an installation left behind: the old file of each reinstalled mod whose file name changed.
pub fn stale_filenames(previous: &Vec<InstalledMod>, installed: &Vec<InstalledMod>) -> (r: Vec<String>)
    ensures
        r@.map_values(|f: String| f@) == stale_files(previous@, installed@),
{
    let mut r: Vec<String> = Vec::new();
    let mut i: usize = 0;
    while i < installed.len()
        invariant
            i <= installed.len(),
            r@.map_values(|f: String| f@) == stale_files(previous@, installed@.take(i as int)),
        decreases installed.len() - i,
    {
        proof {
            assert(installed@.take(i + 1).drop_last() =~= installed@.take(i as int));
        }
        let key = installed[i].as_ref().key();
        match previous_index(previous, &key) {
            Some(j) => {
                if !str_equal(previous[j].filename.as_str(), installed[i].filename.as_str()) {
                    let ghost before = r@.map_values(|f: String| f@);
                    r.push(previous[j].filename.clone());
                    assert(r@.map_values(|f: String| f@) =~= before.push(previous@[j as int].filename@));
                }
            },
            None => {},
        }
        i = i + 1;
    }
    assert(installed@.take(installed.len() as int) =~= installed@);
    r
}

} // verus!
