//! How a profile's record changes when mods are installed or removed.
use crate::domain::{InstallReason, InstalledMod, ProjectRef};
use crate::graph::GraphEntry;
use crate::profiles::own_keys_of;
use crate::text::texts;
use vstd::prelude::*;

verus! {

/// What an installation plan says of one project: why it is installed and
/// what it requires.
#[derive(Debug)]
pub struct InstallGraphEntry {
    pub key: String,
    pub reason: InstallReason,
    pub dependencies: Vec<ProjectRef>,
}

/// The first graph entry for the key.
pub open spec fn graph_entry(graph: Seq<InstallGraphEntry>, k: Seq<char>) -> Option<InstallGraphEntry>
    decreases graph.len(),
{
    if graph.len() == 0 {
        None
    } else if graph[0].key@ == k {
        Some(graph[0])
    } else {
        graph_entry(graph.drop_first(), k)
    }
}

/// Some mod of the list has the key.
pub open spec fn has_mod_key(mods: Seq<InstalledMod>, k: Seq<char>) -> bool {
    exists|i: int| 0 <= i < mods.len() && (#[trigger] mods[i]).key_view() == k
}

/// The profile already holds the project as a direct request.
pub open spec fn requested_before(existing: Seq<InstalledMod>, k: Seq<char>) -> bool {
    exists|i: int| 0 <= i < existing.len() && (#[trigger] existing[i]).key_view() == k && existing[i].reason
        == InstallReason::Requested
}

/// The mods of the profile that were not installed again, in order.
pub open spec fn not_reinstalled(existing: Seq<InstalledMod>, incoming: Seq<InstalledMod>) -> Seq<InstalledMod>
    decreases existing.len(),
{
    if existing.len() == 0 {
        Seq::empty()
    } else if has_mod_key(incoming, existing.last().key_view()) {
        not_reinstalled(existing.drop_last(), incoming)
    } else {
        not_reinstalled(existing.drop_last(), incoming).push(existing.last())
    }
}

/// An installed mod keeps being a direct request when the profile had it so.
pub open spec fn with_request_kept(existing: Seq<InstalledMod>, m: InstalledMod) -> InstalledMod {
    if requested_before(existing, m.key_view()) {
        InstalledMod { reason: InstallReason::Requested, ..m }
    } else {
        m
    }
}

/// The record before the graph is applied: mods that were not reinstalled
/// keep their place, the installed ones follow in order.
pub open spec fn merged_before_graph(existing: Seq<InstalledMod>, incoming: Seq<InstalledMod>) -> Seq<InstalledMod> {
    not_reinstalled(existing, incoming) + incoming.map_values(|m: InstalledMod| with_request_kept(existing, m))
}

/// `m` is `orig` after the plan's graph: the graph's reason replaces the old
/// one unless that would downgrade a direct request, and the graph's
/// dependencies replace the recorded ones.
pub open spec fn graph_applied(m: InstalledMod, orig: InstalledMod, graph: Seq<InstallGraphEntry>) -> bool {
    &&& m.provider == orig.provider
    &&& m.project_id == orig.project_id
    &&& m.name == orig.name
    &&& m.version_id == orig.version_id
    &&& m.version_number == orig.version_number
    &&& m.filename == orig.filename
    &&& m.installed_at == orig.installed_at
    &&& m.hashes == orig.hashes
    &&& m.enabled == orig.enabled
    &&& match graph_entry(graph, orig.key_view()) {
        Some(e) => {
            &&& m.reason == if orig.reason != InstallReason::Requested || e.reason == InstallReason::Requested {
                e.reason
            } else {
                orig.reason
            }
            &&& m.required_dependencies matches Some(d) && d@ == e.dependencies@
        },
        None => m.reason == orig.reason && m.required_dependencies == orig.required_dependencies,
    }
}


fn key_of_mod(m: &InstalledMod) -> (r: String)
    ensures
        r@ == m.key_view(),
{
    let reference = ProjectRef { provider: m.provider, project_id: m.project_id.clone() };
    reference.key()
}

fn has_mod_key_exec(keys: &Vec<String>, mods: Ghost<Seq<InstalledMod>>, k: &String) -> (r: bool)
    requires
        keys.len() == mods@.len(),
        forall|i: int| 0 <= i < keys.len() ==> (#[trigger] keys@[i])@ == mods@[i].key_view(),
    ensures
        r == has_mod_key(mods@, k@),
{
    let mut i: usize = 0;
    while i < keys.len()
        invariant
            i <= keys.len(),
            keys.len() == mods@.len(),
            forall|y: int| 0 <= y < keys.len() ==> (#[trigger] keys@[y])@ == mods@[y].key_view(),
            forall|y: int| 0 <= y < i ==> (#[trigger] mods@[y]).key_view() != k@,
        decreases keys.len() - i,
    {
        if keys[i] == *k {
            assert(keys@[i as int]@ == mods@[i as int].key_view());
            return true;
        }
        assert(keys@[i as int]@ == mods@[i as int].key_view());
        i = i + 1;
    }
    false
}

fn graph_lookup(graph: &Vec<InstallGraphEntry>, k: &String) -> (r: Option<usize>)
    ensures
        match graph_entry(graph@, k@) {
            Some(e) => r matches Some(i) && i < graph.len() && graph@[i as int] == e,
            None => r is None,
        },
{
    let mut i: usize = 0;
    assert(graph@.skip(0) =~= graph@);
    while i < graph.len()
        invariant
            i <= graph.len(),
            graph_entry(graph@, k@) == graph_entry(graph@.skip(i as int), k@),
        decreases graph.len() - i,
    {
        assert(graph@.skip(i as int)[0] == graph@[i as int]);
        if graph[i].key == *k {
            return Some(i);
        }
        assert(graph@.skip(i as int).drop_first() =~= graph@.skip(i + 1));
        i = i + 1;
    }
    None
}

/// The profile's mods once an installation is recorded: reinstalled mods
/// replace their old records (a direct request stays one), and the plan's
/// graph sets reasons and dependencies.
pub fn merge_installed(existing: Vec<InstalledMod>, incoming: Vec<InstalledMod>, graph: &Vec<InstallGraphEntry>) -> (r: Vec<InstalledMod>)
    ensures
        r.len() == merged_before_graph(existing@, incoming@).len(),
        forall|i: int| 0 <= i < r.len() ==> #[trigger] graph_applied(r@[i], merged_before_graph(existing@, incoming@)[i], graph@),
{
    let ghost old_existing = existing@;
    let ghost old_incoming = incoming@;
    assert(old_existing.len() == existing.len());
    assert(old_incoming.len() == incoming.len());
    let mut incoming_keys: Vec<String> = Vec::new();
    let mut i: usize = 0;
    while i < incoming.len()
        invariant
            i <= incoming.len(),
            incoming_keys.len() == i,
            forall|y: int| 0 <= y < i ==> (#[trigger] incoming_keys@[y])@ == incoming@[y].key_view(),
        decreases incoming.len() - i,
    {
        incoming_keys.push(key_of_mod(&incoming[i]));
        i = i + 1;
    }
    let mut existing_keys: Vec<String> = Vec::new();
    let mut i: usize = 0;
    while i < existing.len()
        invariant
            i <= existing.len(),
            existing_keys.len() == i,
            forall|y: int| 0 <= y < i ==> (#[trigger] existing_keys@[y])@ == existing@[y].key_view(),
        decreases existing.len() - i,
    {
        existing_keys.push(key_of_mod(&existing[i]));
        i = i + 1;
    }
    let mut requested: Vec<bool> = Vec::new();
    let mut i: usize = 0;
    while i < incoming.len()
        invariant
            i <= incoming.len(),
            requested.len() == i,
            incoming_keys.len() == incoming.len(),
            forall|y: int| 0 <= y < incoming.len() ==> (#[trigger] incoming_keys@[y])@ == incoming@[y].key_view(),
            existing_keys.len() == existing.len(),
            forall|y: int| 0 <= y < existing.len() ==> (#[trigger] existing_keys@[y])@ == existing@[y].key_view(),
            forall|y: int| 0 <= y < i ==> (#[trigger] requested@[y] <==> requested_before(existing@, incoming@[y].key_view())),
        decreases incoming.len() - i,
    {
        let k = &incoming_keys[i];
        let mut found = false;
        let mut j: usize = 0;
        while j < existing.len()
            invariant
                j <= existing.len(),
                i < incoming.len(),
                existing_keys.len() == existing.len(),
                forall|y: int| 0 <= y < existing.len() ==> (#[trigger] existing_keys@[y])@ == existing@[y].key_view(),
                k@ == incoming@[i as int].key_view(),
                found == exists|y: int| 0 <= y < j && (#[trigger] existing@[y]).key_view() == k@ && existing@[y].reason
                    == InstallReason::Requested,
            decreases existing.len() - j,
        {
            assert(existing_keys@[j as int]@ == existing@[j as int].key_view());
            if existing_keys[j] == *k && existing[j].reason == InstallReason::Requested {
                found = true;
            }
            j = j + 1;
        }
        requested.push(found);
        i = i + 1;
    }
    let ghost merged = merged_before_graph(old_existing, old_incoming);
    let ghost kept = not_reinstalled(old_existing, old_incoming);
    let mut out: Vec<InstalledMod> = Vec::new();
    let mut rest = existing;
    let mut n: usize = 0;
    assert(rest@ =~= old_existing.skip(0));
    while rest.len() > 0
        invariant
            n <= old_existing.len(),
            old_existing.len() <= usize::MAX,
            rest@ == old_existing.skip(n as int),
            incoming_keys.len() == old_incoming.len(),
            forall|y: int| 0 <= y < old_incoming.len() ==> (#[trigger] incoming_keys@[y])@ == old_incoming[y].key_view(),
            out@ == not_reinstalled(old_existing.take(n as int), old_incoming),
        decreases rest.len(),
    {
        assert(n < old_existing.len());
        let m = rest.remove(0);
        proof {
            assert(m == old_existing[n as int]);
            assert(rest@ =~= old_existing.skip(n + 1));
            assert(old_existing.take(n + 1).drop_last() =~= old_existing.take(n as int));
            assert(old_existing.take(n + 1).last() == m);
        }
        let k = key_of_mod(&m);
        if !has_mod_key_exec(&incoming_keys, Ghost(old_incoming), &k) {
            out.push(m);
        }
        n = n + 1;
    }
    assert(old_existing.take(old_existing.len() as int) =~= old_existing);
    let base = out.len();
    let mut rest = incoming;
    let mut n: usize = 0;
    assert(rest@ =~= old_incoming.skip(0));
    while rest.len() > 0
        invariant
            n <= old_incoming.len(),
            old_incoming.len() <= usize::MAX,
            rest@ == old_incoming.skip(n as int),
            requested.len() == old_incoming.len(),
            forall|y: int| 0 <= y < old_incoming.len() ==> (#[trigger] requested@[y] <==> requested_before(old_existing, old_incoming[y].key_view())),
            base == kept.len(),
            out.len() == base + n,
            forall|y: int| 0 <= y < base ==> #[trigger] out@[y] == kept[y],
            forall|y: int| 0 <= y < n ==> #[trigger] out@[base + y] == with_request_kept(old_existing, old_incoming[y]),
        decreases rest.len(),
    {
        assert(n < old_incoming.len());
        let mut m = rest.remove(0);
        proof {
            assert(m == old_incoming[n as int]);
            assert(rest@ =~= old_incoming.skip(n + 1));
        }
        if requested[n] {
            m.reason = InstallReason::Requested;
        }
        let ghost before = out@;
        out.push(m);
        proof {
            assert forall|y: int| 0 <= y < base implies #[trigger] out@[y] == kept[y] by {
                assert(out@[y] == before[y]);
            }
            assert forall|y: int| 0 <= y < n + 1 implies #[trigger] out@[base + y] == with_request_kept(old_existing, old_incoming[y]) by {
                if y < n {
                    assert(out@[base + y] == before[base + y]);
                }
            }
        }
        n = n + 1;
    }
    proof {
        let mapped = old_incoming.map_values(|m: InstalledMod| with_request_kept(old_existing, m));
        assert(merged == kept + mapped);
        assert(out.len() == merged.len());
        assert forall|y: int| 0 <= y < merged.len() implies #[trigger] out@[y] == merged[y] by {
            if y < base {
                assert(merged[y] == kept[y]);
            } else {
                assert(merged[y] == mapped[y - base]);
                assert(out@[base + (y - base)] == with_request_kept(old_existing, old_incoming[y - base]));
            }
        }
        assert(out@ =~= merged);
    }
    let mut t: usize = 0;
    while t < out.len()
        invariant
            t <= out.len(),
            out.len() == merged.len(),
            forall|y: int| 0 <= y < t ==> #[trigger] graph_applied(out@[y], merged[y], graph@),
            forall|y: int| t <= y < out.len() ==> #[trigger] out@[y] == merged[y],
        decreases out.len() - t,
    {
        let k = key_of_mod(&out[t]);
        match graph_lookup(graph, &k) {
            Some(g) => {
                let entry = &graph[g];
                if out[t].reason != InstallReason::Requested || entry.reason == InstallReason::Requested {
                    out[t].reason = entry.reason;
                }
                let deps = entry.dependencies.clone();
                assert(deps@ =~= entry.dependencies@);
                out[t].required_dependencies = Some(deps);
            },
            None => {},
        }
        t = t + 1;
    }
    out
}


/// The mods whose key is not among the removed ones, in order.
pub open spec fn remaining_after(mods: Seq<InstalledMod>, removed: Seq<Seq<char>>) -> Seq<InstalledMod>
    decreases mods.len(),
{
    if mods.len() == 0 {
        Seq::empty()
    } else if removed.contains(mods.last().key_view()) {
        remaining_after(mods.drop_last(), removed)
    } else {
        remaining_after(mods.drop_last(), removed).push(mods.last())
    }
}

/// The dependencies the graph records for the key (its first entry).
pub open spec fn graph_deps(graph: Seq<GraphEntry>, k: Seq<char>) -> Option<Seq<ProjectRef>>
    decreases graph.len(),
{
    if graph.len() == 0 {
        None
    } else if graph[0].owner.key_view() == k {
        Some(graph[0].dependencies@)
    } else {
        graph_deps(graph.drop_first(), k)
    }
}

/// `m` is `orig` with the dependencies the graph records for it, if any.
pub open spec fn deps_refreshed(m: InstalledMod, orig: InstalledMod, graph: Seq<GraphEntry>) -> bool {
    &&& m.provider == orig.provider
    &&& m.project_id == orig.project_id
    &&& m.name == orig.name
    &&& m.version_id == orig.version_id
    &&& m.version_number == orig.version_number
    &&& m.filename == orig.filename
    &&& m.installed_at == orig.installed_at
    &&& m.reason == orig.reason
    &&& m.hashes == orig.hashes
    &&& m.enabled == orig.enabled
    &&& match graph_deps(graph, orig.key_view()) {
        Some(d) => m.required_dependencies matches Some(x) && x@ == d,
        None => m.required_dependencies == orig.required_dependencies,
    }
}

/// The profile's mods after a removal: the removed keys leave, and the
/// others take the dependencies the checked graph found for them.
pub fn drop_removed(mods: Vec<InstalledMod>, removed: &Vec<String>, graph: &Vec<GraphEntry>) -> (r: Vec<InstalledMod>)
    ensures
        r.len() == remaining_after(mods@, texts(removed@)).len(),
        forall|i: int| 0 <= i < r.len() ==> #[trigger] deps_refreshed(r@[i], remaining_after(mods@, texts(removed@))[i], graph@),
{
    let ghost original = mods@;
    let ghost keys = texts(removed@);
    assert(original.len() == mods.len());
    let mut out: Vec<InstalledMod> = Vec::new();
    let mut rest = mods;
    let mut n: usize = 0;
    assert(rest@ =~= original.skip(0));
    while rest.len() > 0
        invariant
            n <= original.len(),
            original.len() <= usize::MAX,
            rest@ == original.skip(n as int),
            keys == texts(removed@),
            out@ == remaining_after(original.take(n as int), keys),
        decreases rest.len(),
    {
        assert(n < original.len());
        let m = rest.remove(0);
        proof {
            assert(m == original[n as int]);
            assert(rest@ =~= original.skip(n + 1));
            assert(original.take(n + 1).drop_last() =~= original.take(n as int));
            assert(original.take(n + 1).last() == m);
        }
        let k = key_of_mod(&m);
        let mut listed = false;
        let mut j: usize = 0;
        while j < removed.len()
            invariant
                j <= removed.len(),
                keys == texts(removed@),
                listed == exists|y: int| 0 <= y < j && keys[y] == k@,
            decreases removed.len() - j,
        {
            if removed[j] == k {
                listed = true;
            }
            assert(keys[j as int] == removed@[j as int]@);
            j = j + 1;
        }
        if !listed {
            out.push(m);
        }
        n = n + 1;
    }
    assert(original.take(original.len() as int) =~= original);
    let ghost remaining = out@;
    let mut t: usize = 0;
    while t < out.len()
        invariant
            t <= out.len(),
            out.len() == remaining.len(),
            forall|y: int| 0 <= y < t ==> #[trigger] deps_refreshed(out@[y], remaining[y], graph@),
            forall|y: int| t <= y < out.len() ==> #[trigger] out@[y] == remaining[y],
        decreases out.len() - t,
    {
        let k = key_of_mod(&out[t]);
        let mut g: usize = 0;
        let mut found: Option<usize> = None;
        assert(graph@.skip(0) =~= graph@);
        while g < graph.len() && found.is_none()
            invariant
                g <= graph.len(),
                found matches Some(x) ==> x < graph.len() && graph_deps(graph@, k@) == Some(graph@[x as int].dependencies@),
                found is None ==> graph_deps(graph@, k@) == graph_deps(graph@.skip(g as int), k@),
            decreases graph.len() - g,
        {
            assert(graph@.skip(g as int)[0] == graph@[g as int]);
            if graph[g].owner.key() == k {
                found = Some(g);
            } else {
                assert(graph@.skip(g as int).drop_first() =~= graph@.skip(g + 1));
            }
            g = g + 1;
        }
        match found {
            Some(x) => {
                let deps = graph[x].dependencies.clone();
                assert(deps@ =~= graph@[x as int].dependencies@);
                out[t].required_dependencies = Some(deps);
            },
            None => {},
        }
        t = t + 1;
    }
    out
}

/// No two mods of the list have the same key.
pub open spec fn distinct_mod_keys(mods: Seq<InstalledMod>) -> bool {
    forall|i: int, j: int|
        0 <= i < j < mods.len() ==> (#[trigger] mods[i]).key_view() != (#[trigger] mods[j]).key_view()
}

proof fn lemma_kept_mods_come_from_profile(existing: Seq<InstalledMod>, incoming: Seq<InstalledMod>, k: int)
    requires
        0 <= k < not_reinstalled(existing, incoming).len(),
    ensures
        exists|j: int| 0 <= j < existing.len() && #[trigger] existing[j] == not_reinstalled(existing, incoming)[k],
    decreases existing.len(),
{
    let rest = not_reinstalled(existing.drop_last(), incoming);
    if has_mod_key(incoming, existing.last().key_view()) {
        lemma_kept_mods_come_from_profile(existing.drop_last(), incoming, k);
        let j = choose|j: int| 0 <= j < existing.drop_last().len() && #[trigger] existing.drop_last()[j] == rest[k];
        assert(existing[j] == existing.drop_last()[j]);
    } else if k < rest.len() {
        lemma_kept_mods_come_from_profile(existing.drop_last(), incoming, k);
        let j = choose|j: int| 0 <= j < existing.drop_last().len() && #[trigger] existing.drop_last()[j] == rest[k];
        assert(existing[j] == existing.drop_last()[j]);
    } else {
        assert(existing[existing.len() - 1] == not_reinstalled(existing, incoming)[k]);
    }
}

/// Recording an installation never downgrades a direct request: in a
/// profile whose mods have distinct keys, every mod whose project the
/// profile held as requested is still requested afterwards, whatever was
/// installed and whatever the plan's graph says.
pub proof fn law_requests_survive_installation(
    existing: Seq<InstalledMod>,
    incoming: Seq<InstalledMod>,
    graph: Seq<InstallGraphEntry>,
    after: Seq<InstalledMod>,
)
    requires
        distinct_mod_keys(existing),
        after.len() == merged_before_graph(existing, incoming).len(),
        forall|k: int|
            0 <= k < after.len() ==> #[trigger] graph_applied(after[k], merged_before_graph(existing, incoming)[k], graph),
    ensures
        forall|i: int|
            0 <= i < after.len() && requested_before(existing, (#[trigger] after[i]).key_view()) ==> after[i].reason
                == InstallReason::Requested,
{
    let merged = merged_before_graph(existing, incoming);
    let kept = not_reinstalled(existing, incoming);
    assert forall|i: int|
        0 <= i < after.len() && requested_before(existing, (#[trigger] after[i]).key_view()) implies after[i].reason
        == InstallReason::Requested by {
        assert(graph_applied(after[i], merged[i], graph));
        assert(after[i].key_view() == merged[i].key_view());
        if i < kept.len() {
            assert(merged[i] == kept[i]);
            lemma_kept_mods_come_from_profile(existing, incoming, i);
            let j = choose|j: int| 0 <= j < existing.len() && #[trigger] existing[j] == kept[i];
            let r = choose|r: int|
                0 <= r < existing.len() && (#[trigger] existing[r]).key_view() == merged[i].key_view()
                    && existing[r].reason == InstallReason::Requested;
            if r != j {
                if r < j {
                    assert(existing[r].key_view() != existing[j].key_view());
                } else {
                    assert(existing[j].key_view() != existing[r].key_view());
                }
            }
            assert(merged[i].reason == InstallReason::Requested);
        } else {
            let m = incoming[i - kept.len()];
            assert(merged[i] == with_request_kept(existing, m));
            assert(merged[i].key_view() == m.key_view());
            assert(merged[i].reason == InstallReason::Requested);
        }
    }
}

proof fn lemma_remaining_keys(mods: Seq<InstalledMod>, removed: Seq<Seq<char>>)
    ensures
        forall|k: int|
            0 <= k < remaining_after(mods, removed).len() ==> !removed.contains(
                (#[trigger] remaining_after(mods, removed)[k]).key_view(),
            ),
        forall|j: int|
            0 <= j < mods.len() && !removed.contains((#[trigger] mods[j]).key_view()) ==> remaining_after(
                mods,
                removed,
            ).contains(mods[j]),
    decreases mods.len(),
{
    if mods.len() > 0 {
        let rest = remaining_after(mods.drop_last(), removed);
        lemma_remaining_keys(mods.drop_last(), removed);
        assert forall|j: int| 0 <= j < mods.len() && !removed.contains((#[trigger] mods[j]).key_view()) implies remaining_after(
            mods,
            removed,
        ).contains(mods[j]) by {
            if j < mods.len() - 1 {
                assert(mods.drop_last()[j] == mods[j]);
                let k = choose|k: int| 0 <= k < rest.len() && rest[k] == mods[j];
                if !removed.contains(mods.last().key_view()) {
                    assert(rest.push(mods.last())[k] == mods[j]);
                }
            } else {
                assert(remaining_after(mods, removed) == rest.push(mods.last()));
                assert(rest.push(mods.last())[rest.len() as int] == mods[j]);
            }
        }
    }
}

/// Recording a removal takes exactly the removed projects off: no mod left
/// has a removed key, and every mod with another key is still there (with
/// its dependencies refreshed from the checked graph).
pub proof fn law_removed_projects_leave(
    mods: Seq<InstalledMod>,
    removed: Seq<Seq<char>>,
    graph: Seq<GraphEntry>,
    after: Seq<InstalledMod>,
)
    requires
        after.len() == remaining_after(mods, removed).len(),
        forall|k: int| 0 <= k < after.len() ==> #[trigger] deps_refreshed(after[k], remaining_after(mods, removed)[k], graph),
    ensures
        forall|k: int| 0 <= k < after.len() ==> !removed.contains((#[trigger] after[k]).key_view()),
        forall|j: int|
            0 <= j < mods.len() && !removed.contains((#[trigger] mods[j]).key_view()) ==> exists|k: int|
                0 <= k < after.len() && #[trigger] deps_refreshed(after[k], mods[j], graph),
{
    let kept = remaining_after(mods, removed);
    lemma_remaining_keys(mods, removed);
    assert forall|k: int| 0 <= k < after.len() implies !removed.contains((#[trigger] after[k]).key_view()) by {
        assert(deps_refreshed(after[k], kept[k], graph));
        assert(after[k].key_view() == kept[k].key_view());
    }
    assert forall|j: int| 0 <= j < mods.len() && !removed.contains((#[trigger] mods[j]).key_view()) implies exists|k: int|
        0 <= k < after.len() && #[trigger] deps_refreshed(after[k], mods[j], graph) by {
        let k = choose|k: int| 0 <= k < kept.len() && kept[k] == mods[j];
        assert(deps_refreshed(after[k], kept[k], graph));
    }
}

} // verus!
