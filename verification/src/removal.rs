//! Conservative removal: which mods leave the profile when one is removed.
use crate::domain::{InstallReason, InstalledMod, ProjectRef};
use crate::error::AppError;
use crate::graph::{
    depends_on, graph_keys, has_key, key_listed, listed, mark_key, marked_keys, reach_good,
    reach_marks, reachable_keys, GraphEntry, GraphKeys,
};
use crate::text::{chars_of, ends_with, has_suffix, to_lowercase, unicode_lowercase};
use vstd::prelude::*;

verus! {

/// The keys of the installed mods, in order.
pub open spec fn mod_keys(mods: Seq<InstalledMod>) -> Seq<Seq<char>> {
    Seq::new(mods.len(), |i: int| mods[i].key_view())
}

/// The keys of the installed mods, in order.
pub fn keys_of_mods(mods: &Vec<InstalledMod>) -> (r: Vec<String>)
    ensures
        r.len() == mods.len(),
        forall|i: int| 0 <= i < mods.len() ==> #[trigger] r@[i]@ == mods@[i].key_view(),
{
    let mut keys: Vec<String> = Vec::new();
    let mut i: usize = 0;
    while i < mods.len()
        invariant
            i <= mods.len(),
            keys.len() == i,
            forall|j: int| 0 <= j < i ==> #[trigger] keys@[j]@ == mods@[j].key_view(),
        decreases mods.len() - i,
    {
        keys.push(mods[i].as_ref().key());
        i = i + 1;
    }
    keys
}

/// Some installed mod has key `k`.
pub open spec fn installed(mods: Seq<InstalledMod>, k: Seq<char>) -> bool {
    exists|i: int| 0 <= i < mods.len() && #[trigger] mods[i].key_view() == k
}

/// The reason recorded for key `k`; when a key is listed twice the last entry counts.
pub open spec fn reason_for(mods: Seq<InstalledMod>, k: Seq<char>) -> Option<InstallReason>
    decreases mods.len(),
{
    if mods.len() == 0 {
        None
    } else if mods.last().key_view() == k {
        Some(mods.last().reason)
    } else {
        reason_for(mods.drop_last(), k)
    }
}

/// The strings hold the given key texts, in order.
pub open spec fn texts_match(keys: Seq<String>, kv: Seq<Seq<char>>) -> bool {
    keys.len() == kv.len() && forall|i: int| 0 <= i < kv.len() ==> #[trigger] kv[i] == keys[i]@
}

/// The strings hold the keys of the mods, in order.
pub open spec fn string_keys_match(keys: Seq<String>, mods: Seq<InstalledMod>) -> bool {
    keys.len() == mods.len() && forall|i: int| 0 <= i < mods.len() ==> #[trigger] keys[i]@ == mods[i].key_view()
}

/// Installed mods reachable from `target` through required dependencies (itself included).
pub open spec fn dependency_closure(
    target: Seq<char>,
    graph: Seq<GraphEntry>,
    keys: Seq<Seq<char>>,
) -> Set<Seq<char>> {
    reachable_keys(set![target], graph, keys)
}

/// Installed mods reachable from every installed mod other than `target`.
pub open spec fn used_by_others(
    target: Seq<char>,
    graph: Seq<GraphEntry>,
    keys: Seq<Seq<char>>,
) -> Set<Seq<char>> {
    reachable_keys(Set::new(|k: Seq<char>| k != target), graph, keys)
}

/// `k` may leave with the target when everything in `s` leaves: it was installed
/// only as a required dependency of the target's closure and every installed mod
/// that requires it is in `s`.
pub open spec fn orphaned(
    s: Set<Seq<char>>,
    k: Seq<char>,
    target: Seq<char>,
    mods: Seq<InstalledMod>,
    graph: Seq<GraphEntry>,
    keys: Seq<Seq<char>>,
) -> bool {
    &&& dependency_closure(target, graph, keys).contains(k)
    &&& k != target
    &&& reason_for(mods, k) == Some(InstallReason::Required)
    &&& forall|owner: Seq<char>|
        #![trigger depends_on(graph, owner, k)]
        has_key(keys, owner) && depends_on(graph, owner, k) ==> s.contains(owner)
}

/// `s` holds the target and every mod orphaned by `s`.
pub open spec fn removal_good(
    s: Set<Seq<char>>,
    target: Seq<char>,
    mods: Seq<InstalledMod>,
    graph: Seq<GraphEntry>,
    keys: Seq<Seq<char>>,
) -> bool {
    &&& s.contains(target)
    &&& forall|k: Seq<char>| #[trigger] orphaned(s, k, target, mods, graph, keys) ==> s.contains(k)
}

/// What removing `target` removes: the smallest set that holds the target and
/// every dependency it orphans.
pub open spec fn removal_set(
    target: Seq<char>,
    mods: Seq<InstalledMod>,
    graph: Seq<GraphEntry>,
    keys: Seq<Seq<char>>,
) -> Set<Seq<char>> {
    Set::new(
        |k: Seq<char>|
            forall|s: Set<Seq<char>>| #[trigger] removal_good(s, target, mods, graph, keys) ==> s.contains(k),
    )
}

pub open spec fn key_set(v: Seq<String>) -> Set<Seq<char>> {
    Set::new(|k: Seq<char>| exists|i: int| 0 <= i < v.len() && #[trigger] v[i]@ == k)
}

pub open spec fn distinct_keys(v: Seq<String>) -> bool {
    forall|i: int, j: int| 0 <= i < j < v.len() ==> #[trigger] v[i]@ != #[trigger] v[j]@
}

/// The outcome of planning a removal.
#[derive(Debug)]
pub struct RemovalDecision {
    /// Keys of the mods to remove, the target first.
    pub remove: Vec<String>,
    /// Keys of the target's dependencies that stay because something else still needs them.
    pub retained: Vec<String>,
}

/// Reachability depends only on the installed part of the roots.
proof fn lemma_reachable_same_roots(
    r1: Set<Seq<char>>,
    r2: Set<Seq<char>>,
    graph: Seq<GraphEntry>,
    keys: Seq<Seq<char>>,
)
    requires
        forall|k: Seq<char>| has_key(keys, k) ==> (r1.contains(k) <==> r2.contains(k)),
    ensures
        reachable_keys(r1, graph, keys) == reachable_keys(r2, graph, keys),
{
    assert forall|s: Set<Seq<char>>| reach_good(s, r1, graph, keys) == reach_good(s, r2, graph, keys) by {
        if reach_good(s, r1, graph, keys) {
            assert forall|k: Seq<char>| #[trigger] r2.contains(k) && has_key(keys, k) implies s.contains(k) by {
                assert(r1.contains(k));
            }
        }
        if reach_good(s, r2, graph, keys) {
            assert forall|k: Seq<char>| #[trigger] r1.contains(k) && has_key(keys, k) implies s.contains(k) by {
                assert(r2.contains(k));
            }
        }
    }
    assert(reachable_keys(r1, graph, keys) =~= reachable_keys(r2, graph, keys));
}

/// Reachable keys are installed keys.
proof fn lemma_reachable_installed(
    roots: Set<Seq<char>>,
    graph: Seq<GraphEntry>,
    keys: Seq<Seq<char>>,
    k: Seq<char>,
)
    requires
        reachable_keys(roots, graph, keys).contains(k),
    ensures
        has_key(keys, k),
{
    let all = Set::new(|x: Seq<char>| has_key(keys, x));
    assert(reach_good(all, roots, graph, keys));
    assert(all.contains(k));
}

proof fn lemma_reason_for(mods: Seq<InstalledMod>, k: Seq<char>, j: int)
    requires
        0 <= j < mods.len(),
        mods[j].key_view() == k,
        forall|x: int| j < x < mods.len() ==> #[trigger] mods[x].key_view() != k,
    ensures
        reason_for(mods, k) == Some(mods[j].reason),
    decreases mods.len(),
{
    if j < mods.len() - 1 {
        lemma_reason_for(mods.drop_last(), k, j);
    }
}

proof fn lemma_reason_none(mods: Seq<InstalledMod>, k: Seq<char>)
    requires
        forall|x: int| 0 <= x < mods.len() ==> #[trigger] mods[x].key_view() != k,
    ensures
        reason_for(mods, k) is None,
    decreases mods.len(),
{
    if mods.len() > 0 {
        lemma_reason_none(mods.drop_last(), k);
    }
}

/// Whether the reason recorded for `k` is `Required`.
fn required_reason(mods: &Vec<InstalledMod>, keys: &Vec<String>, k: &String) -> (r: bool)
    requires
        string_keys_match(keys@, mods@),
    ensures
        r == (reason_for(mods@, k@) == Some(InstallReason::Required)),
{
    let mut i = mods.len();
    while i > 0
        invariant
            i <= mods.len(),
            string_keys_match(keys@, mods@),
            forall|x: int| i <= x < mods.len() ==> #[trigger] mods@[x].key_view() != k@,
        decreases i,
    {
        i = i - 1;
        if keys[i] == *k {
            proof {
                lemma_reason_for(mods@, k@, i as int);
            }
            return matches!(mods[i].reason, InstallReason::Required);
        }
    }
    proof {
        lemma_reason_none(mods@, k@);
    }
    false
}

/// The set of keys being removed: the target and the marked keys.
pub open spec fn removing(target: Seq<char>, keys: Seq<Seq<char>>, marks: Seq<bool>) -> Set<Seq<char>> {
    marked_keys(keys, marks).insert(target)
}

fn marked_listed(keys: &Vec<String>, kv: Ghost<Seq<Seq<char>>>, marks: &Vec<bool>, k: &String) -> (r: bool)
    requires
        marks.len() == keys.len(),
        texts_match(keys@, kv@),
    ensures
        r == marked_keys(kv@, marks@).contains(k@),
{
    let mut j: usize = 0;
    while j < keys.len()
        invariant
            marks.len() == keys.len(),
            texts_match(keys@, kv@),
            j <= keys.len(),
            forall|x: int| 0 <= x < j ==> !(marks@[x] && #[trigger] kv@[x] == k@),
        decreases keys.len() - j,
    {
        if marks[j] && keys[j] == *k {
            assert(kv@[j as int] == k@);
            return true;
        }
        assert(kv@[j as int] == keys@[j as int]@);
        j = j + 1;
    }
    false
}

proof fn lemma_listed_has_key(keys: Seq<String>, kv: Seq<Seq<char>>, k: Seq<char>)
    requires
        texts_match(keys, kv),
    ensures
        listed(keys, k) == has_key(kv, k),
{
    if listed(keys, k) {
        let i = choose|i: int| 0 <= i < keys.len() && #[trigger] keys[i]@ == k;
        assert(kv[i] == k);
    }
    if has_key(kv, k) {
        let i = choose|i: int| 0 <= i < kv.len() && #[trigger] kv[i] == k;
        assert(keys[i]@ == k);
    }
}

/// Whether an installed mod outside the removal set still requires `k`.
fn still_referenced(
    keys: &Vec<String>,
    kv: Ghost<Seq<Seq<char>>>,
    graph: &Vec<GraphEntry>,
    gk: &GraphKeys,
    target: &String,
    marks: &Vec<bool>,
    k: &String,
) -> (r: bool)
    requires
        gk.of(graph@),
        marks.len() == keys.len(),
        texts_match(keys@, kv@),
    ensures
        r == exists|owner: Seq<char>|
            #![trigger depends_on(graph@, owner, k@)]
            has_key(kv@, owner) && depends_on(graph@, owner, k@) && !removing(
                target@,
                kv@,
                marks@,
            ).contains(owner),
{
    let ghost rem = removing(target@, kv@, marks@);
    let mut e: usize = 0;
    while e < graph.len()
        invariant
            gk.of(graph@),
            marks.len() == keys.len(),
            texts_match(keys@, kv@),
            rem == removing(target@, kv@, marks@),
            e <= graph.len(),
            forall|x: int, d: int|
                #![trigger graph@[x].dependencies@[d]]
                0 <= x < e && 0 <= d < graph@[x].dependencies@.len() && graph@[x].dependencies@[d].key_view() == k@
                    ==> !has_key(kv@, graph@[x].owner.key_view()) || rem.contains(graph@[x].owner.key_view()),
        decreases graph.len() - e,
    {
        let owner = &gk.owners[e];
        proof {
            lemma_listed_has_key(keys@, kv@, owner@);
        }
        let owner_installed = key_listed(keys, owner);
        assert(owner@ == graph@[e as int].owner.key_view());
        let owner_removed = *owner == *target || marked_listed(keys, kv, marks, owner);
        if owner_installed && !owner_removed {
            let deps = &gk.dependencies[e];
            assert(deps.len() == graph@[e as int].dependencies.len());
            let mut d: usize = 0;
            while d < deps.len()
                invariant
                    gk.of(graph@),
                    e < graph.len(),
                    deps@ == gk.dependencies@[e as int]@,
                    deps.len() == graph@[e as int].dependencies.len(),
                    d <= deps.len(),
                    owner@ == graph@[e as int].owner.key_view(),
                    has_key(kv@, owner@),
                    rem == removing(target@, kv@, marks@),
                    !rem.contains(owner@),
                    forall|y: int| 0 <= y < d ==> graph@[e as int].dependencies@[y].key_view() != k@,
                decreases deps.len() - d,
            {
                if deps[d] == *k {
                    proof {
                        assert(depends_on(graph@, owner@, k@)) by {
                            assert(graph@[e as int].dependencies@[d as int].key_view() == k@);
                        }
                        assert(!rem.contains(owner@));
                    }
                    return true;
                }
                assert(gk.dependencies@[e as int]@[d as int]@ == graph@[e as int].dependencies@[d as int].key_view());
                d = d + 1;
            }
            proof {
                assert forall|d: int|
                    0 <= d < graph@[e as int].dependencies@.len()
                        && graph@[e as int].dependencies@[d].key_view() == k@ implies !has_key(kv@, graph@[e as int].owner.key_view()) || rem.contains(graph@[e as int].owner.key_view()) by {
                }
            }
        }
        e = e + 1;
    }
    proof {
        assert forall|owner: Seq<char>|
            #![trigger depends_on(graph@, owner, k@)]
            has_key(kv@, owner) && depends_on(graph@, owner, k@) implies rem.contains(owner) by {
            let (x, d) = choose|x: int, d: int|
                #![trigger graph@[x].dependencies@[d]]
                0 <= x < graph@.len() && 0 <= d < graph@[x].dependencies@.len() && graph@[x].owner.key_view()
                    == owner && graph@[x].dependencies@[d].key_view() == k@;
        }
    }
    false
}

/// The keys whose marks are set, each once, skipping `skip`.
fn distinct_marked(keys: &Vec<String>, kv: Ghost<Seq<Seq<char>>>, marks: &Vec<bool>, skip: &String) -> (r: Vec<String>)
    requires
        marks.len() == keys.len(),
        texts_match(keys@, kv@),
    ensures
        distinct_keys(r@),
        key_set(r@) == marked_keys(kv@, marks@).remove(skip@),
{
    let ghost kv = kv@;
    let mut out: Vec<String> = Vec::new();
    let mut i: usize = 0;
    while i < keys.len()
        invariant
            marks.len() == keys.len(),
            texts_match(keys@, kv),
            i <= keys.len(),
            distinct_keys(out@),
            key_set(out@) == marked_keys(kv.take(i as int), marks@.take(i as int)).remove(skip@),
        decreases keys.len() - i,
    {
        let k = &keys[i];
        let ghost before = out@;
        let seen = key_listed(&out, k);
        if marks[i] && *k != *skip && !seen {
            out.push(k.clone());
            proof {
                assert forall|a: int, b: int| 0 <= a < b < out.len() implies #[trigger] out@[a]@ != #[trigger] out@[b]@ by {
                    if b == out.len() - 1 {
                        assert(out@[a] == before[a]);
                        assert(!listed(before, k@));
                    }
                }
            }
        }
        proof {
            let kt = kv.take(i as int);
            let kt1 = kv.take(i + 1);
            let mt = marks@.take(i as int);
            let mt1 = marks@.take(i + 1);
            assert(kt1 =~= kt.push(kv[i as int]));
            assert(mt1 =~= mt.push(marks@[i as int]));
            assert(kv[i as int] == k@);
            assert forall|x: Seq<char>| key_set(out@).contains(x) == marked_keys(kt1, mt1).remove(skip@).contains(x) by {
                if key_set(out@).contains(x) {
                    let j = choose|j: int| 0 <= j < out.len() && #[trigger] out@[j]@ == x;
                    if j < before.len() {
                        assert(out@[j] == before[j]);
                        assert(key_set(before).contains(x));
                        assert(marked_keys(kt, mt).contains(x));
                        let y = choose|y: int| 0 <= y < kt.len() && mt[y] && #[trigger] kt[y] == x;
                        assert(kt1[y] == kt[y]);
                    } else {
                        assert(kt1[i as int] == x);
                    }
                }
                if marked_keys(kt1, mt1).remove(skip@).contains(x) {
                    let y = choose|y: int| 0 <= y < kt1.len() && mt1[y] && #[trigger] kt1[y] == x;
                    if y < i {
                        assert(kt[y] == kt1[y]);
                        assert(marked_keys(kt, mt).contains(x));
                        assert(key_set(before).contains(x));
                        let j = choose|j: int| 0 <= j < before.len() && #[trigger] before[j]@ == x;
                        assert(out@[j] == before[j]);
                    } else {
                        if !seen {
                            assert(out@[out.len() - 1]@ == x);
                        } else {
                            let j = choose|j: int| 0 <= j < before.len() && #[trigger] before[j]@ == k@;
                            assert(out@[j] == before[j]);
                        }
                    }
                }
            }
            assert(key_set(out@) =~= marked_keys(kt1, mt1).remove(skip@));
        }
        i = i + 1;
    }
    assert(kv.take(keys.len() as int) =~= kv);
    assert(marks@.take(keys.len() as int) =~= marks@);
    out
}

/// Decides which mods leave when `target` is removed.
///
/// Refuses when an installed mod other than the target still requires it,
/// directly or through other installed mods. Otherwise removes the target and
/// every dependency it orphans: a mod leaves only if it was installed as a
/// required dependency, lies in the target's dependency closure and is
/// required by nothing that stays. The other dependencies of the target are
/// reported as retained.
pub fn plan_removal(
    mods: &Vec<InstalledMod>,
    graph: &Vec<GraphEntry>,
    target: &String,
) -> (r: Result<RemovalDecision, AppError>)
    ensures
        (r is Err <==> used_by_others(target@, graph@, mod_keys(mods@)).contains(target@)),
        r matches Ok(d) ==> {
            &&& distinct_keys(d.remove@)
            &&& distinct_keys(d.retained@)
            &&& key_set(d.remove@) == removal_set(target@, mods@, graph@, mod_keys(mods@))
            &&& key_set(d.retained@) == dependency_closure(target@, graph@, mod_keys(mods@)).remove(
                target@,
            ).difference(removal_set(target@, mods@, graph@, mod_keys(mods@)))
            &&& d.remove@.len() > 0 && d.remove@[0]@ == target@
        },
{
    let keys = keys_of_mods(mods);
    let ghost kv = mod_keys(mods@);
    assert(texts_match(keys@, kv));
    assert(string_keys_match(keys@, mods@));
    let gk = graph_keys(graph);
    let n = keys.len();
    let mut target_mask: Vec<bool> = Vec::new();
    let mut other_mask: Vec<bool> = Vec::new();
    let mut i: usize = 0;
    while i < n
        invariant
            n == keys.len(),
            i <= n,
            target_mask.len() == i,
            other_mask.len() == i,
            forall|x: int| 0 <= x < i ==> #[trigger] target_mask@[x] == (keys@[x]@ == target@),
            forall|x: int| 0 <= x < i ==> #[trigger] other_mask@[x] == (keys@[x]@ != target@),
        decreases n - i,
    {
        let same = keys[i] == *target;
        target_mask.push(same);
        other_mask.push(!same);
        i = i + 1;
    }
    proof {
        assert forall|k: Seq<char>| has_key(kv, k) implies (marked_keys(kv, target_mask@).contains(k) <==> set![target@].contains(k)) by {
            let x = choose|x: int| 0 <= x < kv.len() && #[trigger] kv[x] == k;
            if k == target@ {
                assert(target_mask@[x]);
            }
        }
        assert forall|k: Seq<char>| has_key(kv, k) implies (marked_keys(kv, other_mask@).contains(k) <==> Set::new(|z: Seq<char>| z != target@).contains(k)) by {
            let x = choose|x: int| 0 <= x < kv.len() && #[trigger] kv[x] == k;
            if k != target@ {
                assert(other_mask@[x]);
            }
        }
        lemma_reachable_same_roots(marked_keys(kv, target_mask@), set![target@], graph@, kv);
        lemma_reachable_same_roots(marked_keys(kv, other_mask@), Set::new(|k: Seq<char>| k != target@), graph@, kv);
    }
    let closure = reach_marks(&keys, Ghost(kv), graph, &gk, &target_mask);
    let others = reach_marks(&keys, Ghost(kv), graph, &gk, &other_mask);
    let ghost cl = dependency_closure(target@, graph@, kv);
    let ghost ob = used_by_others(target@, graph@, kv);
    let mut i: usize = 0;
    while i < n
        invariant
            n == keys.len(),
            others.len() == n,
            texts_match(keys@, kv),
            kv == mod_keys(mods@),
            ob == used_by_others(target@, graph@, kv),
            i <= n,
            forall|x: int| 0 <= x < n ==> (#[trigger] others@[x] <==> ob.contains(keys@[x]@)),
            forall|x: int| 0 <= x < i ==> !(#[trigger] keys@[x]@ == target@ && others@[x]),
        decreases n - i,
    {
        if keys[i] == *target && others[i] {
            assert(ob.contains(target@));
            return Err(
                AppError::message(
                    "Este mod ainda é uma dependência obrigatória de outro conteúdo instalado. Remova primeiro o mod que depende dele.",
                ),
            );
        }
        i = i + 1;
    }
    proof {
        if ob.contains(target@) {
            lemma_reachable_installed(Set::new(|k: Seq<char>| k != target@), graph@, kv, target@);
            let x = choose|x: int| 0 <= x < kv.len() && #[trigger] kv[x] == target@;
            assert(others@[x]);
        }
    }
    let mut marks: Vec<bool> = Vec::new();
    let mut i: usize = 0;
    while i < n
        invariant
            n == keys.len(),
            i <= n,
            marks.len() == i,
            forall|x: int| 0 <= x < i ==> !#[trigger] marks@[x],
        decreases n - i,
    {
        marks.push(false);
        i = i + 1;
    }
    proof {
        assert forall|s: Set<Seq<char>>| #[trigger] removal_good(s, target@, mods@, graph@, kv) implies removing(target@, kv, marks@).subset_of(s) by {
            assert forall|k: Seq<char>| removing(target@, kv, marks@).contains(k) implies s.contains(k) by {
                if k != target@ {
                    let x = choose|x: int| 0 <= x < kv.len() && marks@[x] && #[trigger] kv[x] == k;
                }
            }
        }
    }
    loop
        invariant
            n == keys.len(),
            marks.len() == n,
            closure.len() == n,
            gk.of(graph@),
            string_keys_match(keys@, mods@),
            texts_match(keys@, kv),
            kv == mod_keys(mods@),
            cl == dependency_closure(target@, graph@, kv),
            forall|x: int| 0 <= x < n ==> (#[trigger] closure@[x] <==> cl.contains(keys@[x]@)),
            forall|x: int, y: int| 0 <= x < n && 0 <= y < n && #[trigger] marks@[x] && keys@[x]@ == keys@[y]@ ==> #[trigger] marks@[y],
            forall|s: Set<Seq<char>>| #[trigger] removal_good(s, target@, mods@, graph@, kv) ==> removing(target@, kv, marks@).subset_of(s),
            forall|x: int| 0 <= x < n && #[trigger] marks@[x] ==> cl.contains(keys@[x]@) && keys@[x]@ != target@,
        ensures
            marks.len() == n,
            forall|s: Set<Seq<char>>| #[trigger] removal_good(s, target@, mods@, graph@, kv) ==> removing(target@, kv, marks@).subset_of(s),
            forall|x: int| 0 <= x < n && #[trigger] marks@[x] ==> cl.contains(keys@[x]@) && keys@[x]@ != target@,
            removal_good(removing(target@, kv, marks@), target@, mods@, graph@, kv),
        decreases crate::graph::count_unmarked(marks@),
    {
        let ghost pass_start = marks@;
        let mut changed = false;
        let mut i: usize = 0;
        while i < n
            invariant
                n == keys.len(),
                marks.len() == n,
                closure.len() == n,
                gk.of(graph@),
                string_keys_match(keys@, mods@),
                texts_match(keys@, kv),
                kv == mod_keys(mods@),
                cl == dependency_closure(target@, graph@, kv),
                i <= n,
                forall|x: int| 0 <= x < n ==> (#[trigger] closure@[x] <==> cl.contains(keys@[x]@)),
                forall|x: int, y: int| 0 <= x < n && 0 <= y < n && #[trigger] marks@[x] && keys@[x]@ == keys@[y]@ ==> #[trigger] marks@[y],
                forall|s: Set<Seq<char>>| #[trigger] removal_good(s, target@, mods@, graph@, kv) ==> removing(target@, kv, marks@).subset_of(s),
                forall|x: int| 0 <= x < n && #[trigger] marks@[x] ==> cl.contains(keys@[x]@) && keys@[x]@ != target@,
                changed ==> crate::graph::count_unmarked(marks@) < crate::graph::count_unmarked(pass_start),
                !changed ==> marks@ == pass_start,
                !changed ==> forall|x: int| 0 <= x < i ==> !#[trigger] orphaned(removing(target@, kv, marks@), kv[x], target@, mods@, graph@, kv) || marks@[x],
            decreases n - i,
        {
            let k = &keys[i];
            let candidate = closure[i] && *k != *target && !marks[i];
            let required = candidate && required_reason(mods, &keys, k);
            let referenced = required && still_referenced(&keys, Ghost(kv), graph, &gk, target, &marks, k);
            if required && !referenced {
                let ghost before = marks@;
                let ghost rem_before = removing(target@, kv, before);
                proof {
                    assert(kv[i as int] == k@);
                    assert(orphaned(rem_before, k@, target@, mods@, graph@, kv));
                }
                let _ = mark_key(&keys, &mut marks, k);
                proof {
                    assert forall|x: int, y: int| 0 <= x < n && 0 <= y < n && #[trigger] marks@[x] && keys@[x]@ == keys@[y]@ implies #[trigger] marks@[y] by {
                        if before[x] {
                            assert(before[y]);
                        }
                    }
                    assert forall|s: Set<Seq<char>>| #[trigger] removal_good(s, target@, mods@, graph@, kv) implies removing(target@, kv, marks@).subset_of(s) by {
                        assert(rem_before.subset_of(s));
                        assert(orphaned(s, k@, target@, mods@, graph@, kv)) by {
                            assert forall|owner: Seq<char>|
                                #![trigger depends_on(graph@, owner, k@)]
                                has_key(kv, owner) && depends_on(graph@, owner, k@) implies s.contains(owner) by {
                                assert(rem_before.contains(owner));
                            }
                        }
                        assert forall|z: Seq<char>| removing(target@, kv, marks@).contains(z) implies s.contains(z) by {
                            if z != target@ {
                                let x = choose|x: int| 0 <= x < kv.len() && marks@[x] && #[trigger] kv[x] == z;
                                if before[x] {
                                    assert(rem_before.contains(z));
                                } else {
                                    assert(z == k@);
                                }
                            }
                        }
                    }
                    assert forall|x: int| 0 <= x < n && #[trigger] marks@[x] implies cl.contains(keys@[x]@) && keys@[x]@ != target@ by {
                        if !before[x] {
                            assert(keys@[x]@ == k@);
                        }
                    }
                }
                changed = true;
            } else {
                proof {
                    assert(kv[i as int] == k@);
                    if !changed && !marks@[i as int] {
                        if orphaned(removing(target@, kv, marks@), k@, target@, mods@, graph@, kv) {
                            assert(closure@[i as int]);
                            assert(candidate);
                            assert(required);
                            assert(!referenced);
                        }
                    }
                }
            }
            i = i + 1;
        }
        if !changed {
            proof {
                let rem = removing(target@, kv, marks@);
                assert forall|k: Seq<char>| #[trigger] orphaned(rem, k, target@, mods@, graph@, kv) implies rem.contains(k) by {
                    lemma_reachable_installed(set![target@], graph@, kv, k);
                    let x = choose|x: int| 0 <= x < kv.len() && #[trigger] kv[x] == k;
                    assert(!orphaned(rem, kv[x], target@, mods@, graph@, kv) || marks@[x]);
                }
            }
            break;
        }
    }
    let ghost rem = removing(target@, kv, marks@);
    let ghost rs = removal_set(target@, mods@, graph@, kv);
    proof {
        assert forall|k: Seq<char>| rem.contains(k) implies rs.contains(k) by {
            assert forall|s: Set<Seq<char>>| #[trigger] removal_good(s, target@, mods@, graph@, kv) implies s.contains(k) by {
                assert(rem.subset_of(s));
            }
        }
        assert forall|k: Seq<char>| rs.contains(k) implies rem.contains(k) by {
            assert(removal_good(rem, target@, mods@, graph@, kv));
        }
        assert(rem =~= rs);
    }
    let deps = distinct_marked(&keys, Ghost(kv), &marks, target);
    let mut remove: Vec<String> = Vec::new();
    remove.push(target.clone());
    let mut j: usize = 0;
    while j < deps.len()
        invariant
            j <= deps.len(),
            remove.len() == j + 1,
            remove@[0]@ == target@,
            forall|x: int| 0 <= x < j ==> remove@[x + 1] == #[trigger] deps@[x],
        decreases deps.len() - j,
    {
        remove.push(deps[j].clone());
        j = j + 1;
    }
    proof {
        assert forall|a: int, b: int| 0 <= a < b < remove.len() implies #[trigger] remove@[a]@ != #[trigger] remove@[b]@ by {
            if a == 0 {
                assert(remove@[b] == deps@[b - 1]);
                assert(key_set(deps@).contains(deps@[b - 1]@));
            } else {
                assert(remove@[a] == deps@[a - 1]);
                assert(remove@[b] == deps@[b - 1]);
            }
        }
        assert forall|k: Seq<char>| key_set(remove@).contains(k) == rem.contains(k) by {
            if key_set(remove@).contains(k) {
                let x = choose|x: int| 0 <= x < remove.len() && #[trigger] remove@[x]@ == k;
                if x > 0 {
                    assert(remove@[x] == deps@[x - 1]);
                    assert(key_set(deps@).contains(k));
                }
            }
            if rem.contains(k) {
                if k == target@ {
                    assert(remove@[0]@ == k);
                } else {
                    assert(key_set(deps@).contains(k));
                    let x = choose|x: int| 0 <= x < deps.len() && #[trigger] deps@[x]@ == k;
                    assert(remove@[x + 1] == deps@[x]);
                }
            }
        }
        assert(key_set(remove@) =~= rs);
    }
    let mut kept: Vec<bool> = Vec::new();
    let mut i: usize = 0;
    while i < n
        invariant
            n == keys.len(),
            marks.len() == n,
            closure.len() == n,
            i <= n,
            kept.len() == i,
            forall|x: int| 0 <= x < i ==> #[trigger] kept@[x] == (closure@[x] && !marks@[x]),
        decreases n - i,
    {
        kept.push(closure[i] && !marks[i]);
        i = i + 1;
    }
    let retained = distinct_marked(&keys, Ghost(kv), &kept, target);
    proof {
        assert forall|k: Seq<char>| key_set(retained@).contains(k) == cl.remove(target@).difference(rs).contains(k) by {
            if key_set(retained@).contains(k) {
                let x = choose|x: int| 0 <= x < kv.len() && kept@[x] && #[trigger] kv[x] == k;
                if rem.contains(k) && k != target@ {
                    let y = choose|y: int| 0 <= y < kv.len() && marks@[y] && #[trigger] kv[y] == k;
                    assert(marks@[x]);
                }
            }
            if cl.remove(target@).difference(rs).contains(k) {
                lemma_reachable_installed(set![target@], graph@, kv, k);
                let x = choose|x: int| 0 <= x < kv.len() && #[trigger] kv[x] == k;
                assert(closure@[x]);
                if marks@[x] {
                    assert(rem.contains(k));
                }
                assert(kept@[x]);
            }
        }
        assert(key_set(retained@) =~= cl.remove(target@).difference(rs));
    }
    Ok(RemovalDecision { remove, retained })
}


/// Removal never strands a mod that stays: every removed mod other than the
/// target was installed only as a required dependency, lies in the target's
/// dependency closure, and every installed mod that requires it is removed too.
pub proof fn lemma_removal_keeps_requirements(
    target: Seq<char>,
    mods: Seq<InstalledMod>,
    graph: Seq<GraphEntry>,
    k: Seq<char>,
)
    requires
        removal_set(target, mods, graph, mod_keys(mods)).contains(k),
        k != target,
    ensures
        reason_for(mods, k) == Some(InstallReason::Required),
        dependency_closure(target, graph, mod_keys(mods)).contains(k),
        forall|owner: Seq<char>|
            #![trigger depends_on(graph, owner, k)]
            installed(mods, owner) && depends_on(graph, owner, k) ==> removal_set(
                target,
                mods,
                graph,
                mod_keys(mods),
            ).contains(owner),
{
    let kv = mod_keys(mods);
    let lfp = removal_set(target, mods, graph, kv);
    assert(removal_good(lfp, target, mods, graph, kv)) by {
        assert forall|z: Seq<char>| #[trigger] orphaned(lfp, z, target, mods, graph, kv) implies lfp.contains(z) by {
            assert forall|s: Set<Seq<char>>| #[trigger] removal_good(s, target, mods, graph, kv) implies s.contains(z) by {
                assert forall|owner: Seq<char>|
                    #![trigger depends_on(graph, owner, z)]
                    has_key(kv, owner) && depends_on(graph, owner, z) implies s.contains(owner) by {
                    assert(lfp.contains(owner));
                }
                assert(orphaned(s, z, target, mods, graph, kv));
            }
        }
    }
    let t = Set::new(|z: Seq<char>| z == target || orphaned(lfp, z, target, mods, graph, kv));
    assert(removal_good(t, target, mods, graph, kv)) by {
        assert forall|z: Seq<char>| #[trigger] orphaned(t, z, target, mods, graph, kv) implies t.contains(z) by {
            assert forall|owner: Seq<char>|
                #![trigger depends_on(graph, owner, z)]
                has_key(kv, owner) && depends_on(graph, owner, z) implies lfp.contains(owner) by {
                assert(t.contains(owner));
                if owner != target {
                    assert(orphaned(lfp, owner, target, mods, graph, kv));
                }
            }
            assert(orphaned(lfp, z, target, mods, graph, kv));
        }
    }
    assert(t.contains(k));
    assert(orphaned(lfp, k, target, mods, graph, kv));
    assert forall|owner: Seq<char>|
        #![trigger depends_on(graph, owner, k)]
        installed(mods, owner) && depends_on(graph, owner, k) implies lfp.contains(owner) by {
        let i = choose|i: int| 0 <= i < mods.len() && #[trigger] mods[i].key_view() == owner;
        assert(kv[i] == owner);
    }
}

/// The installed mods whose keys are listed, in profile order.
pub open spec fn mods_with_keys(mods: Seq<InstalledMod>, keys: Set<Seq<char>>) -> Seq<InstalledMod>
    decreases mods.len(),
{
    if mods.len() == 0 {
        Seq::empty()
    } else if keys.contains(mods.last().key_view()) {
        mods_with_keys(mods.drop_last(), keys).push(mods.last())
    } else {
        mods_with_keys(mods.drop_last(), keys)
    }
}

/// Copies of the installed mods whose keys are listed, in profile order.
pub fn mods_for_keys(mods: &Vec<InstalledMod>, keys: &Vec<String>) -> (r: Vec<InstalledMod>)
    ensures
        r.len() == mods_with_keys(mods@, key_set(keys@)).len(),
        forall|i: int| 0 <= i < r.len() ==> #[trigger] r@[i].same(mods_with_keys(mods@, key_set(keys@))[i]),
{
    let mut out: Vec<InstalledMod> = Vec::new();
    let mut i: usize = 0;
    while i < mods.len()
        invariant
            i <= mods.len(),
            out.len() == mods_with_keys(mods@.take(i as int), key_set(keys@)).len(),
            forall|j: int| 0 <= j < out.len() ==> #[trigger] out@[j].same(mods_with_keys(mods@.take(i as int), key_set(keys@))[j]),
        decreases mods.len() - i,
    {
        let key = mods[i].as_ref().key();
        proof {
            assert(mods@.take(i + 1).drop_last() =~= mods@.take(i as int));
            assert(mods@.take(i + 1).last() == mods@[i as int]);
        }
        if key_listed(keys, &key) {
            assert(key_set(keys@).contains(key@));
            out.push(mods[i].clone());
        } else {
            assert(!key_set(keys@).contains(key@));
        }
        i = i + 1;
    }
    assert(mods@.take(mods.len() as int) =~= mods@);
    out
}

/// Whether some installed mod has the key.
fn mod_installed(mods: &Vec<InstalledMod>, key: &String) -> (r: bool)
    ensures
        r == installed(mods@, key@),
{
    let mut i: usize = 0;
    while i < mods.len()
        invariant
            i <= mods.len(),
            forall|j: int| 0 <= j < i ==> #[trigger] mods@[j].key_view() != key@,
        decreases mods.len() - i,
    {
        if mods[i].as_ref().key() == *key {
            assert(mods@[i as int].key_view() == key@);
            return true;
        }
        i = i + 1;
    }
    false
}

/// The reason of the first installed mod with the key.
pub open spec fn first_reason(mods: Seq<InstalledMod>, k: Seq<char>) -> Option<InstallReason>
    decreases mods.len(),
{
    if mods.len() == 0 {
        None
    } else if mods[0].key_view() == k {
        Some(mods[0].reason)
    } else {
        first_reason(mods.drop_first(), k)
    }
}

fn first_reason_of(mods: &Vec<InstalledMod>, key: &String) -> (r: Option<InstallReason>)
    ensures
        r == first_reason(mods@, key@),
{
    let mut i: usize = 0;
    assert(mods@.skip(0) =~= mods@);
    while i < mods.len()
        invariant
            i <= mods.len(),
            first_reason(mods@, key@) == first_reason(mods@.skip(i as int), key@),
        decreases mods.len() - i,
    {
        assert(mods@.skip(i as int).drop_first() =~= mods@.skip(i + 1));
        if mods[i].as_ref().key() == *key {
            return Some(mods[i].reason);
        }
        i = i + 1;
    }
    None
}

/// Decides a removal requested by the user.
///
/// Fails when the mod is not installed, when another installed mod still
/// requires it, or when part of the graph could not be verified and the mod
/// was not requested by the user. When mod files outside the profile's record
/// exist or part of the graph could not be verified, only the target leaves
/// and its dependencies are all retained.
pub fn decide_removal(
    mods: &Vec<InstalledMod>,
    graph: &Vec<GraphEntry>,
    target: &ProjectRef,
    unmanaged_mod_files: usize,
    verification_failures: usize,
) -> (r: Result<RemovalDecision, AppError>)
    ensures
        ({
            let t = target.key_view();
            let kv = mod_keys(mods@);
            let rs = removal_set(t, mods@, graph@, kv);
            let cl = dependency_closure(t, graph@, kv);
            &&& r is Err <==> (!installed(mods@, t) || used_by_others(t, graph@, kv).contains(t) || (
            verification_failures > 0 && first_reason(mods@, t) != Some(InstallReason::Requested)))
            &&& r matches Ok(d) ==> {
                &&& distinct_keys(d.remove@)
                &&& distinct_keys(d.retained@)
                &&& d.remove@.len() > 0 && d.remove@[0]@ == t
                &&& if unmanaged_mod_files > 0 || verification_failures > 0 {
                    &&& d.remove@.len() == 1
                    &&& key_set(d.retained@) == cl.remove(t)
                } else {
                    &&& key_set(d.remove@) == rs
                    &&& key_set(d.retained@) == cl.remove(t).difference(rs)
                }
            }
        }),
{
    let key = target.key();
    if !mod_installed(mods, &key) {
        return Err(AppError::message("Este mod não está mais instalado."));
    }
    let decision = match plan_removal(mods, graph, &key) {
        Ok(decision) => decision,
        Err(error) => {
            return Err(error);
        },
    };
    if verification_failures > 0 {
        let reason = first_reason_of(mods, &key);
        if !matches!(reason, Some(InstallReason::Requested)) {
            return Err(AppError::message("Não foi possível verificar o grafo completo. Por segurança, este mod não foi removido porque pode ser dependência de outro conteúdo."));
        }
    }
    if unmanaged_mod_files > 0 || verification_failures > 0 {
        let ghost kv = mod_keys(mods@);
        let ghost rs = removal_set(key@, mods@, graph@, kv);
        let ghost cl = dependency_closure(key@, graph@, kv);
        proof {
            assert forall|z: Seq<char>| rs.contains(z) && z != key@ implies cl.contains(z) by {
                lemma_removal_keeps_requirements(key@, mods@, graph@, z);
            }
            assert(key_set(decision.remove@.subrange(1, 1)) =~= Set::empty());
        }
        let RemovalDecision { remove, retained } = decision;
        let mut kept = retained;
        let mut j: usize = 1;
        while j < remove.len()
            invariant
                1 <= j <= remove.len(),
                remove@.len() > 0 && remove@[0]@ == key@,
                distinct_keys(remove@),
                distinct_keys(kept@),
                key_set(remove@) == rs,
                key_set(kept@) == cl.remove(key@).difference(rs).union(key_set(remove@.subrange(1, j as int))),
                forall|z: Seq<char>| rs.contains(z) && z != key@ ==> cl.contains(z),
            decreases remove.len() - j,
        {
            let ghost before = kept@;
            proof {
                assert(key_set(remove@).contains(remove@[j as int]@));
            }
            kept.push(remove[j].clone());
            proof {
                assert(remove@.subrange(1, j + 1) =~= remove@.subrange(1, j as int).push(remove@[j as int]));
                assert forall|a: int, b: int| 0 <= a < b < kept.len() implies #[trigger] kept@[a]@ != #[trigger] kept@[b]@ by {
                    if b == kept.len() - 1 {
                        assert(kept@[a] == before[a]);
                        if before[a]@ == remove@[j as int]@ {
                            assert(key_set(before).contains(remove@[j as int]@));
                            if cl.remove(key@).difference(rs).contains(remove@[j as int]@) {
                                assert(rs.contains(remove@[j as int]@));
                            } else {
                                let x = choose|x: int| 0 <= x < remove@.subrange(1, j as int).len() && #[trigger] remove@.subrange(1, j as int)[x]@ == remove@[j as int]@;
                                assert(remove@.subrange(1, j as int)[x] == remove@[x + 1]);
                            }
                        }
                    }
                }
                assert forall|z: Seq<char>| key_set(kept@).contains(z) == cl.remove(key@).difference(rs).union(key_set(remove@.subrange(1, j + 1))).contains(z) by {
                    if key_set(kept@).contains(z) {
                        let x = choose|x: int| 0 <= x < kept.len() && #[trigger] kept@[x]@ == z;
                        if x < before.len() {
                            assert(kept@[x] == before[x]);
                            assert(key_set(before).contains(z));
                            if key_set(remove@.subrange(1, j as int)).contains(z) {
                                let y = choose|y: int| 0 <= y < remove@.subrange(1, j as int).len() && #[trigger] remove@.subrange(1, j as int)[y]@ == z;
                                assert(remove@.subrange(1, j + 1)[y] == remove@.subrange(1, j as int)[y]);
                            }
                        } else {
                            assert(remove@.subrange(1, j + 1)[j - 1] == remove@[j as int]);
                        }
                    }
                    if cl.remove(key@).difference(rs).union(key_set(remove@.subrange(1, j + 1))).contains(z) {
                        if key_set(remove@.subrange(1, j + 1)).contains(z) {
                            let y = choose|y: int| 0 <= y < remove@.subrange(1, j + 1).len() && #[trigger] remove@.subrange(1, j + 1)[y]@ == z;
                            if y < j - 1 {
                                assert(remove@.subrange(1, j as int)[y] == remove@.subrange(1, j + 1)[y]);
                                assert(key_set(before).contains(z));
                                let x = choose|x: int| 0 <= x < before.len() && #[trigger] before[x]@ == z;
                                assert(kept@[x] == before[x]);
                            } else {
                                assert(kept@[kept.len() - 1]@ == z);
                            }
                        } else {
                            assert(key_set(before).contains(z));
                            let x = choose|x: int| 0 <= x < before.len() && #[trigger] before[x]@ == z;
                            assert(kept@[x] == before[x]);
                        }
                    }
                }
                assert(key_set(kept@) =~= cl.remove(key@).difference(rs).union(key_set(remove@.subrange(1, j + 1))));
            }
            j = j + 1;
        }
        let mut only: Vec<String> = Vec::new();
        only.push(key.clone());
        proof {
            assert forall|z: Seq<char>| key_set(kept@).contains(z) == cl.remove(key@).contains(z) by {
                if key_set(remove@.subrange(1, remove.len() as int)).contains(z) {
                    let y = choose|y: int| 0 <= y < remove@.subrange(1, remove.len() as int).len() && #[trigger] remove@.subrange(1, remove.len() as int)[y]@ == z;
                    assert(remove@.subrange(1, remove.len() as int)[y] == remove@[y + 1]);
                    assert(key_set(remove@).contains(z));
                    assert(remove@[0]@ != remove@[y + 1]@);
                }
                if cl.remove(key@).contains(z) && rs.contains(z) {
                    let y = choose|y: int| 0 <= y < remove.len() && #[trigger] remove@[y]@ == z;
                    assert(y != 0);
                    assert(remove@.subrange(1, remove.len() as int)[y - 1] == remove@[y]);
                }
            }
            assert(key_set(kept@) =~= cl.remove(key@));
            assert forall|a: int, b: int| 0 <= a < b < only.len() implies #[trigger] only@[a]@ != #[trigger] only@[b]@ by {
            }
        }
        return Ok(RemovalDecision { remove: only, retained: kept });
    }
    Ok(decision)
}

/// A file of the mods folder that the profile does not track: its name,
/// lowercased, ends in `.jar` and is the lowercased name of no registered file.
pub open spec fn unmanaged(registered: Seq<Seq<char>>, name: Seq<char>) -> bool {
    has_suffix(unicode_lowercase(name), ".jar"@) && !registered.contains(unicode_lowercase(name))
}

/// How many of the files are unmanaged.
pub open spec fn unmanaged_count(registered: Seq<Seq<char>>, names: Seq<Seq<char>>) -> nat
    decreases names.len(),
{
    if names.len() == 0 {
        0
    } else {
        unmanaged_count(registered, names.drop_last()) + if unmanaged(registered, names.last()) {
            1nat
        } else {
            0nat
        }
    }
}

/// Counts the `.jar` files of the mods folder (given by name) that the
/// profile does not track; names are compared lowercased.
pub fn count_unmanaged(registered_filenames: &Vec<String>, file_names: &Vec<String>) -> (r: usize)
    ensures
        r == unmanaged_count(
            registered_filenames@.map_values(|s: String| unicode_lowercase(s@)),
            file_names@.map_values(|s: String| s@),
        ),
{
    let ghost registered_view = registered_filenames@.map_values(|s: String| unicode_lowercase(s@));
    let ghost names_view = file_names@.map_values(|s: String| s@);
    let mut registered: Vec<String> = Vec::new();
    let mut k: usize = 0;
    while k < registered_filenames.len()
        invariant
            k <= registered_filenames.len(),
            registered.len() == k,
            forall|j: int| 0 <= j < k ==> (#[trigger] registered@[j])@ == unicode_lowercase(registered_filenames@[j]@),
        decreases registered_filenames.len() - k,
    {
        registered.push(to_lowercase(registered_filenames[k].as_str()));
        k = k + 1;
    }
    let suffix = chars_of(".jar");
    let mut count: usize = 0;
    let mut i: usize = 0;
    while i < file_names.len()
        invariant
            i <= file_names.len(),
            registered.len() == registered_filenames.len(),
            forall|j: int| 0 <= j < registered.len() ==> (#[trigger] registered@[j])@ == unicode_lowercase(registered_filenames@[j]@),
            suffix@ == ".jar"@,
            registered_view == registered_filenames@.map_values(|s: String| unicode_lowercase(s@)),
            names_view == file_names@.map_values(|s: String| s@),
            count <= i,
            count == unmanaged_count(registered_view, names_view.take(i as int)),
        decreases file_names.len() - i,
    {
        let lowered = to_lowercase(file_names[i].as_str());
        let jar = ends_with(&chars_of(lowered.as_str()), &suffix);
        let mut known = false;
        let mut j: usize = 0;
        while j < registered.len()
            invariant
                j <= registered.len(),
                known == exists|m: int| 0 <= m < j && (#[trigger] registered@[m])@ == lowered@,
            decreases registered.len() - j,
        {
            if registered[j] == lowered {
                known = true;
            }
            j = j + 1;
        }
        proof {
            let next = names_view.take(i as int + 1);
            assert(next.drop_last() =~= names_view.take(i as int));
            assert(next.last() == file_names@[i as int]@);
            if registered_view.contains(lowered@) {
                let m = choose|m: int| 0 <= m < registered_view.len() && registered_view[m] == lowered@;
                assert(registered@[m]@ == lowered@);
            }
            if known {
                let m = choose|m: int| 0 <= m < registered.len() && (#[trigger] registered@[m])@ == lowered@;
                assert(registered_view[m] == lowered@);
            }
        }
        if jar && !known {
            count = count + 1;
        }
        i = i + 1;
    }
    assert(names_view.take(file_names.len() as int) =~= names_view);
    count
}

} // verus!
