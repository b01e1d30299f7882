//! Required-dependency graphs between installed mods and reachability over them.
use crate::domain::ProjectRef;
use vstd::prelude::*;

verus! {

/// The required dependencies that one mod declares.
#[derive(Debug)]
pub struct GraphEntry {
    pub owner: ProjectRef,
    pub dependencies: Vec<ProjectRef>,
}

/// `a` declares `b` as a required dependency somewhere in the graph.
pub open spec fn depends_on(graph: Seq<GraphEntry>, a: Seq<char>, b: Seq<char>) -> bool {
    exists|e: int, d: int|
        #![trigger graph[e].dependencies@[d]]
        0 <= e < graph.len() && 0 <= d < graph[e].dependencies@.len() && graph[e].owner.key_view()
            == a && graph[e].dependencies@[d].key_view() == b
}

/// Some mod in the list has key `k`.
pub open spec fn has_key(keys: Seq<Seq<char>>, k: Seq<char>) -> bool {
    exists|i: int| 0 <= i < keys.len() && #[trigger] keys[i] == k
}

/// Every successor that is installed stays inside `s`.
pub open spec fn closed_under(s: Set<Seq<char>>, graph: Seq<GraphEntry>, keys: Seq<Seq<char>>) -> bool {
    forall|a: Seq<char>, b: Seq<char>|
        #![trigger s.contains(a), depends_on(graph, a, b)]
        s.contains(a) && depends_on(graph, a, b) && has_key(keys, b) ==> s.contains(b)
}

/// `s` holds the installed roots and is closed under installed successors.
pub open spec fn reach_good(
    s: Set<Seq<char>>,
    roots: Set<Seq<char>>,
    graph: Seq<GraphEntry>,
    keys: Seq<Seq<char>>,
) -> bool {
    &&& forall|k: Seq<char>| #[trigger] roots.contains(k) && has_key(keys, k) ==> s.contains(k)
    &&& closed_under(s, graph, keys)
}

/// The installed keys reachable from the installed roots through installed mods:
/// the smallest set that holds the roots and is closed under installed successors.
pub open spec fn reachable_keys(
    roots: Set<Seq<char>>,
    graph: Seq<GraphEntry>,
    keys: Seq<Seq<char>>,
) -> Set<Seq<char>> {
    Set::new(
        |k: Seq<char>|
            forall|s: Set<Seq<char>>| #[trigger] reach_good(s, roots, graph, keys) ==> s.contains(k),
    )
}

/// The keys whose mark is set.
pub open spec fn marked_keys(keys: Seq<Seq<char>>, marks: Seq<bool>) -> Set<Seq<char>> {
    Set::new(|k: Seq<char>| exists|i: int| 0 <= i < keys.len() && marks[i] && #[trigger] keys[i] == k)
}

pub open spec fn count_unmarked(marks: Seq<bool>) -> nat
    decreases marks.len(),
{
    if marks.len() == 0 {
        0
    } else {
        count_unmarked(marks.drop_last()) + if marks.last() {
            0nat
        } else {
            1nat
        }
    }
}

proof fn lemma_count_mark(marks: Seq<bool>, j: int)
    requires
        0 <= j < marks.len(),
        !marks[j],
    ensures
        count_unmarked(marks.update(j, true)) + 1 == count_unmarked(marks),
    decreases marks.len(),
{
    if j < marks.len() - 1 {
        assert(marks.update(j, true).drop_last() =~= marks.drop_last().update(j, true));
        lemma_count_mark(marks.drop_last(), j);
    } else {
        assert(marks.update(j, true).drop_last() =~= marks.drop_last());
    }
}

/// The keys of the graph's owners and of their dependencies, computed once.
pub struct GraphKeys {
    pub owners: Vec<String>,
    pub dependencies: Vec<Vec<String>>,
}

impl GraphKeys {
    pub open spec fn of(self, graph: Seq<GraphEntry>) -> bool {
        &&& self.owners.len() == graph.len()
        &&& self.dependencies.len() == graph.len()
        &&& forall|e: int| 0 <= e < graph.len() ==> #[trigger] self.owners@[e]@ == graph[e].owner.key_view()
        &&& forall|e: int|
            0 <= e < graph.len() ==> #[trigger] self.dependencies@[e].len()
                == graph[e].dependencies.len()
        &&& forall|e: int, d: int|
            0 <= e < graph.len() && 0 <= d < graph[e].dependencies.len()
                ==> #[trigger] self.dependencies@[e]@[d]@ == graph[e].dependencies@[d].key_view()
    }
}

/// The keys of the graph's owners and of their dependencies, entry by entry.
pub fn graph_keys(graph: &Vec<GraphEntry>) -> (r: GraphKeys)
    ensures
        r.of(graph@),
{
    let mut owners: Vec<String> = Vec::new();
    let mut dependencies: Vec<Vec<String>> = Vec::new();
    let mut e: usize = 0;
    while e < graph.len()
        invariant
            e <= graph.len(),
            owners.len() == e,
            dependencies.len() == e,
            forall|x: int| 0 <= x < e ==> #[trigger] owners@[x]@ == graph@[x].owner.key_view(),
            forall|x: int| 0 <= x < e ==> #[trigger] dependencies@[x].len() == graph@[x].dependencies.len(),
            forall|x: int, d: int|
                0 <= x < e && 0 <= d < graph@[x].dependencies.len()
                    ==> #[trigger] dependencies@[x]@[d]@ == graph@[x].dependencies@[d].key_view(),
        decreases graph.len() - e,
    {
        owners.push(graph[e].owner.key());
        let deps = &graph[e].dependencies;
        let mut row: Vec<String> = Vec::new();
        let mut d: usize = 0;
        while d < deps.len()
            invariant
                d <= deps.len(),
                row.len() == d,
                forall|y: int| 0 <= y < d ==> #[trigger] row@[y]@ == deps@[y].key_view(),
            decreases deps.len() - d,
        {
            row.push(deps[d].key());
            d = d + 1;
        }
        dependencies.push(row);
        e = e + 1;
    }
    GraphKeys { owners, dependencies }
}

/// Some string in the list has the text `k`.
pub open spec fn listed(keys: Seq<String>, k: Seq<char>) -> bool {
    exists|i: int| 0 <= i < keys.len() && #[trigger] keys[i]@ == k
}

/// Whether `k` is one of the keys.
pub fn key_listed(keys: &Vec<String>, k: &String) -> (r: bool)
    ensures
        r == listed(keys@, k@),
{
    let mut i: usize = 0;
    while i < keys.len()
        invariant
            i <= keys.len(),
            forall|j: int| 0 <= j < i ==> keys@[j]@ != k@,
        decreases keys.len() - i,
    {
        if keys[i] == *k {
            return true;
        }
        i = i + 1;
    }
    false
}

/// Sets the mark of every key equal to `k`; reports whether any mark changed.
pub(crate) fn mark_key(keys: &Vec<String>, marks: &mut Vec<bool>, k: &String) -> (changed: bool)
    requires
        old(marks).len() == keys.len(),
    ensures
        final(marks).len() == keys.len(),
        forall|j: int|
            0 <= j < keys.len() ==> #[trigger] final(marks)@[j] == (old(marks)@[j] || keys@[j]@
                == k@),
        changed ==> count_unmarked(final(marks)@) < count_unmarked(old(marks)@),
        !changed ==> final(marks)@ == old(marks)@,
{
    let ghost start = marks@;
    let mut changed = false;
    let mut j: usize = 0;
    while j < keys.len()
        invariant
            marks.len() == keys.len(),
            start.len() == keys.len(),
            j <= keys.len(),
            forall|x: int|
                0 <= x < j ==> #[trigger] marks@[x] == (start[x] || keys@[x]@ == k@),
            forall|x: int| j <= x < keys.len() ==> #[trigger] marks@[x] == start[x],
            changed ==> count_unmarked(marks@) < count_unmarked(start),
            !changed ==> marks@ == start,
        decreases keys.len() - j,
    {
        if keys[j] == *k && !marks[j] {
            proof {
                lemma_count_mark(marks@, j as int);
            }
            marks.set(j, true);
            changed = true;
        }
        j = j + 1;
    }
    changed
}

/// Marks every key reachable from the marked roots, following the graph
/// through installed keys only.
pub fn reach_marks(
    keys: &Vec<String>,
    kv: Ghost<Seq<Seq<char>>>,
    graph: &Vec<GraphEntry>,
    gk: &GraphKeys,
    roots: &Vec<bool>,
) -> (r: Vec<bool>)
    requires
        gk.of(graph@),
        kv@.len() == keys.len(),
        forall|x: int| 0 <= x < keys.len() ==> #[trigger] kv@[x] == keys@[x]@,
        roots.len() == keys.len(),
    ensures
        r.len() == keys.len(),
        forall|i: int|
            0 <= i < keys.len() ==> (#[trigger] r@[i] <==> reachable_keys(
                marked_keys(kv@, roots@),
                graph@,
                kv@,
            ).contains(keys@[i]@)),
{
    let ghost kv = kv@;
    let n = keys.len();
    let ghost root_set = marked_keys(kv, roots@);
    let mut marks: Vec<bool> = Vec::new();
    let mut i: usize = 0;
    while i < n
        invariant
            kv.len() == keys.len(),
            forall|x: int| 0 <= x < keys.len() ==> #[trigger] kv[x] == keys@[x]@,
            n == keys.len(),
            i <= n,
            marks.len() == i,
            forall|x: int| 0 <= x < i ==> !#[trigger] marks@[x],
        decreases n - i,
    {
        marks.push(false);
        i = i + 1;
    }
    let mut i: usize = 0;
    while i < n
        invariant
            kv.len() == keys.len(),
            forall|x: int| 0 <= x < keys.len() ==> #[trigger] kv[x] == keys@[x]@,
            n == keys.len(),
            roots.len() == n,
            marks.len() == n,
            i <= n,
            root_set == marked_keys(kv, roots@),
            forall|x: int| 0 <= x < i && roots@[x] ==> #[trigger] marks@[x],
            forall|x: int, y: int| 0 <= x < n && 0 <= y < n && #[trigger] marks@[x] && keys@[x]@ == keys@[y]@ ==> #[trigger] marks@[y],
            forall|x: int| 0 <= x < n && #[trigger] marks@[x] ==> root_set.contains(keys@[x]@),
        decreases n - i,
    {
        if roots[i] {
            let ghost before = marks@;
            let _ = mark_key(keys, &mut marks, &keys[i]);
            proof {
                assert forall|x: int| 0 <= x < n && #[trigger] marks@[x] implies root_set.contains(keys@[x]@) by {
                    if !before[x] {
                        assert(keys@[x]@ == keys@[i as int]@);
                        assert(roots@[i as int]);
                        assert(kv[i as int] == keys@[x]@);
                    }
                }
                assert forall|x: int, y: int| 0 <= x < n && 0 <= y < n && #[trigger] marks@[x] && keys@[x]@ == keys@[y]@ implies #[trigger] marks@[y] by {
                    if before[x] {
                        assert(before[y]);
                    }
                }
            }
        }
        i = i + 1;
    }
    proof {
        assert forall|s: Set<Seq<char>>| #[trigger] reach_good(s, root_set, graph@, kv) implies forall|x: int|
            0 <= x < n && marks@[x] ==> s.contains(keys@[x]@) by {
            assert forall|x: int| 0 <= x < n && marks@[x] implies s.contains(keys@[x]@) by {
                assert(root_set.contains(keys@[x]@));
                assert(has_key(kv, keys@[x]@));
            }
        }
    }
    loop
        invariant
            kv.len() == keys.len(),
            forall|x: int| 0 <= x < keys.len() ==> #[trigger] kv[x] == keys@[x]@,
            n == keys.len(),
            marks.len() == n,
            gk.of(graph@),
            root_set == marked_keys(kv, roots@),
            forall|x: int| 0 <= x < n && roots@[x] ==> #[trigger] marks@[x],
            forall|x: int, y: int| 0 <= x < n && 0 <= y < n && #[trigger] marks@[x] && keys@[x]@ == keys@[y]@ ==> #[trigger] marks@[y],
            roots.len() == n,
            forall|s: Set<Seq<char>>| #[trigger] reach_good(s, root_set, graph@, kv) ==> forall|x: int|
                0 <= x < n && marks@[x] ==> s.contains(keys@[x]@),
        ensures
            marks.len() == n,
            forall|x: int| 0 <= x < n && roots@[x] ==> #[trigger] marks@[x],
            forall|s: Set<Seq<char>>| #[trigger] reach_good(s, root_set, graph@, kv) ==> forall|x: int|
                0 <= x < n && marks@[x] ==> s.contains(keys@[x]@),
            forall|x: int, e: int, d: int, y: int|
                #![trigger marks@[x], gk.dependencies@[e]@[d], marks@[y]]
                0 <= x < n && marks@[x] && 0 <= e < graph.len() && gk.owners@[e]@ == keys@[x]@
                    && 0 <= d < gk.dependencies@[e].len() && 0 <= y < n && keys@[y]@
                    == gk.dependencies@[e]@[d]@ ==> marks@[y],
        decreases count_unmarked(marks@),
    {
        let ghost pass_start = marks@;
        let mut changed = false;
        let mut i: usize = 0;
        while i < n
            invariant
                kv.len() == keys.len(),
                forall|x: int| 0 <= x < keys.len() ==> #[trigger] kv[x] == keys@[x]@,
                n == keys.len(),
                marks.len() == n,
                gk.of(graph@),
            root_set == marked_keys(kv, roots@),
                i <= n,
                roots.len() == n,
                forall|x: int| 0 <= x < n && roots@[x] ==> #[trigger] marks@[x],
                forall|x: int, y: int| 0 <= x < n && 0 <= y < n && #[trigger] marks@[x] && keys@[x]@ == keys@[y]@ ==> #[trigger] marks@[y],
                forall|s: Set<Seq<char>>| #[trigger] reach_good(s, root_set, graph@, kv) ==> forall|x: int|
                    0 <= x < n && marks@[x] ==> s.contains(keys@[x]@),
                changed ==> count_unmarked(marks@) < count_unmarked(pass_start),
                !changed ==> marks@ == pass_start,
                !changed ==> forall|x: int, e: int, d: int, y: int|
                    #![trigger marks@[x], gk.dependencies@[e]@[d], marks@[y]]
                    0 <= x < i && marks@[x] && 0 <= e < graph.len() && gk.owners@[e]@ == keys@[x]@
                        && 0 <= d < gk.dependencies@[e].len() && 0 <= y < n && keys@[y]@
                        == gk.dependencies@[e]@[d]@ ==> marks@[y],
            decreases n - i,
        {
            if marks[i] {
                let mut e: usize = 0;
                while e < graph.len()
                    invariant
                        kv.len() == keys.len(),
                        forall|x: int| 0 <= x < keys.len() ==> #[trigger] kv[x] == keys@[x]@,
                        n == keys.len(),
                        marks.len() == n,
                        gk.of(graph@),
            root_set == marked_keys(kv, roots@),
                        i < n,
                        marks@[i as int],
                        e <= graph.len(),
                        roots.len() == n,
                        forall|x: int| 0 <= x < n && roots@[x] ==> #[trigger] marks@[x],
                        forall|x: int, y: int| 0 <= x < n && 0 <= y < n && #[trigger] marks@[x] && keys@[x]@ == keys@[y]@ ==> #[trigger] marks@[y],
                        forall|s: Set<Seq<char>>| #[trigger] reach_good(s, root_set, graph@, kv) ==> forall|x: int|
                            0 <= x < n && marks@[x] ==> s.contains(keys@[x]@),
                        changed ==> count_unmarked(marks@) < count_unmarked(pass_start),
                        !changed ==> marks@ == pass_start,
                        !changed ==> forall|x: int, e2: int, d: int, y: int|
                            #![trigger marks@[x], gk.dependencies@[e2]@[d], marks@[y]]
                            0 <= x < i && marks@[x] && 0 <= e2 < graph.len() && gk.owners@[e2]@
                                == keys@[x]@ && 0 <= d < gk.dependencies@[e2].len() && 0 <= y < n
                                && keys@[y]@ == gk.dependencies@[e2]@[d]@ ==> marks@[y],
                        !changed ==> forall|e2: int, d: int, y: int|
                            #![trigger gk.dependencies@[e2]@[d], marks@[y]]
                            0 <= e2 < e && gk.owners@[e2]@ == keys@[i as int]@ && 0 <= d
                                < gk.dependencies@[e2].len() && 0 <= y < n && keys@[y]@
                                == gk.dependencies@[e2]@[d]@ ==> marks@[y],
                    decreases graph.len() - e,
                {
                    if gk.owners[e] == keys[i] {
                        let deps = &gk.dependencies[e];
                        assert(deps.len() == graph@[e as int].dependencies.len());
                        let mut d: usize = 0;
                        while d < deps.len()
                            invariant
                                kv.len() == keys.len(),
                                forall|x: int| 0 <= x < keys.len() ==> #[trigger] kv[x] == keys@[x]@,
                                n == keys.len(),
                                marks.len() == n,
                                gk.of(graph@),
            root_set == marked_keys(kv, roots@),
                                i < n,
                                e < graph.len(),
                                marks@[i as int],
                                gk.owners@[e as int]@ == keys@[i as int]@,
                                deps@ == gk.dependencies@[e as int]@,
                                deps.len() == graph@[e as int].dependencies.len(),
                                d <= deps.len(),
                                roots.len() == n,
                                forall|x: int| 0 <= x < n && roots@[x] ==> #[trigger] marks@[x],
                                forall|x: int, y: int| 0 <= x < n && 0 <= y < n && #[trigger] marks@[x] && keys@[x]@ == keys@[y]@ ==> #[trigger] marks@[y],
                                forall|s: Set<Seq<char>>| #[trigger] reach_good(s, root_set, graph@, kv) ==> forall|x: int|
                                    0 <= x < n && marks@[x] ==> s.contains(keys@[x]@),
                                changed ==> count_unmarked(marks@) < count_unmarked(pass_start),
                                !changed ==> marks@ == pass_start,
                                !changed ==> forall|x: int, e2: int, d2: int, y: int|
                                    #![trigger marks@[x], gk.dependencies@[e2]@[d2], marks@[y]]
                                    0 <= x < i && marks@[x] && 0 <= e2 < graph.len() && gk.owners@[e2]@
                                        == keys@[x]@ && 0 <= d2 < gk.dependencies@[e2].len() && 0 <= y < n
                                        && keys@[y]@ == gk.dependencies@[e2]@[d2]@ ==> marks@[y],
                                !changed ==> forall|e2: int, d2: int, y: int|
                                    #![trigger gk.dependencies@[e2]@[d2], marks@[y]]
                                    0 <= e2 < e && gk.owners@[e2]@ == keys@[i as int]@ && 0 <= d2
                                        < gk.dependencies@[e2].len() && 0 <= y < n && keys@[y]@
                                        == gk.dependencies@[e2]@[d2]@ ==> marks@[y],
                                !changed ==> forall|d2: int, y: int|
                                    #![trigger gk.dependencies@[e as int]@[d2], marks@[y]]
                                    0 <= d2 < d && 0 <= y < n && keys@[y]@
                                        == gk.dependencies@[e as int]@[d2]@ ==> marks@[y],
                            decreases deps.len() - d,
                        {
                            let ghost before = marks@;
                            let dk = &deps[d];
                            let step = mark_key(keys, &mut marks, dk);
                            proof {
                                assert(depends_on(graph@, keys@[i as int]@, dk@)) by {
                                    assert(graph@[e as int].dependencies@[d as int].key_view() == dk@);
                                }
                                assert forall|s: Set<Seq<char>>| #[trigger] reach_good(s, root_set, graph@, kv) implies forall|x: int|
                                    0 <= x < n && marks@[x] ==> s.contains(keys@[x]@) by {
                                    assert forall|x: int| 0 <= x < n && marks@[x] implies s.contains(keys@[x]@) by {
                                        if !before[x] {
                                            assert(keys@[x]@ == dk@);
                                            assert(s.contains(keys@[i as int]@));
                                            assert(kv[x] == dk@);
                                            assert(has_key(kv, dk@));
                                            assert(s.contains(keys@[i as int]@) && depends_on(graph@, keys@[i as int]@, dk@));
                                        }
                                    }
                                }
                                assert forall|x: int, y: int| 0 <= x < n && 0 <= y < n && #[trigger] marks@[x] && keys@[x]@ == keys@[y]@ implies #[trigger] marks@[y] by {
                                    if before[x] {
                                        assert(before[y]);
                                    }
                                }
                                if !step {
                                    assert forall|y: int| 0 <= y < n && keys@[y]@ == dk@ implies #[trigger] marks@[y] by {
                                    }
                                }
                            }
                            if step {
                                changed = true;
                            }
                            d = d + 1;
                        }
                    }
                    e = e + 1;
                }
            }
            i = i + 1;
        }
        if !changed {
            break;
        }
    }
    proof {
        let result = marked_keys(kv, marks@);
        assert(reach_good(result, root_set, graph@, kv)) by {
            assert forall|k: Seq<char>| #[trigger] root_set.contains(k) && has_key(kv, k) implies result.contains(k) by {
                let x = choose|x: int| 0 <= x < keys.len() && roots@[x] && #[trigger] keys@[x]@ == k;
                assert(marks@[x]);
            }
            assert forall|a: Seq<char>, b: Seq<char>|
                #![trigger result.contains(a), depends_on(graph@, a, b)]
                result.contains(a) && depends_on(graph@, a, b) && has_key(kv, b) implies result.contains(b) by {
                let x = choose|x: int| 0 <= x < keys.len() && marks@[x] && #[trigger] keys@[x]@ == a;
                let (e, d) = choose|e: int, d: int|
                    #![trigger graph@[e].dependencies@[d]]
                    0 <= e < graph@.len() && 0 <= d < graph@[e].dependencies@.len() && graph@[e].owner.key_view()
                        == a && graph@[e].dependencies@[d].key_view() == b;
                let y = choose|y: int| 0 <= y < keys.len() && #[trigger] keys@[y]@ == b;
                assert(gk.dependencies@[e].len() == graph@[e].dependencies.len());
                assert(gk.owners@[e]@ == a);
                assert(gk.dependencies@[e]@[d]@ == b);
                assert(marks@[y]);
            }
        }
        assert forall|i: int| 0 <= i < keys.len() implies (#[trigger] marks@[i] <==> reachable_keys(
            root_set,
            graph@,
            kv,
        ).contains(keys@[i]@)) by {
            if marks@[i] {
                assert forall|s: Set<Seq<char>>| #[trigger] reach_good(s, root_set, graph@, kv) implies s.contains(keys@[i]@) by {
                }
            } else {
                if reachable_keys(root_set, graph@, kv).contains(keys@[i]@) {
                    assert(result.contains(keys@[i]@));
                    let x = choose|x: int| 0 <= x < keys.len() && marks@[x] && #[trigger] keys@[x]@ == keys@[i]@;
                    assert(marks@[i]);
                }
            }
        }
    }
    marks
}

} // verus!
