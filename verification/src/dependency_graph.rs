//! The graph of required dependencies checked before a removal: what the
//! profile recorded, completed with what the catalogs answer now.
use crate::domain::{DependencyType, InstalledMod, ModDependency, ProjectRef, ProviderId};
use crate::error::{fails_with, AppError};
use crate::graph::GraphEntry;
use crate::text::{join2, str_equal};
use vstd::prelude::*;

verus! {

pub open spec fn ref_keys(s: Seq<ProjectRef>) -> Seq<Seq<char>> {
    s.map_values(|r: ProjectRef| r.key_view())
}

/// `list` followed by each reference of `more` not listed yet.
pub open spec fn appended_unique(list: Seq<ProjectRef>, more: Seq<ProjectRef>) -> Seq<ProjectRef>
    decreases more.len(),
{
    if more.len() == 0 {
        list
    } else {
        let prev = appended_unique(list, more.drop_last());
        if ref_keys(prev).contains(more.last().key_view()) {
            prev
        } else {
            prev.push(more.last())
        }
    }
}

/// A graph as owner keys with their dependencies.
pub type GraphView = Seq<(Seq<char>, Seq<ProjectRef>)>;

pub open spec fn graph_view(g: Seq<GraphEntry>) -> GraphView {
    g.map_values(|e: GraphEntry| (e.owner.key_view(), e.dependencies@))
}

pub open spec fn position_of(g: GraphView, k: Seq<char>) -> Option<int>
    decreases g.len(),
{
    if g.len() == 0 {
        None
    } else if g.last().0 == k {
        Some(g.len() - 1)
    } else {
        position_of(g.drop_last(), k)
    }
}

/// The graph with `k` depending on `deps` (replacing what it had).
pub open spec fn with_dependencies(g: GraphView, k: Seq<char>, deps: Seq<ProjectRef>) -> GraphView {
    match position_of(g, k) {
        Some(i) => g.update(i, (k, deps)),
        None => g.push((k, deps)),
    }
}

/// The graph with `more` added to what `k` depends on, without repeats.
pub open spec fn with_more(g: GraphView, k: Seq<char>, more: Seq<ProjectRef>) -> GraphView {
    match position_of(g, k) {
        Some(i) => g.update(i, (k, appended_unique(g[i].1, more))),
        None => g.push((k, appended_unique(Seq::empty(), more))),
    }
}

/// What the profile recorded: each mod with a recorded list depends on it.
pub open spec fn recorded_graph(mods: Seq<InstalledMod>) -> GraphView
    decreases mods.len(),
{
    if mods.len() == 0 {
        Seq::empty()
    } else {
        let prev = recorded_graph(mods.drop_last());
        match mods.last().required_dependencies {
            Some(d) => with_dependencies(prev, mods.last().key_view(), d@),
            None => prev,
        }
    }
}

pub type Answer = (ProjectRef, Option<Vec<ProjectRef>>);

/// The recorded graph completed with the catalogs' answers, in order; an
/// answer of `None` is a mod whose dependencies could not be checked.
pub open spec fn checked_graph(base: GraphView, answers: Seq<Answer>) -> GraphView
    decreases answers.len(),
{
    if answers.len() == 0 {
        base
    } else {
        let prev = checked_graph(base, answers.drop_last());
        match answers.last().1 {
            Some(d) => with_more(prev, answers.last().0.key_view(), d@),
            None => prev,
        }
    }
}

pub open spec fn unchecked_count(answers: Seq<Answer>) -> nat
    decreases answers.len(),
{
    if answers.len() == 0 {
        0
    } else {
        unchecked_count(answers.drop_last()) + if answers.last().1 is None { 1nat } else { 0nat }
    }
}

proof fn lemma_unchecked_bound(answers: Seq<Answer>)
    ensures
        unchecked_count(answers) <= answers.len(),
    decreases answers.len(),
{
    if answers.len() > 0 {
        lemma_unchecked_bound(answers.drop_last());
    }
}

proof fn lemma_position(g: GraphView, k: Seq<char>)
    ensures
        match position_of(g, k) {
            Some(i) => 0 <= i < g.len() && g[i].0 == k && forall|j: int| i < j < g.len() ==> #[trigger] g[j].0 != k,
            None => forall|j: int| 0 <= j < g.len() ==> #[trigger] g[j].0 != k,
        },
    decreases g.len(),
{
    if g.len() > 0 {
        let t = g.drop_last();
        lemma_position(t, k);
        assert forall|j: int| 0 <= j < t.len() implies #[trigger] t[j] == g[j] by {}
        if g.last().0 != k {
            match position_of(t, k) {
                Some(i) => {
                    assert forall|j: int| i < j < g.len() implies #[trigger] g[j].0 != k by {
                        if j < t.len() {
                            assert(t[j] == g[j]);
                        }
                    }
                },
                None => {
                    assert forall|j: int| 0 <= j < g.len() implies #[trigger] g[j].0 != k by {
                        if j < t.len() {
                            assert(t[j] == g[j]);
                        }
                    }
                },
            }
        }
    }
}

/// No owner is listed twice.
pub open spec fn distinct_owners(g: GraphView) -> bool {
    forall|i: int, j: int| 0 <= i < j < g.len() ==> #[trigger] g[i].0 != #[trigger] g[j].0
}

proof fn lemma_updates_keep_owners_distinct(g: GraphView, k: Seq<char>, d: Seq<ProjectRef>)
    requires
        distinct_owners(g),
    ensures
        distinct_owners(with_dependencies(g, k, d)),
        distinct_owners(with_more(g, k, d)),
{
    lemma_position(g, k);
}

proof fn lemma_recorded_distinct(mods: Seq<InstalledMod>)
    ensures
        distinct_owners(recorded_graph(mods)),
    decreases mods.len(),
{
    if mods.len() > 0 {
        lemma_recorded_distinct(mods.drop_last());
        match mods.last().required_dependencies {
            Some(d) => lemma_updates_keep_owners_distinct(recorded_graph(mods.drop_last()), mods.last().key_view(), d@),
            None => {},
        }
    }
}

proof fn lemma_checked_distinct(base: GraphView, answers: Seq<Answer>)
    requires
        distinct_owners(base),
    ensures
        distinct_owners(checked_graph(base, answers)),
    decreases answers.len(),
{
    if answers.len() > 0 {
        lemma_checked_distinct(base, answers.drop_last());
        match answers.last().1 {
            Some(d) => lemma_updates_keep_owners_distinct(
                checked_graph(base, answers.drop_last()),
                answers.last().0.key_view(),
                d@,
            ),
            None => {},
        }
    }
}

fn find_owner(g: &Vec<GraphEntry>, k: &String) -> (r: Option<usize>)
    ensures
        match position_of(graph_view(g@), k@) {
            Some(i) => r == Some(i as usize) && i < g.len(),
            None => r is None,
        },
        r matches Some(j) ==> j < g.len() && position_of(graph_view(g@), k@) == Some(j as int),
{
    let ghost view = graph_view(g@);
    proof {
        lemma_position(view, k@);
    }
    let mut i: usize = g.len();
    while i > 0
        invariant
            i <= g.len(),
            view == graph_view(g@),
            forall|j: int| i <= j < g.len() ==> #[trigger] view[j].0 != k@,
            match position_of(view, k@) {
                Some(p) => 0 <= p < view.len() && view[p].0 == k@ && forall|j: int| p < j < view.len() ==> #[trigger] view[j].0 != k@,
                None => forall|j: int| 0 <= j < view.len() ==> #[trigger] view[j].0 != k@,
            },
        decreases i,
    {
        let owner = g[i - 1].owner.key();
        if str_equal(owner.as_str(), k.as_str()) {
            assert(view[i - 1].0 == k@);
            return Some(i - 1);
        }
        i = i - 1;
    }
    None
}

fn listed_ref(list: &Vec<ProjectRef>, r: &ProjectRef) -> (b: bool)
    ensures
        b == ref_keys(list@).contains(r.key_view()),
{
    let k = r.key();
    let mut i: usize = 0;
    while i < list.len()
        invariant
            i <= list.len(),
            k@ == r.key_view(),
            forall|j: int| 0 <= j < i ==> #[trigger] ref_keys(list@)[j] != k@,
        decreases list.len() - i,
    {
        let other = list[i].key();
        if str_equal(other.as_str(), k.as_str()) {
            assert(ref_keys(list@)[i as int] == k@);
            return true;
        }
        i = i + 1;
    }
    false
}

fn append_unique(list: &mut Vec<ProjectRef>, more: &Vec<ProjectRef>)
    ensures
        final(list)@ == appended_unique(old(list)@, more@),
{
    let ghost start = list@;
    let mut i: usize = 0;
    while i < more.len()
        invariant
            i <= more.len(),
            list@ == appended_unique(start, more@.take(i as int)),
        decreases more.len() - i,
    {
        proof {
            assert(more@.take(i + 1).drop_last() =~= more@.take(i as int));
        }
        if !listed_ref(list, &more[i]) {
            list.push(more[i].clone());
        }
        i = i + 1;
    }
    assert(more@.take(more.len() as int) =~= more@);
}

/// The dependency graph a removal is checked against, and how many mods
/// could not be checked: the profile's records, completed with each mod's
/// current required dependencies as the catalogs gave them (`None` where
/// they could not be read).
pub fn dependency_graph(mods: &Vec<InstalledMod>, answers: Vec<Answer>) -> (r: (Vec<GraphEntry>, usize))
    ensures
        graph_view(r.0@) == checked_graph(recorded_graph(mods@), answers@),
        distinct_owners(graph_view(r.0@)),
        r.1 == unchecked_count(answers@),
{
    proof {
        lemma_recorded_distinct(mods@);
        lemma_checked_distinct(recorded_graph(mods@), answers@);
    }
    let mut graph: Vec<GraphEntry> = Vec::new();
    let mut i: usize = 0;
    while i < mods.len()
        invariant
            i <= mods.len(),
            graph_view(graph@) == recorded_graph(mods@.take(i as int)),
        decreases mods.len() - i,
    {
        proof {
            assert(mods@.take(i + 1).drop_last() =~= mods@.take(i as int));
        }
        match &mods[i].required_dependencies {
            Some(deps) => {
                let owner = mods[i].as_ref();
                let key = owner.key();
                let copy = deps.clone();
                assert(copy@ =~= deps@);
                let ghost before = graph_view(graph@);
                match find_owner(&graph, &key) {
                    Some(j) => {
                        graph.set(j, GraphEntry { owner, dependencies: copy });
                        assert(graph_view(graph@) =~= before.update(j as int, (key@, deps@)));
                    },
                    None => {
                        graph.push(GraphEntry { owner, dependencies: copy });
                        assert(graph_view(graph@) =~= before.push((key@, deps@)));
                    },
                }
            },
            None => {},
        }
        i = i + 1;
    }
    assert(mods@.take(mods.len() as int) =~= mods@);
    let ghost base = graph_view(graph@);
    let ghost all = answers@;
    let mut rest = answers;
    let mut failures: usize = 0;
    let mut k: usize = 0;
    let n = rest.len();
    while rest.len() > 0
        invariant
            n == all.len(),
            k + rest.len() == n,
            rest@ == all.skip(k as int),
            graph_view(graph@) == checked_graph(base, all.take(k as int)),
            failures == unchecked_count(all.take(k as int)),
        decreases rest.len(),
    {
        let (owner, answer) = rest.remove(0);
        proof {
            assert(all.take(k + 1).drop_last() =~= all.take(k as int));
            assert(all.take(k + 1).last() == (owner, answer));
            lemma_unchecked_bound(all.take(k as int));
        }
        match answer {
            Some(deps) => {
                let key = owner.key();
                let ghost before = graph_view(graph@);
                match find_owner(&graph, &key) {
                    Some(j) => {
                        proof {
                            lemma_position(before, key@);
                        }
                        let mut current = Vec::new();
                        let entry_owner = graph[j].owner.clone();
                        std::mem::swap(&mut current, &mut graph[j].dependencies);
                        assert(current@ == before[j as int].1);
                        append_unique(&mut current, &deps);
                        graph.set(j, GraphEntry { owner: entry_owner, dependencies: current });
                        assert(graph_view(graph@) =~= before.update(
                            j as int,
                            (key@, appended_unique(before[j as int].1, deps@)),
                        ));
                    },
                    None => {
                        let mut current: Vec<ProjectRef> = Vec::new();
                        append_unique(&mut current, &deps);
                        graph.push(GraphEntry { owner, dependencies: current });
                        assert(graph_view(graph@) =~= before.push((key@, appended_unique(Seq::empty(), deps@))));
                    },
                }
            },
            None => {
                failures = failures + 1;
            },
        }
        k = k + 1;
        assert(rest@ =~= all.skip(k as int));
    }
    assert(all.take(n as int) =~= all);
    (graph, failures)
}

/// What a required dependency names: a project, or a version whose
/// project must be looked up.
#[derive(Debug)]
pub enum DependencyTarget {
    Project(ProjectRef),
    Version { provider: ProviderId, version_id: String },
}

/// How a required dependency is followed: by its project, else by its
/// version; one that names no catalog, or neither, cannot be followed.
pub fn dependency_target(dependency: &ModDependency) -> (r: Result<DependencyTarget, AppError>)
    ensures
        match dependency.provider {
            None => fails_with(r, "uma dependência obrigatória não informou o provedor"@),
            Some(p) => match (dependency.project_id, dependency.version_id) {
                (Some(id), _) => r matches Ok(DependencyTarget::Project(x)) && x.provider == p && x.project_id@ == id@,
                (None, Some(v)) => r matches Ok(DependencyTarget::Version { provider, version_id }) && provider == p
                    && version_id@ == v@,
                (None, None) => fails_with(r, "uma dependência obrigatória não informou projeto nem versão"@),
            },
        },
{
    let provider = match dependency.provider {
        Some(p) => p,
        None => {
            return Err(AppError::message("uma dependência obrigatória não informou o provedor"));
        },
    };
    match (&dependency.project_id, &dependency.version_id) {
        (Some(id), _) => Ok(DependencyTarget::Project(ProjectRef { provider, project_id: id.clone() })),
        (None, Some(v)) => Ok(DependencyTarget::Version { provider, version_id: v.clone() }),
        (None, None) => Err(AppError::message("uma dependência obrigatória não informou projeto nem versão")),
    }
}

/// Adds a followed dependency to the list, unless it is there already.
pub fn add_dependency(list: &mut Vec<ProjectRef>, project: ProjectRef)
    ensures
        ref_keys(old(list)@).contains(project.key_view()) ==> final(list)@ == old(list)@,
        !ref_keys(old(list)@).contains(project.key_view()) ==> final(list)@ == old(list)@.push(project),
{
    if !listed_ref(list, &project) {
        list.push(project);
    }
}

/// The error for an installed version the catalog no longer offers.
pub fn missing_version_error(version_number: &str) -> (r: AppError)
    ensures
        r matches AppError::Message(m) && m@ == "a versão instalada "@ + version_number@
            + " não está mais disponível"@,
{
    let head = join2("a versão instalada ", version_number);
    AppError::Message(join2(head.as_str(), " não está mais disponível"))
}

/// Only required dependencies are followed.
pub fn is_required(dependency: &ModDependency) -> (r: bool)
    ensures
        r == (dependency.dependency_type == DependencyType::Required),
{
    dependency.dependency_type == DependencyType::Required
}

} // verus!
