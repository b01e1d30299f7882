//! Completing a version's required dependencies from the other catalog's
//! metadata for the same project.
//!
//! The catalogs are asked by the caller; this module decides, one
//! dependency of the other catalog at a time, what is added.
use crate::domain::{DependencyType, ModDependency, ProjectRef, ProjectSummary, ProjectVersion, ProviderId};
use crate::domain::clone_opt_string;
use crate::provider_fallback::{identity_score_spec, projects_equivalent};
use vstd::prelude::*;

verus! {

/// The dependencies that are required, in order.
pub open spec fn required_of(deps: Seq<ModDependency>) -> Seq<ModDependency>
    decreases deps.len(),
{
    if deps.len() == 0 {
        Seq::empty()
    } else if deps.last().dependency_type == DependencyType::Required {
        required_of(deps.drop_last()).push(deps.last())
    } else {
        required_of(deps.drop_last())
    }
}

/// The required dependencies that name both catalog and project.
pub open spec fn named_refs(deps: Seq<ModDependency>) -> Seq<(ProviderId, Seq<char>)>
    decreases deps.len(),
{
    if deps.len() == 0 {
        Seq::empty()
    } else {
        let prev = named_refs(deps.drop_last());
        let d = deps.last();
        if d.dependency_type == DependencyType::Required && d.provider is Some && d.project_id is Some {
            prev.push((d.provider->0, d.project_id->0@))
        } else {
            prev
        }
    }
}

pub open spec fn ref_views(refs: Seq<ProjectRef>) -> Seq<(ProviderId, Seq<char>)> {
    refs.map_values(|r: ProjectRef| (r.provider, r.project_id@))
}

/// Some project of `s` can stand for `x`.
pub open spec fn has_equivalent(s: Seq<ProjectSummary>, x: ProjectSummary) -> bool {
    exists|k: int| 0 <= k < s.len() && identity_score_spec(#[trigger] s[k], x) > 0
}

/// No added project can stand for one added before it.
pub open spec fn distinct_additions(s: Seq<ProjectSummary>) -> bool {
    forall|i: int, j: int| 0 <= i < j < s.len() ==> identity_score_spec(#[trigger] s[i], #[trigger] s[j]) <= 0
}

/// A version's dependencies completed from the other catalog.
pub struct ReconciledDependencies {
    pub dependencies: Vec<ModDependency>,
    pub added_projects: Vec<ProjectSummary>,
    /// The catalog whose metadata supplied the additions.
    pub metadata_provider: ProviderId,
}

/// The dependency list of the other catalog being merged into a version's.
pub struct Reconciliation {
    /// The version's dependencies, followed by those added.
    pub dependencies: Vec<ModDependency>,
    /// The projects added, in order.
    pub added_projects: Vec<ProjectSummary>,
    /// The projects the version already requires, then those added.
    pub known_projects: Vec<ProjectSummary>,
    /// The catalog references already required.
    pub known_refs: Vec<ProjectRef>,
}

/// The required dependencies, in order.
pub fn required_only(deps: &Vec<ModDependency>) -> (r: Vec<ModDependency>)
    ensures
        r@ == required_of(deps@),
{
    let mut r: Vec<ModDependency> = Vec::new();
    let mut i: usize = 0;
    while i < deps.len()
        invariant
            i <= deps.len(),
            r@ == required_of(deps@.take(i as int)),
        decreases deps.len() - i,
    {
        proof {
            assert(deps@.take(i + 1).drop_last() =~= deps@.take(i as int));
        }
        if deps[i].dependency_type == DependencyType::Required {
            r.push(deps[i].clone());
        }
        i = i + 1;
    }
    assert(deps@.take(deps.len() as int) =~= deps@);
    r
}

impl Reconciliation {
    /// Starts from the version's own dependencies; `known_projects` are the
    /// projects its required dependencies resolved to.
    pub fn begin(version: &ProjectVersion, known_projects: Vec<ProjectSummary>) -> (r: Reconciliation)
        ensures
            r.dependencies@ == version.dependencies@,
            r.added_projects@.len() == 0,
            r.known_projects@ == known_projects@,
            ref_views(r.known_refs@) == named_refs(version.dependencies@),
    {
        let deps = &version.dependencies;
        let mut dependencies: Vec<ModDependency> = Vec::new();
        let mut refs: Vec<ProjectRef> = Vec::new();
        let mut i: usize = 0;
        while i < deps.len()
            invariant
                i <= deps.len(),
                dependencies@ == deps@.take(i as int),
                ref_views(refs@) == named_refs(deps@.take(i as int)),
            decreases deps.len() - i,
        {
            proof {
                assert(deps@.take(i + 1).drop_last() =~= deps@.take(i as int));
            }
            let d = &deps[i];
            if d.dependency_type == DependencyType::Required {
                match (d.provider, &d.project_id) {
                    (Some(provider), Some(project_id)) => {
                        let ghost before = refs@;
                        refs.push(ProjectRef { provider, project_id: project_id.clone() });
                        assert(ref_views(refs@) =~= ref_views(before).push((provider, project_id@)));
                    },
                    _ => {},
                }
            }
            dependencies.push(d.clone());
            i = i + 1;
            assert(dependencies@ =~= deps@.take(i as int));
        }
        assert(deps@.take(deps.len() as int) =~= deps@);
        Reconciliation { dependencies, added_projects: Vec::new(), known_projects, known_refs: refs }
    }

    /// A dependency of the other catalog is passed over, without looking it
    /// up in the version's own catalog, when it stands for the project
    /// itself or for a project already required.
    pub fn passes_over(&self, project: &ProjectSummary, alternate: &ProjectSummary) -> (r: bool)
        ensures
            r == (identity_score_spec(*project, *alternate) > 0 || has_equivalent(
                self.known_projects@,
                *alternate,
            )),
    {
        if projects_equivalent(project, alternate) {
            return true;
        }
        let mut i: usize = 0;
        while i < self.known_projects.len()
            invariant
                i <= self.known_projects.len(),
                forall|k: int| 0 <= k < i ==> identity_score_spec(#[trigger] self.known_projects@[k], *alternate) <= 0,
            decreases self.known_projects.len() - i,
        {
            if projects_equivalent(&self.known_projects[i], alternate) {
                return true;
            }
            i = i + 1;
        }
        false
    }

    fn knows_ref(&self, provider: ProviderId, project_id: &String) -> (r: bool)
        ensures
            r == ref_views(self.known_refs@).contains((provider, project_id@)),
    {
        let mut i: usize = 0;
        while i < self.known_refs.len()
            invariant
                i <= self.known_refs.len(),
                forall|k: int| 0 <= k < i ==> #[trigger] ref_views(self.known_refs@)[k] != (provider, project_id@),
            decreases self.known_refs.len() - i,
        {
            let r = &self.known_refs[i];
            if r.provider == provider && crate::text::str_equal(r.project_id.as_str(), project_id.as_str()) {
                assert(ref_views(self.known_refs@)[i as int] == (provider, project_id@));
                return true;
            }
            i = i + 1;
        }
        false
    }

    fn added_equivalent(&self, summary: &ProjectSummary) -> (r: bool)
        ensures
            r == has_equivalent(self.added_projects@, *summary),
    {
        let mut i: usize = 0;
        while i < self.added_projects.len()
            invariant
                i <= self.added_projects.len(),
                forall|k: int| 0 <= k < i ==> identity_score_spec(#[trigger] self.added_projects@[k], *summary) <= 0,
            decreases self.added_projects.len() - i,
        {
            if projects_equivalent(&self.added_projects[i], summary) {
                return true;
            }
            i = i + 1;
        }
        false
    }

    /// Takes in one required dependency of the other catalog, resolved to
    /// `alternate`; `preferred` is the same project found in the version's
    /// own catalog, if it was. The preferred project is recorded without a
    /// version, the alternate one with the dependency's version. Nothing is
    /// added when that reference is already required or an equivalent
    /// project was already added. Returns whether it was added.
    pub fn accept(
        &mut self,
        dependency: &ModDependency,
        alternate_ref: ProjectRef,
        alternate: ProjectSummary,
        preferred: Option<ProjectSummary>,
    ) -> (added: bool)
        ensures
            ({
                let (sel_provider, sel_id, sel_summary, sel_version) = match preferred {
                    Some(s) => (s.provider, s.project_id@, s, None),
                    None => (alternate_ref.provider, alternate_ref.project_id@, alternate, dependency.version_id),
                };
                &&& added == (!ref_views(old(self).known_refs@).contains((sel_provider, sel_id))
                    && !has_equivalent(old(self).added_projects@, sel_summary))
                &&& !added ==> *final(self) == *old(self)
                &&& distinct_additions(old(self).added_projects@) ==> distinct_additions(
                    final(self).added_projects@,
                )
                &&& added ==> {
                    &&& final(self).dependencies@.drop_last() == old(self).dependencies@
                    &&& final(self).dependencies@.len() == old(self).dependencies@.len() + 1
                    &&& final(self).dependencies@.last().provider == Some(sel_provider)
                    &&& final(self).dependencies@.last().project_id matches Some(id) && id@ == sel_id
                    &&& final(self).dependencies@.last().version_id == sel_version
                    &&& final(self).dependencies@.last().filename == dependency.filename
                    &&& final(self).dependencies@.last().dependency_type == DependencyType::Required
                    &&& final(self).added_projects@ == old(self).added_projects@.push(sel_summary)
                    &&& final(self).known_projects@.drop_last() == old(self).known_projects@
                    &&& final(self).known_projects@.len() == old(self).known_projects@.len() + 1
                    &&& final(self).known_projects@.last().same(sel_summary)
                    &&& ref_views(final(self).known_refs@) == ref_views(old(self).known_refs@).push(
                        (sel_provider, sel_id),
                    )
                }
            }),
    {
        let (selected_ref, selected, version_id) = match preferred {
            Some(summary) => {
                let r = ProjectRef { provider: summary.provider, project_id: summary.project_id.clone() };
                (r, summary, None)
            },
            None => (alternate_ref, alternate, clone_opt_string(&dependency.version_id)),
        };
        if self.knows_ref(selected_ref.provider, &selected_ref.project_id) {
            return false;
        }
        if self.added_equivalent(&selected) {
            return false;
        }
        let ghost old_refs = self.known_refs@;
        let ghost old_deps = self.dependencies@;
        self.dependencies.push(
            ModDependency {
                provider: Some(selected_ref.provider),
                project_id: Some(selected_ref.project_id.clone()),
                version_id,
                filename: clone_opt_string(&dependency.filename),
                dependency_type: DependencyType::Required,
            },
        );
        assert(self.dependencies@.drop_last() =~= old_deps);
        let ghost old_known = self.known_projects@;
        self.known_projects.push(selected.clone());
        assert(self.known_projects@.drop_last() =~= old_known);
        self.added_projects.push(selected);
        self.known_refs.push(selected_ref);
        assert(ref_views(self.known_refs@) =~= ref_views(old_refs).push(
            (self.known_refs@.last().provider, self.known_refs@.last().project_id@),
        ));
        true
    }

    /// The completed list, when anything was added.
    pub fn finish(self, metadata_provider: ProviderId) -> (r: Option<ReconciledDependencies>)
        ensures
            self.added_projects@.len() == 0 ==> r is None,
            self.added_projects@.len() > 0 ==> (r matches Some(done) && done.dependencies@
                == self.dependencies@ && done.added_projects@ == self.added_projects@
                && done.metadata_provider == metadata_provider),
    {
        if self.added_projects.len() == 0 {
            None
        } else {
            Some(
                ReconciledDependencies {
                    dependencies: self.dependencies,
                    added_projects: self.added_projects,
                    metadata_provider,
                },
            )
        }
    }
}

} // verus!
