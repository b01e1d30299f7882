//! Dependency resolution as a step machine.
//!
//! The caller starts a resolution, performs each requested catalog lookup and
//! hands the answer back; the machine decides what to visit next and finally
//! returns the plan.
use crate::domain::{
    clone_opt_string, project_key, provider_name, DependencyType, DownloadFile, InstallReason, InstalledMod, IssueSeverity,
    ManualDownload, ModDependency, OptionalDependencyChoice, ProfileTarget, ProjectRef, ProjectSummary,
    ProjectVersion, ProviderId, ResolutionEdge, ResolutionIssue, ResolutionIssueCode,
    ResolutionNode, ResolutionPlan,
};
use crate::error::AppError;
use crate::graph::{key_listed, listed};
use crate::provider_fallback::provider_label;
use crate::text::join2;
use vstd::prelude::*;

verus! {

/// Keeps the stronger of two reasons: a direct request is never downgraded,
/// and an explicitly chosen optional dependency outranks a required one.
pub open spec fn stronger(current: InstallReason, incoming: InstallReason) -> InstallReason {
    match (current, incoming) {
        (_, InstallReason::Requested) => InstallReason::Requested,
        (InstallReason::Required, InstallReason::Optional) => InstallReason::Optional,
        _ => current,
    }
}

/// The reason a project keeps when it is reached again.
pub fn stronger_reason(current: InstallReason, incoming: InstallReason) -> (r: InstallReason)
    ensures
        r == stronger(current, incoming),
{
    match (current, incoming) {
        (_, InstallReason::Requested) => InstallReason::Requested,
        (InstallReason::Required, InstallReason::Optional) => InstallReason::Optional,
        _ => current,
    }
}

/// A request made directly by the user is never downgraded, whatever reason arrives later.
pub proof fn lemma_requested_is_never_downgraded(incoming: InstallReason)
    ensures
        stronger(InstallReason::Requested, incoming) == InstallReason::Requested,
        stronger(incoming, InstallReason::Requested) == InstallReason::Requested,
{
}

/// Index of the file that is installed for a version: the first file marked
/// primary, else the first file.
pub open spec fn primary_index(files: Seq<DownloadFile>) -> Option<int> {
    if exists|i: int| 0 <= i < files.len() && #[trigger] files[i].primary {
        Some(choose|i: int| 0 <= i < files.len() && #[trigger] files[i].primary && forall|j: int| 0 <= j < i ==> !#[trigger] files[j].primary)
    } else if files.len() > 0 {
        Some(0)
    } else {
        None
    }
}

/// The file a version is installed from: its primary file, else its first.
pub fn primary_file(version: &ProjectVersion) -> (r: Option<&DownloadFile>)
    ensures
        match primary_index(version.files@) {
            Some(i) => r matches Some(f) && *f == version.files@[i],
            None => r is None,
        },
{
    let mut i: usize = 0;
    while i < version.files.len()
        invariant
            i <= version.files.len(),
            forall|j: int| 0 <= j < i ==> !#[trigger] version.files@[j].primary,
        decreases version.files.len() - i,
    {
        if version.files[i].primary {
            proof {
                let files = version.files@;
                assert(files[i as int].primary);
                let c = choose|c: int| 0 <= c < files.len() && #[trigger] files[c].primary && forall|j: int| 0 <= j < c ==> !#[trigger] files[j].primary;
                if c < i {
                } else if c > i {
                    assert(!files[i as int].primary);
                }
            }
            return Some(&version.files[i]);
        }
        i = i + 1;
    }
    if version.files.len() > 0 {
        Some(&version.files[0])
    } else {
        None
    }
}

/// The installed file of a version can be downloaded by the application.
pub open spec fn downloadable(version: ProjectVersion) -> bool {
    match primary_index(version.files@) {
        Some(i) => version.files@[i].url is Some,
        None => false,
    }
}

/// Bytes to download for a node: the size of its installed file when it is
/// new and can be downloaded.
pub open spec fn node_download_size(node: ResolutionNode) -> int {
    if !node.already_installed && downloadable(node.version) {
        version_file_size(node.version)
    } else {
        0
    }
}

pub open spec fn version_file_size(version: ProjectVersion) -> int {
    match primary_index(version.files@) {
        Some(i) => version.files@[i].size as int,
        None => 0,
    }
}

pub open spec fn total_download_size(nodes: Seq<ResolutionNode>) -> int
    decreases nodes.len(),
{
    if nodes.len() == 0 {
        0
    } else {
        total_download_size(nodes.drop_last()) + node_download_size(nodes.last())
    }
}

/// Some issue blocks installation.
pub open spec fn has_blocking_issue(issues: Seq<ResolutionIssue>) -> bool {
    exists|i: int| 0 <= i < issues.len() && #[trigger] issues[i].severity == IssueSeverity::Error
}

fn issue(
    code: ResolutionIssueCode,
    severity: IssueSeverity,
    message: String,
    project: Option<ProjectRef>,
) -> (r: ResolutionIssue)
    ensures
        r.code == code,
        r.severity == severity,
        r.message == message,
        r.project == project,
{
    ResolutionIssue { code, severity, message, project }
}

/// What the caller has to look up next in the catalogs.
#[derive(Debug)]
pub enum ResolveAction {
    /// Load the project page: `get_project(project_id)` of the project's provider.
    FetchProject(ProjectRef),
    /// Load the newest version compatible with the plan's target, or the given version.
    FetchCompatibleVersion { project: ProjectRef, version_id: Option<String> },
    /// Load a version by id to learn which project it belongs to.
    FetchVersion { provider: ProviderId, id: String },
    /// Load an optional dependency's project to show its name.
    FetchOptionalName(ProjectRef),
    /// The project's file cannot be downloaded by the application: look in
    /// the other catalog for an equivalent project whose version for the
    /// plan's target can be downloaded.
    FetchAlternate { project: ProjectRef, source: ProjectSummary },
    /// Compare the accepted version with the equivalent version in the other
    /// catalog: a required dependency declared only there joins the list.
    FetchReconciled { reference: ProjectRef, project: ProjectSummary, version: ProjectVersion },
}

/// The answer to the last action, as the catalog gave it.
#[derive(Debug)]
pub enum ResolveEvent {
    Project(Result<ProjectSummary, String>),
    CompatibleVersion(Result<Option<ProjectVersion>, String>),
    Version(Result<ProjectVersion, String>),
    OptionalName(Result<ProjectSummary, String>),
    /// The equivalent project found in the other catalog with its version, if any.
    Alternate(Option<(ProjectSummary, ProjectVersion)>),
    /// The version's dependencies completed from the other catalog, when
    /// anything was added.
    Reconciled(Option<Vec<ModDependency>>),
}

/// Either the next lookup, with the resolution that waits for it, or the finished plan.
#[derive(Debug)]
pub enum ResolveStep {
    Continue(DependencyResolution, ResolveAction),
    Finished(ResolutionPlan),
}

/// Where the visit of a project stands.
#[derive(Debug, Clone, Copy, PartialEq, Eq, Structural)]
enum Stage {
    AwaitProject,
    AwaitVersion,
    Dependencies,
    AwaitDependencyVersion,
    AwaitOptionalName,
    AwaitAlternate,
    AwaitReconciled,
}

/// A declared incompatibility: the project that declares it, by name, and
/// the project it cannot live with.
#[derive(Debug)]
struct Conflict {
    name: String,
    target: ProjectRef,
}

/// A project being visited; visits nest as required dependencies are followed.
#[derive(Debug)]
struct Frame {
    key: String,
    reference: ProjectRef,
    reason: InstallReason,
    parent_key: Option<String>,
    version_id: Option<String>,
    project: Option<ProjectSummary>,
    dependencies: Vec<ModDependency>,
    next: usize,
    stage: Stage,
    child: Option<ProjectRef>,
    held: Option<ProjectVersion>,
}

/// A resolution in progress.
#[derive(Debug)]
pub struct DependencyResolution {
    target: ProfileTarget,
    installed_keys: Vec<String>,
    installed_versions: Vec<String>,
    selected: Vec<String>,
    modrinth_enabled: bool,
    curseforge_enabled: bool,
    roots: Vec<ProjectRef>,
    next_root: usize,
    nodes: Vec<ResolutionNode>,
    edges: Vec<ResolutionEdge>,
    issues: Vec<ResolutionIssue>,
    optional_dependencies: Vec<OptionalDependencyChoice>,
    manual_downloads: Vec<ManualDownload>,
    conflicts: Vec<Conflict>,
    visited: Vec<String>,
    frames: Vec<Frame>,
}

/// A dependency of the node with key `from`, naming its project, was taken
/// up in the plan: a required one leads there by an edge and that project is
/// installed or reported; an optional one leads there by an edge, is offered,
/// and is installed or reported when selected; an incompatible one leads
/// there by an edge; an embedded file needs nothing.
pub open spec fn plan_dependency_followed(
    plan: ResolutionPlan,
    selected: Seq<Seq<char>>,
    from: Seq<char>,
    d: ModDependency,
) -> bool {
    match (d.provider, d.project_id) {
        (Some(p), Some(id)) => {
            let c = project_key(p, id@);
            match d.dependency_type {
                DependencyType::Required => has_edge(plan.edges@, from, c, DependencyType::Required) && covered(
                    plan.nodes@,
                    plan.issues@,
                    c,
                ),
                DependencyType::Optional => {
                    &&& has_edge(plan.edges@, from, c, DependencyType::Optional)
                    &&& offered(plan.optional_dependencies@, ProjectRef { provider: p, project_id: id })
                    &&& selected.contains(c) ==> covered(plan.nodes@, plan.issues@, c)
                },
                DependencyType::Incompatible => has_edge(plan.edges@, from, c, DependencyType::Incompatible),
                DependencyType::Embedded => true,
            }
        },
        _ => true,
    }
}

/// The plan agrees with what was asked for: each project appears once, an
/// optional dependency enters only when the user selected it, a project asked
/// for directly keeps that reason, the offered optional dependencies say
/// whether they were selected and name each project once, every required
/// dependency found is installed or reported, the dependencies of every node
/// were taken up and no edge stands for an embedded file, installation is allowed exactly when something
/// was resolved and nothing blocks it, and the download size adds up the new
/// files that can be downloaded.
pub open spec fn plan_respects_choices(
    plan: ResolutionPlan,
    roots: Seq<ProjectRef>,
    selected: Seq<Seq<char>>,
) -> bool {
    &&& forall|i: int, j: int|
        0 <= i < j < plan.nodes.len() ==> #[trigger] plan.nodes@[i].key@ != #[trigger] plan.nodes@[j].key@
    &&& forall|i: int|
        0 <= i < plan.nodes.len() && #[trigger] plan.nodes@[i].reason == InstallReason::Optional
            ==> selected.contains(plan.nodes@[i].key@)
    &&& forall|i: int, r: int|
        0 <= i < plan.nodes.len() && 0 <= r < roots.len() && #[trigger] plan.nodes@[i].key@
            == #[trigger] roots[r].key_view() ==> plan.nodes@[i].reason == InstallReason::Requested
    &&& forall|i: int|
        0 <= i < plan.optional_dependencies.len() ==> (#[trigger] plan.optional_dependencies@[i].selected
            <==> selected.contains(plan.optional_dependencies@[i].project.key_view()))
    &&& distinct_choices(plan.optional_dependencies@)
    &&& forall|e: int|
        0 <= e < plan.edges.len() && (#[trigger] plan.edges@[e]).dependency_type == DependencyType::Required
            ==> covered(plan.nodes@, plan.issues@, plan.edges@[e].to@)
    &&& forall|e: int| 0 <= e < plan.edges.len() ==> (#[trigger] plan.edges@[e]).dependency_type != DependencyType::Embedded
    &&& forall|n: int, j: int|
        0 <= n < plan.nodes.len() && 0 <= j < plan.nodes@[n].version.dependencies.len() ==> plan_dependency_followed(
            plan,
            selected,
            plan.nodes@[n].key@,
            #[trigger] plan.nodes@[n].version.dependencies@[j],
        )
    &&& plan.can_install == (plan.nodes.len() > 0 && !has_blocking_issue(plan.issues@))
    &&& plan.downloadable_bytes == if total_download_size(plan.nodes@) > u64::MAX {
        u64::MAX as int
    } else {
        total_download_size(plan.nodes@)
    }
}

/// The lookup a visit waits for in its stage: the project's page, its
/// compatible version, the version its current dependency names, or the
/// page of the optional dependency being offered.
spec fn awaited(f: Frame) -> ResolveAction {
    match f.stage {
        Stage::AwaitProject => ResolveAction::FetchProject(f.reference),
        Stage::AwaitVersion => ResolveAction::FetchCompatibleVersion { project: f.reference, version_id: f.version_id },
        Stage::AwaitDependencyVersion => ResolveAction::FetchVersion {
            provider: f.dependencies@[f.next as int].provider->0,
            id: f.dependencies@[f.next as int].version_id->0,
        },
        _ => ResolveAction::FetchOptionalName(f.child->0),
    }
}

/// `a` is the lookup the visit waits for; the page handed to a search in the
/// other catalog is a copy of the one the visit holds.
spec fn answers(f: Frame, a: ResolveAction) -> bool {
    if f.stage == Stage::AwaitAlternate {
        a matches ResolveAction::FetchAlternate { project, source } && project == f.reference
            && source.same(f.project->0)
    } else if f.stage == Stage::AwaitReconciled {
        a matches ResolveAction::FetchReconciled { reference, project, version } && reference == f.reference
            && project.same(f.project->0) && version.same(f.held->0)
    } else {
        a == awaited(f)
    }
}

/// The innermost visit exists, waits for a lookup, and `a` is that lookup.
spec fn waits_for(frames: Seq<Frame>, a: ResolveAction) -> bool {
    &&& frames.len() > 0
    &&& frames.last().stage != Stage::Dependencies
    &&& answers(frames.last(), a)
}

/// The visit has no node yet: its page, its version or a downloadable copy
/// of it is still awaited.
spec fn unsettled(s: Stage) -> bool {
    s == Stage::AwaitProject || s == Stage::AwaitVersion || s == Stage::AwaitAlternate || s == Stage::AwaitReconciled
}

/// The first items of `old` stand unchanged at the start of `new`.
pub open spec fn prefix_kept<T>(old: Seq<T>, new: Seq<T>) -> bool {
    &&& old.len() <= new.len()
    &&& forall|i: int| 0 <= i < old.len() ==> #[trigger] new[i] == old[i]
}

/// Every node of `old` is still in `new`, at its place, for the same
/// project, version and installed state; only its reason and parent may have
/// been updated since.
pub open spec fn nodes_kept(old: Seq<ResolutionNode>, new: Seq<ResolutionNode>) -> bool {
    &&& old.len() <= new.len()
    &&& forall|i: int|
        0 <= i < old.len() ==> (#[trigger] new[i]).key == old[i].key && new[i].project == old[i].project
            && new[i].version == old[i].version && new[i].already_installed == old[i].already_installed
}

/// Nothing the resolution found is taken back: nodes, edges, issues,
/// offered choices and manual downloads only grow.
spec fn grew(old: DependencyResolution, new: DependencyResolution) -> bool {
    &&& nodes_kept(old.nodes@, new.nodes@)
    &&& prefix_kept(old.edges@, new.edges@)
    &&& prefix_kept(old.issues@, new.issues@)
    &&& prefix_kept(old.optional_dependencies@, new.optional_dependencies@)
    &&& prefix_kept(old.manual_downloads@, new.manual_downloads@)
}

/// The plan installs the project with this key, or reports an issue about it.
pub open spec fn covered(nodes: Seq<ResolutionNode>, issues: Seq<ResolutionIssue>, k: Seq<char>) -> bool {
    ||| exists|n: int| 0 <= n < nodes.len() && (#[trigger] nodes[n]).key@ == k
    ||| exists|i: int|
        0 <= i < issues.len() && (#[trigger] issues[i]).project is Some && issues[i].project->0.key_view() == k
}

/// Each declared incompatibility with a mod already in the profile is
/// reported as a blocking issue about that mod.
pub open spec fn conflicts_reported(
    edges: Seq<ResolutionEdge>,
    issues: Seq<ResolutionIssue>,
    installed: Seq<Seq<char>>,
    nodes: Seq<ResolutionNode>,
) -> bool {
    forall|e: int|
        0 <= e < edges.len() && (#[trigger] edges[e]).dependency_type == DependencyType::Incompatible && (
        installed.contains(edges[e].to@) || exists|n: int| 0 <= n < nodes.len() && (#[trigger] nodes[n]).key@ == edges[e].to@)
            ==> conflict_reported(issues, edges[e].to@)
}

/// A blocking issue reports an incompatibility with the project with this key.
pub open spec fn conflict_reported(issues: Seq<ResolutionIssue>, k: Seq<char>) -> bool {
    exists|i: int|
        0 <= i < issues.len() && (#[trigger] issues[i]).code == ResolutionIssueCode::IncompatibleMod
            && issues[i].severity == IssueSeverity::Error && issues[i].project is Some && issues[i].project->0.key_view() == k
}

/// Every finished visit, and every visit past its version, left a node or
/// an issue; every required dependency found was visited or is being visited;
/// every incompatibility with an installed mod was reported.
spec fn accounts(r: DependencyResolution) -> bool {
    &&& forall|v: Seq<char>| #[trigger] listed(r.visited@, v) ==> covered(r.nodes@, r.issues@, v)
    &&& forall|i: int|
        0 <= i < r.frames@.len() && !unsettled(#[trigger] r.frames@[i].stage) ==> covered(
            r.nodes@,
            r.issues@,
            r.frames@[i].key@,
        )
    &&& forall|e: int|
        0 <= e < r.edges@.len() && (#[trigger] r.edges@[e]).dependency_type == DependencyType::Required ==> listed(
            r.visited@,
            r.edges@[e].to@,
        ) || in_frames(r.frames@, r.edges@[e].to@)
}

/// An edge of this type leads from one project to the other.
pub open spec fn has_edge(edges: Seq<ResolutionEdge>, from: Seq<char>, to: Seq<char>, t: DependencyType) -> bool {
    exists|e: int|
        0 <= e < edges.len() && (#[trigger] edges[e]).from@ == from && edges[e].to@ == to && edges[e].dependency_type == t
}

/// A dependency of the project with key `from`, naming its project, has
/// been taken up: a required one leads there by an edge and that project has
/// been or is being visited; an optional one leads there by an edge, is
/// offered, and is visited when selected; an incompatible one leads there by
/// an edge; an embedded file needs nothing.
spec fn dependency_followed(r: DependencyResolution, from: Seq<char>, d: ModDependency) -> bool {
    match (d.provider, d.project_id) {
        (Some(p), Some(id)) => {
            let c = project_key(p, id@);
            let reached = listed(r.visited@, c) || in_frames(r.frames@, c);
            match d.dependency_type {
                DependencyType::Required => has_edge(r.edges@, from, c, DependencyType::Required) && reached,
                DependencyType::Optional => {
                    &&& has_edge(r.edges@, from, c, DependencyType::Optional)
                    &&& offered(r.optional_dependencies@, ProjectRef { provider: p, project_id: id })
                    &&& listed(r.selected@, c) ==> reached
                },
                DependencyType::Incompatible => has_edge(r.edges@, from, c, DependencyType::Incompatible),
                DependencyType::Embedded => true,
            }
        },
        _ => true,
    }
}

/// Every recorded incompatibility whose project is in the profile or in the
/// plan has been reported.
spec fn sweep_done(r: DependencyResolution) -> bool {
    forall|d: int|
        0 <= d < r.conflicts@.len() && (listed(r.installed_keys@, (#[trigger] r.conflicts@[d]).target.key_view()) || exists|n: int|
            0 <= n < r.nodes@.len() && (#[trigger] r.nodes@[n]).key@ == r.conflicts@[d].target.key_view())
            ==> conflict_reported(r.issues@, r.conflicts@[d].target.key_view())
}

/// Once every visit is over, what the resolution took up holds of the plan.
proof fn lemma_plan_follows(r: DependencyResolution, plan: ResolutionPlan)
    requires
        follows(r),
        accounts(r),
        r.frames@.len() == 0,
        plan.nodes@ == r.nodes@,
        plan.edges@ == r.edges@,
        plan.issues@ == r.issues@,
        plan.optional_dependencies@ == r.optional_dependencies@,
    ensures
        forall|e: int| 0 <= e < plan.edges.len() ==> (#[trigger] plan.edges@[e]).dependency_type != DependencyType::Embedded,
        forall|n: int, j: int|
            0 <= n < plan.nodes.len() && 0 <= j < plan.nodes@[n].version.dependencies.len() ==> plan_dependency_followed(
                plan,
                r.selected@.map_values(|s: String| s@),
                plan.nodes@[n].key@,
                #[trigger] plan.nodes@[n].version.dependencies@[j],
            ),
{
    let selected = r.selected@.map_values(|s: String| s@);
    assert forall|n: int, j: int|
        0 <= n < plan.nodes.len() && 0 <= j < plan.nodes@[n].version.dependencies.len() implies plan_dependency_followed(
        plan,
        selected,
        plan.nodes@[n].key@,
        #[trigger] plan.nodes@[n].version.dependencies@[j],
    ) by {
        let key = plan.nodes@[n].key@;
        let d = plan.nodes@[n].version.dependencies@[j];
        assert(!in_frames(r.frames@, key));
        assert(dependency_followed(r, key, d));
        match (d.provider, d.project_id) {
            (Some(p), Some(id)) => {
                let c = project_key(p, id@);
                assert(!in_frames(r.frames@, c));
                lemma_selected_contains(r.selected@, c);
                if listed(r.visited@, c) {
                    assert(covered(r.nodes@, r.issues@, c));
                }
            },
            _ => {},
        }
    }
}

/// Some recorded conflict is with the project with this key.
spec fn has_conflict(conflicts: Seq<Conflict>, to: Seq<char>) -> bool {
    exists|c: int| 0 <= c < conflicts.len() && (#[trigger] conflicts[c]).target.key_view() == to
}

/// Every project reached before is still reached: visited, or being visited.
spec fn reach_kept(old: DependencyResolution, new: DependencyResolution) -> bool {
    forall|c: Seq<char>|
        #![trigger listed(old.visited@, c)]
        #![trigger in_frames(old.frames@, c)]
        listed(old.visited@, c) || in_frames(old.frames@, c) ==> listed(new.visited@, c) || in_frames(new.frames@, c)
}

/// The dependencies of every node have been taken up: all of them once its
/// visit is over, those before the current one while it is open (the open
/// visit goes through exactly its node's dependencies); no edge stands for an
/// embedded file, and every incompatibility edge has its conflict recorded.
spec fn follows(r: DependencyResolution) -> bool {
    let frames = r.frames@;
    let nodes = r.nodes@;
    &&& forall|e: int| 0 <= e < r.edges@.len() ==> (#[trigger] r.edges@[e]).dependency_type != DependencyType::Embedded
    &&& forall|e: int|
        0 <= e < r.edges@.len() && (#[trigger] r.edges@[e]).dependency_type == DependencyType::Incompatible
            ==> has_conflict(r.conflicts@, r.edges@[e].to@)
    &&& forall|i: int, n: int|
        0 <= i < frames.len() && 0 <= n < nodes.len() && (#[trigger] frames[i]).key@ == (#[trigger] nodes[n]).key@
            ==> frames[i].dependencies@ == nodes[n].version.dependencies@
    &&& forall|i: int, n: int, j: int|
        #![trigger frames[i].dependencies@[j], nodes[n]]
        0 <= i < frames.len() && 0 <= n < nodes.len() && frames[i].key@ == nodes[n].key@ && 0 <= j < frames[i].next
            ==> dependency_followed(r, nodes[n].key@, frames[i].dependencies@[j])
    &&& forall|n: int, j: int|
        0 <= n < nodes.len() && 0 <= j < nodes[n].version.dependencies.len() && !in_frames(frames, nodes[n].key@)
            ==> dependency_followed(r, nodes[n].key@, #[trigger] nodes[n].version.dependencies@[j])
    &&& stage_facts(r)
}

/// What a visit waiting on its current dependency knows of it: one looked up
/// by version names no project and is no embedded file; one being offered
/// names its project, and the edge to it is already there.
spec fn stage_facts(r: DependencyResolution) -> bool {
    let frames = r.frames@;
    &&& forall|i: int|
        0 <= i < frames.len() && #[trigger] frames[i].stage == Stage::AwaitDependencyVersion ==> {
            let d = frames[i].dependencies@[frames[i].next as int];
            &&& d.project_id is None
            &&& d.dependency_type != DependencyType::Embedded
        }
    &&& forall|i: int|
        0 <= i < frames.len() && #[trigger] frames[i].stage == Stage::AwaitOptionalName ==> {
            let d = frames[i].dependencies@[frames[i].next as int];
            &&& d.provider is Some
            &&& d.dependency_type == DependencyType::Optional
            &&& d.project_id is Some ==> frames[i].child == Some(
                ProjectRef { provider: d.provider->0, project_id: d.project_id->0 },
            )
            &&& has_edge(r.edges@, frames[i].key@, (frames[i].child->0).key_view(), DependencyType::Optional)
        }
}

/// The open visits are where they were: same projects, same dependency
/// lists, same place in them.
spec fn same_progress(old: Seq<Frame>, new: Seq<Frame>) -> bool {
    &&& new.len() == old.len()
    &&& forall|i: int|
        0 <= i < old.len() ==> (#[trigger] new[i]).key == old[i].key && new[i].next == old[i].next
            && new[i].dependencies@ == old[i].dependencies@
}

/// The dependencies taken up stay taken up when no node is added and the open
/// visits keep their place, while edges, choices and visits only grow.
proof fn lemma_follows_kept(old: DependencyResolution, new: DependencyResolution)
    requires
        follows(old),
        nodes_kept(old.nodes@, new.nodes@),
        new.nodes.len() == old.nodes.len(),
        prefix_kept(old.edges@, new.edges@),
        prefix_kept(old.optional_dependencies@, new.optional_dependencies@),
        new.selected@ == old.selected@,
        reach_kept(old, new),
        same_progress(old.frames@, new.frames@),
        prefix_kept(old.conflicts@, new.conflicts@),
        forall|e: int|
            old.edges@.len() <= e < new.edges@.len() ==> (#[trigger] new.edges@[e]).dependency_type != DependencyType::Embedded,
        forall|e: int|
            old.edges@.len() <= e < new.edges@.len() && (#[trigger] new.edges@[e]).dependency_type == DependencyType::Incompatible
                ==> has_conflict(new.conflicts@, new.edges@[e].to@),
        stage_facts(new),
    ensures
        follows(new),
{
    let frames = new.frames@;
    let nodes = new.nodes@;
    assert forall|e: int| 0 <= e < new.edges@.len() implies (#[trigger] new.edges@[e]).dependency_type != DependencyType::Embedded by {
        if e < old.edges@.len() {
            assert(new.edges@[e] == old.edges@[e]);
        }
    }
    assert forall|e: int|
        0 <= e < new.edges@.len() && (#[trigger] new.edges@[e]).dependency_type == DependencyType::Incompatible
            implies has_conflict(new.conflicts@, new.edges@[e].to@) by {
        if e < old.edges@.len() {
            assert(new.edges@[e] == old.edges@[e]);
            let c = choose|c: int| 0 <= c < old.conflicts@.len() && (#[trigger] old.conflicts@[c]).target.key_view() == old.edges@[e].to@;
            assert(new.conflicts@[c] == old.conflicts@[c]);
        }
    }
    assert forall|k: Seq<char>| in_frames(frames, k) == in_frames(old.frames@, k) by {
        if in_frames(frames, k) {
            let i = choose|i: int| 0 <= i < frames.len() && #[trigger] frames[i].key@ == k;
            assert(old.frames@[i].key@ == k);
        }
        if in_frames(old.frames@, k) {
            let i = choose|i: int| 0 <= i < old.frames@.len() && #[trigger] old.frames@[i].key@ == k;
            assert(frames[i].key@ == k);
        }
    }
    assert forall|i: int, n: int|
        0 <= i < frames.len() && 0 <= n < nodes.len() && (#[trigger] frames[i]).key@ == (#[trigger] nodes[n]).key@
            implies frames[i].dependencies@ == nodes[n].version.dependencies@ by {
        assert(old.frames@[i].key == frames[i].key);
        assert(old.nodes@[n].key == nodes[n].key);
        assert(old.frames@[i].dependencies@ == old.nodes@[n].version.dependencies@);
    }
    assert forall|i: int, n: int, j: int|
        #![trigger frames[i].dependencies@[j], nodes[n]]
        0 <= i < frames.len() && 0 <= n < nodes.len() && frames[i].key@ == nodes[n].key@ && 0 <= j < frames[i].next
            implies dependency_followed(new, nodes[n].key@, frames[i].dependencies@[j]) by {
        assert(old.frames@[i].dependencies@[j] == frames[i].dependencies@[j]);
        assert(old.nodes@[n].key == nodes[n].key);
        assert(dependency_followed(old, old.nodes@[n].key@, old.frames@[i].dependencies@[j]));
        lemma_followed_kept(old, new, nodes[n].key@, frames[i].dependencies@[j]);
    }
    assert forall|n: int, j: int|
        0 <= n < nodes.len() && 0 <= j < nodes[n].version.dependencies.len() && !in_frames(frames, nodes[n].key@)
            implies dependency_followed(new, nodes[n].key@, #[trigger] nodes[n].version.dependencies@[j]) by {
        assert(old.nodes@[n].key == nodes[n].key && old.nodes@[n].version == nodes[n].version);
        assert(dependency_followed(old, old.nodes@[n].key@, old.nodes@[n].version.dependencies@[j]));
        lemma_followed_kept(old, new, nodes[n].key@, nodes[n].version.dependencies@[j]);
    }
}

/// A new edge keeps everything taken up, as long as it stands for no
/// embedded file, an incompatibility has its conflict recorded and a
/// required dependency has been or is being visited.
proof fn lemma_edge_pushed(old: DependencyResolution, new: DependencyResolution)
    requires
        follows(old),
        accounts(old),
        new.edges@.len() == old.edges@.len() + 1,
        new.edges@.drop_last() == old.edges@,
        new.frames@ == old.frames@,
        new.nodes@ == old.nodes@,
        new.visited@ == old.visited@,
        new.issues@ == old.issues@,
        new.optional_dependencies@ == old.optional_dependencies@,
        new.selected@ == old.selected@,
        prefix_kept(old.conflicts@, new.conflicts@),
        new.edges@.last().dependency_type != DependencyType::Embedded,
        new.edges@.last().dependency_type == DependencyType::Incompatible ==> has_conflict(new.conflicts@, new.edges@.last().to@),
        new.edges@.last().dependency_type == DependencyType::Required ==> listed(new.visited@, new.edges@.last().to@)
            || in_frames(new.frames@, new.edges@.last().to@),
    ensures
        follows(new),
        accounts(new),
{
    let last = old.edges@.len() as int;
    assert forall|e: int| 0 <= e < old.edges@.len() implies #[trigger] new.edges@[e] == old.edges@[e] by {
        assert(new.edges@.drop_last()[e] == new.edges@[e]);
    }
    assert forall|e: int|
        0 <= e < new.edges@.len() && (#[trigger] new.edges@[e]).dependency_type == DependencyType::Incompatible
            implies has_conflict(new.conflicts@, new.edges@[e].to@) by {
        if e < last {
            let c = choose|c: int| 0 <= c < old.conflicts@.len() && (#[trigger] old.conflicts@[c]).target.key_view() == old.edges@[e].to@;
            assert(new.conflicts@[c] == old.conflicts@[c]);
        }
    }
    assert forall|e: int|
        0 <= e < new.edges@.len() && (#[trigger] new.edges@[e]).dependency_type == DependencyType::Required implies listed(
        new.visited@,
        new.edges@[e].to@,
    ) || in_frames(new.frames@, new.edges@[e].to@) by {
        if e < last {
            assert(new.edges@[e] == old.edges@[e]);
        }
    }
    assert(stage_facts(new)) by {
        assert forall|i: int| 0 <= i < new.frames@.len() && #[trigger] new.frames@[i].stage == Stage::AwaitOptionalName implies has_edge(
            new.edges@,
            new.frames@[i].key@,
            (new.frames@[i].child->0).key_view(),
            DependencyType::Optional,
        ) by {
            let e = choose|e: int|
                0 <= e < old.edges@.len() && (#[trigger] old.edges@[e]).from@ == old.frames@[i].key@ && old.edges@[e].to@
                    == (old.frames@[i].child->0).key_view() && old.edges@[e].dependency_type == DependencyType::Optional;
            assert(new.edges@[e] == old.edges@[e]);
        }
    }
    lemma_follows_kept(old, new);
}

/// Resetting the innermost visit, which has no node, to another dependency
/// list keeps everything taken up.
proof fn lemma_follows_top_reset(old: DependencyResolution, new: DependencyResolution)
    requires
        follows(old),
        old.frames@.len() > 0,
        new.frames@.len() == old.frames@.len(),
        forall|i: int| 0 <= i < old.frames@.len() - 1 ==> #[trigger] new.frames@[i] == old.frames@[i],
        new.frames@.last().key == old.frames@.last().key,
        new.frames@.last().stage == Stage::Dependencies,
        forall|n: int| 0 <= n < old.nodes@.len() ==> (#[trigger] old.nodes@[n]).key@ != old.frames@.last().key@,
        new.nodes@ == old.nodes@,
        new.edges@ == old.edges@,
        new.visited@ == old.visited@,
        new.conflicts@ == old.conflicts@,
        prefix_kept(old.optional_dependencies@, new.optional_dependencies@),
        new.selected@ == old.selected@,
    ensures
        follows(new),
{
    let frames = new.frames@;
    let nodes = new.nodes@;
    let t = frames.len() - 1;
    assert forall|k: Seq<char>| in_frames(frames, k) == in_frames(old.frames@, k) by {
        if in_frames(frames, k) {
            let i = choose|i: int| 0 <= i < frames.len() && #[trigger] frames[i].key@ == k;
            assert(old.frames@[i].key@ == k);
        }
        if in_frames(old.frames@, k) {
            let i = choose|i: int| 0 <= i < old.frames@.len() && #[trigger] old.frames@[i].key@ == k;
            assert(frames[i].key@ == k);
        }
    }
    assert(reach_kept(old, new));
    assert forall|i: int, n: int|
        0 <= i < frames.len() && 0 <= n < nodes.len() && (#[trigger] frames[i]).key@ == (#[trigger] nodes[n]).key@
            implies frames[i].dependencies@ == nodes[n].version.dependencies@ by {
        assert(i != t);
        assert(frames[i] == old.frames@[i]);
    }
    assert forall|i: int, n: int, j: int|
        #![trigger frames[i].dependencies@[j], nodes[n]]
        0 <= i < frames.len() && 0 <= n < nodes.len() && frames[i].key@ == nodes[n].key@ && 0 <= j < frames[i].next
            implies dependency_followed(new, nodes[n].key@, frames[i].dependencies@[j]) by {
        assert(i != t);
        assert(frames[i] == old.frames@[i]);
        lemma_followed_kept(old, new, nodes[n].key@, frames[i].dependencies@[j]);
    }
    assert forall|n: int, j: int|
        0 <= n < nodes.len() && 0 <= j < nodes[n].version.dependencies.len() && !in_frames(frames, nodes[n].key@)
            implies dependency_followed(new, nodes[n].key@, #[trigger] nodes[n].version.dependencies@[j]) by {
        lemma_followed_kept(old, new, nodes[n].key@, nodes[n].version.dependencies@[j]);
    }
    assert(stage_facts(new)) by {
        assert forall|i: int| 0 <= i < frames.len() && #[trigger] frames[i].stage != Stage::Dependencies implies frames[i]
            == old.frames@[i] by {}
    }
}

/// Opening a visit of a project with no node keeps everything taken up.
proof fn lemma_follows_frame_pushed(old: DependencyResolution, new: DependencyResolution)
    requires
        follows(old),
        new.frames@.len() == old.frames@.len() + 1,
        new.frames@.drop_last() == old.frames@,
        new.frames@.last().stage == Stage::AwaitProject,
        forall|n: int| 0 <= n < old.nodes@.len() ==> (#[trigger] old.nodes@[n]).key@ != new.frames@.last().key@,
        new.nodes@ == old.nodes@,
        new.edges@ == old.edges@,
        new.visited@ == old.visited@,
        new.conflicts@ == old.conflicts@,
        new.optional_dependencies@ == old.optional_dependencies@,
        new.selected@ == old.selected@,
    ensures
        follows(new),
{
    let frames = new.frames@;
    let nodes = new.nodes@;
    let t = old.frames@.len() as int;
    assert forall|i: int| 0 <= i < t implies #[trigger] frames[i] == old.frames@[i] by {
        assert(frames.drop_last()[i] == frames[i]);
    }
    assert(reach_kept(old, new)) by {
        assert forall|k: Seq<char>| in_frames(old.frames@, k) implies in_frames(frames, k) by {
            let i = choose|i: int| 0 <= i < old.frames@.len() && #[trigger] old.frames@[i].key@ == k;
            assert(frames[i].key@ == k);
        }
    }
    assert forall|n: int| 0 <= n < nodes.len() && in_frames(frames, #[trigger] nodes[n].key@) implies in_frames(
        old.frames@,
        nodes[n].key@,
    ) by {
        let i = choose|i: int| 0 <= i < frames.len() && #[trigger] frames[i].key@ == nodes[n].key@;
        assert(i != t);
        assert(old.frames@[i].key@ == nodes[n].key@);
    }
    assert forall|i: int, n: int|
        0 <= i < frames.len() && 0 <= n < nodes.len() && (#[trigger] frames[i]).key@ == (#[trigger] nodes[n]).key@
            implies frames[i].dependencies@ == nodes[n].version.dependencies@ by {
        assert(i != t);
    }
    assert forall|i: int, n: int, j: int|
        #![trigger frames[i].dependencies@[j], nodes[n]]
        0 <= i < frames.len() && 0 <= n < nodes.len() && frames[i].key@ == nodes[n].key@ && 0 <= j < frames[i].next
            implies dependency_followed(new, nodes[n].key@, frames[i].dependencies@[j]) by {
        assert(i != t);
        lemma_followed_kept(old, new, nodes[n].key@, frames[i].dependencies@[j]);
    }
    assert forall|n: int, j: int|
        0 <= n < nodes.len() && 0 <= j < nodes[n].version.dependencies.len() && !in_frames(frames, nodes[n].key@)
            implies dependency_followed(new, nodes[n].key@, #[trigger] nodes[n].version.dependencies@[j]) by {
        if in_frames(old.frames@, nodes[n].key@) {
            let i = choose|i: int| 0 <= i < old.frames@.len() && #[trigger] old.frames@[i].key@ == nodes[n].key@;
            assert(frames[i].key@ == nodes[n].key@);
        }
        lemma_followed_kept(old, new, nodes[n].key@, nodes[n].version.dependencies@[j]);
    }
    assert(stage_facts(new)) by {
        assert forall|i: int| 0 <= i < frames.len() && #[trigger] frames[i].stage != Stage::AwaitProject implies i < t by {}
    }
}

/// Closing the innermost visit, once all of its node's dependencies were
/// taken up, keeps everything taken up.
proof fn lemma_follows_popped(old: DependencyResolution, new: DependencyResolution)
    requires
        follows(old),
        old.frames@.len() > 0,
        new.frames@ == old.frames@.drop_last(),
        forall|k: Seq<char>| #[trigger] listed(new.visited@, k) == (listed(old.visited@, k) || k == old.frames@.last().key@),
        forall|n: int|
            0 <= n < old.nodes@.len() && (#[trigger] old.nodes@[n]).key@ == old.frames@.last().key@
                ==> old.frames@.last().next >= old.frames@.last().dependencies.len(),
        forall|i: int| 0 <= i < old.frames@.len() - 1 ==> (#[trigger] old.frames@[i]).key@ != old.frames@.last().key@,
        new.nodes@ == old.nodes@,
        new.edges@ == old.edges@,
        new.conflicts@ == old.conflicts@,
        new.optional_dependencies@ == old.optional_dependencies@,
        new.selected@ == old.selected@,
    ensures
        follows(new),
{
    let frames = new.frames@;
    let nodes = new.nodes@;
    let t = frames.len() as int;
    let top = old.frames@.last();
    assert forall|i: int| 0 <= i < t implies #[trigger] frames[i] == old.frames@[i] by {}
    assert(reach_kept(old, new)) by {
        assert forall|k: Seq<char>| in_frames(old.frames@, k) && !listed(new.visited@, k) implies in_frames(frames, k) by {
            let i = choose|i: int| 0 <= i < old.frames@.len() && #[trigger] old.frames@[i].key@ == k;
            assert(i != t);
            assert(frames[i].key@ == k);
        }
    }
    assert forall|i: int, n: int|
        0 <= i < frames.len() && 0 <= n < nodes.len() && (#[trigger] frames[i]).key@ == (#[trigger] nodes[n]).key@
            implies frames[i].dependencies@ == nodes[n].version.dependencies@ by {
        assert(old.frames@[i] == frames[i]);
    }
    assert forall|i: int, n: int, j: int|
        #![trigger frames[i].dependencies@[j], nodes[n]]
        0 <= i < frames.len() && 0 <= n < nodes.len() && frames[i].key@ == nodes[n].key@ && 0 <= j < frames[i].next
            implies dependency_followed(new, nodes[n].key@, frames[i].dependencies@[j]) by {
        assert(old.frames@[i] == frames[i]);
        lemma_followed_kept(old, new, nodes[n].key@, frames[i].dependencies@[j]);
    }
    assert forall|n: int, j: int|
        0 <= n < nodes.len() && 0 <= j < nodes[n].version.dependencies.len() && !in_frames(frames, nodes[n].key@)
            implies dependency_followed(new, nodes[n].key@, #[trigger] nodes[n].version.dependencies@[j]) by {
        if nodes[n].key@ == top.key@ {
            assert(old.frames@[t].key@ == nodes[n].key@);
            assert(old.frames@[t].dependencies@[j] == nodes[n].version.dependencies@[j]);
            assert(dependency_followed(old, nodes[n].key@, old.frames@[t].dependencies@[j]));
        } else if in_frames(old.frames@, nodes[n].key@) {
            let i = choose|i: int| 0 <= i < old.frames@.len() && #[trigger] old.frames@[i].key@ == nodes[n].key@;
            assert(i != t);
            assert(frames[i].key@ == nodes[n].key@);
        }
        lemma_followed_kept(old, new, nodes[n].key@, nodes[n].version.dependencies@[j]);
    }
    assert(stage_facts(new)) by {
        assert forall|i: int| 0 <= i < frames.len() && #[trigger] frames[i].stage != Stage::Dependencies implies frames[i]
            == old.frames@[i] by {}
    }
}

/// Taking a dependency up stays done as edges, choices and visits grow.
proof fn lemma_followed_kept(old: DependencyResolution, new: DependencyResolution, from: Seq<char>, d: ModDependency)
    requires
        dependency_followed(old, from, d),
        prefix_kept(old.edges@, new.edges@),
        prefix_kept(old.optional_dependencies@, new.optional_dependencies@),
        new.selected@ == old.selected@,
        reach_kept(old, new),
    ensures
        dependency_followed(new, from, d),
{
    match (d.provider, d.project_id) {
        (Some(p), Some(id)) => {
            let c = project_key(p, id@);
            if d.dependency_type != DependencyType::Embedded {
                let e = choose|e: int|
                    0 <= e < old.edges@.len() && (#[trigger] old.edges@[e]).from@ == from && old.edges@[e].to@ == c
                        && old.edges@[e].dependency_type == d.dependency_type;
                assert(new.edges@[e] == old.edges@[e]);
            }
            if d.dependency_type == DependencyType::Optional {
                let child = ProjectRef { provider: p, project_id: id };
                let o = choose|o: int|
                    0 <= o < old.optional_dependencies@.len() && (#[trigger] old.optional_dependencies@[o]).project.provider
                        == child.provider && old.optional_dependencies@[o].project.project_id@ == child.project_id@;
                assert(new.optional_dependencies@[o] == old.optional_dependencies@[o]);
            }
            if listed(old.visited@, c) {
            }
            if in_frames(old.frames@, c) {
            }
        },
        _ => {},
    }
}

/// What a node or an issue says of a project stays said as the resolution grows.
proof fn lemma_covered_grows(
    old_nodes: Seq<ResolutionNode>,
    new_nodes: Seq<ResolutionNode>,
    old_issues: Seq<ResolutionIssue>,
    new_issues: Seq<ResolutionIssue>,
    k: Seq<char>,
)
    requires
        nodes_kept(old_nodes, new_nodes),
        prefix_kept(old_issues, new_issues),
        covered(old_nodes, old_issues, k),
    ensures
        covered(new_nodes, new_issues, k),
{
    if exists|n: int| 0 <= n < old_nodes.len() && (#[trigger] old_nodes[n]).key@ == k {
        let n = choose|n: int| 0 <= n < old_nodes.len() && (#[trigger] old_nodes[n]).key@ == k;
        assert(new_nodes[n].key == old_nodes[n].key);
    } else {
        let i = choose|i: int|
            0 <= i < old_issues.len() && (#[trigger] old_issues[i]).project is Some && old_issues[i].project->0.key_view() == k;
        assert(new_issues[i] == old_issues[i]);
    }
}

/// Accounting survives new issues, updated nodes and new nodes when the
/// visits and edges stay as they were.
proof fn lemma_accounts_grow(old: DependencyResolution, new: DependencyResolution)
    requires
        accounts(old),
        nodes_kept(old.nodes@, new.nodes@),
        prefix_kept(old.issues@, new.issues@),
        new.visited@ == old.visited@,
        new.frames@ == old.frames@,
        new.edges@ == old.edges@,
        new.installed_keys@ == old.installed_keys@,
    ensures
        accounts(new),
{
    assert forall|v: Seq<char>| #[trigger] listed(new.visited@, v) implies covered(new.nodes@, new.issues@, v) by {
        lemma_covered_grows(old.nodes@, new.nodes@, old.issues@, new.issues@, v);
    }
    assert forall|i: int| 0 <= i < new.frames@.len() && !unsettled(#[trigger] new.frames@[i].stage) implies covered(
        new.nodes@,
        new.issues@,
        new.frames@[i].key@,
    ) by {
        lemma_covered_grows(old.nodes@, new.nodes@, old.issues@, new.issues@, new.frames@[i].key@);
    }
}

/// A copy of a copy of a version is a copy of it.
proof fn lemma_same_version_chain(a: ProjectVersion, b: ProjectVersion, c: ProjectVersion)
    requires
        a.same(b),
        b.same(c),
    ensures
        a.same(c),
{
    assert forall|i: int| 0 <= i < a.files.len() implies #[trigger] a.files@[i].same(c.files@[i]) by {
        assert(a.files@[i].same(b.files@[i]));
        assert(b.files@[i].same(c.files@[i]));
    }
}

/// Lookups in a catalog can be made: Modrinth and CurseForge when they are
/// enabled, the local folder never.
pub open spec fn catalog_enabled(p: ProviderId, modrinth_enabled: bool, curseforge_enabled: bool) -> bool {
    match p {
        ProviderId::Modrinth => modrinth_enabled,
        ProviderId::Curseforge => curseforge_enabled,
        ProviderId::Local => false,
    }
}

/// A project's key names its catalog.
proof fn lemma_key_names_provider(p: ProjectRef, q: ProjectRef)
    requires
        p.key_view() == q.key_view(),
    ensures
        p.provider == q.provider,
{
    reveal_strlit("modrinth");
    reveal_strlit("curseforge");
    reveal_strlit("local");
    assert(p.key_view()[0] == provider_name(p.provider)[0]);
    assert(q.key_view()[0] == provider_name(q.provider)[0]);
}

/// Lookups in this catalog can be made for the resolution.
spec fn provider_on(r: DependencyResolution, p: ProviderId) -> bool {
    match p {
        ProviderId::Modrinth => r.modrinth_enabled,
        ProviderId::Curseforge => r.curseforge_enabled,
        ProviderId::Local => false,
    }
}

/// The visit moved past its current dependency.
spec fn stepped(f: Frame) -> Frame {
    Frame { next: (f.next + 1) as usize, ..f }
}

spec fn in_frames(frames: Seq<Frame>, k: Seq<char>) -> bool {
    exists|i: int| 0 <= i < frames.len() && #[trigger] frames[i].key@ == k
}

spec fn frame_cost(f: Frame) -> nat {
    (f.dependencies.len() - f.next + 1) as nat
}

/// What is left to do in the nested visits: one step per dependency still to
/// look at and one per visit still to close.
spec fn work(frames: Seq<Frame>) -> nat
    decreases frames.len(),
{
    if frames.len() == 0 {
        0
    } else {
        work(frames.drop_last()) + frame_cost(frames.last())
    }
}

impl DependencyResolution {
    /// The projects the resolution was asked for, in order.
    pub closed spec fn roots(self) -> Seq<ProjectRef> {
        self.roots@
    }

    /// Keys of the optional dependencies the user selected.
    pub closed spec fn selected(self) -> Seq<Seq<char>> {
        self.selected@.map_values(|s: String| s@)
    }

    pub closed spec fn target(self) -> ProfileTarget {
        self.target
    }

    /// The nodes resolved so far, in the order they were resolved.
    pub closed spec fn nodes_view(self) -> Seq<ResolutionNode> {
        self.nodes@
    }

    /// The dependency edges found so far.
    pub closed spec fn edges_view(self) -> Seq<ResolutionEdge> {
        self.edges@
    }

    /// The issues reported so far.
    pub closed spec fn issues_view(self) -> Seq<ResolutionIssue> {
        self.issues@
    }

    /// The optional dependencies offered so far.
    pub closed spec fn choices_view(self) -> Seq<OptionalDependencyChoice> {
        self.optional_dependencies@
    }

    /// The projects left for the user to download by hand so far.
    pub closed spec fn manual_view(self) -> Seq<ManualDownload> {
        self.manual_downloads@
    }

    /// Every finished visit left a node or an issue, and every required
    /// dependency found has been or is being visited.
    pub closed spec fn accounted(self) -> bool {
        accounts(self) && follows(self)
    }

    /// The visit of the project with this key is open.
    pub closed spec fn visiting(self, k: Seq<char>) -> bool {
        in_frames(self.frames@, k)
    }

    /// The visit of the project with this key is over.
    pub closed spec fn was_visited(self, k: Seq<char>) -> bool {
        listed(self.visited@, k)
    }

    /// Lookups in this catalog can be made.
    pub closed spec fn catalog_on(self, p: ProviderId) -> bool {
        provider_on(self, p)
    }

    /// Some visit is open.
    pub closed spec fn has_open_visits(self) -> bool {
        self.frames.len() > 0
    }

    /// No open visit waits for a lookup: the innermost one, if any, is going
    /// through its dependencies.
    pub closed spec fn between_lookups(self) -> bool {
        self.frames.len() > 0 ==> self.frames@.last().stage == Stage::Dependencies
    }

    /// How many of the requested projects have been taken up.
    pub closed spec fn roots_started(self) -> nat {
        self.next_root as nat
    }

    /// The visits open in `before` are still open, unchanged, below any new one.
    pub closed spec fn keeps_visits(self, before: Self) -> bool {
        &&& self.frames.len() >= before.frames.len()
        &&& forall|i: int| 0 <= i < before.frames.len() ==> #[trigger] self.frames@[i] == before.frames@[i]
    }

    /// The same visits are open, at the same point, as in `other`.
    pub closed spec fn same_visits(self, other: Self) -> bool {
        self.frames@ == other.frames@
    }

    /// Every open visit of the project with this key is for this reason.
    pub closed spec fn visits_for(self, k: Seq<char>, reason: InstallReason) -> bool {
        forall|i: int| 0 <= i < self.frames.len() && #[trigger] self.frames@[i].key@ == k ==> self.frames@[i].reason == reason
    }

    /// On top of the visits open in `before`, a visit of `child` was opened
    /// for this reason and parent; it waits for the project's page.
    pub closed spec fn opened(
        self,
        before: Self,
        child: ProjectRef,
        reason: InstallReason,
        parent_key: Option<String>,
    ) -> bool {
        &&& self.frames.len() == before.frames.len() + 1
        &&& self.frames@.drop_last() == before.frames@
        &&& self.frames@.last().key@ == child.key_view()
        &&& self.frames@.last().reference == child
        &&& self.frames@.last().reason == reason
        &&& self.frames@.last().parent_key == parent_key
        &&& self.frames@.last().stage == Stage::AwaitProject
    }

    /// Keys of the mods already in the profile.
    pub closed spec fn installed(self) -> Seq<Seq<char>> {
        self.installed_keys@.map_values(|s: String| s@)
    }

    /// The resolution waits for the answer to the lookup `a`.
    pub closed spec fn awaits(self, a: ResolveAction) -> bool {
        waits_for(self.frames@, a)
    }

    /// The bookkeeping of a resolution in progress is consistent.
    pub closed spec fn wf(self) -> bool {
        let frames = self.frames@;
        let nodes = self.nodes@;
        &&& self.next_root <= self.roots.len()
        &&& self.installed_keys.len() == self.installed_versions.len()
        &&& forall|i: int, j: int|
            0 <= i < j < frames.len() ==> #[trigger] frames[i].key@ != #[trigger] frames[j].key@
        &&& forall|i: int|
            0 <= i < frames.len() ==> #[trigger] frames[i].next <= frames[i].dependencies.len()
        &&& forall|i: int|
            0 <= i < frames.len() && #[trigger] frames[i].stage != Stage::AwaitProject
                ==> frames[i].project is Some
        &&& forall|i: int|
            0 <= i < frames.len() ==> !listed(self.visited@, #[trigger] frames[i].key@)
        &&& forall|i: int|
            0 <= i < frames.len() && (#[trigger] frames[i].stage == Stage::AwaitDependencyVersion
                || frames[i].stage == Stage::AwaitOptionalName) ==> frames[i].next < frames[i].dependencies.len()
        &&& forall|i: int|
            0 <= i < frames.len() && #[trigger] frames[i].stage == Stage::AwaitOptionalName
                ==> frames[i].child is Some
        &&& forall|i: int|
            0 <= i < frames.len() && (#[trigger] frames[i].stage == Stage::AwaitAlternate
                || frames[i].stage == Stage::AwaitReconciled) ==> frames[i].held is Some
        &&& forall|i: int| 0 <= i < frames.len() ==> #[trigger] frames[i].key@ == frames[i].reference.key_view()
        &&& forall|i: int| 0 <= i < frames.len() - 1 ==> #[trigger] frames[i].stage == Stage::Dependencies
        &&& forall|i: int|
            0 <= i < frames.len() && #[trigger] frames[i].stage == Stage::AwaitOptionalName
                ==> !offered(self.optional_dependencies@, frames[i].child->0)
        &&& distinct_choices(self.optional_dependencies@)
        &&& forall|i: int|
            0 <= i < frames.len() && #[trigger] frames[i].stage == Stage::AwaitDependencyVersion
                ==> frames[i].dependencies@[frames[i].next as int].provider is Some
                && frames[i].dependencies@[frames[i].next as int].version_id is Some
        &&& forall|i: int, j: int|
            0 <= i < j < nodes.len() ==> #[trigger] nodes[i].key@ != #[trigger] nodes[j].key@
        &&& forall|n: int|
            0 <= n < nodes.len() ==> listed(self.visited@, #[trigger] nodes[n].key@)
                || in_frames(frames, nodes[n].key@)
        &&& forall|i: int, n: int|
            0 <= i < frames.len() && 0 <= n < nodes.len() && #[trigger] unsettled(frames[i].stage)
                ==> #[trigger] nodes[n].key@ != frames[i].key@
        &&& forall|n: int|
            0 <= n < nodes.len() && #[trigger] nodes[n].reason == InstallReason::Optional
                ==> listed(self.selected@, nodes[n].key@)
        &&& forall|i: int|
            0 <= i < frames.len() && #[trigger] frames[i].reason == InstallReason::Optional
                ==> listed(self.selected@, frames[i].key@)
        &&& forall|r: int|
            0 <= r < self.next_root ==> listed(self.visited@, #[trigger] self.roots@[r].key_view())
                || in_frames(frames, self.roots@[r].key_view())
        &&& forall|r: int, n: int|
            0 <= r < self.next_root && 0 <= n < nodes.len() && #[trigger] nodes[n].key@
                == #[trigger] self.roots@[r].key_view() ==> nodes[n].reason == InstallReason::Requested
        &&& forall|r: int, i: int|
            0 <= r < self.next_root && 0 <= i < frames.len() && #[trigger] frames[i].key@
                == #[trigger] self.roots@[r].key_view() ==> frames[i].reason == InstallReason::Requested
        &&& forall|o: int|
            0 <= o < self.optional_dependencies.len() ==> (
            #[trigger] self.optional_dependencies@[o].selected == listed(
                self.selected@,
                self.optional_dependencies@[o].project.key_view(),
            ))
    }
}

/// Whether some frame visits the project with this key.
fn in_frames_exec(frames: &Vec<Frame>, k: &String) -> (r: bool)
    ensures
        r == in_frames(frames@, k@),
{
    let mut i: usize = 0;
    while i < frames.len()
        invariant
            i <= frames.len(),
            forall|j: int| 0 <= j < i ==> frames@[j].key@ != k@,
        decreases frames.len() - i,
    {
        if frames[i].key == *k {
            return true;
        }
        i = i + 1;
    }
    false
}

/// Position of the node with this key, if any.
fn node_position(nodes: &Vec<ResolutionNode>, k: &String) -> (r: Option<usize>)
    ensures
        match r {
            Some(i) => i < nodes.len() && nodes@[i as int].key@ == k@,
            None => forall|n: int| 0 <= n < nodes.len() ==> #[trigger] nodes@[n].key@ != k@,
        },
{
    let mut i: usize = 0;
    while i < nodes.len()
        invariant
            i <= nodes.len(),
            forall|j: int| 0 <= j < i ==> #[trigger] nodes@[j].key@ != k@,
        decreases nodes.len() - i,
    {
        if nodes[i].key == *k {
            return Some(i);
        }
        i = i + 1;
    }
    None
}

/// The version recorded for an installed mod with this key; the last record wins.
fn installed_version(keys: &Vec<String>, versions: &Vec<String>, k: &String) -> (r: Option<usize>)
    requires
        keys.len() == versions.len(),
    ensures
        match r {
            Some(i) => i < keys.len() && keys@[i as int]@ == k@ && forall|j: int|
                i < j < keys.len() ==> #[trigger] keys@[j]@ != k@,
            None => !listed(keys@, k@),
        },
{
    let mut i: usize = keys.len();
    while i > 0
        invariant
            i <= keys.len(),
            forall|j: int| i <= j < keys.len() ==> #[trigger] keys@[j]@ != k@,
        decreases i,
    {
        i = i - 1;
        if keys[i] == *k {
            return Some(i);
        }
    }
    None
}


proof fn lemma_listed_push(keys: Seq<String>, x: String, k: Seq<char>)
    ensures
        listed(keys.push(x), k) <==> (listed(keys, k) || x@ == k),
{
    if listed(keys, k) {
        let i = choose|i: int| 0 <= i < keys.len() && #[trigger] keys[i]@ == k;
        assert(keys.push(x)[i]@ == k);
    }
    if x@ == k {
        assert(keys.push(x)[keys.len() as int]@ == k);
    }
    if listed(keys.push(x), k) {
        let i = choose|i: int| 0 <= i < keys.push(x).len() && #[trigger] keys.push(x)[i]@ == k;
        if i < keys.len() {
            assert(keys[i]@ == k);
        }
    }
}

impl DependencyResolution {
    /// Same request: roots, selections, target, installed mods and catalogs.
    pub closed spec fn same_request(self, other: Self) -> bool {
        &&& self.roots@ == other.roots@
        &&& self.selected@ == other.selected@
        &&& self.target == other.target
        &&& self.installed_keys@ == other.installed_keys@
        &&& self.installed_versions@ == other.installed_versions@
        &&& self.modrinth_enabled == other.modrinth_enabled
        &&& self.curseforge_enabled == other.curseforge_enabled
    }

    /// Whether lookups in this catalog can be made.
    fn provider_enabled(&self, provider: ProviderId) -> (r: bool)
        ensures
            r == match provider {
                ProviderId::Modrinth => self.modrinth_enabled,
                ProviderId::Curseforge => self.curseforge_enabled,
                ProviderId::Local => false,
            },
    {
        match provider {
            ProviderId::Modrinth => self.modrinth_enabled,
            ProviderId::Curseforge => self.curseforge_enabled,
            ProviderId::Local => false,
        }
    }

    /// Closes the innermost visit: its project counts as visited from now on.
    #[verifier::spinoff_prover]
    fn finish_top(&mut self)
        requires
            old(self).wf(),
            accounts(*old(self)),
            follows(*old(self)),
            old(self).frames.len() > 0,
            covered(old(self).nodes@, old(self).issues@, old(self).frames@.last().key@),
            forall|n: int|
                0 <= n < old(self).nodes.len() && (#[trigger] old(self).nodes@[n]).key@ == old(self).frames@.last().key@
                    ==> old(self).frames@.last().next >= old(self).frames@.last().dependencies.len(),
        ensures
            final(self).wf(),
            accounts(*final(self)),
            follows(*final(self)),
            final(self).same_request(*old(self)),
            grew(*old(self), *final(self)),
            final(self).next_root == old(self).next_root,
            final(self).frames@ == old(self).frames@.drop_last(),
            work(final(self).frames@) < work(old(self).frames@),
    {
        let ghost old_self = *self;
        let ghost old_frames = self.frames@;
        let ghost old_visited = self.visited@;
        let top = self.frames.pop().unwrap();
        proof {
            assert(old_frames.drop_last() =~= self.frames@);
            assert(top == old_frames.last());
        }
        self.visited.push(top.key);
        proof {
            let frames = self.frames@;
            let top_key = old_frames.last().key;
            assert forall|k: Seq<char>| listed(self.visited@, k) <==> (listed(old_visited, k) || top_key@ == k) by {
                lemma_listed_push(old_visited, top_key, k);
            }
            assert forall|i: int| 0 <= i < frames.len() implies !listed(self.visited@, #[trigger] frames[i].key@) by {
                assert(old_frames[i] == frames[i]);
                assert(old_frames[i].key@ != old_frames[old_frames.len() - 1].key@);
            }
            assert forall|k: Seq<char>| in_frames(old_frames, k) implies listed(self.visited@, k) || in_frames(frames, k) by {
                let i = choose|i: int| 0 <= i < old_frames.len() && #[trigger] old_frames[i].key@ == k;
                if i < frames.len() {
                    assert(frames[i] == old_frames[i]);
                }
            }
            assert forall|i: int| 0 <= i < frames.len() && !unsettled(#[trigger] frames[i].stage) implies covered(
                self.nodes@,
                self.issues@,
                frames[i].key@,
            ) by {
                assert(frames[i] == old_frames[i]);
            }
            assert forall|v: Seq<char>| #[trigger] listed(self.visited@, v) implies covered(self.nodes@, self.issues@, v) by {
                lemma_listed_push(old_visited, top_key, v);
            }
            assert forall|i: int| 0 <= i < old_frames.len() - 1 implies (#[trigger] old_frames[i]).key@ != top_key@ by {}
            lemma_follows_popped(old_self, *self);
            assert forall|e: int|
                0 <= e < self.edges@.len() && (#[trigger] self.edges@[e]).dependency_type == DependencyType::Required
                    implies listed(self.visited@, self.edges@[e].to@) || in_frames(frames, self.edges@[e].to@) by {
                if !listed(old_visited, self.edges@[e].to@) {
                    assert(in_frames(old_frames, self.edges@[e].to@));
                }
            }
            assert forall|n: int| 0 <= n < self.nodes@.len() implies listed(self.visited@, #[trigger] self.nodes@[n].key@)
                || in_frames(frames, self.nodes@[n].key@) by {
            }
            assert forall|r: int| 0 <= r < self.next_root implies listed(self.visited@, #[trigger] self.roots@[r].key_view())
                || in_frames(frames, self.roots@[r].key_view()) by {
            }
            assert forall|i: int, n: int|
                0 <= i < frames.len() && 0 <= n < self.nodes@.len() && #[trigger] unsettled(frames[i].stage)
                    implies #[trigger] self.nodes@[n].key@ != frames[i].key@ by {
                assert(old_frames[i] == frames[i]);
            }
            assert forall|r: int, i: int|
                0 <= r < self.next_root && 0 <= i < frames.len() && #[trigger] frames[i].key@
                    == #[trigger] self.roots@[r].key_view() implies frames[i].reason == InstallReason::Requested by {
                assert(old_frames[i] == frames[i]);
            }
            assert(work(old_frames) == work(frames) + frame_cost(top));
        }
    }

    /// Visits a project as a dependency (or root) of the open visits:
    /// - a project whose visit is open is part of a cycle: a warning names
    ///   it and nothing else changes;
    /// - a project visited before is not looked up again: its node keeps
    ///   the stronger reason, and loses its parent when it was asked for
    ///   directly;
    /// - a project of a catalog that cannot be used is reported and counts
    ///   as visited;
    /// - any other project gets a visit of its own, which asks for its page.
    #[verifier::spinoff_prover]
    #[verifier::rlimit(80)]
    pub fn visit(
        &mut self,
        child: ProjectRef,
        reason: InstallReason,
        parent_key: Option<String>,
        version_id: Option<String>,
    ) -> (r: Option<ResolveAction>)
        requires
            old(self).wf(),
            old(self).accounted(),
            old(self).between_lookups(),
            reason == InstallReason::Optional ==> old(self).selected().contains(child.key_view()),
        ensures
            final(self).wf(),
            final(self).accounted(),
            final(self).same_request(*old(self)),
            final(self).roots_started() == old(self).roots_started(),
            nodes_kept(old(self).nodes_view(), final(self).nodes_view()),
            prefix_kept(old(self).issues_view(), final(self).issues_view()),
            final(self).edges_view() == old(self).edges_view(),
            final(self).choices_view() == old(self).choices_view(),
            final(self).manual_view() == old(self).manual_view(),
            r is None ==> final(self).same_visits(*old(self)),
            final(self).keeps_visits(*old(self)),
            r matches Some(a) ==> final(self).awaits(a) && a == ResolveAction::FetchProject(child),
            final(self).was_visited(child.key_view()) || final(self).visiting(child.key_view()),
            reason == InstallReason::Requested && !old(self).has_open_visits() ==> {
                &&& forall|n: int| 0 <= n < final(self).nodes_view().len() && #[trigger] final(self).nodes_view()[n].key@
                    == child.key_view() ==> final(self).nodes_view()[n].reason == InstallReason::Requested
                &&& final(self).visits_for(child.key_view(), InstallReason::Requested)
            },
            ({
                let k = child.key_view();
                let before = old(self).nodes_view();
                let after = final(self).nodes_view();
                let issues = final(self).issues_view();
                if old(self).visiting(k) {
                    &&& r is None
                    &&& after == before
                    &&& forall|v: Seq<char>| #[trigger] final(self).was_visited(v) == old(self).was_visited(v)
                    &&& issues.len() == old(self).issues_view().len() + 1
                    &&& issues.last().code == ResolutionIssueCode::DependencyCycle
                    &&& issues.last().severity == IssueSeverity::Warning
                    &&& issues.last().project == Some(child)
                } else if old(self).was_visited(k) {
                    &&& r is None
                    &&& forall|v: Seq<char>| #[trigger] final(self).was_visited(v) == old(self).was_visited(v)
                    &&& issues == old(self).issues_view()
                    &&& after.len() == before.len()
                    &&& forall|n: int|
                        0 <= n < after.len() ==> if (#[trigger] after[n]).key@ == k {
                            after[n] == ResolutionNode {
                                reason: stronger(before[n].reason, reason),
                                parent_key: if reason == InstallReason::Requested {
                                    None
                                } else {
                                    before[n].parent_key
                                },
                                ..before[n]
                            }
                        } else {
                            after[n] == before[n]
                        }
                } else if !old(self).catalog_on(child.provider) {
                    &&& r is None
                    &&& after == before
                    &&& forall|v: Seq<char>| #[trigger] final(self).was_visited(v) == (old(self).was_visited(v) || v == k)
                    &&& issues.len() == old(self).issues_view().len() + 1
                    &&& issues.last().code == ResolutionIssueCode::ProviderError
                    &&& issues.last().severity == IssueSeverity::Error
                    &&& issues.last().project == Some(child)
                } else {
                    &&& r == Some(ResolveAction::FetchProject(child))
                    &&& after == before
                    &&& forall|v: Seq<char>| #[trigger] final(self).was_visited(v) == old(self).was_visited(v)
                    &&& issues == old(self).issues_view()
                    &&& final(self).opened(*old(self), child, reason, parent_key)
                }
            }),
    {
        proof {
            lemma_selected_contains(self.selected@, child.key_view());
        }
        let key = child.key();
        if in_frames_exec(&self.frames, &key) {
            let head = join2("Ciclo de dependências detectado em ", key.as_str());
            let message = join2(head.as_str(), ".");
            let ghost before = *self;
            self.issues.push(issue(ResolutionIssueCode::DependencyCycle, IssueSeverity::Warning, message, Some(child)));
            proof {
                lemma_accounts_grow(before, *self);
                lemma_follows_kept(before, *self);
            }
            return None;
        }
        if key_listed(&self.visited, &key) {
            match node_position(&self.nodes, &key) {
                Some(i) => {
                    let ghost before = *self;
                    let ghost old_nodes = self.nodes@;
                    let strongest = stronger_reason(self.nodes[i].reason, reason);
                    self.nodes[i].reason = strongest;
                    if reason == InstallReason::Requested {
                        self.nodes[i].parent_key = None;
                    }
                    proof {
                        let nodes = self.nodes@;
                        assert(nodes.len() == old_nodes.len());
                        assert forall|n: int| 0 <= n < nodes.len() && n != i implies nodes[n] == old_nodes[n] by {}
                        assert(nodes[i as int].key == old_nodes[i as int].key);
                        assert forall|n: int| 0 <= n < nodes.len() implies #[trigger] nodes[n].key@ == old_nodes[n].key@ by {}
                        assert forall|n: int| 0 <= n < nodes.len() && #[trigger] nodes[n].reason == InstallReason::Optional
                            implies listed(self.selected@, nodes[n].key@) by {
                            if n != i {
                                assert(old_nodes[n].reason == InstallReason::Optional);
                            } else if old_nodes[n].reason != InstallReason::Optional {
                                assert(reason == InstallReason::Optional);
                            }
                        }
                        assert forall|r: int, n: int|
                            0 <= r < self.next_root && 0 <= n < nodes.len() && #[trigger] nodes[n].key@
                                == #[trigger] self.roots@[r].key_view() implies nodes[n].reason == InstallReason::Requested by {
                            if n != i {
                                assert(old_nodes[n].key@ == self.roots@[r].key_view());
                            } else {
                                assert(old_nodes[n].key@ == self.roots@[r].key_view());
                            }
                        }
                        assert forall|a: int, b: int| 0 <= a < b < nodes.len() implies #[trigger] nodes[a].key@ != #[trigger] nodes[b].key@ by {
                            assert(old_nodes[a].key@ != old_nodes[b].key@);
                        }
                        assert forall|n: int| 0 <= n < nodes.len() implies listed(self.visited@, #[trigger] nodes[n].key@)
                            || in_frames(self.frames@, nodes[n].key@) by {
                            assert(old_nodes[n].key@ == nodes[n].key@);
                        }
                        assert forall|f: int, n: int|
                            0 <= f < self.frames@.len() && 0 <= n < nodes.len() && #[trigger] unsettled(self.frames@[f].stage)
                                implies #[trigger] nodes[n].key@ != self.frames@[f].key@ by {
                            assert(old_nodes[n].key@ == nodes[n].key@);
                        }
                        lemma_accounts_grow(before, *self);
                        lemma_follows_kept(before, *self);
                    }
                },
                None => {},
            }
            return None;
        }
        if !self.provider_enabled(child.provider) {
            let head = join2("O provedor ", child.provider.as_str());
            let message = join2(head.as_str(), " não está configurado.");
            let ghost before = *self;
            self.issues.push(issue(ResolutionIssueCode::ProviderError, IssueSeverity::Error, message, Some(child)));
            proof {
                lemma_accounts_grow(before, *self);
                lemma_follows_kept(before, *self);
                assert(self.issues@[self.issues@.len() - 1].project == Some(child));
            }
            let ghost old_visited = self.visited@;
            let ghost before2 = *self;
            self.visited.push(key);
            proof {
                assert forall|c: Seq<char>| listed(old_visited, c) implies listed(self.visited@, c) by {
                    lemma_listed_push(old_visited, key, c);
                }
                lemma_follows_kept(before2, *self);
                assert forall|v: Seq<char>| #[trigger] listed(self.visited@, v) implies covered(self.nodes@, self.issues@, v) by {
                    lemma_listed_push(old_visited, key, v);
                }
                assert forall|e: int|
                    0 <= e < self.edges@.len() && (#[trigger] self.edges@[e]).dependency_type == DependencyType::Required
                        implies listed(self.visited@, self.edges@[e].to@) || in_frames(self.frames@, self.edges@[e].to@) by {
                    lemma_listed_push(old_visited, key, self.edges@[e].to@);
                }
                assert forall|k: Seq<char>| listed(old_visited, k) implies listed(self.visited@, k) by {
                    lemma_listed_push(old_visited, key, k);
                }
                lemma_listed_push(old_visited, key, key@);
                assert forall|i: int| 0 <= i < self.frames@.len() implies !listed(self.visited@, #[trigger] self.frames@[i].key@) by {
                    lemma_listed_push(old_visited, key, self.frames@[i].key@);
                }
                assert forall|n: int| 0 <= n < self.nodes@.len() implies #[trigger] self.nodes@[n].key@ != key@ by {
                    if self.nodes@[n].key@ == key@ {
                        assert(listed(old_visited, self.nodes@[n].key@) || in_frames(self.frames@, self.nodes@[n].key@));
                    }
                }
            }
            return None;
        }
        let ghost old_frames = self.frames@;
        let ghost before_open = *self;
        let reference = child.clone();
        self.frames.push(Frame {
            key,
            reference,
            reason,
            parent_key,
            version_id,
            project: None,
            dependencies: Vec::new(),
            next: 0,
            stage: Stage::AwaitProject,
            child: None,
            held: None,
        });
        proof {
            let frames = self.frames@;
            let last = frames.len() - 1;
            assert(frames[last].key@ == child.key_view());
            assert forall|i: int| 0 <= i < old_frames.len() implies #[trigger] frames[i] == old_frames[i] by {}
            assert forall|k: Seq<char>| in_frames(old_frames, k) implies in_frames(frames, k) by {
                let i = choose|i: int| 0 <= i < old_frames.len() && #[trigger] old_frames[i].key@ == k;
                assert(frames[i].key@ == k);
            }
            assert forall|n: int| 0 <= n < self.nodes@.len() implies #[trigger] self.nodes@[n].key@ != child.key_view() by {
                if self.nodes@[n].key@ == child.key_view() {
                    assert(listed(self.visited@, self.nodes@[n].key@) || in_frames(old_frames, self.nodes@[n].key@));
                }
            }
            assert forall|r: int| 0 <= r < self.next_root implies self.roots@[r].key_view() != child.key_view() || reason == InstallReason::Requested by {
                if self.roots@[r].key_view() == child.key_view() {
                    assert(listed(self.visited@, self.roots@[r].key_view()) || in_frames(old_frames, self.roots@[r].key_view()));
                }
            }
            assert(in_frames(frames, child.key_view()));
            assert(frames.drop_last() =~= old_frames);
            assert forall|i: int| 0 <= i < frames.len() && !unsettled(#[trigger] frames[i].stage) implies covered(
                self.nodes@,
                self.issues@,
                frames[i].key@,
            ) by {
                if i < old_frames.len() {
                    assert(frames[i] == old_frames[i]);
                }
            }
            lemma_follows_frame_pushed(before_open, *self);
        }
        Some(ResolveAction::FetchProject(child))
    }
}


/// The profile holds the project at this version: its last record with the
/// key names the version.
spec fn installed_at_version(keys: Seq<String>, versions: Seq<String>, k: Seq<char>, v: Seq<char>) -> bool {
    exists|i: int|
        0 <= i < keys.len() && (#[trigger] keys[i])@ == k && versions[i]@ == v && forall|j: int|
            i < j < keys.len() ==> (#[trigger] keys[j])@ != k
}

/// Whether this version's installed file cannot be fetched by the application.
fn restricted(version: &ProjectVersion) -> (r: bool)
    ensures
        r == !downloadable(*version),
{
    match primary_file(version) {
        Some(file) => file.url.is_none(),
        None => true,
    }
}

impl DependencyResolution {
    /// The innermost visit failed: report the catalog's message and close it.
    fn fail_top(&mut self, message: String)
        requires
            old(self).wf(),
            accounts(*old(self)),
            follows(*old(self)),
            old(self).frames.len() > 0,
            unsettled(old(self).frames@.last().stage),
        ensures
            final(self).wf(),
            accounts(*final(self)),
            follows(*final(self)),
            final(self).same_request(*old(self)),
            grew(*old(self), *final(self)),
            final(self).next_root == old(self).next_root,
            final(self).frames@ == old(self).frames@.drop_last(),
            final(self).issues.len() > old(self).issues.len(),
            final(self).issues@[old(self).issues.len() as int].code == ResolutionIssueCode::ProviderError,
            final(self).issues@[old(self).issues.len() as int].severity == IssueSeverity::Error,
            final(self).issues@[old(self).issues.len() as int].message == message,
            final(self).issues@[old(self).issues.len() as int].project == Some(old(self).frames@.last().reference),
    {
        let n = self.frames.len();
        let reference = self.frames[n - 1].reference.clone();
        let ghost before = *self;
        self.issues.push(issue(ResolutionIssueCode::ProviderError, IssueSeverity::Error, message, Some(reference)));
        proof {
            lemma_accounts_grow(before, *self);
            lemma_follows_kept(before, *self);
            assert(self.issues@[self.issues@.len() - 1].project == Some(reference));
            assert(unsettled(self.frames@[n - 1].stage));
        }
        self.finish_top();
    }

    /// No version of the innermost project suits the target: report it and close the visit.
    fn no_compatible_version(&mut self)
        requires
            old(self).wf(),
            accounts(*old(self)),
            follows(*old(self)),
            old(self).frames.len() > 0,
            old(self).frames@.last().stage == Stage::AwaitVersion,
        ensures
            final(self).wf(),
            accounts(*final(self)),
            follows(*final(self)),
            final(self).same_request(*old(self)),
            grew(*old(self), *final(self)),
            final(self).next_root == old(self).next_root,
            final(self).frames@ == old(self).frames@.drop_last(),
            final(self).issues.len() > old(self).issues.len(),
            final(self).issues@[old(self).issues.len() as int].code == ResolutionIssueCode::NoCompatibleVersion,
            final(self).issues@[old(self).issues.len() as int].severity == IssueSeverity::Error,
            final(self).issues@[old(self).issues.len() as int].project == Some(old(self).frames@.last().reference),
    {
        let n = self.frames.len();
        assert(self.frames@[n - 1].stage != Stage::AwaitProject);
        let name = match &self.frames[n - 1].project {
            Some(project) => project.name.clone(),
            None => {
                proof {
                    assert(false);
                }
                String::new()
            },
        };
        let reference = self.frames[n - 1].reference.clone();
        let a = join2(name.as_str(), " não tem arquivo compatível com Minecraft ");
        let b = join2(a.as_str(), self.target.minecraft_version.as_str());
        let c = join2(b.as_str(), " + ");
        let d = join2(c.as_str(), self.target.loader.as_str());
        let message = join2(d.as_str(), ".");
        let ghost before = *self;
        self.issues.push(issue(ResolutionIssueCode::NoCompatibleVersion, IssueSeverity::Error, message, Some(reference)));
        proof {
            lemma_accounts_grow(before, *self);
            lemma_follows_kept(before, *self);
            assert(self.issues@[self.issues@.len() - 1].project == Some(reference));
            assert(unsettled(self.frames@[n - 1].stage));
        }
        self.finish_top();
    }

    /// A downloadable version of the innermost project was found, in its own
    /// catalog or as an equivalent copy in the other one: it becomes a node of
    /// the plan and its dependencies are looked at next.
    #[verifier::spinoff_prover]
    fn accept_version(&mut self, project: ProjectSummary, version: ProjectVersion)
        requires
            old(self).wf(),
            accounts(*old(self)),
            follows(*old(self)),
            old(self).frames.len() > 0,
            old(self).frames@.last().stage == Stage::AwaitAlternate || old(self).frames@.last().stage
                == Stage::AwaitReconciled,
        ensures
            final(self).wf(),
            accounts(*final(self)),
            follows(*final(self)),
            final(self).same_request(*old(self)),
            final(self).next_root == old(self).next_root,
            final(self).frames.len() == old(self).frames.len(),
            ({
                let top = old(self).frames@.last();
                let t = old(self).frames.len() - 1;
                let node = final(self).nodes@.last();
                &&& final(self).frames@ == old(self).frames@.update(
                    t,
                    Frame {
                        dependencies: final(self).frames@[t].dependencies,
                        next: 0,
                        stage: Stage::Dependencies,
                        held: None,
                        ..top
                    },
                )
                &&& final(self).frames@[t].dependencies@ == version.dependencies@
                &&& final(self).nodes.len() == old(self).nodes.len() + 1
                &&& final(self).nodes@.drop_last() == old(self).nodes@
                &&& node.key == top.key
                &&& node.project == project
                &&& node.version == version
                &&& node.reason == top.reason
                &&& node.parent_key == top.parent_key
                &&& node.already_installed == installed_at_version(
                    old(self).installed_keys@,
                    old(self).installed_versions@,
                    top.key@,
                    version.version_id@,
                )
                &&& final(self).issues@ == old(self).issues@
                &&& final(self).visited@ == old(self).visited@
                &&& final(self).edges@ == old(self).edges@
                &&& final(self).optional_dependencies@ == old(self).optional_dependencies@
                &&& final(self).manual_downloads@ == old(self).manual_downloads@
            }),
    {
        let n = self.frames.len();
        let ghost old_frames = self.frames@;
        let ghost old_nodes = self.nodes@;
        let key = self.frames[n - 1].key.clone();
        let already_installed = match installed_version(&self.installed_keys, &self.installed_versions, &key) {
            Some(i) => {
                proof {
                    if installed_at_version(self.installed_keys@, self.installed_versions@, key@, version.version_id@) {
                        let j = choose|j: int|
                            0 <= j < self.installed_keys@.len() && (#[trigger] self.installed_keys@[j])@ == key@
                                && self.installed_versions@[j]@ == version.version_id@ && forall|m: int|
                                j < m < self.installed_keys@.len() ==> (#[trigger] self.installed_keys@[m])@ != key@;
                        assert(j == i);
                    }
                }
                self.installed_versions[i] == version.version_id
            },
            None => false,
        };
        let parent_key = clone_opt_string(&self.frames[n - 1].parent_key);
        let reason = self.frames[n - 1].reason;
        let dependencies = version.dependencies.clone();
        self.nodes.push(ResolutionNode { key, project, version, reason, parent_key, already_installed });
        self.frames[n - 1].dependencies = dependencies;
        self.frames[n - 1].next = 0;
        self.frames[n - 1].stage = Stage::Dependencies;
        self.frames[n - 1].held = None;
        proof {
            let frames = self.frames@;
            let nodes = self.nodes@;
            let top = n - 1;
            assert forall|i: int| 0 <= i < n && i != top implies #[trigger] frames[i] == old_frames[i] by {}
            assert(frames[top].key == old_frames[top].key);
            assert(frames[top].reference == old_frames[top].reference);
            assert(frames[top].reason == old_frames[top].reason);
            assert(nodes[nodes.len() - 1].key@ == old_frames[top].key@);
            assert forall|i: int| 0 <= i < frames.len() implies #[trigger] frames[i].key@ == frames[i].reference.key_view()
                && !listed(self.visited@, frames[i].key@) by {
                if i != top {
                    assert(frames[i] == old_frames[i]);
                }
            }
            assert forall|i: int| 0 <= i < old_nodes.len() implies #[trigger] nodes[i] == old_nodes[i] by {}
            assert forall|a: int, b: int| 0 <= a < b < nodes.len() implies #[trigger] nodes[a].key@ != #[trigger] nodes[b].key@ by {
                if b == nodes.len() - 1 {
                    assert(unsettled(old_frames[top].stage));
                    assert(old_nodes[a].key@ != old_frames[top].key@);
                }
            }
            assert forall|k: Seq<char>| in_frames(old_frames, k) implies in_frames(frames, k) by {
                let i = choose|i: int| 0 <= i < old_frames.len() && #[trigger] old_frames[i].key@ == k;
                assert(frames[i].key@ == k);
            }
            assert(in_frames(frames, old_frames[top].key@));
            assert forall|i: int, m: int|
                0 <= i < frames.len() && 0 <= m < nodes.len() && #[trigger] unsettled(frames[i].stage)
                    implies #[trigger] nodes[m].key@ != frames[i].key@ by {
                if m == nodes.len() - 1 {
                    assert(old_frames[i].key@ != old_frames[top].key@);
                }
            }
            assert forall|r: int| 0 <= r < self.next_root implies listed(self.visited@, #[trigger] self.roots@[r].key_view())
                || in_frames(frames, self.roots@[r].key_view()) by {
                if !listed(self.visited@, self.roots@[r].key_view()) {
                    assert(in_frames(old_frames, self.roots@[r].key_view()));
                }
            }
            assert forall|r: int, i: int|
                0 <= r < self.next_root && 0 <= i < frames.len() && #[trigger] frames[i].key@
                    == #[trigger] self.roots@[r].key_view() implies frames[i].reason == InstallReason::Requested by {
                assert(old_frames[i].key@ == frames[i].key@ && old_frames[i].reason == frames[i].reason);
            }
            assert forall|r: int, m: int|
                0 <= r < self.next_root && 0 <= m < nodes.len() && #[trigger] nodes[m].key@
                    == #[trigger] self.roots@[r].key_view() implies nodes[m].reason == InstallReason::Requested by {
                if m == nodes.len() - 1 {
                    assert(old_frames[top].key@ == self.roots@[r].key_view());
                }
            }
            assert forall|m: int| 0 <= m < nodes.len() && #[trigger] nodes[m].reason == InstallReason::Optional
                implies listed(self.selected@, nodes[m].key@) by {
                if m == nodes.len() - 1 {
                    assert(old_frames[top].reason == InstallReason::Optional);
                }
            }
            assert(nodes_kept(old_nodes, nodes));
            assert forall|v: Seq<char>| #[trigger] listed(self.visited@, v) implies covered(nodes, self.issues@, v) by {
                lemma_covered_grows(old_nodes, nodes, self.issues@, self.issues@, v);
            }
            assert forall|i: int| 0 <= i < frames.len() && !unsettled(#[trigger] frames[i].stage) implies covered(
                nodes,
                self.issues@,
                frames[i].key@,
            ) by {
                if i == top {
                    assert(nodes[nodes.len() - 1].key@ == frames[i].key@);
                } else {
                    assert(frames[i] == old_frames[i]);
                    lemma_covered_grows(old_nodes, nodes, self.issues@, self.issues@, frames[i].key@);
                }
            }
        }
    }

    /// The compatible version of the innermost project cannot be downloaded
    /// by the application: it is held while the other catalog is searched.
    fn hold_restricted(&mut self, version: ProjectVersion)
        requires
            old(self).wf(),
            accounts(*old(self)),
            follows(*old(self)),
            old(self).frames.len() > 0,
            old(self).frames@.last().stage == Stage::AwaitVersion,
        ensures
            final(self).wf(),
            accounts(*final(self)),
            follows(*final(self)),
            final(self).same_request(*old(self)),
            grew(*old(self), *final(self)),
            final(self).next_root == old(self).next_root,
            final(self).frames@ == old(self).frames@.update(
                old(self).frames.len() - 1,
                Frame { stage: Stage::AwaitAlternate, held: Some(version), ..old(self).frames@.last() },
            ),
            final(self).nodes@ == old(self).nodes@,
            final(self).issues@ == old(self).issues@,
            final(self).visited@ == old(self).visited@,
            final(self).edges@ == old(self).edges@,
            final(self).optional_dependencies@ == old(self).optional_dependencies@,
            final(self).manual_downloads@ == old(self).manual_downloads@,
    {
        let n = self.frames.len();
        let ghost old_self = *self;
        let ghost old_frames = self.frames@;
        self.frames[n - 1].held = Some(version);
        self.frames[n - 1].stage = Stage::AwaitAlternate;
        assert(self.frames@ =~= old_frames.update(
            n - 1,
            Frame { stage: Stage::AwaitAlternate, held: Some(version), ..old_frames.last() },
        ));
        proof {
            let frames = self.frames@;
            let nodes = self.nodes@;
            assert forall|k: Seq<char>| in_frames(frames, k) == in_frames(old_frames, k) by {
                if in_frames(frames, k) {
                    let i = choose|i: int| 0 <= i < frames.len() && #[trigger] frames[i].key@ == k;
                    assert(old_frames[i].key@ == k);
                }
                if in_frames(old_frames, k) {
                    let i = choose|i: int| 0 <= i < old_frames.len() && #[trigger] old_frames[i].key@ == k;
                    assert(frames[i].key@ == k);
                }
            }
            assert(reach_kept(old_self, *self));
            assert(stage_facts(*self)) by {
                assert forall|i: int| 0 <= i < n - 1 implies #[trigger] frames[i] == old_frames[i] by {}
            }
            lemma_follows_kept(old_self, *self);
            assert forall|i: int| 0 <= i < n - 1 implies #[trigger] frames[i] == old_frames[i] by {}
            assert forall|k: Seq<char>| in_frames(old_frames, k) implies in_frames(frames, k) by {
                let i = choose|i: int| 0 <= i < old_frames.len() && #[trigger] old_frames[i].key@ == k;
                assert(frames[i].key@ == k);
            }
            assert forall|i: int, m: int|
                0 <= i < frames.len() && 0 <= m < nodes.len() && #[trigger] unsettled(frames[i].stage)
                    implies #[trigger] nodes[m].key@ != frames[i].key@ by {
                if i == n - 1 {
                    assert(unsettled(old_frames[i].stage));
                } else {
                    assert(frames[i] == old_frames[i]);
                }
            }
        }
    }

    /// A downloadable compatible version waits for the comparison with the
    /// other catalog before it becomes a node.
    fn await_reconciliation(&mut self, version: ProjectVersion)
        requires
            old(self).wf(),
            accounts(*old(self)),
            follows(*old(self)),
            old(self).frames.len() > 0,
            old(self).frames@.last().stage == Stage::AwaitVersion,
        ensures
            final(self).wf(),
            accounts(*final(self)),
            follows(*final(self)),
            final(self).same_request(*old(self)),
            grew(*old(self), *final(self)),
            final(self).next_root == old(self).next_root,
            final(self).frames@ == old(self).frames@.update(
                old(self).frames.len() - 1,
                Frame { stage: Stage::AwaitReconciled, held: Some(version), ..old(self).frames@.last() },
            ),
            final(self).nodes@ == old(self).nodes@,
            final(self).issues@ == old(self).issues@,
            final(self).visited@ == old(self).visited@,
            final(self).edges@ == old(self).edges@,
            final(self).optional_dependencies@ == old(self).optional_dependencies@,
            final(self).manual_downloads@ == old(self).manual_downloads@,
    {
        let n = self.frames.len();
        let ghost old_self = *self;
        let ghost old_frames = self.frames@;
        self.frames[n - 1].held = Some(version);
        self.frames[n - 1].stage = Stage::AwaitReconciled;
        assert(self.frames@ =~= old_frames.update(
            n - 1,
            Frame { stage: Stage::AwaitReconciled, held: Some(version), ..old_frames.last() },
        ));
        proof {
            let frames = self.frames@;
            let nodes = self.nodes@;
            assert forall|k: Seq<char>| in_frames(frames, k) == in_frames(old_frames, k) by {
                if in_frames(frames, k) {
                    let i = choose|i: int| 0 <= i < frames.len() && #[trigger] frames[i].key@ == k;
                    assert(old_frames[i].key@ == k);
                }
                if in_frames(old_frames, k) {
                    let i = choose|i: int| 0 <= i < old_frames.len() && #[trigger] old_frames[i].key@ == k;
                    assert(frames[i].key@ == k);
                }
            }
            assert(reach_kept(old_self, *self));
            assert(stage_facts(*self)) by {
                assert forall|i: int| 0 <= i < n - 1 implies #[trigger] frames[i] == old_frames[i] by {}
            }
            lemma_follows_kept(old_self, *self);
            assert forall|i: int| 0 <= i < n - 1 implies #[trigger] frames[i] == old_frames[i] by {}
            assert forall|k: Seq<char>| in_frames(old_frames, k) implies in_frames(frames, k) by {
                let i = choose|i: int| 0 <= i < old_frames.len() && #[trigger] old_frames[i].key@ == k;
                assert(frames[i].key@ == k);
            }
            assert forall|i: int, m: int|
                0 <= i < frames.len() && 0 <= m < nodes.len() && #[trigger] unsettled(frames[i].stage)
                    implies #[trigger] nodes[m].key@ != frames[i].key@ by {
                if i == n - 1 {
                    assert(unsettled(old_frames[i].stage));
                } else {
                    assert(frames[i] == old_frames[i]);
                }
            }
            assert forall|i: int| 0 <= i < frames.len() && !unsettled(#[trigger] frames[i].stage) implies covered(
                self.nodes@,
                self.issues@,
                frames[i].key@,
            ) by {
                assert(frames[i] == old_frames[i]);
            }
        }
    }

    /// The comparison with the other catalog came back: the version becomes
    /// a node, its dependencies replaced by the completed list when anything
    /// was added, and they are looked at next.
    fn take_reconciled(&mut self, completed: Option<Vec<ModDependency>>)
        requires
            old(self).wf(),
            accounts(*old(self)),
            follows(*old(self)),
            old(self).frames.len() > 0,
            old(self).frames@.last().stage == Stage::AwaitReconciled,
        ensures
            final(self).wf(),
            accounts(*final(self)),
            follows(*final(self)),
            final(self).same_request(*old(self)),
            final(self).next_root == old(self).next_root,
            ({
                let top = old(self).frames@.last();
                let held = top.held->0;
                let t = old(self).frames.len() - 1;
                let node = final(self).nodes@.last();
                &&& final(self).frames@ == old(self).frames@.update(
                    t,
                    Frame {
                        dependencies: final(self).frames@[t].dependencies,
                        next: 0,
                        stage: Stage::Dependencies,
                        held: None,
                        ..top
                    },
                )
                &&& final(self).nodes.len() == old(self).nodes.len() + 1
                &&& final(self).nodes@.drop_last() == old(self).nodes@
                &&& node.key == top.key
                &&& node.version.version_id == held.version_id
                &&& node.version.dependencies@ == match completed {
                    Some(list) => list@,
                    None => held.dependencies@,
                }
                &&& final(self).frames@[t].dependencies@ == node.version.dependencies@
                &&& final(self).issues@ == old(self).issues@
                &&& final(self).visited@ == old(self).visited@
                &&& final(self).edges@ == old(self).edges@
                &&& final(self).optional_dependencies@ == old(self).optional_dependencies@
                &&& final(self).manual_downloads@ == old(self).manual_downloads@
            }),
    {
        let n = self.frames.len();
        assert(self.frames@[n - 1].stage != Stage::AwaitProject);
        let mut version = match &self.frames[n - 1].held {
            Some(held) => held.clone(),
            None => {
                proof {
                    assert(false);
                }
                return;
            },
        };
        let project = match &self.frames[n - 1].project {
            Some(project) => project.clone(),
            None => {
                proof {
                    assert(false);
                }
                return;
            },
        };
        match completed {
            Some(list) => {
                version.dependencies = list;
            },
            None => {},
        }
        self.accept_version(project, version);
    }

    /// No downloadable copy exists: the project is left for the user to
    /// download by hand, and the dependencies of its version are looked at next.
    fn require_manual(&mut self)
        requires
            old(self).wf(),
            accounts(*old(self)),
            follows(*old(self)),
            old(self).frames.len() > 0,
            old(self).frames@.last().stage == Stage::AwaitAlternate,
        ensures
            final(self).wf(),
            accounts(*final(self)),
            follows(*final(self)),
            final(self).same_request(*old(self)),
            grew(*old(self), *final(self)),
            final(self).next_root == old(self).next_root,
            ({
                let top = old(self).frames@.last();
                let t = old(self).frames.len() - 1;
                let manual = final(self).manual_downloads@.last();
                &&& final(self).frames@ == old(self).frames@.update(
                    t,
                    Frame {
                        dependencies: final(self).frames@[t].dependencies,
                        next: 0,
                        stage: Stage::Dependencies,
                        held: None,
                        ..top
                    },
                )
                &&& final(self).frames@[t].dependencies@ == (top.held->0).dependencies@
                &&& final(self).manual_downloads.len() == old(self).manual_downloads.len() + 1
                &&& final(self).manual_downloads@.drop_last() == old(self).manual_downloads@
                &&& manual.project.same(top.project->0)
                &&& manual.reason == top.reason
                &&& final(self).nodes@ == old(self).nodes@
                &&& final(self).issues.len() == old(self).issues.len() + 1
                &&& final(self).issues@.drop_last() == old(self).issues@
                &&& final(self).issues@.last().code == ResolutionIssueCode::DistributionRestricted
                &&& final(self).issues@.last().severity == IssueSeverity::Warning
                &&& final(self).issues@.last().project == Some(top.reference)
                &&& final(self).visited@ == old(self).visited@
                &&& final(self).edges@ == old(self).edges@
                &&& final(self).optional_dependencies@ == old(self).optional_dependencies@
            }),
    {
        let n = self.frames.len();
        let ghost old_frames = self.frames@;
        assert(old_frames[n - 1].stage != Stage::AwaitProject);
        let project = match &self.frames[n - 1].project {
            Some(project) => project.clone(),
            None => {
                proof {
                    assert(false);
                }
                return;
            },
        };
        let dependencies = match &self.frames[n - 1].held {
            Some(version) => version.dependencies.clone(),
            None => {
                proof {
                    assert(false);
                }
                return;
            },
        };
        let reason = self.frames[n - 1].reason;
        let reference = self.frames[n - 1].reference.clone();
        let message = join2(
            project.name.as_str(),
            " não permite download por aplicativos de terceiros e não tem cópia equivalente na outra fonte; baixe-o manualmente pela página oficial.",
        );
        let ghost before = *self;
        self.issues.push(issue(ResolutionIssueCode::DistributionRestricted, IssueSeverity::Warning, message, Some(reference)));
        proof {
            lemma_accounts_grow(before, *self);
            lemma_follows_kept(before, *self);
            assert(unsettled(old_frames[n - 1].stage));
        }
        let ghost reset_from = *self;
        self.manual_downloads.push(ManualDownload { project, reason });
        self.frames[n - 1].dependencies = dependencies;
        self.frames[n - 1].next = 0;
        self.frames[n - 1].stage = Stage::Dependencies;
        self.frames[n - 1].held = None;
        proof {
            let frames = self.frames@;
            let last = self.issues@.len() - 1;
            assert forall|i: int| 0 <= i < n - 1 implies #[trigger] frames[i] == old_frames[i] by {}
            assert forall|k: Seq<char>| in_frames(old_frames, k) implies in_frames(frames, k) by {
                let i = choose|i: int| 0 <= i < old_frames.len() && #[trigger] old_frames[i].key@ == k;
                assert(frames[i].key@ == k);
            }
            assert(self.issues@[last].project == Some(reference));
            assert forall|i: int| 0 <= i < frames.len() && !unsettled(#[trigger] frames[i].stage) implies covered(
                self.nodes@,
                self.issues@,
                frames[i].key@,
            ) by {
                if i < n - 1 {
                    assert(frames[i] == old_frames[i]);
                } else {
                    assert(self.issues@[last].project->0.key_view() == frames[i].key@);
                }
            }
            lemma_follows_top_reset(reset_from, *self);
        }
    }
}


/// No two offered optional dependencies name the same project.
pub open spec fn distinct_choices(choices: Seq<OptionalDependencyChoice>) -> bool {
    forall|i: int, j: int|
        0 <= i < j < choices.len() ==> !((#[trigger] choices[i]).project.provider == (#[trigger] choices[j]).project.provider
            && choices[i].project.project_id@ == choices[j].project.project_id@)
}

/// Some choice already offers an optional dependency on this project.
pub open spec fn offered(choices: Seq<OptionalDependencyChoice>, child: ProjectRef) -> bool {
    exists|i: int|
        0 <= i < choices.len() && (#[trigger] choices[i]).project.provider == child.provider
            && choices[i].project.project_id@ == child.project_id@
}

/// Whether an optional dependency on this project was already offered.
fn choice_offered(choices: &Vec<OptionalDependencyChoice>, child: &ProjectRef) -> (r: bool)
    ensures
        r == offered(choices@, *child),
{
    let mut i: usize = 0;
    while i < choices.len()
        invariant
            i <= choices.len(),
            forall|j: int|
                0 <= j < i ==> !((#[trigger] choices@[j]).project.provider == child.provider
                    && choices@[j].project.project_id@ == child.project_id@),
        decreases choices.len() - i,
    {
        if choices[i].project.provider == child.provider && choices[i].project.project_id == child.project_id {
            return true;
        }
        i = i + 1;
    }
    false
}

impl DependencyResolution {
    /// Moves the visit at `i` past its current dependency, once that
    /// dependency has been taken up.
    #[verifier::spinoff_prover]
    fn advance_frame(&mut self, i: usize)
        requires
            old(self).wf(),
            accounts(*old(self)),
            follows(*old(self)),
            i < old(self).frames.len(),
            old(self).frames@[i as int].next < old(self).frames@[i as int].dependencies.len(),
            old(self).frames@[i as int].stage == Stage::Dependencies,
            forall|n: int|
                0 <= n < old(self).nodes.len() && (#[trigger] old(self).nodes@[n]).key@ == old(self).frames@[i as int].key@
                    ==> dependency_followed(
                    *old(self),
                    old(self).frames@[i as int].key@,
                    old(self).frames@[i as int].dependencies@[old(self).frames@[i as int].next as int],
                ),
        ensures
            final(self).wf(),
            accounts(*final(self)),
            follows(*final(self)),
            final(self).same_request(*old(self)),
            grew(*old(self), *final(self)),
            final(self).next_root == old(self).next_root,
            final(self).nodes@ == old(self).nodes@,
            final(self).visited@ == old(self).visited@,
            final(self).edges@ == old(self).edges@,
            final(self).issues@ == old(self).issues@,
            final(self).optional_dependencies@ == old(self).optional_dependencies@,
            final(self).manual_downloads@ == old(self).manual_downloads@,
            final(self).conflicts@ == old(self).conflicts@,
            final(self).frames@ == old(self).frames@.update(i as int, stepped(old(self).frames@[i as int])),
            forall|k: Seq<char>| #[trigger] in_frames(final(self).frames@, k) == in_frames(old(self).frames@, k),
            i == old(self).frames.len() - 1 ==> work(final(self).frames@) < work(old(self).frames@),
    {
        let ghost old_self = *self;
        let ghost old_frames = self.frames@;
        let next = self.frames[i].next;
        self.frames[i].next = next + 1;
        assert(self.frames@ =~= old_frames.update(i as int, stepped(old_frames[i as int])));
        proof {
            let frames = self.frames@;
            let nodes = self.nodes@;
            assert forall|j: int| 0 <= j < frames.len() && j != i implies #[trigger] frames[j] == old_frames[j] by {}
            assert forall|k: Seq<char>| in_frames(frames, k) == in_frames(old_frames, k) by {
                if in_frames(frames, k) {
                    let j = choose|j: int| 0 <= j < frames.len() && #[trigger] frames[j].key@ == k;
                    assert(old_frames[j].key@ == k);
                }
                if in_frames(old_frames, k) {
                    let j = choose|j: int| 0 <= j < old_frames.len() && #[trigger] old_frames[j].key@ == k;
                    assert(frames[j].key@ == k);
                }
            }
            if i == frames.len() - 1 {
                assert(frames.drop_last() =~= old_frames.drop_last());
            }
            assert(reach_kept(old_self, *self));
            assert forall|a: int, n: int, j: int|
                #![trigger frames[a].dependencies@[j], nodes[n]]
                0 <= a < frames.len() && 0 <= n < nodes.len() && frames[a].key@ == nodes[n].key@ && 0 <= j < frames[a].next
                    implies dependency_followed(*self, nodes[n].key@, frames[a].dependencies@[j]) by {
                assert(old_frames[a].dependencies@ == frames[a].dependencies@);
                if a == i && j == next {
                } else {
                    assert(old_frames[a].dependencies@[j] == frames[a].dependencies@[j]);
                }
                lemma_followed_kept(old_self, *self, nodes[n].key@, frames[a].dependencies@[j]);
            }
            assert forall|n: int, j: int|
                0 <= n < nodes.len() && 0 <= j < nodes[n].version.dependencies.len() && !in_frames(frames, nodes[n].key@)
                    implies dependency_followed(*self, nodes[n].key@, #[trigger] nodes[n].version.dependencies@[j]) by {
                lemma_followed_kept(old_self, *self, nodes[n].key@, nodes[n].version.dependencies@[j]);
            }
            assert forall|a: int, n: int|
                0 <= a < frames.len() && 0 <= n < nodes.len() && (#[trigger] frames[a]).key@ == (#[trigger] nodes[n]).key@
                    implies frames[a].dependencies@ == nodes[n].version.dependencies@ by {
                assert(old_frames[a].key == frames[a].key && old_frames[a].dependencies == frames[a].dependencies);
            }
            assert(stage_facts(*self)) by {
                assert forall|a: int| 0 <= a < frames.len() && #[trigger] frames[a].stage != Stage::Dependencies implies frames[a]
                    == old_frames[a] by {}
            }
        }
    }

    /// Looks at the current dependency of the innermost visit, once the
    /// project it points to is known (or known to be missing): it gets its
    /// edge, a required one is visited, an optional one is offered (and
    /// visited when selected), an incompatibility is recorded, and the visit
    /// moves past it unless an optional dependency's name is looked up first.
    #[verifier::spinoff_prover]
    #[verifier::rlimit(100)]
    fn continue_dependency(&mut self, project_id: Option<String>) -> (r: Option<ResolveAction>)
        requires
            old(self).wf(),
            accounts(*old(self)),
            follows(*old(self)),
            old(self).frames.len() > 0,
            old(self).frames@.last().next < old(self).frames@.last().dependencies.len(),
            old(self).frames@.last().stage == Stage::Dependencies
                || old(self).frames@.last().stage == Stage::AwaitDependencyVersion,
            ({
                let top = old(self).frames@.last();
                let dep = top.dependencies@[top.next as int];
                &&& dep.project_id is Some ==> project_id == dep.project_id
                &&& dep.dependency_type != DependencyType::Embedded
            }),
        ensures
            final(self).wf(),
            accounts(*final(self)),
            follows(*final(self)),
            final(self).same_request(*old(self)),
            grew(*old(self), *final(self)),
            final(self).next_root == old(self).next_root,
            r is None ==> final(self).frames.len() == old(self).frames.len() && work(final(self).frames@)
                < work(old(self).frames@),
            r matches Some(a) ==> waits_for(final(self).frames@, a),
            ({
                let top = old(self).frames@.last();
                let dep = top.dependencies@[top.next as int];
                dep.provider is Some && project_id is Some ==> {
                    &&& final(self).edges.len() > old(self).edges.len()
                    &&& final(self).edges@[old(self).edges.len() as int].from@ == top.key@
                    &&& final(self).edges@[old(self).edges.len() as int].to@ == project_key(dep.provider->0, (project_id->0)@)
                    &&& final(self).edges@[old(self).edges.len() as int].dependency_type == dep.dependency_type
                }
            }),
    {
        let n = self.frames.len();
        let ghost old_self = *self;
        let ghost old_frames = self.frames@;
        self.frames[n - 1].stage = Stage::Dependencies;
        proof {
            let frames = self.frames@;
            assert forall|i: int| 0 <= i < n - 1 implies #[trigger] frames[i] == old_frames[i] by {}
            assert(frames.drop_last() =~= old_frames.drop_last());
            assert forall|k: Seq<char>| in_frames(frames, k) == in_frames(old_frames, k) by {
                if in_frames(old_frames, k) {
                    let i = choose|i: int| 0 <= i < old_frames.len() && #[trigger] old_frames[i].key@ == k;
                    assert(frames[i].key@ == k);
                }
                if in_frames(frames, k) {
                    let i = choose|i: int| 0 <= i < frames.len() && #[trigger] frames[i].key@ == k;
                    assert(old_frames[i].key@ == k);
                }
            }
            assert(work(frames) == work(old_frames));
            assert(reach_kept(old_self, *self));
            assert(stage_facts(*self)) by {
                assert forall|i: int| 0 <= i < frames.len() && #[trigger] frames[i].stage != Stage::Dependencies implies frames[i]
                    == old_frames[i] by {}
            }
            lemma_follows_kept(old_self, *self);
            assert forall|i: int| 0 <= i < frames.len() && !unsettled(#[trigger] frames[i].stage) implies covered(
                self.nodes@,
                self.issues@,
                frames[i].key@,
            ) by {
                assert(!unsettled(old_frames[i].stage));
            }
        }
        let next = self.frames[n - 1].next;
        let dependency = self.frames[n - 1].dependencies[next].clone();
        assert(self.frames@[n - 1].stage != Stage::AwaitProject);
        let name = match &self.frames[n - 1].project {
            Some(project) => project.name.clone(),
            None => {
                proof {
                    assert(false);
                }
                String::new()
            },
        };
        let key = self.frames[n - 1].key.clone();
        match (dependency.provider, project_id) {
            (Some(provider), Some(id)) => {
                let child = ProjectRef { provider, project_id: id };
                let child_key = child.key();
                match dependency.dependency_type {
                    DependencyType::Incompatible => {
                        let ghost before = *self;
                        let ghost target = child;
                        self.conflicts.push(Conflict { name, target: child });
                        self.edges.push(
                            ResolutionEdge { from: key, to: child_key, dependency_type: DependencyType::Incompatible },
                        );
                        proof {
                            assert(self.conflicts@[self.conflicts@.len() - 1].target == target);
                            assert(self.edges@.drop_last() =~= before.edges@);
                            assert(prefix_kept(before.conflicts@, self.conflicts@));
                            lemma_edge_pushed(before, *self);
                        }
                        self.advance_frame(n - 1);
                        None
                    },
                    DependencyType::Required => {
                        let from = key.clone();
                        let action = self.visit(child, InstallReason::Required, Some(key), dependency.version_id);
                        let ghost before = *self;
                        self.edges.push(ResolutionEdge { from, to: child_key, dependency_type: DependencyType::Required });
                        proof {
                            assert(self.edges@.drop_last() =~= before.edges@);
                            lemma_edge_pushed(before, *self);
                            let e = self.edges@.len() - 1;
                            assert(self.frames@[n - 1] == old_frames[n - 1] || self.frames@[n - 1].key == old_frames[n - 1].key);
                            assert(has_edge(self.edges@, self.frames@[n - 1].key@, child.key_view(), DependencyType::Required));
                        }
                        self.advance_frame(n - 1);
                        action
                    },
                    DependencyType::Optional => {
                        let ghost before = *self;
                        self.edges.push(
                            ResolutionEdge {
                                from: key.clone(),
                                to: child_key.clone(),
                                dependency_type: DependencyType::Optional,
                            },
                        );
                        proof {
                            assert(self.edges@.drop_last() =~= before.edges@);
                            lemma_edge_pushed(before, *self);
                        }
                        if choice_offered(&self.optional_dependencies, &child) {
                            if key_listed(&self.selected, &child_key) {
                                proof {
                                    lemma_selected_contains(self.selected@, child_key@);
                                }
                                let action = self.visit(child, InstallReason::Optional, Some(key), dependency.version_id);
                                self.advance_frame(n - 1);
                                action
                            } else {
                                self.advance_frame(n - 1);
                                None
                            }
                        } else {
                            let ghost before2 = *self;
                            let offered = child.clone();
                            self.frames[n - 1].child = Some(offered);
                            self.frames[n - 1].stage = Stage::AwaitOptionalName;
                            proof {
                                let frames = self.frames@;
                                let prior = before2.frames@;
                                assert forall|i: int| 0 <= i < n - 1 implies #[trigger] frames[i] == prior[i] by {}
                                assert forall|k: Seq<char>| in_frames(frames, k) == in_frames(prior, k) by {
                                    if in_frames(prior, k) {
                                        let i = choose|i: int| 0 <= i < prior.len() && #[trigger] prior[i].key@ == k;
                                        assert(frames[i].key@ == k);
                                    }
                                    if in_frames(frames, k) {
                                        let i = choose|i: int| 0 <= i < frames.len() && #[trigger] frames[i].key@ == k;
                                        assert(prior[i].key@ == k);
                                    }
                                }
                                assert(reach_kept(before2, *self));
                                let last_edge = self.edges@.len() - 1;
                                assert(self.edges@[last_edge].from@ == frames[n - 1].key@);
                                assert(has_edge(self.edges@, frames[n - 1].key@, child.key_view(), DependencyType::Optional));
                                assert(stage_facts(*self)) by {
                                    assert forall|i: int| 0 <= i < n - 1 implies #[trigger] frames[i] == prior[i] by {}
                                }
                                lemma_follows_kept(before2, *self);
                                assert forall|i: int| 0 <= i < frames.len() && !unsettled(#[trigger] frames[i].stage) implies covered(
                                    self.nodes@,
                                    self.issues@,
                                    frames[i].key@,
                                ) by {
                                    assert(!unsettled(prior[i].stage));
                                }
                            }
                            Some(ResolveAction::FetchOptionalName(child))
                        }
                    },
                    DependencyType::Embedded => {
                        self.advance_frame(n - 1);
                        None
                    },
                }
            },
            _ => {
                if dependency.dependency_type == DependencyType::Required {
                    let file = match dependency.filename {
                        Some(f) => f,
                        None => String::from_str("arquivo desconhecido"),
                    };
                    let reference = self.frames[n - 1].reference.clone();
                    let a = join2(name.as_str(), " declarou uma dependência sem identificador (");
                    let b = join2(a.as_str(), file.as_str());
                    let message = join2(b.as_str(), ").");
                    let ghost before = *self;
                    self.issues.push(issue(ResolutionIssueCode::MissingDependencyId, IssueSeverity::Error, message, Some(reference)));
                    proof {
                        lemma_accounts_grow(before, *self);
                        lemma_follows_kept(before, *self);
                    }
                }
                self.advance_frame(n - 1);
                None
            },
        }
    }
}


impl DependencyResolution {
    /// The name of an offered optional dependency arrived (or could not be
    /// loaded, and its key stands in): the choice is recorded, and the
    /// dependency is visited when the user selected it.
    #[verifier::spinoff_prover]
    fn offer_optional(&mut self, found_name: Option<String>) -> (r: Option<ResolveAction>)
        requires
            old(self).wf(),
            accounts(*old(self)),
            follows(*old(self)),
            old(self).frames.len() > 0,
            old(self).frames@.last().stage == Stage::AwaitOptionalName,
        ensures
            final(self).wf(),
            accounts(*final(self)),
            follows(*final(self)),
            final(self).same_request(*old(self)),
            grew(*old(self), *final(self)),
            final(self).next_root == old(self).next_root,
            r matches Some(a) ==> waits_for(final(self).frames@, a),
            ({
                let top = old(self).frames@.last();
                let t = old(self).frames.len() - 1;
                let child = top.child->0;
                let choice = final(self).optional_dependencies@.last();
                let chosen = listed(old(self).selected@, child.key_view());
                &&& final(self).optional_dependencies.len() == old(self).optional_dependencies.len() + 1
                &&& final(self).optional_dependencies@.drop_last() == old(self).optional_dependencies@
                &&& choice.project == child
                &&& choice.name@ == match found_name {
                    Some(name) => name@,
                    None => child.key_view(),
                }
                &&& choice.parent_key@ == top.key@
                &&& choice.selected == chosen
                &&& final(self).edges@ == old(self).edges@
                &&& chosen ==> listed(final(self).visited@, child.key_view()) || in_frames(
                    final(self).frames@,
                    child.key_view(),
                )
            }),
    {
        let n = self.frames.len();
        let ghost old_frames = self.frames@;
        let child = match &self.frames[n - 1].child {
            Some(c) => c.clone(),
            None => {
                proof {
                    assert(false);
                }
                return None;
            },
        };
        let child_key = child.key();
        let name = match found_name {
            Some(name) => name,
            None => child_key.clone(),
        };
        let chosen = key_listed(&self.selected, &child_key);
        let key = self.frames[n - 1].key.clone();
        let next = self.frames[n - 1].next;
        let version_id = clone_opt_string(&self.frames[n - 1].dependencies[next].version_id);
        let ghost old_choices = self.optional_dependencies@;
        let ghost old_self = *self;
        self.optional_dependencies.push(OptionalDependencyChoice {
            project: child.clone(),
            name,
            parent_key: key.clone(),
            selected: chosen,
        });
        self.frames[n - 1].stage = Stage::Dependencies;
        self.frames[n - 1].child = None;
        assert(self.frames@ =~= old_frames.update(n - 1, Frame { stage: Stage::Dependencies, child: None, ..old_frames.last() }));
        proof {
            let frames = self.frames@;
            assert forall|i: int| 0 <= i < n - 1 implies #[trigger] frames[i] == old_frames[i] by {}
            assert forall|k: Seq<char>| in_frames(old_frames, k) implies in_frames(frames, k) by {
                let i = choose|i: int| 0 <= i < old_frames.len() && #[trigger] old_frames[i].key@ == k;
                assert(frames[i].key@ == k);
            }
            assert forall|o: int| 0 <= o < self.optional_dependencies.len() implies (
                #[trigger] self.optional_dependencies@[o].selected == listed(
                    self.selected@,
                    self.optional_dependencies@[o].project.key_view(),
                )) by {
                if o < old_choices.len() {
                    assert(self.optional_dependencies@[o] == old_choices[o]);
                }
            }
            assert forall|k: Seq<char>| in_frames(frames, k) == in_frames(old_frames, k) by {
                if in_frames(frames, k) {
                    let i = choose|i: int| 0 <= i < frames.len() && #[trigger] frames[i].key@ == k;
                    assert(old_frames[i].key@ == k);
                }
            }
            assert(reach_kept(old_self, *self));
            assert(stage_facts(*self)) by {
                assert forall|i: int| 0 <= i < n - 1 implies #[trigger] frames[i] == old_frames[i] by {}
            }
            lemma_follows_kept(old_self, *self);
            assert forall|i: int| 0 <= i < frames.len() && !unsettled(#[trigger] frames[i].stage) implies covered(
                self.nodes@,
                self.issues@,
                frames[i].key@,
            ) by {
                assert(!unsettled(old_frames[i].stage));
            }
            let last = self.optional_dependencies@.len() - 1;
            assert(self.optional_dependencies@[last].project == child);
        }
        if chosen {
            proof {
                lemma_selected_contains(self.selected@, child_key@);
            }
            let action = self.visit(child, InstallReason::Optional, Some(key), version_id);
            self.advance_frame(n - 1);
            action
        } else {
            self.advance_frame(n - 1);
            None
        }
    }

    /// Takes up the current dependency of the innermost visit: embedded files
    /// are skipped, a dependency known only by version is looked up first.
    #[verifier::spinoff_prover]
    fn handle_next(&mut self) -> (r: Option<ResolveAction>)
        requires
            old(self).wf(),
            accounts(*old(self)),
            follows(*old(self)),
            old(self).frames.len() > 0,
            old(self).frames@.last().next < old(self).frames@.last().dependencies.len(),
            old(self).frames@.last().stage == Stage::Dependencies,
        ensures
            final(self).wf(),
            accounts(*final(self)),
            follows(*final(self)),
            final(self).same_request(*old(self)),
            grew(*old(self), *final(self)),
            final(self).next_root == old(self).next_root,
            r is None ==> final(self).frames.len() == old(self).frames.len() && work(final(self).frames@)
                < work(old(self).frames@),
            r matches Some(a) ==> waits_for(final(self).frames@, a),
    {
        let n = self.frames.len();
        let next = self.frames[n - 1].next;
        let dependency = self.frames[n - 1].dependencies[next].clone();
        if dependency.dependency_type == DependencyType::Embedded {
            self.advance_frame(n - 1);
            return None;
        }
        match (dependency.provider, &dependency.project_id, &dependency.version_id) {
            (Some(provider), None, Some(version_id)) => {
                let ghost old_self = *self;
                let ghost old_frames = self.frames@;
                self.frames[n - 1].stage = Stage::AwaitDependencyVersion;
                assert(self.frames@ =~= old_frames.update(n - 1, Frame { stage: Stage::AwaitDependencyVersion, ..old_frames.last() }));
                proof {
                    let frames = self.frames@;
                    assert(frames[n - 1].next < frames[n - 1].dependencies.len());
                    assert(frames[n - 1].dependencies@[frames[n - 1].next as int] == dependency);
                    assert forall|i: int| 0 <= i < n - 1 implies #[trigger] frames[i] == old_frames[i] by {}
                    assert forall|k: Seq<char>| in_frames(frames, k) == in_frames(old_frames, k) by {
                        if in_frames(old_frames, k) {
                            let i = choose|i: int| 0 <= i < old_frames.len() && #[trigger] old_frames[i].key@ == k;
                            assert(frames[i].key@ == k);
                        }
                        if in_frames(frames, k) {
                            let i = choose|i: int| 0 <= i < frames.len() && #[trigger] frames[i].key@ == k;
                            assert(old_frames[i].key@ == k);
                        }
                    }
                    assert(reach_kept(old_self, *self));
                    assert(stage_facts(*self)) by {
                        assert forall|i: int| 0 <= i < n - 1 implies #[trigger] frames[i] == old_frames[i] by {}
                    }
                    lemma_follows_kept(old_self, *self);
                    assert forall|i: int| 0 <= i < frames.len() && !unsettled(#[trigger] frames[i].stage) implies covered(
                        self.nodes@,
                        self.issues@,
                        frames[i].key@,
                    ) by {
                        assert(!unsettled(old_frames[i].stage));
                    }
                }
                Some(ResolveAction::FetchVersion { provider, id: version_id.clone() })
            },
            _ => self.continue_dependency(dependency.project_id),
        }
    }

    /// The lookup the innermost visit waits for.
    fn pending_action(&self) -> (r: ResolveAction)
        requires
            self.wf(),
            self.frames.len() > 0,
            self.frames@.last().stage != Stage::Dependencies,
        ensures
            answers(self.frames@.last(), r),
    {
        let n = self.frames.len();
        let top = &self.frames[n - 1];
        match top.stage {
            Stage::AwaitProject => ResolveAction::FetchProject(top.reference.clone()),
            Stage::AwaitVersion => ResolveAction::FetchCompatibleVersion {
                project: top.reference.clone(),
                version_id: clone_opt_string(&top.version_id),
            },
            Stage::AwaitDependencyVersion => {
                let dependency = &top.dependencies[top.next];
                match (dependency.provider, &dependency.version_id) {
                    (Some(provider), Some(version_id)) => ResolveAction::FetchVersion {
                        provider,
                        id: version_id.clone(),
                    },
                    _ => {
                        proof {
                            assert(false);
                        }
                        ResolveAction::FetchProject(top.reference.clone())
                    },
                }
            },
            Stage::AwaitAlternate => match &top.project {
                Some(project) => ResolveAction::FetchAlternate {
                    project: top.reference.clone(),
                    source: project.clone(),
                },
                None => {
                    proof {
                        assert(false);
                    }
                    ResolveAction::FetchProject(top.reference.clone())
                },
            },
            Stage::AwaitReconciled => match (&top.project, &top.held) {
                (Some(project), Some(version)) => ResolveAction::FetchReconciled {
                    reference: top.reference.clone(),
                    project: project.clone(),
                    version: version.clone(),
                },
                _ => {
                    proof {
                        assert(false);
                    }
                    ResolveAction::FetchProject(top.reference.clone())
                },
            },
            _ => match &top.child {
                Some(child) => ResolveAction::FetchOptionalName(child.clone()),
                None => {
                    proof {
                        assert(false);
                    }
                    ResolveAction::FetchProject(top.reference.clone())
                },
            },
        }
    }

    /// Runs the resolution until a lookup is needed; `None` when every
    /// requested project has been visited.
    #[verifier::spinoff_prover]
    fn run(&mut self) -> (r: Option<ResolveAction>)
        requires
            old(self).wf(),
            accounts(*old(self)),
            follows(*old(self)),
        ensures
            final(self).wf(),
            accounts(*final(self)),
            follows(*final(self)),
            final(self).same_request(*old(self)),
            grew(*old(self), *final(self)),
            r is None ==> final(self).frames.len() == 0 && final(self).next_root == final(self).roots.len(),
            r matches Some(a) ==> waits_for(final(self).frames@, a),
            final(self).next_root >= old(self).next_root,
    {
        let ghost start = *self;
        loop
            invariant
                self.wf(),
                self.same_request(start),
                start == *old(self),
                self.next_root >= start.next_root,
                grew(start, *self),
                accounts(*self),
                follows(*self),
            decreases self.roots.len() - self.next_root, work(self.frames@),
        {
            let n = self.frames.len();
            if n == 0 {
                if self.next_root >= self.roots.len() {
                    return None;
                }
                let root = self.roots[self.next_root].clone();
                let ghost root_key = root.key_view();
                let action = self.visit(root, InstallReason::Requested, None, None);
                let ghost before = *self;
                self.next_root = self.next_root + 1;
                proof {
                    lemma_follows_kept(before, *self);
                    let last = before.next_root as int;
                    assert(self.roots@[last].key_view() == root_key);
                    assert forall|r: int, m: int|
                        0 <= r < self.next_root && 0 <= m < self.nodes.len() && #[trigger] self.nodes@[m].key@
                            == #[trigger] self.roots@[r].key_view() implies self.nodes@[m].reason == InstallReason::Requested by {
                        if r == last {
                            assert(self.nodes@[m].key@ == root_key);
                        }
                    }
                    assert forall|r: int, i: int|
                        0 <= r < self.next_root && 0 <= i < self.frames.len() && #[trigger] self.frames@[i].key@
                            == #[trigger] self.roots@[r].key_view() implies self.frames@[i].reason == InstallReason::Requested by {
                        if r == last {
                            assert(self.frames@[i].key@ == root_key);
                        }
                    }
                    assert forall|r: int| 0 <= r < self.next_root implies listed(self.visited@, #[trigger] self.roots@[r].key_view())
                        || in_frames(self.frames@, self.roots@[r].key_view()) by {
                        if r == last {
                            assert(self.roots@[r].key_view() == root_key);
                        }
                    }
                }
                if action.is_some() {
                    return action;
                }
            } else {
                let stage = self.frames[n - 1].stage;
                if stage != Stage::Dependencies {
                    return Some(self.pending_action());
                }
                if self.frames[n - 1].next >= self.frames[n - 1].dependencies.len() {
                    assert(!unsettled(self.frames@[n - 1].stage));
                    self.finish_top();
                } else {
                    let action = self.handle_next();
                    if action.is_some() {
                        return action;
                    }
                }
            }
        }
    }
}


/// What one resolution step promises: a resolution still in progress stays
/// consistent, keeps its request and waits for the lookup it names; a
/// finished plan respects the request and reports every declared
/// incompatibility with a mod of the profile or of the plan.
pub open spec fn step_respects(
    step: ResolveStep,
    roots: Seq<ProjectRef>,
    selected: Seq<Seq<char>>,
    target: ProfileTarget,
    installed: Seq<Seq<char>>,
) -> bool {
    match step {
        ResolveStep::Continue(resolution, action) => {
            &&& resolution.wf()
            &&& resolution.accounted()
            &&& resolution.awaits(action)
            &&& resolution.roots() == roots
            &&& resolution.selected() == selected
            &&& resolution.target().same(target)
            &&& resolution.installed() == installed
        },
        ResolveStep::Finished(plan) => {
            &&& plan_respects_choices(plan, roots, selected)
            &&& plan.target.same(target)
            &&& conflicts_reported(plan.edges@, plan.issues@, installed, plan.nodes@)
        },
    }
}

/// The nodes of a step: those resolved so far, or the finished plan's.
pub open spec fn step_nodes(step: ResolveStep) -> Seq<ResolutionNode> {
    match step {
        ResolveStep::Continue(resolution, _) => resolution.nodes_view(),
        ResolveStep::Finished(plan) => plan.nodes@,
    }
}

/// The edges of a step.
pub open spec fn step_edges(step: ResolveStep) -> Seq<ResolutionEdge> {
    match step {
        ResolveStep::Continue(resolution, _) => resolution.edges_view(),
        ResolveStep::Finished(plan) => plan.edges@,
    }
}

/// The issues of a step.
pub open spec fn step_issues(step: ResolveStep) -> Seq<ResolutionIssue> {
    match step {
        ResolveStep::Continue(resolution, _) => resolution.issues_view(),
        ResolveStep::Finished(plan) => plan.issues@,
    }
}

/// The offered optional dependencies of a step.
pub open spec fn step_choices(step: ResolveStep) -> Seq<OptionalDependencyChoice> {
    match step {
        ResolveStep::Continue(resolution, _) => resolution.choices_view(),
        ResolveStep::Finished(plan) => plan.optional_dependencies@,
    }
}

/// The manual downloads of a step.
pub open spec fn step_manual(step: ResolveStep) -> Seq<ManualDownload> {
    match step {
        ResolveStep::Continue(resolution, _) => resolution.manual_view(),
        ResolveStep::Finished(plan) => plan.manual_downloads@,
    }
}

/// Whatever the catalogs answer, nothing found before is taken back: the
/// step keeps every node (with its project, version and installed state),
/// edge, issue, offered choice and manual download of `before`, in order.
pub open spec fn step_grows(step: ResolveStep, before: DependencyResolution) -> bool {
    &&& nodes_kept(before.nodes_view(), step_nodes(step))
    &&& prefix_kept(before.edges_view(), step_edges(step))
    &&& prefix_kept(before.issues_view(), step_issues(step))
    &&& prefix_kept(before.choices_view(), step_choices(step))
    &&& prefix_kept(before.manual_view(), step_manual(step))
}

/// The issue at position `at` reports this problem about the project.
pub open spec fn reported(
    issues: Seq<ResolutionIssue>,
    at: int,
    code: ResolutionIssueCode,
    severity: IssueSeverity,
    project: ProjectRef,
) -> bool {
    &&& 0 <= at < issues.len()
    &&& issues[at].code == code
    &&& issues[at].severity == severity
    &&& issues[at].project == Some(project)
}

/// The node at position `at` installs this version for the project.
pub open spec fn resolved_at(nodes: Seq<ResolutionNode>, at: int, project: ProjectRef, version: ProjectVersion) -> bool {
    &&& 0 <= at < nodes.len()
    &&& nodes[at].key@ == project.key_view()
    &&& nodes[at].version == version
}

/// What the answer `event` to the lookup `a` does to the resolution
/// `before`, as seen in the step that follows:
/// - a project page leads to the lookup of its compatible version;
/// - a failed lookup of a page or version is reported against the project,
///   with the catalog's message;
/// - no compatible version is reported against the project;
/// - a compatible version that can be downloaded is compared with the other
///   catalog's equivalent version, and then becomes the next node, its
///   dependencies completed with the required ones found only there; one
///   that cannot be downloaded leads to a search for an equivalent project in the
///   other catalog;
/// - a downloadable equivalent becomes the next node, with a warning that
///   the other catalog serves it; without one the project is listed for
///   manual download, with a warning, and nothing is blocked;
/// - a dependency known only by its version leads to an edge towards the
///   version's project;
/// - an offered optional dependency is recorded, selected exactly when the
///   user selected it;
/// - an answer of another kind leaves the resolution as it was and asks
///   for the same lookup again.
pub open spec fn answered(before: DependencyResolution, a: ResolveAction, event: ResolveEvent, r: ResolveStep) -> bool {
    let nodes = before.nodes_view().len() as int;
    let issues = before.issues_view().len() as int;
    match (a, event) {
        (ResolveAction::FetchProject(p), ResolveEvent::Project(Ok(_))) => {
            &&& r matches ResolveStep::Continue(res, next) && next matches ResolveAction::FetchCompatibleVersion {
                project,
                ..
            } && project == p && res.nodes_view() == before.nodes_view() && res.issues_view() == before.issues_view()
        },
        (ResolveAction::FetchProject(p), ResolveEvent::Project(Err(m))) => {
            &&& reported(step_issues(r), issues, ResolutionIssueCode::ProviderError, IssueSeverity::Error, p)
            &&& step_issues(r)[issues].message@ == m@
        },
        (
            ResolveAction::FetchCompatibleVersion { project: p, .. },
            ResolveEvent::CompatibleVersion(Ok(Some(v))),
        ) => if downloadable(v) {
            &&& r matches ResolveStep::Continue(res, next) && next matches ResolveAction::FetchReconciled {
                reference,
                version,
                ..
            } && reference == p && version.same(v) && res.nodes_view() == before.nodes_view()
                && res.issues_view() == before.issues_view()
        } else {
            &&& r matches ResolveStep::Continue(res, next) && next matches ResolveAction::FetchAlternate {
                project,
                ..
            } && project == p && res.nodes_view() == before.nodes_view() && res.issues_view() == before.issues_view()
        },
        (ResolveAction::FetchCompatibleVersion { project: p, .. }, ResolveEvent::CompatibleVersion(Ok(None))) => {
            reported(step_issues(r), issues, ResolutionIssueCode::NoCompatibleVersion, IssueSeverity::Error, p)
        },
        (ResolveAction::FetchCompatibleVersion { project: p, .. }, ResolveEvent::CompatibleVersion(Err(m))) => {
            &&& reported(step_issues(r), issues, ResolutionIssueCode::ProviderError, IssueSeverity::Error, p)
            &&& step_issues(r)[issues].message@ == m@
        },
        (ResolveAction::FetchAlternate { project: p, source }, ResolveEvent::Alternate(found)) => match found {
            Some((copy, v)) if downloadable(v) => {
                &&& resolved_at(step_nodes(r), nodes, p, v)
                &&& step_nodes(r)[nodes].project == copy
                &&& reported(step_issues(r), issues, ResolutionIssueCode::ProviderFallback, IssueSeverity::Warning, p)
            },
            _ => {
                let manual = before.manual_view().len() as int;
                &&& step_manual(r).len() > manual
                &&& step_manual(r)[manual].project.same(source)
                &&& reported(step_issues(r), issues, ResolutionIssueCode::DistributionRestricted, IssueSeverity::Warning, p)
            },
        },
        (ResolveAction::FetchOptionalName(c), ResolveEvent::OptionalName(_)) => {
            let offered = before.choices_view().len() as int;
            &&& step_choices(r).len() > offered
            &&& step_choices(r)[offered].project == c
            &&& step_choices(r)[offered].selected == before.selected().contains(c.key_view())
        },
        (ResolveAction::FetchVersion { provider, .. }, ResolveEvent::Version(Ok(v))) => {
            let edges = before.edges_view().len() as int;
            &&& step_edges(r).len() > edges
            &&& step_edges(r)[edges].to@ == project_key(provider, v.project_id@)
        },
        (ResolveAction::FetchVersion { .. }, ResolveEvent::Version(Err(_))) => true,
        (ResolveAction::FetchReconciled { reference: p, version: v, .. }, ResolveEvent::Reconciled(found)) => {
            &&& 0 <= nodes < step_nodes(r).len()
            &&& step_nodes(r)[nodes].key@ == p.key_view()
            &&& step_nodes(r)[nodes].version.version_id == v.version_id
            &&& step_nodes(r)[nodes].version.dependencies@ == match found {
                Some(list) => list@,
                None => v.dependencies@,
            }
        },
        _ => r matches ResolveStep::Continue(res, next) && res == before && res.awaits(next),
    }
}

/// The text of a hyphenated UUID as the `uuid` crate writes one: 36
/// characters, dashes at positions 8, 13, 18 and 23 and lowercase
/// hexadecimal digits everywhere else.
pub open spec fn hyphenated_uuid(s: Seq<char>) -> bool {
    &&& s.len() == 36
    &&& forall|k: int|
        0 <= k < 36 ==> if k == 8 || k == 13 || k == 18 || k == 23 {
            #[trigger] s[k] == '-'
        } else {
            ('0' <= s[k] <= '9') || ('a' <= s[k] <= 'f')
        }
}

/// A fresh random identifier: `uuid::Uuid::new_v4().to_string()`. Which
/// identifier comes out is left open; its `Display` writes the hyphenated
/// lowercase form, which is all that is claimed of it.
#[verifier::external_body]
pub(crate) fn new_uuid_text() -> (r: String)
    ensures
        hyphenated_uuid(r@),
{
    uuid::Uuid::new_v4().to_string()
}

proof fn lemma_selected_contains(selected: Seq<String>, k: Seq<char>)
    ensures
        listed(selected, k) <==> selected.map_values(|s: String| s@).contains(k),
{
    let view = selected.map_values(|s: String| s@);
    if listed(selected, k) {
        let i = choose|i: int| 0 <= i < selected.len() && #[trigger] selected[i]@ == k;
        assert(view[i] == k);
    }
    if view.contains(k) {
        let i = choose|i: int| 0 <= i < view.len() && view[i] == k;
        assert(selected[i]@ == k);
    }
}

/// Bytes this node adds to the download.
fn node_size(node: &ResolutionNode) -> (r: u64)
    ensures
        r == node_download_size(*node),
{
    if node.already_installed {
        return 0;
    }
    match primary_file(&node.version) {
        Some(file) => if file.url.is_some() {
            file.size
        } else {
            0
        },
        None => 0,
    }
}

impl DependencyResolution {
    /// The finished plan: nodes in the order they were resolved, with the
    /// download size and whether installation may start.
    fn into_plan(self, id: String) -> (plan: ResolutionPlan)
        requires
            self.wf(),
            accounts(self),
            follows(self),
            self.frames.len() == 0,
            self.next_root == self.roots.len(),
            sweep_done(self),
        ensures
            plan_respects_choices(plan, self.roots(), self.selected()),
            plan.target == self.target(),
            plan.id == id,
            plan.nodes@ == self.nodes@,
            plan.edges@ == self.edges@,
            plan.issues@ == self.issues@,
            plan.optional_dependencies@ == self.optional_dependencies@,
            plan.manual_downloads@ == self.manual_downloads@,
            conflicts_reported(plan.edges@, plan.issues@, self.installed(), plan.nodes@),
    {
        let mut total: u64 = 0;
        let mut i: usize = 0;
        while i < self.nodes.len()
            invariant
                i <= self.nodes.len(),
                total == if total_download_size(self.nodes@.take(i as int)) > u64::MAX {
                    u64::MAX as int
                } else {
                    total_download_size(self.nodes@.take(i as int))
                },
            decreases self.nodes.len() - i,
        {
            let size = node_size(&self.nodes[i]);
            proof {
                let next = self.nodes@.take(i as int + 1);
                assert(next.drop_last() =~= self.nodes@.take(i as int));
                assert(next.last() == self.nodes@[i as int]);
            }
            total = total.saturating_add(size);
            i = i + 1;
        }
        assert(self.nodes@.take(self.nodes.len() as int) =~= self.nodes@);
        let mut blocking = false;
        let mut j: usize = 0;
        while j < self.issues.len()
            invariant
                j <= self.issues.len(),
                blocking == exists|k: int| 0 <= k < j && #[trigger] self.issues@[k].severity == IssueSeverity::Error,
            decreases self.issues.len() - j,
        {
            if self.issues[j].severity == IssueSeverity::Error {
                blocking = true;
            }
            j = j + 1;
        }
        let can_install = self.nodes.len() > 0 && !blocking;
        proof {
            let view = self.selected();
            assert forall|k: Seq<char>| listed(self.selected@, k) <==> view.contains(k) by {
                lemma_selected_contains(self.selected@, k);
            }
            let installed = self.installed();
            assert forall|e: int|
                0 <= e < self.edges@.len() && (#[trigger] self.edges@[e]).dependency_type == DependencyType::Incompatible && (
                installed.contains(self.edges@[e].to@) || exists|n: int|
                    0 <= n < self.nodes@.len() && (#[trigger] self.nodes@[n]).key@ == self.edges@[e].to@) implies conflict_reported(
                self.issues@,
                self.edges@[e].to@,
            ) by {
                let to = self.edges@[e].to@;
                assert(has_conflict(self.conflicts@, to));
                let d = choose|d: int| 0 <= d < self.conflicts@.len() && (#[trigger] self.conflicts@[d]).target.key_view() == to;
                lemma_selected_contains(self.installed_keys@, to);
            }
        }
        let ghost me = self;
        let plan = ResolutionPlan {
            id,
            target: self.target,
            nodes: self.nodes,
            edges: self.edges,
            issues: self.issues,
            optional_dependencies: self.optional_dependencies,
            manual_downloads: self.manual_downloads,
            downloadable_bytes: total,
            can_install,
        };
        proof {
            lemma_plan_follows(me, plan);
        }
        plan
    }

    /// Reports each recorded incompatibility whose project is in the profile
    /// or in the plan.
    fn report_conflicts(&mut self)
        requires
            old(self).wf(),
            accounts(*old(self)),
            follows(*old(self)),
        ensures
            final(self).wf(),
            accounts(*final(self)),
            follows(*final(self)),
            final(self).same_request(*old(self)),
            final(self).next_root == old(self).next_root,
            final(self).frames@ == old(self).frames@,
            final(self).nodes@ == old(self).nodes@,
            final(self).edges@ == old(self).edges@,
            final(self).visited@ == old(self).visited@,
            final(self).optional_dependencies@ == old(self).optional_dependencies@,
            final(self).manual_downloads@ == old(self).manual_downloads@,
            final(self).conflicts@ == old(self).conflicts@,
            prefix_kept(old(self).issues@, final(self).issues@),
            sweep_done(*final(self)),
    {
        let ghost start = *self;
        let mut c: usize = 0;
        while c < self.conflicts.len()
            invariant
                c <= self.conflicts.len(),
                self.wf(),
                accounts(*self),
                follows(*self),
                self.same_request(start),
                self.next_root == start.next_root,
                self.frames@ == start.frames@,
                self.nodes@ == start.nodes@,
                self.edges@ == start.edges@,
                self.visited@ == start.visited@,
                self.optional_dependencies@ == start.optional_dependencies@,
                self.manual_downloads@ == start.manual_downloads@,
                self.conflicts@ == start.conflicts@,
                prefix_kept(start.issues@, self.issues@),
                forall|d: int|
                    0 <= d < c && (listed(self.installed_keys@, (#[trigger] self.conflicts@[d]).target.key_view()) || exists|n: int|
                        0 <= n < self.nodes@.len() && (#[trigger] self.nodes@[n]).key@ == self.conflicts@[d].target.key_view())
                        ==> conflict_reported(self.issues@, self.conflicts@[d].target.key_view()),
            decreases self.conflicts.len() - c,
        {
            let key = self.conflicts[c].target.key();
            if key_listed(&self.installed_keys, &key) || node_position(&self.nodes, &key).is_some() {
                let target = self.conflicts[c].target.clone();
                let head = join2(self.conflicts[c].name.as_str(), " é incompatível com ");
                let middle = join2(head.as_str(), key.as_str());
                let message = join2(middle.as_str(), ".");
                let ghost before = *self;
                self.issues.push(issue(ResolutionIssueCode::IncompatibleMod, IssueSeverity::Error, message, Some(target)));
                proof {
                    lemma_accounts_grow(before, *self);
                    lemma_follows_kept(before, *self);
                    let last = self.issues@.len() - 1;
                    assert(self.issues@[last].project == Some(target));
                    assert forall|d: int|
                        0 <= d <= c && (listed(self.installed_keys@, (#[trigger] self.conflicts@[d]).target.key_view()) || exists|n: int|
                            0 <= n < self.nodes@.len() && (#[trigger] self.nodes@[n]).key@ == self.conflicts@[d].target.key_view())
                            implies conflict_reported(self.issues@, self.conflicts@[d].target.key_view()) by {
                        if d < c {
                            let i = choose|i: int|
                                0 <= i < before.issues@.len() && (#[trigger] before.issues@[i]).code == ResolutionIssueCode::IncompatibleMod
                                    && before.issues@[i].severity == IssueSeverity::Error && before.issues@[i].project is Some
                                    && before.issues@[i].project->0.key_view() == self.conflicts@[d].target.key_view();
                            assert(self.issues@[i] == before.issues@[i]);
                        }
                    }
                }
            }
            c = c + 1;
        }
    }

    /// Runs until the next lookup, or finishes the plan.
    fn advance(self) -> (r: ResolveStep)
        requires
            self.wf(),
            accounts(self),
            follows(self),
        ensures
            step_respects(r, self.roots(), self.selected(), self.target(), self.installed()),
            step_grows(r, self),
    {
        let mut this = self;
        match this.run() {
            Some(action) => ResolveStep::Continue(this, action),
            None => {
                this.report_conflicts();
                let id = new_uuid_text();
                ResolveStep::Finished(this.into_plan(id))
            },
        }
    }

    /// Starts resolving the given projects for a profile's target.
    ///
    /// `installed` are the mods already in the profile, `selected_optional`
    /// the optional dependencies the user chose; a catalog that is not enabled
    /// cannot be asked. Fails exactly when no project is given.
    pub fn start(
        target: &ProfileTarget,
        installed: &Vec<InstalledMod>,
        roots: Vec<ProjectRef>,
        selected_optional: &Vec<ProjectRef>,
        modrinth_enabled: bool,
        curseforge_enabled: bool,
    ) -> (r: Result<ResolveStep, AppError>)
        ensures
            r is Err <==> roots@.len() == 0,
            r matches Err(e) ==> e == AppError::Message(e->Message_0) && e->Message_0@
                == "A predefinição não contém mods."@,
            r matches Ok(step) ==> step_respects(
                step,
                roots@,
                selected_optional@.map_values(|p: ProjectRef| p.key_view()),
                *target,
                installed@.map_values(|m: InstalledMod| m.key_view()),
            ),
            r matches Ok(ResolveStep::Continue(_, a)) ==> exists|k: int|
                0 <= k < roots@.len() && catalog_enabled(roots@[k].provider, modrinth_enabled, curseforge_enabled)
                    && a == ResolveAction::FetchProject(roots@[k]) && forall|j: int|
                    0 <= j < k ==> !catalog_enabled(#[trigger] roots@[j].provider, modrinth_enabled, curseforge_enabled),
            r matches Ok(ResolveStep::Finished(plan)) ==> {
                &&& forall|j: int|
                    0 <= j < roots@.len() ==> !catalog_enabled(#[trigger] roots@[j].provider, modrinth_enabled, curseforge_enabled)
                &&& plan.nodes.len() == 0
                &&& !plan.can_install
            },
    {
        if roots.len() == 0 {
            return Err(AppError::message("A predefinição não contém mods."));
        }
        let mut installed_keys: Vec<String> = Vec::new();
        let mut installed_versions: Vec<String> = Vec::new();
        let mut i: usize = 0;
        while i < installed.len()
            invariant
                i <= installed.len(),
                installed_keys.len() == i,
                installed_versions.len() == i,
                forall|k: int| 0 <= k < i ==> #[trigger] installed_keys@[k]@ == installed@[k].key_view(),
            decreases installed.len() - i,
        {
            installed_keys.push(installed[i].as_ref().key());
            installed_versions.push(installed[i].version_id.clone());
            i = i + 1;
        }
        let mut selected: Vec<String> = Vec::new();
        let mut j: usize = 0;
        while j < selected_optional.len()
            invariant
                j <= selected_optional.len(),
                selected.len() == j,
                forall|k: int| 0 <= k < j ==> #[trigger] selected@[k]@ == selected_optional@[k].key_view(),
            decreases selected_optional.len() - j,
        {
            selected.push(selected_optional[j].key());
            j = j + 1;
        }
        let ghost requested = roots@;
        let mut resolution = DependencyResolution {
            target: target.clone(),
            installed_keys,
            installed_versions,
            selected,
            modrinth_enabled,
            curseforge_enabled,
            roots,
            next_root: 0,
            nodes: Vec::new(),
            edges: Vec::new(),
            issues: Vec::new(),
            optional_dependencies: Vec::new(),
            manual_downloads: Vec::new(),
            conflicts: Vec::new(),
            visited: Vec::new(),
            frames: Vec::new(),
        };
        proof {
            assert(resolution.selected() =~= selected_optional@.map_values(|p: ProjectRef| p.key_view()));
            assert(resolution.installed() =~= installed@.map_values(|m: InstalledMod| m.key_view()));
        }
        let ghost initial = resolution;
        let mut k: usize = 0;
        while k < resolution.roots.len()
            invariant
                initial.wf(),
                resolution.wf(),
                accounts(resolution),
                follows(resolution),
                resolution.same_request(initial),
                initial.roots@ == requested,
                requested == roots@,
                requested.len() > 0,
                initial.selected() == selected_optional@.map_values(|p: ProjectRef| p.key_view()),
                initial.target().same(*target),
                initial.installed() == installed@.map_values(|m: InstalledMod| m.key_view()),
                initial.modrinth_enabled == modrinth_enabled,
                initial.curseforge_enabled == curseforge_enabled,
                resolution.frames.len() == 0,
                resolution.next_root == k,
                k <= resolution.roots.len(),
                resolution.nodes.len() == 0,
                forall|j: int| 0 <= j < k ==> !catalog_enabled(#[trigger] requested[j].provider, modrinth_enabled, curseforge_enabled),
                forall|v: Seq<char>| listed(resolution.visited@, v) ==> exists|j: int| 0 <= j < k && #[trigger] requested[j].key_view() == v,
            decreases resolution.roots.len() - k,
        {
            let root = resolution.roots[k].clone();
            let ghost root_key = root.key_view();
            let ghost old_visited = resolution.visited@;
            let ghost previous = resolution;
            let action = resolution.visit(root, InstallReason::Requested, None, None);
            let ghost before = resolution;
            resolution.next_root = k + 1;
            proof {
                lemma_follows_kept(before, resolution);
                let last = k as int;
                assert(resolution.roots@[last].key_view() == root_key);
                assert forall|r: int, m: int|
                    0 <= r < resolution.next_root && 0 <= m < resolution.nodes.len() && #[trigger] resolution.nodes@[m].key@
                        == #[trigger] resolution.roots@[r].key_view() implies resolution.nodes@[m].reason == InstallReason::Requested by {
                    if r == last {
                        assert(resolution.nodes@[m].key@ == root_key);
                    }
                }
                assert forall|r: int, i: int|
                    0 <= r < resolution.next_root && 0 <= i < resolution.frames.len() && #[trigger] resolution.frames@[i].key@
                        == #[trigger] resolution.roots@[r].key_view() implies resolution.frames@[i].reason == InstallReason::Requested by {
                    if r == last {
                        assert(resolution.frames@[i].key@ == root_key);
                    }
                }
                assert forall|r: int| 0 <= r < resolution.next_root implies listed(resolution.visited@, #[trigger] resolution.roots@[r].key_view())
                    || in_frames(resolution.frames@, resolution.roots@[r].key_view()) by {
                    if r == last {
                        assert(resolution.roots@[r].key_view() == root_key);
                    }
                }
            }
            match action {
                Some(a) => {
                    return Ok(ResolveStep::Continue(resolution, a));
                },
                None => {
                    proof {
                        if listed(old_visited, root_key) {
                            let j = choose|j: int| 0 <= j < k && #[trigger] requested[j].key_view() == root_key;
                            lemma_key_names_provider(requested[j], requested[k as int]);
                        }
                        assert forall|v: Seq<char>| listed(resolution.visited@, v) implies exists|j: int|
                            0 <= j < k + 1 && #[trigger] requested[j].key_view() == v by {
                            if listed(old_visited, v) {
                                let j = choose|j: int| 0 <= j < k && #[trigger] requested[j].key_view() == v;
                                assert(0 <= j < k + 1);
                            } else {
                                assert(before.was_visited(v));
                                assert(!previous.was_visited(v));
                                assert(requested[k as int].key_view() == v);
                            }
                        }
                    }
                },
            }
            k = k + 1;
        }
        let id = new_uuid_text();
        resolution.report_conflicts();
        Ok(ResolveStep::Finished(resolution.into_plan(id)))
    }

    /// Hands the answer to the pending lookup back and runs on. An answer of
    /// another kind than the pending lookup leaves the resolution as it was
    /// and asks for that lookup again.
    #[verifier::spinoff_prover]
    pub fn resume(self, event: ResolveEvent) -> (r: ResolveStep)
        requires
            self.wf(),
            self.accounted(),
        ensures
            step_respects(r, self.roots(), self.selected(), self.target(), self.installed()),
            step_grows(r, self),
            forall|a: ResolveAction| #[trigger] self.awaits(a) ==> answered(self, a, event, r),
    {
        let mut this = self;
        let n = this.frames.len();
        if n == 0 {
            return this.advance();
        }
        let stage = this.frames[n - 1].stage;
        if stage == Stage::Dependencies {
            return this.advance();
        }
        match event {
            ResolveEvent::Project(result) => {
                if stage != Stage::AwaitProject {
                    let action = this.pending_action();
                    return ResolveStep::Continue(this, action);
                }
                match result {
                    Ok(project) => {
                        let ghost old_frames = this.frames@;
                        this.frames[n - 1].project = Some(project);
                        this.frames[n - 1].stage = Stage::AwaitVersion;
                        proof {
                            let frames = this.frames@;
                            assert forall|i: int| 0 <= i < n - 1 implies #[trigger] frames[i] == old_frames[i] by {}
                            assert forall|i: int, m: int|
                                0 <= i < frames.len() && 0 <= m < this.nodes@.len() && #[trigger] unsettled(frames[i].stage)
                                    implies #[trigger] this.nodes@[m].key@ != frames[i].key@ by {
                                if i == n - 1 {
                                    assert(unsettled(old_frames[i].stage));
                                } else {
                                    assert(frames[i] == old_frames[i]);
                                }
                            }
                            assert forall|i: int| 0 <= i < frames.len() && !unsettled(#[trigger] frames[i].stage) implies covered(
                                this.nodes@,
                                this.issues@,
                                frames[i].key@,
                            ) by {
                                assert(frames[i] == old_frames[i]);
                            }
                            assert forall|k: Seq<char>| in_frames(old_frames, k) implies in_frames(frames, k) by {
                                let i = choose|i: int| 0 <= i < old_frames.len() && #[trigger] old_frames[i].key@ == k;
                                assert(frames[i].key@ == k);
                            }
                        }
                        let action = ResolveAction::FetchCompatibleVersion {
                            project: this.frames[n - 1].reference.clone(),
                            version_id: clone_opt_string(&this.frames[n - 1].version_id),
                        };
                        ResolveStep::Continue(this, action)
                    },
                    Err(message) => {
                        this.fail_top(message);
                        this.advance()
                    },
                }
            },
            ResolveEvent::CompatibleVersion(result) => {
                if stage != Stage::AwaitVersion {
                    let action = this.pending_action();
                    return ResolveStep::Continue(this, action);
                }
                match result {
                    Ok(Some(version)) => {
                        if restricted(&version) {
                            this.hold_restricted(version);
                            let action = this.pending_action();
                            return ResolveStep::Continue(this, action);
                        }
                        let ghost arrived = version;
                        this.await_reconciliation(version);
                        let action = this.pending_action();
                        proof {
                            lemma_same_version_chain(action->version, this.frames@.last().held->0, arrived);
                        }
                        ResolveStep::Continue(this, action)
                    },
                    Ok(None) => {
                        this.no_compatible_version();
                        this.advance()
                    },
                    Err(message) => {
                        this.fail_top(message);
                        this.advance()
                    },
                }
            },
            ResolveEvent::Version(result) => {
                if stage != Stage::AwaitDependencyVersion {
                    let action = this.pending_action();
                    return ResolveStep::Continue(this, action);
                }
                let project_id = match result {
                    Ok(version) => Some(version.project_id),
                    Err(_) => None,
                };
                match this.continue_dependency(project_id) {
                    Some(action) => ResolveStep::Continue(this, action),
                    None => this.advance(),
                }
            },
            ResolveEvent::OptionalName(result) => {
                if stage != Stage::AwaitOptionalName {
                    let action = this.pending_action();
                    return ResolveStep::Continue(this, action);
                }
                let name = match result {
                    Ok(project) => Some(project.name),
                    Err(_) => None,
                };
                proof {
                    lemma_selected_contains(this.selected@, this.frames@.last().child->0.key_view());
                }
                match this.offer_optional(name) {
                    Some(action) => ResolveStep::Continue(this, action),
                    None => this.advance(),
                }
            },
            ResolveEvent::Reconciled(completed) => {
                if stage != Stage::AwaitReconciled {
                    let action = this.pending_action();
                    return ResolveStep::Continue(this, action);
                }
                this.take_reconciled(completed);
                this.advance()
            },
            ResolveEvent::Alternate(found) => {
                if stage != Stage::AwaitAlternate {
                    let action = this.pending_action();
                    return ResolveStep::Continue(this, action);
                }
                match found {
                    Some((copy, version)) => {
                        if restricted(&version) {
                            this.require_manual();
                            return this.advance();
                        }
                        assert(this.frames@[n - 1].stage != Stage::AwaitProject);
                        let name = match &this.frames[n - 1].project {
                            Some(project) => project.name.clone(),
                            None => {
                                proof {
                                    assert(false);
                                }
                                return this.advance();
                            },
                        };
                        let reference = this.frames[n - 1].reference.clone();
                        let head = join2(name.as_str(), " não permite download por aplicativos de terceiros; será usada a cópia equivalente do ");
                        let middle = join2(head.as_str(), provider_label(copy.provider));
                        let message = join2(middle.as_str(), ".");
                        this.accept_version(copy, version);
                        let ghost before = this;
                        this.issues.push(issue(ResolutionIssueCode::ProviderFallback, IssueSeverity::Warning, message, Some(reference)));
                        proof {
                            lemma_accounts_grow(before, this);
                        }
                        this.advance()
                    },
                    None => {
                        this.require_manual();
                        this.advance()
                    },
                }
            },
        }
    }
}

} // verus!
