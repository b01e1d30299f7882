//! Types shared by the whole library: catalogs, projects, versions, plans and profiles.
use crate::text::join2;
use vstd::prelude::*;

verus! {

/// A catalog that mods come from; `Local` marks files that no catalog recognized.
#[derive(Debug, Clone, Copy, PartialEq, Eq, Hash, Structural)]
pub enum ProviderId {
    Modrinth,
    Curseforge,
    Local,
}

/// The lowercase name a provider is written with in keys and files.
pub open spec fn provider_name(p: ProviderId) -> Seq<char> {
    match p {
        ProviderId::Modrinth => "modrinth"@,
        ProviderId::Curseforge => "curseforge"@,
        ProviderId::Local => "local"@,
    }
}

impl ProviderId {
    /// The provider's name in keys and messages.
    pub fn as_str(self) -> (r: &'static str)
        ensures
            r@ == provider_name(self),
    {
        match self {
            ProviderId::Modrinth => "modrinth",
            ProviderId::Curseforge => "curseforge",
            ProviderId::Local => "local",
        }
    }

    /// Whether the mod came from a remote catalog.
    pub fn is_remote(self) -> (r: bool)
        ensures
            r == (self != ProviderId::Local),
    {
        !matches!(self, ProviderId::Local)
    }
}

#[derive(Debug, Clone, Copy, PartialEq, Eq, Hash, Structural)]
pub enum ModLoader {
    Fabric,
    Forge,
    Neoforge,
    Quilt,
}

pub open spec fn loader_name(l: ModLoader) -> Seq<char> {
    match l {
        ModLoader::Fabric => "fabric"@,
        ModLoader::Forge => "forge"@,
        ModLoader::Neoforge => "neoforge"@,
        ModLoader::Quilt => "quilt"@,
    }
}

impl ModLoader {
    /// The loader's name as catalogs write it.
    pub fn as_str(self) -> (r: &'static str)
        ensures
            r@ == loader_name(self),
    {
        match self {
            ModLoader::Fabric => "fabric",
            ModLoader::Forge => "forge",
            ModLoader::Neoforge => "neoforge",
            ModLoader::Quilt => "quilt",
        }
    }
}

#[derive(Debug, Clone, Copy, PartialEq, Eq, Hash, Structural)]
pub enum ReleaseChannel {
    Release,
    Beta,
    Alpha,
}

#[derive(Debug, Clone, Copy, PartialEq, Eq, Hash, Structural)]
pub enum ProjectSide {
    Client,
    Server,
    Both,
    Unknown,
}

#[derive(Debug, Clone, Copy, PartialEq, Eq, Hash, Structural)]
pub enum DependencyType {
    Required,
    Optional,
    Incompatible,
    Embedded,
}

#[derive(Debug, PartialEq, Eq)]
pub struct ProfileTarget {
    pub minecraft_version: String,
    pub loader: ModLoader,
    pub release_channels: Vec<ReleaseChannel>,
}

impl ProfileTarget {
    /// Field-by-field equality, lists compared by their contents.
    pub open spec fn same(self, other: Self) -> bool {
        &&& self.minecraft_version@ == other.minecraft_version@
        &&& self.loader == other.loader
        &&& self.release_channels@ == other.release_channels@
    }
}

impl Clone for ProfileTarget {
    fn clone(&self) -> (r: Self)
        ensures
            r.same(*self),
    {
        let channels = self.release_channels.clone();
        assert(channels@ =~= self.release_channels@);
        ProfileTarget {
            minecraft_version: self.minecraft_version.clone(),
            loader: self.loader,
            release_channels: channels,
        }
    }
}

#[derive(Debug, Clone, Copy, PartialEq, Eq, Hash, Structural)]
pub enum SearchSide {
    Any,
    Client,
    Server,
    Both,
    Unknown,
}

#[derive(Debug, Clone, Copy, PartialEq, Eq, Hash, Structural)]
pub enum SearchSort {
    Relevance,
    Downloads,
    Updated,
    Newest,
}

#[derive(Debug)]
pub struct SearchFilters {
    pub query: String,
    pub minecraft_version: String,
    pub loader: ModLoader,
    pub release_channels: Vec<ReleaseChannel>,
    pub providers: Vec<ProviderId>,
    pub side: SearchSide,
    pub sort: SearchSort,
    pub limit: Option<u32>,
}

/// A project in one catalog.
#[derive(Debug, PartialEq, Eq, Hash)]
pub struct ProjectRef {
    pub provider: ProviderId,
    pub project_id: String,
}

/// `provider:project_id`, the key a project is known by in plans and graphs.
pub open spec fn project_key(provider: ProviderId, project_id: Seq<char>) -> Seq<char> {
    provider_name(provider) + seq![':'] + project_id
}

impl ProjectRef {
    pub open spec fn key_view(self) -> Seq<char> {
        project_key(self.provider, self.project_id@)
    }

    /// The project's key: `provider:project_id`.
    pub fn key(&self) -> (r: String)
        ensures
            r@ == self.key_view(),
    {
        let head = join2(self.provider.as_str(), ":");
        proof {
            reveal_strlit(":");
        }
        let r = join2(head.as_str(), self.project_id.as_str());
        assert(r@ =~= self.key_view());
        r
    }
}

impl Clone for ProjectRef {
    fn clone(&self) -> (r: Self)
        ensures
            r == *self,
    {
        ProjectRef { provider: self.provider, project_id: self.project_id.clone() }
    }
}

/// Keys name projects one to one: equal keys mean the same provider and project id.
pub proof fn lemma_project_key_injective(
    p1: ProviderId,
    id1: Seq<char>,
    p2: ProviderId,
    id2: Seq<char>,
)
    requires
        project_key(p1, id1) == project_key(p2, id2),
    ensures
        p1 == p2,
        id1 == id2,
{
    reveal_strlit("modrinth");
    reveal_strlit("curseforge");
    reveal_strlit("local");
    let k1 = project_key(p1, id1);
    let k2 = project_key(p2, id2);
    let n1 = provider_name(p1);
    let n2 = provider_name(p2);
    assert(k1[n1.len() as int] == ':');
    assert(k2[n2.len() as int] == ':');
    if n1.len() < n2.len() {
        assert(k2[n1.len() as int] == n2[n1.len() as int]);
        assert(false);
    }
    if n2.len() < n1.len() {
        assert(k1[n2.len() as int] == n1[n2.len() as int]);
        assert(false);
    }
    assert(n1 =~= k1.take(n1.len() as int));
    assert(n2 =~= k2.take(n2.len() as int));
    assert(n1 == n2);
    if p1 != p2 {
        assert(false);
    }
    assert(id1 =~= k1.skip(n1.len() as int + 1));
    assert(id2 =~= k2.skip(n2.len() as int + 1));
}

#[derive(Debug)]
pub struct ProjectSummary {
    pub provider: ProviderId,
    pub project_id: String,
    pub slug: String,
    pub name: String,
    pub summary: String,
    pub author: String,
    pub icon_url: Option<String>,
    pub website_url: String,
    pub downloads: u64,
    pub updated_at: String,
    pub categories: Vec<String>,
    pub supported_versions: Vec<String>,
    pub supported_loaders: Vec<ModLoader>,
    pub side: ProjectSide,
    pub featured: Option<bool>,
}

impl ProjectSummary {
    /// Field-by-field equality, lists compared by their contents.
    pub open spec fn same(self, other: Self) -> bool {
        &&& self.provider == other.provider
        &&& self.project_id == other.project_id
        &&& self.slug == other.slug
        &&& self.name == other.name
        &&& self.summary == other.summary
        &&& self.author == other.author
        &&& self.icon_url == other.icon_url
        &&& self.website_url == other.website_url
        &&& self.downloads == other.downloads
        &&& self.updated_at == other.updated_at
        &&& self.categories@ == other.categories@
        &&& self.supported_versions@ == other.supported_versions@
        &&& self.supported_loaders@ == other.supported_loaders@
        &&& self.side == other.side
        &&& self.featured == other.featured
    }
}

impl Clone for ProjectSummary {
    fn clone(&self) -> (r: Self)
        ensures
            r.same(*self),
    {
        let categories = self.categories.clone();
        assert(categories@ =~= self.categories@);
        let versions = self.supported_versions.clone();
        assert(versions@ =~= self.supported_versions@);
        let loaders = self.supported_loaders.clone();
        assert(loaders@ =~= self.supported_loaders@);
        ProjectSummary {
            provider: self.provider,
            project_id: self.project_id.clone(),
            slug: self.slug.clone(),
            name: self.name.clone(),
            summary: self.summary.clone(),
            author: self.author.clone(),
            icon_url: match &self.icon_url {
                Some(url) => Some(url.clone()),
                None => None,
            },
            website_url: self.website_url.clone(),
            downloads: self.downloads,
            updated_at: self.updated_at.clone(),
            categories,
            supported_versions: versions,
            supported_loaders: loaders,
            side: self.side,
            featured: self.featured,
        }
    }
}

#[derive(Debug)]
pub struct FileHash {
    pub algorithm: HashAlgorithm,
    pub value: String,
}

impl Clone for FileHash {
    fn clone(&self) -> (r: Self)
        ensures
            r == *self,
    {
        FileHash { algorithm: self.algorithm, value: self.value.clone() }
    }
}

#[derive(Debug, Clone, Copy, PartialEq, Eq, Hash, Structural)]
pub enum HashAlgorithm {
    Sha1,
    Sha512,
    Md5,
}

#[derive(Debug)]
pub struct DownloadFile {
    pub filename: String,
    pub url: Option<String>,
    pub size: u64,
    pub hashes: Vec<FileHash>,
    pub primary: bool,
}

impl DownloadFile {
    /// Field-by-field equality, lists compared by their contents.
    pub open spec fn same(self, other: Self) -> bool {
        &&& self.filename == other.filename
        &&& self.url == other.url
        &&& self.size == other.size
        &&& self.hashes@ == other.hashes@
        &&& self.primary == other.primary
    }
}

impl Clone for DownloadFile {
    fn clone(&self) -> (r: Self)
        ensures
            r.same(*self),
    {
        let hashes = self.hashes.clone();
        assert(hashes@ =~= self.hashes@);
        DownloadFile {
            filename: self.filename.clone(),
            url: match &self.url {
                Some(url) => Some(url.clone()),
                None => None,
            },
            size: self.size,
            hashes,
            primary: self.primary,
        }
    }
}

#[derive(Debug)]
pub struct ModDependency {
    pub provider: Option<ProviderId>,
    pub project_id: Option<String>,
    pub version_id: Option<String>,
    pub filename: Option<String>,
    pub dependency_type: DependencyType,
}

/// A copy of an optional text.
pub fn clone_opt_string(s: &Option<String>) -> (r: Option<String>)
    ensures
        r == *s,
{
    match s {
        Some(v) => Some(v.clone()),
        None => None,
    }
}

impl Clone for ModDependency {
    fn clone(&self) -> (r: Self)
        ensures
            r == *self,
    {
        ModDependency {
            provider: self.provider,
            project_id: clone_opt_string(&self.project_id),
            version_id: clone_opt_string(&self.version_id),
            filename: clone_opt_string(&self.filename),
            dependency_type: self.dependency_type,
        }
    }
}

#[derive(Debug)]
pub struct ProjectVersion {
    pub provider: ProviderId,
    pub project_id: String,
    pub version_id: String,
    pub name: String,
    pub version_number: String,
    pub minecraft_versions: Vec<String>,
    pub loaders: Vec<ModLoader>,
    pub channel: ReleaseChannel,
    pub published_at: String,
    pub downloads: u64,
    pub files: Vec<DownloadFile>,
    pub dependencies: Vec<ModDependency>,
}

impl ProjectVersion {
    /// Field-by-field equality, lists compared by their contents.
    pub open spec fn same(self, other: Self) -> bool {
        &&& self.provider == other.provider
        &&& self.project_id == other.project_id
        &&& self.version_id == other.version_id
        &&& self.name == other.name
        &&& self.version_number == other.version_number
        &&& self.minecraft_versions@ == other.minecraft_versions@
        &&& self.loaders@ == other.loaders@
        &&& self.channel == other.channel
        &&& self.published_at == other.published_at
        &&& self.downloads == other.downloads
        &&& self.files.len() == other.files.len()
        &&& forall|i: int| 0 <= i < self.files.len() ==> #[trigger] self.files@[i].same(other.files@[i])
        &&& self.dependencies@ == other.dependencies@
    }
}

impl Clone for ProjectVersion {
    fn clone(&self) -> (r: Self)
        ensures
            r.same(*self),
    {
        let minecraft_versions = self.minecraft_versions.clone();
        assert(minecraft_versions@ =~= self.minecraft_versions@);
        let loaders = self.loaders.clone();
        assert(loaders@ =~= self.loaders@);
        let files = self.files.clone();
        assert forall|i: int| 0 <= i < files.len() implies #[trigger] files@[i].same(self.files@[i]) by {
            assert(cloned(self.files@[i], files@[i]));
        }
        let dependencies = self.dependencies.clone();
        assert(dependencies@ =~= self.dependencies@);
        ProjectVersion {
            provider: self.provider,
            project_id: self.project_id.clone(),
            version_id: self.version_id.clone(),
            name: self.name.clone(),
            version_number: self.version_number.clone(),
            minecraft_versions,
            loaders,
            channel: self.channel,
            published_at: self.published_at.clone(),
            downloads: self.downloads,
            files,
            dependencies,
        }
    }
}

#[derive(Debug)]
pub struct ProviderStatus {
    pub enabled: bool,
    pub ok: bool,
    pub message: Option<String>,
}

/// Search results of every catalog; `providers` holds one status per catalog name.
#[derive(Debug)]
pub struct CatalogSearchResult {
    pub projects: Vec<ProjectSummary>,
    pub total: u64,
    pub warnings: Vec<String>,
    pub providers: Vec<(String, ProviderStatus)>,
}

#[derive(Debug)]
pub struct ResolutionNode {
    pub key: String,
    pub project: ProjectSummary,
    pub version: ProjectVersion,
    pub reason: InstallReason,
    pub parent_key: Option<String>,
    pub already_installed: bool,
}

impl Clone for ResolutionNode {
    fn clone(&self) -> (r: Self)
        ensures
            r.key == self.key,
            r.project.same(self.project),
            r.version.same(self.version),
            r.reason == self.reason,
            r.parent_key == self.parent_key,
            r.already_installed == self.already_installed,
    {
        ResolutionNode {
            key: self.key.clone(),
            project: self.project.clone(),
            version: self.version.clone(),
            reason: self.reason,
            parent_key: clone_opt_string(&self.parent_key),
            already_installed: self.already_installed,
        }
    }
}

#[derive(Debug, Clone, Copy, PartialEq, Eq, Hash, Structural)]
pub enum InstallReason {
    Requested,
    Required,
    Optional,
}

#[derive(Debug, Clone)]
pub struct ResolutionEdge {
    pub from: String,
    pub to: String,
    pub dependency_type: DependencyType,
}

#[derive(Debug, Clone, Copy, PartialEq, Eq, Hash, Structural)]
pub enum ResolutionIssueCode {
    NoCompatibleVersion,
    MissingDependencyId,
    IncompatibleMod,
    DependencyCycle,
    DependencyMetadataFallback,
    DistributionRestricted,
    ProviderFallback,
    ProviderError,
}

#[derive(Debug, Clone, Copy, PartialEq, Eq, Hash, Structural)]
pub enum IssueSeverity {
    Warning,
    Error,
}

#[derive(Debug, Clone)]
pub struct ResolutionIssue {
    pub code: ResolutionIssueCode,
    pub severity: IssueSeverity,
    pub message: String,
    pub project: Option<ProjectRef>,
}

#[derive(Debug, Clone)]
pub struct OptionalDependencyChoice {
    pub project: ProjectRef,
    pub name: String,
    pub parent_key: String,
    pub selected: bool,
}

#[derive(Debug, Clone)]
pub struct ManualDownload {
    pub project: ProjectSummary,
    pub reason: InstallReason,
}

#[derive(Debug, Clone)]
pub struct ResolutionPlan {
    pub id: String,
    pub target: ProfileTarget,
    pub nodes: Vec<ResolutionNode>,
    pub edges: Vec<ResolutionEdge>,
    pub issues: Vec<ResolutionIssue>,
    pub optional_dependencies: Vec<OptionalDependencyChoice>,
    pub manual_downloads: Vec<ManualDownload>,
    pub downloadable_bytes: u64,
    pub can_install: bool,
}

#[derive(Debug)]
pub struct InstalledMod {
    pub provider: ProviderId,
    pub project_id: String,
    pub name: String,
    pub version_id: String,
    pub version_number: String,
    pub filename: String,
    pub installed_at: String,
    pub reason: InstallReason,
    pub hashes: Vec<FileHash>,
    pub enabled: bool,
    pub required_dependencies: Option<Vec<ProjectRef>>,
}

impl InstalledMod {
    /// The project the installed mod belongs to.
    pub fn as_ref(&self) -> (r: ProjectRef)
        ensures
            r.provider == self.provider,
            r.project_id@ == self.project_id@,
    {
        ProjectRef { provider: self.provider, project_id: self.project_id.clone() }
    }

    pub open spec fn key_view(self) -> Seq<char> {
        project_key(self.provider, self.project_id@)
    }

    /// Field-by-field equality, lists compared by their contents.
    pub open spec fn same(self, other: Self) -> bool {
        &&& self.provider == other.provider
        &&& self.project_id == other.project_id
        &&& self.name == other.name
        &&& self.version_id == other.version_id
        &&& self.version_number == other.version_number
        &&& self.filename == other.filename
        &&& self.installed_at == other.installed_at
        &&& self.reason == other.reason
        &&& self.hashes@ == other.hashes@
        &&& self.enabled == other.enabled
        &&& same_dependency_list(self.required_dependencies, other.required_dependencies)
    }
}

pub open spec fn same_dependency_list(a: Option<Vec<ProjectRef>>, b: Option<Vec<ProjectRef>>) -> bool {
    match (a, b) {
        (Some(x), Some(y)) => x@ == y@,
        (None, None) => true,
        _ => false,
    }
}

impl Clone for InstalledMod {
    fn clone(&self) -> (r: Self)
        ensures
            r.same(*self),
    {
        let hashes = self.hashes.clone();
        assert(hashes@ =~= self.hashes@);
        InstalledMod {
            provider: self.provider,
            project_id: self.project_id.clone(),
            name: self.name.clone(),
            version_id: self.version_id.clone(),
            version_number: self.version_number.clone(),
            filename: self.filename.clone(),
            installed_at: self.installed_at.clone(),
            reason: self.reason,
            hashes,
            enabled: self.enabled,
            required_dependencies: match &self.required_dependencies {
                Some(deps) => {
                    let copy = deps.clone();
                    assert(copy@ =~= deps@);
                    Some(copy)
                },
                None => None,
            },
        }
    }
}

#[derive(Debug)]
pub struct ModpackProfile {
    pub id: String,
    pub name: String,
    pub description: String,
    pub target: ProfileTarget,
    pub instance_path: String,
    pub created_at: String,
    pub updated_at: String,
    pub mods: Vec<InstalledMod>,
}

impl ModpackProfile {
    /// Field-by-field equality, texts by content and mods one by one.
    pub open spec fn same(self, other: Self) -> bool {
        &&& self.id@ == other.id@
        &&& self.name@ == other.name@
        &&& self.description@ == other.description@
        &&& self.target.same(other.target)
        &&& self.instance_path@ == other.instance_path@
        &&& self.created_at@ == other.created_at@
        &&& self.updated_at@ == other.updated_at@
        &&& self.mods.len() == other.mods.len()
        &&& forall|i: int| 0 <= i < self.mods.len() ==> #[trigger] self.mods@[i].same(other.mods@[i])
    }
}

impl Clone for ModpackProfile {
    fn clone(&self) -> (r: Self)
        ensures
            r.same(*self),
    {
        let mut mods: Vec<InstalledMod> = Vec::new();
        let mut i: usize = 0;
        while i < self.mods.len()
            invariant
                i <= self.mods.len(),
                mods.len() == i,
                forall|j: int| 0 <= j < i ==> #[trigger] mods@[j].same(self.mods@[j]),
            decreases self.mods.len() - i,
        {
            mods.push(self.mods[i].clone());
            i = i + 1;
        }
        ModpackProfile {
            id: self.id.clone(),
            name: self.name.clone(),
            description: self.description.clone(),
            target: self.target.clone(),
            instance_path: self.instance_path.clone(),
            created_at: self.created_at.clone(),
            updated_at: self.updated_at.clone(),
            mods,
        }
    }
}

#[derive(Debug, Clone, Copy)]
pub struct AppSettings {
    pub curse_forge_configured: bool,
    pub include_optional_dependencies: bool,
    pub download_concurrency: u8,
    pub telemetry: bool,
}

#[derive(Debug)]
pub struct InstallProgress {
    pub plan_id: String,
    pub project_key: String,
    pub filename: String,
    pub state: ProgressState,
    pub received_bytes: u64,
    pub total_bytes: u64,
    pub message: Option<String>,
}

#[derive(Debug, Clone, Copy, PartialEq, Eq, Hash, Structural)]
pub enum ProgressState {
    Queued,
    Downloading,
    Verifying,
    Installed,
    Skipped,
    Failed,
}

#[derive(Debug)]
pub struct InstallFailure {
    pub project_key: String,
    pub message: String,
}

#[derive(Debug)]
pub struct InstallResult {
    pub profile: ModpackProfile,
    pub installed: usize,
    pub skipped: usize,
    pub failed: Vec<InstallFailure>,
}

#[derive(Debug)]
pub struct RemoveModResult {
    pub profile: ModpackProfile,
    pub removed: Vec<InstalledMod>,
    pub retained_shared: Vec<InstalledMod>,
    pub unmanaged_mod_files: usize,
    pub dependency_verification_failures: usize,
}

#[derive(Debug)]
pub struct CreateProfileInput {
    pub name: String,
    pub description: Option<String>,
    pub target: ProfileTarget,
    pub instance_path: Option<String>,
}

#[derive(Debug)]
pub struct DuplicateProfileInput {
    pub name: String,
    pub description: Option<String>,
    pub instance_path: Option<String>,
    pub mode: DuplicateProfileMode,
}

#[derive(Debug, Clone, Copy, PartialEq, Eq, Hash, Structural)]
pub enum DuplicateProfileMode {
    Full,
    ModsOnly,
}

#[derive(Debug)]
pub struct DuplicateProfileResult {
    pub profile: ModpackProfile,
    pub copied_files: u64,
    pub copied_bytes: u64,
}

#[derive(Debug)]
pub struct UpdateProfileInput {
    pub name: String,
    pub description: String,
}

#[derive(Debug, PartialEq, Eq)]
pub struct PresetEntry {
    pub project: ProjectRef,
    pub name: String,
}

impl Clone for PresetEntry {
    fn clone(&self) -> (r: Self)
        ensures
            r == *self,
    {
        PresetEntry { project: self.project.clone(), name: self.name.clone() }
    }
}

#[derive(Debug)]
pub struct ModPreset {
    pub id: String,
    pub name: String,
    pub description: String,
    pub entries: Vec<PresetEntry>,
    pub created_at: String,
    pub updated_at: String,
}

impl ModPreset {
    /// Field-by-field equality, texts and entries by content.
    pub open spec fn same(self, other: Self) -> bool {
        &&& self.id@ == other.id@
        &&& self.name@ == other.name@
        &&& self.description@ == other.description@
        &&& self.entries@ == other.entries@
        &&& self.created_at@ == other.created_at@
        &&& self.updated_at@ == other.updated_at@
    }
}

impl Clone for ModPreset {
    fn clone(&self) -> (r: Self)
        ensures
            r.same(*self),
    {
        let mut entries: Vec<PresetEntry> = Vec::new();
        let mut i: usize = 0;
        while i < self.entries.len()
            invariant
                i <= self.entries.len(),
                entries@ == self.entries@.take(i as int),
            decreases self.entries.len() - i,
        {
            entries.push(self.entries[i].clone());
            i = i + 1;
            assert(entries@ =~= self.entries@.take(i as int));
        }
        assert(self.entries@.take(self.entries.len() as int) =~= self.entries@);
        ModPreset {
            id: self.id.clone(),
            name: self.name.clone(),
            description: self.description.clone(),
            entries,
            created_at: self.created_at.clone(),
            updated_at: self.updated_at.clone(),
        }
    }
}

#[derive(Debug)]
pub struct SavePresetInput {
    pub name: String,
    pub description: Option<String>,
    pub entries: Vec<PresetEntry>,
}

#[derive(Debug)]
pub struct SaveSettingsInput {
    pub curse_forge_api_key: Option<String>,
    pub clear_curse_forge_api_key: Option<bool>,
    pub include_optional_dependencies: bool,
    pub download_concurrency: u8,
}

} // verus!
