//! Identifying a mod file in the catalogs, one lookup at a time.
use crate::domain::{provider_name, ProjectSummary, ProjectVersion, ProviderId};
use crate::import::{hashes_to_try, identification_warning, project_load_warning};
use vstd::prelude::*;

verus! {

/// The next lookup the identification of a file needs.
pub enum IdentifyAction {
    /// Ask this catalog for the version whose file has the file's hash at
    /// this position (and the file's fingerprint).
    FindVersion { provider: ProviderId, hash_index: usize },
    /// Load the page of a matched version's project.
    LoadProject { provider: ProviderId, project_id: String },
}

/// The catalog's answer to the last lookup.
pub enum IdentifyEvent {
    Version(Result<Option<ProjectVersion>, String>),
    Project(Result<ProjectSummary, String>),
}

/// Where the identification stands: at a catalog and a hash, at a matched
/// version whose project is being loaded, or done.
#[derive(PartialEq, Eq, Structural, Clone, Copy)]
pub enum IdentifyStage {
    Versions { catalog: usize, hash: usize },
    Projects { probe: usize },
    Done,
}

/// The catalogs asked, in order: Modrinth, then CurseForge, when enabled.
pub open spec fn catalog_order(modrinth_enabled: bool, curseforge_enabled: bool) -> Seq<ProviderId> {
    let first = if modrinth_enabled { seq![ProviderId::Modrinth] } else { Seq::empty() };
    if curseforge_enabled { first.push(ProviderId::Curseforge) } else { first }
}

/// How many of the file's hashes the catalog at this position is asked about.
pub open spec fn tries(catalogs: Seq<ProviderId>, hash_count: nat, c: int) -> nat {
    if catalogs[c] == ProviderId::Curseforge && hash_count > 1 { 1 } else { hash_count }
}

/// The stage moved on until a lookup is due: past a catalog whose hashes
/// were all asked about, to the matched projects once the catalogs are
/// done, and to the end once nothing is left.
pub open spec fn settled(catalogs: Seq<ProviderId>, hash_count: nat, matches: nat, s: IdentifyStage) -> IdentifyStage {
    match s {
        IdentifyStage::Versions { catalog: c, hash: h } => if c < catalogs.len() && h < tries(catalogs, hash_count, c as int) {
            s
        } else if c + 1 < catalogs.len() && hash_count > 0 {
            IdentifyStage::Versions { catalog: (c + 1) as usize, hash: 0 }
        } else if matches > 0 {
            IdentifyStage::Projects { probe: 0 }
        } else {
            IdentifyStage::Done
        },
        IdentifyStage::Projects { probe: p } => if p < matches {
            s
        } else {
            IdentifyStage::Done
        },
        IdentifyStage::Done => IdentifyStage::Done,
    }
}

/// The identification of one file.
pub struct JarIdentification {
    filename: String,
    hash_count: usize,
    catalogs: Vec<ProviderId>,
    stage: IdentifyStage,
    matches: Vec<(ProviderId, ProjectVersion)>,
    selected: Option<(usize, ProjectSummary)>,
    warnings: Vec<String>,
}

impl JarIdentification {
    pub closed spec fn filename(self) -> Seq<char> {
        self.filename@
    }

    pub closed spec fn hash_count(self) -> nat {
        self.hash_count as nat
    }

    pub closed spec fn catalogs(self) -> Seq<ProviderId> {
        self.catalogs@
    }

    pub closed spec fn stage(self) -> IdentifyStage {
        self.stage
    }

    /// The versions matched so far, with the catalog that matched each.
    pub closed spec fn matches(self) -> Seq<(ProviderId, ProjectVersion)> {
        self.matches@
    }

    /// The first match whose project could be loaded, with that project.
    pub closed spec fn selected(self) -> Option<(usize, ProjectSummary)> {
        self.selected
    }

    pub closed spec fn warnings(self) -> Seq<Seq<char>> {
        self.warnings@.map_values(|w: String| w@)
    }

    /// The stage is one where a lookup is due, or the end.
    pub closed spec fn wf(self) -> bool {
        &&& self.catalogs@.len() <= 2
        &&& self.stage == settled(self.catalogs@, self.hash_count as nat, self.matches@.len(), self.stage)
        &&& match self.stage {
            IdentifyStage::Versions { catalog: c, .. } => c < self.catalogs@.len() && self.selected is None,
            IdentifyStage::Projects { probe: p } => p < self.matches@.len() && self.selected is None,
            IdentifyStage::Done => true,
        }
        &&& self.selected matches Some((i, _)) ==> i < self.matches@.len()
    }

    /// `a` is the lookup the stage calls for; `None` when done.
    pub open spec fn asks(self, a: Option<IdentifyAction>) -> bool {
        match self.stage() {
            IdentifyStage::Versions { catalog: c, hash: h } => a == Some(
                IdentifyAction::FindVersion { provider: self.catalogs()[c as int], hash_index: h },
            ),
            IdentifyStage::Projects { probe: p } => a matches Some(IdentifyAction::LoadProject { provider, project_id })
                && provider == self.matches()[p as int].0 && project_id@ == self.matches()[p as int].1.project_id@,
            IdentifyStage::Done => a is None,
        }
    }

    fn pending(&self) -> (r: Option<IdentifyAction>)
        requires
            self.wf(),
        ensures
            self.asks(r),
    {
        match self.stage {
            IdentifyStage::Versions { catalog, hash } => Some(
                IdentifyAction::FindVersion { provider: self.catalogs[catalog], hash_index: hash },
            ),
            IdentifyStage::Projects { probe } => Some(
                IdentifyAction::LoadProject {
                    provider: self.matches[probe].0,
                    project_id: self.matches[probe].1.project_id.clone(),
                },
            ),
            IdentifyStage::Done => None,
        }
    }

    /// Moves the stage on until a lookup is due.
    fn settle(stage: IdentifyStage, catalogs: &Vec<ProviderId>, hash_count: usize, matches: usize) -> (r: IdentifyStage)
        requires
            catalogs@.len() <= 2,
        ensures
            r == settled(catalogs@, hash_count as nat, matches as nat, stage),
    {
        match stage {
            IdentifyStage::Versions { catalog, hash } => {
                if catalog < catalogs.len() && hash < hashes_to_try(catalogs[catalog], hash_count) {
                    stage
                } else if catalog < catalogs.len() && catalog + 1 < catalogs.len() && hash_count > 0 {
                    IdentifyStage::Versions { catalog: catalog + 1, hash: 0 }
                } else if matches > 0 {
                    IdentifyStage::Projects { probe: 0 }
                } else {
                    IdentifyStage::Done
                }
            },
            IdentifyStage::Projects { probe } => if probe < matches {
                stage
            } else {
                IdentifyStage::Done
            },
            IdentifyStage::Done => IdentifyStage::Done,
        }
    }

    /// Starts identifying a file with this many hashes, asking the enabled
    /// catalogs in order.
    pub fn start(filename: String, hash_count: usize, modrinth_enabled: bool, curseforge_enabled: bool) -> (r: (
        JarIdentification,
        Option<IdentifyAction>,
    ))
        ensures
            r.0.wf(),
            r.0.filename() == filename@,
            r.0.hash_count() == hash_count,
            r.0.catalogs() == catalog_order(modrinth_enabled, curseforge_enabled),
            r.0.stage() == settled(r.0.catalogs(), hash_count as nat, 0, IdentifyStage::Versions { catalog: 0, hash: 0 }),
            r.0.matches().len() == 0,
            r.0.selected() is None,
            r.0.warnings().len() == 0,
            r.0.asks(r.1),
    {
        let mut catalogs: Vec<ProviderId> = Vec::new();
        if modrinth_enabled {
            catalogs.push(ProviderId::Modrinth);
        }
        if curseforge_enabled {
            catalogs.push(ProviderId::Curseforge);
        }
        assert(catalogs@ =~= catalog_order(modrinth_enabled, curseforge_enabled));
        let stage = Self::settle(IdentifyStage::Versions { catalog: 0, hash: 0 }, &catalogs, hash_count, 0);
        let this = JarIdentification {
            filename,
            hash_count,
            catalogs,
            stage,
            matches: Vec::new(),
            selected: None,
            warnings: Vec::new(),
        };
        assert(this.warnings() =~= Seq::<Seq<char>>::empty());
        let action = this.pending();
        (this, action)
    }

    /// Takes the catalog's answer to the pending lookup and names the next:
    /// a version found is kept and the next catalog is asked; no version
    /// leads to the file's next hash; a failed lookup is warned about and
    /// the next catalog is asked; a project page loaded selects its match
    /// and ends; a failed one is warned about and the next match is tried.
    /// An answer of another kind changes nothing.
    pub fn step(self, event: IdentifyEvent) -> (r: (JarIdentification, Option<IdentifyAction>))
        requires
            self.wf(),
        ensures
            r.0.wf(),
            r.0.asks(r.1),
            r.0.filename() == self.filename(),
            r.0.hash_count() == self.hash_count(),
            r.0.catalogs() == self.catalogs(),
            ({
                let cats = self.catalogs();
                let n = self.hash_count();
                let next = r.0;
                match (self.stage(), event) {
                    (IdentifyStage::Versions { catalog: c, hash: _ }, IdentifyEvent::Version(Ok(Some(v)))) => {
                        &&& next.matches() == self.matches().push((cats[c as int], v))
                        &&& next.warnings() == self.warnings()
                        &&& next.selected() == self.selected()
                        &&& next.stage() == settled(
                            cats,
                            n,
                            self.matches().len() + 1,
                            IdentifyStage::Versions { catalog: (c + 1) as usize, hash: 0 },
                        )
                    },
                    (IdentifyStage::Versions { catalog: c, hash: h }, IdentifyEvent::Version(Ok(None))) => {
                        &&& next.matches() == self.matches()
                        &&& next.warnings() == self.warnings()
                        &&& next.selected() == self.selected()
                        &&& next.stage() == settled(
                            cats,
                            n,
                            self.matches().len(),
                            IdentifyStage::Versions { catalog: c, hash: (h + 1) as usize },
                        )
                    },
                    (IdentifyStage::Versions { catalog: c, hash: _ }, IdentifyEvent::Version(Err(e))) => {
                        &&& next.matches() == self.matches()
                        &&& next.warnings() == self.warnings().push(
                            self.filename() + " não pôde ser identificado em "@ + provider_name(cats[c as int]) + ": "@ + e@,
                        )
                        &&& next.selected() == self.selected()
                        &&& next.stage() == settled(
                            cats,
                            n,
                            self.matches().len(),
                            IdentifyStage::Versions { catalog: (c + 1) as usize, hash: 0 },
                        )
                    },
                    (IdentifyStage::Projects { probe: p }, IdentifyEvent::Project(Ok(project))) => {
                        &&& next.matches() == self.matches()
                        &&& next.warnings() == self.warnings()
                        &&& next.selected() == Some((p, project))
                        &&& next.stage() == IdentifyStage::Done
                    },
                    (IdentifyStage::Projects { probe: p }, IdentifyEvent::Project(Err(e))) => {
                        &&& next.matches() == self.matches()
                        &&& next.warnings() == self.warnings().push(
                            self.filename() + " foi reconhecido em "@ + provider_name(self.matches()[p as int].0)
                                + ", mas o projeto não pôde ser carregado: "@ + e@,
                        )
                        &&& next.selected() == self.selected()
                        &&& next.stage() == settled(
                            cats,
                            n,
                            self.matches().len(),
                            IdentifyStage::Projects { probe: (p + 1) as usize },
                        )
                    },
                    _ => next == self,
                }
            }),
    {
        let mut this = self;
        let ghost old_warnings = this.warnings@;
        match (this.stage, event) {
            (IdentifyStage::Versions { catalog, hash: _ }, IdentifyEvent::Version(Ok(Some(version)))) => {
                let provider = this.catalogs[catalog];
                this.matches.push((provider, version));
                this.stage = Self::settle(
                    IdentifyStage::Versions { catalog: catalog + 1, hash: 0 },
                    &this.catalogs,
                    this.hash_count,
                    this.matches.len(),
                );
            },
            (IdentifyStage::Versions { catalog, hash }, IdentifyEvent::Version(Ok(None))) => {
                this.stage = Self::settle(
                    IdentifyStage::Versions { catalog, hash: hash + 1 },
                    &this.catalogs,
                    this.hash_count,
                    this.matches.len(),
                );
            },
            (IdentifyStage::Versions { catalog, hash: _ }, IdentifyEvent::Version(Err(error))) => {
                let provider = this.catalogs[catalog];
                let warning = identification_warning(this.filename.as_str(), provider, error.as_str());
                this.warnings.push(warning);
                assert(this.warnings@.map_values(|w: String| w@) =~= old_warnings.map_values(|w: String| w@).push(warning@));
                this.stage = Self::settle(
                    IdentifyStage::Versions { catalog: catalog + 1, hash: 0 },
                    &this.catalogs,
                    this.hash_count,
                    this.matches.len(),
                );
            },
            (IdentifyStage::Projects { probe }, IdentifyEvent::Project(Ok(project))) => {
                this.selected = Some((probe, project));
                this.stage = IdentifyStage::Done;
            },
            (IdentifyStage::Projects { probe }, IdentifyEvent::Project(Err(error))) => {
                assert(probe < this.matches.len());
                let provider = this.matches[probe].0;
                let warning = project_load_warning(this.filename.as_str(), provider, error.as_str());
                this.warnings.push(warning);
                assert(this.warnings@.map_values(|w: String| w@) =~= old_warnings.map_values(|w: String| w@).push(warning@));
                this.stage = Self::settle(
                    IdentifyStage::Projects { probe: probe + 1 },
                    &this.catalogs,
                    this.hash_count,
                    this.matches.len(),
                );
            },
            _ => {},
        }
        let action = this.pending();
        (this, action)
    }

    /// The versions matched, the selected match with its project, and the
    /// warnings, in the order they came.
    pub fn finish(self) -> (r: (Vec<ProjectVersion>, Option<(usize, ProjectSummary)>, Vec<String>))
        requires
            self.wf(),
        ensures
            r.0@ == self.matches().map_values(|m: (ProviderId, ProjectVersion)| m.1),
            r.1 == self.selected(),
            r.2@.map_values(|w: String| w@) == self.warnings(),
            r.1 matches Some((i, _)) ==> i < r.0.len(),
    {
        let ghost all = self.matches@;
        let mut matches = self.matches;
        let mut versions: Vec<ProjectVersion> = Vec::new();
        while matches.len() > 0
            invariant
                versions@ + matches@.map_values(|m: (ProviderId, ProjectVersion)| m.1) == all.map_values(
                    |m: (ProviderId, ProjectVersion)| m.1,
                ),
            decreases matches.len(),
        {
            let ghost before = matches@;
            let (_, version) = matches.remove(0);
            proof {
                assert(before.map_values(|m: (ProviderId, ProjectVersion)| m.1) =~= seq![version]
                    + matches@.map_values(|m: (ProviderId, ProjectVersion)| m.1));
            }
            let ghost prior = versions@;
            versions.push(version);
            proof {
                assert(versions@ + matches@.map_values(|m: (ProviderId, ProjectVersion)| m.1) =~= prior + (seq![version]
                    + matches@.map_values(|m: (ProviderId, ProjectVersion)| m.1)));
            }
        }
        assert(versions@ =~= all.map_values(|m: (ProviderId, ProjectVersion)| m.1));
        (versions, self.selected, self.warnings)
    }
}

} // verus!
