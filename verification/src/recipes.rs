//! Curated mod collections: which projects each collection asks the
//! catalogs for, and how a search hit is judged against the query.
use crate::domain::{project_key, ModLoader, ProjectSummary};
use crate::provider_fallback::{identity_of, normalized_identity};
use crate::text::{contains, contains_text, has_prefix, starts_with, str_equal, text_equal};
use std::cmp::Ordering;
use vstd::prelude::*;
use vstd::std_specs::cmp::PartialOrdSpecImpl;

verus! {

/// A curated collection, with the target it is built for when the user has
/// no profile selected.
#[derive(Clone, Copy)]
pub struct MosaicRecipe {
    pub id: &'static str,
    pub name: &'static str,
    pub summary: &'static str,
    pub tags: &'static [&'static str],
    pub default_target: (&'static str, ModLoader),
}

/// How many collections exist.
pub const RECIPE_COUNT: usize = 5;

pub open spec fn recipe_id_at(index: int) -> Seq<char> {
    if index == 0 {
        "performance"@
    } else if index == 1 {
        "magic-machines"@
    } else if index == 2 {
        "exploration"@
    } else if index == 3 {
        "quality"@
    } else {
        "storage-tech"@
    }
}

pub open spec fn recipe_name_at(index: int) -> Seq<char> {
    if index == 0 {
        "Performance essencial"@
    } else if index == 1 {
        "Magia, aventura e máquinas"@
    } else if index == 2 {
        "Exploração renovada"@
    } else if index == 3 {
        "Qualidade de vida completa"@
    } else {
        "Armazenamento e tecnologia"@
    }
}

pub open spec fn recipe_summary_at(index: int) -> Seq<char> {
    if index == 0 {
        "Mais FPS, menos memória e carregamento mais suave sem mudar a essência do jogo."@
    } else if index == 1 {
        "Progressão técnica, magia, exploração e automação em uma base equilibrada."@
    } else if index == 2 {
        "Biomas, estruturas, mapas e viagens para transformar cada mundo em uma expedição."@
    } else if index == 3 {
        "Interface, receitas, informações e pequenos confortos que combinam com quase qualquer pack."@
    } else {
        "Organização de itens, energia e automação para bases que crescem sem virar bagunça."@
    }
}

pub open spec fn recipe_tags_at(index: int) -> Seq<Seq<char>> {
    if index == 0 {
        seq!["Performance"@, "Leve"@, "Qualidade de vida"@]
    } else if index == 1 {
        seq!["Tecnologia"@, "Magia"@, "Aventura"@]
    } else if index == 2 {
        seq!["Exploração"@, "Estruturas"@, "Aventura"@]
    } else if index == 3 {
        seq!["Utilidade"@, "Interface"@, "Essencial"@]
    } else {
        seq!["Armazenamento"@, "Automação"@, "Tecnologia"@]
    }
}

/// Performance and quality of life default to Fabric on 1.21.1, the others
/// to Forge on 1.20.1.
pub open spec fn recipe_default_at(index: int) -> (Seq<char>, ModLoader) {
    if index == 0 || index == 3 {
        ("1.21.1"@, ModLoader::Fabric)
    } else {
        ("1.20.1"@, ModLoader::Forge)
    }
}

/// The collection at a position of the catalogue.
pub fn recipe_at(index: usize) -> (r: MosaicRecipe)
    requires
        index < RECIPE_COUNT,
    ensures
        r.id@ == recipe_id_at(index as int),
        r.name@ == recipe_name_at(index as int),
        r.summary@ == recipe_summary_at(index as int),
        query_views(r.tags@) == recipe_tags_at(index as int),
        r.default_target.0@ == recipe_default_at(index as int).0,
        r.default_target.1 == recipe_default_at(index as int).1,
{
    let r = if index == 0 {
        MosaicRecipe {
            id: "performance",
            name: "Performance essencial",
            summary: "Mais FPS, menos memória e carregamento mais suave sem mudar a essência do jogo.",
            tags: &["Performance", "Leve", "Qualidade de vida"],
            default_target: ("1.21.1", ModLoader::Fabric),
        }
    } else if index == 1 {
        MosaicRecipe {
            id: "magic-machines",
            name: "Magia, aventura e máquinas",
            summary: "Progressão técnica, magia, exploração e automação em uma base equilibrada.",
            tags: &["Tecnologia", "Magia", "Aventura"],
            default_target: ("1.20.1", ModLoader::Forge),
        }
    } else if index == 2 {
        MosaicRecipe {
            id: "exploration",
            name: "Exploração renovada",
            summary: "Biomas, estruturas, mapas e viagens para transformar cada mundo em uma expedição.",
            tags: &["Exploração", "Estruturas", "Aventura"],
            default_target: ("1.20.1", ModLoader::Forge),
        }
    } else if index == 3 {
        MosaicRecipe {
            id: "quality",
            name: "Qualidade de vida completa",
            summary: "Interface, receitas, informações e pequenos confortos que combinam com quase qualquer pack.",
            tags: &["Utilidade", "Interface", "Essencial"],
            default_target: ("1.21.1", ModLoader::Fabric),
        }
    } else {
        MosaicRecipe {
            id: "storage-tech",
            name: "Armazenamento e tecnologia",
            summary: "Organização de itens, energia e automação para bases que crescem sem virar bagunça.",
            tags: &["Armazenamento", "Automação", "Tecnologia"],
            default_target: ("1.20.1", ModLoader::Forge),
        }
    };
    assert(query_views(r.tags@) =~= recipe_tags_at(index as int));
    r
}

/// The position of the collection with this id, if there is one.
pub fn find_recipe(id: &str) -> (r: Option<usize>)
    ensures
        match r {
            Some(i) => i < RECIPE_COUNT && recipe_id_at(i as int) == id@ && forall|j: int|
                0 <= j < i ==> #[trigger] recipe_id_at(j) != id@,
            None => forall|j: int| 0 <= j < RECIPE_COUNT ==> #[trigger] recipe_id_at(j) != id@,
        },
{
    let mut i: usize = 0;
    while i < RECIPE_COUNT
        invariant
            i <= RECIPE_COUNT,
            forall|j: int| 0 <= j < i ==> #[trigger] recipe_id_at(j) != id@,
        decreases RECIPE_COUNT - i,
    {
        let recipe = recipe_at(i);
        if str_equal(recipe.id, id) {
            return Some(i);
        }
        i = i + 1;
    }
    None
}

/// Fabric and Quilt share one mod ecosystem.
pub open spec fn fabric_family(loader: ModLoader) -> bool {
    loader == ModLoader::Fabric || loader == ModLoader::Quilt
}

pub open spec fn query_views(s: Seq<&'static str>) -> Seq<Seq<char>> {
    s.map_values(|q: &'static str| q@)
}

/// The searches that make up a collection, adapted to the loader family;
/// an unknown collection asks for nothing.
pub open spec fn recipe_query_list(recipe_id: Seq<char>, loader: ModLoader) -> Seq<Seq<char>> {
    let fabric = fabric_family(loader);
    if recipe_id == "performance"@ {
        seq![
            if fabric { "Sodium"@ } else { "Embeddium"@ },
            "Lithium"@,
            "FerriteCore"@,
            "ImmediatelyFast"@,
            "Entity Culling"@,
            "ModernFix"@,
        ]
    } else if recipe_id == "magic-machines"@ {
        if fabric {
            seq![
                "Modern Industrialization"@,
                "Botania"@,
                "Spectrum"@,
                "Farmer's Delight Refabricated"@,
                "EMI"@,
                "Jade"@,
            ]
        } else {
            seq![
                "Create"@,
                "Ars Nouveau"@,
                "Applied Energistics 2"@,
                "Farmer's Delight"@,
                "Just Enough Items"@,
                "Jade"@,
            ]
        }
    } else if recipe_id == "exploration"@ {
        seq![
            "Waystones"@,
            "YUNG's Better Dungeons"@,
            "YUNG's Better Strongholds"@,
            "Nature's Compass"@,
            "Explorer's Compass"@,
            "Xaero's Minimap"@,
        ]
    } else if recipe_id == "quality"@ {
        seq![
            if fabric { "EMI"@ } else { "Just Enough Items"@ },
            "Jade"@,
            "AppleSkin"@,
            "Mouse Tweaks"@,
            "ShulkerBoxTooltip"@,
            "Controlling"@,
        ]
    } else if recipe_id == "storage-tech"@ {
        if fabric {
            seq![
                "Applied Energistics 2"@,
                "Modern Industrialization"@,
                "Tom's Simple Storage Mod"@,
                "Iron Chests"@,
                "EMI"@,
            ]
        } else {
            seq![
                "Applied Energistics 2"@,
                "Mekanism"@,
                "Sophisticated Storage"@,
                "Iron Chests"@,
                "Just Enough Items"@,
            ]
        }
    } else {
        seq![]
    }
}

fn is_fabric_family(loader: ModLoader) -> (r: bool)
    ensures
        r == fabric_family(loader),
{
    match loader {
        ModLoader::Fabric | ModLoader::Quilt => true,
        ModLoader::Forge | ModLoader::Neoforge => false,
    }
}

/// The project names a collection searches for, in order.
pub fn recipe_queries(recipe_id: &str, loader: ModLoader) -> (r: Vec<&'static str>)
    ensures
        query_views(r@) == recipe_query_list(recipe_id@, loader),
{
    let fabric = is_fabric_family(loader);
    let r: Vec<&'static str> = if str_equal(recipe_id, "performance") {
        vec![
            if fabric { "Sodium" } else { "Embeddium" },
            "Lithium",
            "FerriteCore",
            "ImmediatelyFast",
            "Entity Culling",
            "ModernFix",
        ]
    } else if str_equal(recipe_id, "magic-machines") {
        if fabric {
            vec![
                "Modern Industrialization",
                "Botania",
                "Spectrum",
                "Farmer's Delight Refabricated",
                "EMI",
                "Jade",
            ]
        } else {
            vec![
                "Create",
                "Ars Nouveau",
                "Applied Energistics 2",
                "Farmer's Delight",
                "Just Enough Items",
                "Jade",
            ]
        }
    } else if str_equal(recipe_id, "exploration") {
        vec![
            "Waystones",
            "YUNG's Better Dungeons",
            "YUNG's Better Strongholds",
            "Nature's Compass",
            "Explorer's Compass",
            "Xaero's Minimap",
        ]
    } else if str_equal(recipe_id, "quality") {
        vec![
            if fabric { "EMI" } else { "Just Enough Items" },
            "Jade",
            "AppleSkin",
            "Mouse Tweaks",
            "ShulkerBoxTooltip",
            "Controlling",
        ]
    } else if str_equal(recipe_id, "storage-tech") {
        if fabric {
            vec![
                "Applied Energistics 2",
                "Modern Industrialization",
                "Tom's Simple Storage Mod",
                "Iron Chests",
                "EMI",
            ]
        } else {
            vec![
                "Applied Energistics 2",
                "Mekanism",
                "Sophisticated Storage",
                "Iron Chests",
                "Just Enough Items",
            ]
        }
    } else {
        Vec::new()
    };
    assert(query_views(r@) =~= recipe_query_list(recipe_id@, loader));
    r
}

/// How well a search hit answers a query: a lower score is a closer name
/// match, and among equal scores more downloads come first.
#[derive(Debug, Clone, Copy, PartialEq, Eq, Structural)]
pub struct RecipeRank {
    pub score: u8,
    pub downloads: u64,
}

/// `a` comes strictly before `b` in the ranking.
pub open spec fn rank_before(a: RecipeRank, b: RecipeRank) -> bool {
    a.score < b.score || (a.score == b.score && a.downloads > b.downloads)
}

pub open spec fn rank_order(a: RecipeRank, b: RecipeRank) -> Option<Ordering> {
    if rank_before(a, b) {
        Some(Ordering::Less)
    } else if rank_before(b, a) {
        Some(Ordering::Greater)
    } else {
        Some(Ordering::Equal)
    }
}

impl PartialOrd for RecipeRank {
    fn partial_cmp(&self, other: &Self) -> (r: Option<Ordering>) {
        if self.score < other.score {
            Some(Ordering::Less)
        } else if self.score > other.score {
            Some(Ordering::Greater)
        } else if self.downloads > other.downloads {
            Some(Ordering::Less)
        } else if self.downloads < other.downloads {
            Some(Ordering::Greater)
        } else {
            Some(Ordering::Equal)
        }
    }
}

impl PartialOrdSpecImpl for RecipeRank {
    open spec fn obeys_partial_cmp_spec() -> bool {
        true
    }

    open spec fn partial_cmp_spec(&self, other: &Self) -> Option<Ordering> {
        rank_order(*self, *other)
    }
}

/// 0 when the normalized name or slug is the query, 1 when the name starts
/// with it, 2 when the name contains it, 3 otherwise. Normalizing keeps the
/// ASCII letters and digits, lowercased.
pub open spec fn match_score(query: Seq<char>, name: Seq<char>, slug: Seq<char>) -> int {
    let q = identity_of(query);
    let n = identity_of(name);
    let s = identity_of(slug);
    if n == q || s == q {
        0
    } else if has_prefix(n, q) {
        1
    } else if contains_text(n, q) {
        2
    } else {
        3
    }
}

pub open spec fn rank_of(query: Seq<char>, project: ProjectSummary) -> RecipeRank {
    RecipeRank {
        score: match_score(query, project.name@, project.slug@) as u8,
        downloads: project.downloads,
    }
}

/// Ranks a search hit for the query it answered.
pub fn recipe_score(query: &str, project: &ProjectSummary) -> (r: RecipeRank)
    ensures
        r == rank_of(query@, *project),
{
    let q = normalized_identity(query);
    let n = normalized_identity(project.name.as_str());
    let s = normalized_identity(project.slug.as_str());
    let score: u8 = if text_equal(&n, &q) || text_equal(&s, &q) {
        0
    } else if starts_with(&n, &q) {
        1
    } else if contains(&n, &q) {
        2
    } else {
        3
    };
    RecipeRank { score, downloads: project.downloads }
}

/// The hit a collection takes for a query: the best ranked one, the first
/// among equals, provided its name matches at all (score below 3).
pub fn best_recipe_match(query: &str, choices: &Vec<ProjectSummary>) -> (r: Option<usize>)
    ensures
        match r {
            None => forall|j: int|
                0 <= j < choices.len() ==> #[trigger] rank_of(query@, choices@[j]).score == 3,
            Some(i) => {
                &&& i < choices.len()
                &&& rank_of(query@, choices@[i as int]).score < 3
                &&& forall|j: int|
                    0 <= j < choices.len() ==> !rank_before(
                        #[trigger] rank_of(query@, choices@[j]),
                        rank_of(query@, choices@[i as int]),
                    )
                &&& forall|j: int|
                    0 <= j < i ==> rank_before(
                        rank_of(query@, choices@[i as int]),
                        #[trigger] rank_of(query@, choices@[j]),
                    )
            },
        },
{
    if choices.len() == 0 {
        return None;
    }
    let mut best: usize = 0;
    let mut best_rank = recipe_score(query, &choices[0]);
    let mut k: usize = 1;
    while k < choices.len()
        invariant
            0 <= best < k <= choices.len(),
            best_rank == rank_of(query@, choices@[best as int]),
            forall|j: int| 0 <= j < k ==> !rank_before(#[trigger] rank_of(query@, choices@[j]), best_rank),
            forall|j: int| 0 <= j < best ==> rank_before(best_rank, #[trigger] rank_of(query@, choices@[j])),
        decreases choices.len() - k,
    {
        let rank = recipe_score(query, &choices[k]);
        if rank.score < best_rank.score || (rank.score == best_rank.score && rank.downloads
            > best_rank.downloads) {
            best = k;
            best_rank = rank;
        }
        k = k + 1;
    }
    if best_rank.score < 3 {
        Some(best)
    } else {
        assert forall|j: int| 0 <= j < choices.len() implies #[trigger] rank_of(query@, choices@[j]).score == 3 by {
            assert(!rank_before(rank_of(query@, choices@[j]), best_rank));
        }
        None
    }
}

} // verus!
