use mosaic_core::domain::{ModLoader, ProfileTarget, ProjectRef, ProjectSide, ProjectSummary, ProviderId, ReleaseChannel};
use mosaic_core::error::AppError;
use mosaic_core::recipes::{best_recipe_match, find_recipe, recipe_at, recipe_queries, recipe_score, RECIPE_COUNT};
use mosaic_core::recommendations::{
    check_feed_scope, feed_offset, feed_recipe_indices, mosaic_projects, mosaic_reason, official_highlights, official_projects,
    official_reason, project_key, recipe_target,
};

fn project(name: &str, downloads: u64) -> ProjectSummary {
    ProjectSummary {
        provider: ProviderId::Modrinth,
        project_id: name.into(),
        slug: name.into(),
        name: name.into(),
        summary: String::new(),
        author: String::new(),
        icon_url: None,
        website_url: String::new(),
        downloads,
        updated_at: String::new(),
        categories: Vec::new(),
        supported_versions: Vec::new(),
        supported_loaders: Vec::new(),
        side: ProjectSide::Unknown,
        featured: None,
    }
}

#[test]
fn recipes_adapt_their_core_mods_to_the_loader_family() {
    assert_eq!(recipe_queries("performance", ModLoader::Fabric)[0], "Sodium");
    assert_eq!(recipe_queries("performance", ModLoader::Forge)[0], "Embeddium");
    assert!(recipe_queries("magic-machines", ModLoader::Forge).contains(&"Create"));
}

#[test]
fn exact_names_beat_merely_related_search_results() {
    assert!(recipe_score("Jade", &project("Jade", 1)) < recipe_score("Jade", &project("Jade Addons", 10_000)));
}

#[test]
fn quilt_shares_the_fabric_collections() {
    assert_eq!(recipe_queries("quality", ModLoader::Quilt)[0], "EMI");
    assert_eq!(recipe_queries("quality", ModLoader::Neoforge)[0], "Just Enough Items");
    assert_eq!(recipe_queries("storage-tech", ModLoader::Forge).len(), 5);
    assert!(recipe_queries("unknown", ModLoader::Fabric).is_empty());
}

#[test]
fn scores_grade_how_the_name_matches() {
    assert_eq!(recipe_score("Jade", &project("jade", 1)).score, 0);
    assert_eq!(recipe_score("Jade", &project("Jade Addons", 1)).score, 1);
    assert_eq!(recipe_score("Jade", &project("More Jade", 1)).score, 2);
    assert_eq!(recipe_score("Jade", &project("Sodium", 1)).score, 3);
    assert!(recipe_score("Jade", &project("Jade Addons", 9)) < recipe_score("Jade", &project("Jade Tools", 3)));
}

#[test]
fn the_best_hit_is_chosen_and_ties_keep_the_first() {
    let choices = vec![project("Sodium", 99), project("Jade Addons", 50), project("Jade", 5), project("jade", 5)];
    assert_eq!(best_recipe_match("Jade", &choices), Some(2));
    let unrelated = vec![project("Sodium", 99)];
    assert_eq!(best_recipe_match("Jade", &unrelated), None);
}

#[test]
fn the_catalogue_lists_each_collection() {
    assert_eq!(RECIPE_COUNT, 5);
    assert_eq!(find_recipe("exploration"), Some(2));
    assert_eq!(find_recipe("gone"), None);
    let recipe = recipe_at(3);
    assert_eq!(recipe.id, "quality");
    assert_eq!(recipe.default_target, ("1.21.1", ModLoader::Fabric));
    assert_eq!(recipe.tags, &["Utilidade", "Interface", "Essencial"]);
}

#[test]
fn the_seed_rotates_pages_and_collections() {
    assert_eq!(feed_offset(0), 0);
    assert_eq!(feed_offset(7), 6);
    assert_eq!(feed_offset(11), 30);
    assert_eq!(feed_recipe_indices(0), vec![0, 1, 2, 3]);
    assert_eq!(feed_recipe_indices(3), vec![3, 4, 0, 1]);
    assert_eq!(feed_recipe_indices(u64::MAX), vec![0, 1, 2, 3]);
}

#[test]
fn the_ten_most_downloaded_official_packs_are_shown() {
    let packs: Vec<ProjectSummary> = (0..12).map(|i| project(&format!("p{i}"), (i % 4) as u64)).collect();
    let shown = official_highlights(packs);
    let names: Vec<&str> = shown.iter().map(|p| p.name.as_str()).collect();
    assert_eq!(names, vec!["p3", "p7", "p11", "p2", "p6", "p10", "p1", "p5", "p9", "p0"]);
}

#[test]
fn reasons_explain_why_a_pack_is_shown() {
    let target = ProfileTarget {
        minecraft_version: "1.20.1".into(),
        loader: ModLoader::Forge,
        release_channels: vec![ReleaseChannel::Release],
    };
    assert_eq!(official_reason(&Some(target)), "Compatível com Minecraft 1.20.1 + forge");
    assert_eq!(official_reason(&None), "Em destaque nos catálogos oficiais");
    assert_eq!(mosaic_reason(true), "Coleção adaptada ao seu modpack atual");
    assert_eq!(mosaic_reason(false), "Receita modular criada pelo Mosaic");
}

#[test]
fn collections_default_to_their_own_target() {
    let recipe = recipe_at(1);
    let target = recipe_target(&recipe, &None);
    assert_eq!(target.minecraft_version, "1.20.1");
    assert_eq!(target.loader, ModLoader::Forge);
    assert_eq!(target.release_channels, vec![ReleaseChannel::Release, ReleaseChannel::Beta]);
}

#[test]
fn a_collection_preview_keeps_each_project_once() {
    let queries = vec!["Sodium", "Lithium", "sodium again", "Missing"];
    let found = vec![Some(project("sodium", 1)), Some(project("Lithium", 1)), Some(project("sodium", 1)), None];
    let (projects, warnings) = mosaic_projects(&queries, found).unwrap();
    let names: Vec<&str> = projects.iter().map(|p| p.name.as_str()).collect();
    assert_eq!(names, vec!["Lithium", "sodium"]);
    assert_eq!(warnings, vec!["Missing não possui uma versão compatível nesse destino e foi ignorado.".to_string()]);
    assert_eq!(project_key(&projects[1]), "modrinth:sodium");
}

#[test]
fn a_collection_with_nothing_found_is_refused() {
    let queries = vec!["A"];
    let error = mosaic_projects(&queries, vec![None]).unwrap_err();
    assert_eq!(error.text(), "Nenhum mod desta coleção está disponível para o destino escolhido.");
}

#[test]
fn an_official_preview_reports_projects_that_failed_to_load() {
    let reference = ProjectRef { provider: ProviderId::Curseforge, project_id: "42".into() };
    let results = vec![
        (ProjectRef { provider: ProviderId::Modrinth, project_id: "b".into() }, Ok(project("beta", 1))),
        (reference, Err(AppError::Message("fora do ar".into()))),
        (ProjectRef { provider: ProviderId::Modrinth, project_id: "a".into() }, Ok(project("Alpha", 1))),
    ];
    let (projects, warnings) = official_projects(vec!["aviso".into()], results);
    let names: Vec<&str> = projects.iter().map(|p| p.name.as_str()).collect();
    assert_eq!(names, vec!["Alpha", "beta"]);
    assert_eq!(warnings, vec!["aviso".to_string(), "Não foi possível carregar curseforge:42: fora do ar".to_string()]);
}

#[test]
fn a_feed_for_the_current_profile_needs_a_profile() {
    assert_eq!(
        check_feed_scope(true, &None).unwrap_err().text(),
        "Selecione um modpack para receber recomendações compatíveis."
    );
    assert!(check_feed_scope(false, &None).is_ok());
    let target = ProfileTarget {
        minecraft_version: "1.21.1".into(),
        loader: ModLoader::Fabric,
        release_channels: vec![ReleaseChannel::Release],
    };
    assert!(check_feed_scope(true, &Some(target)).is_ok());
}
