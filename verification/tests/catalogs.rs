use mosaic_core::catalog::{active_providers, merge_search, validate_filters};
use mosaic_core::curseforge::{channel_from_id, dependency_from_id, loader_from_id, loader_id, supported_loaders, supported_versions};
use mosaic_core::domain::{
    DependencyType, ModLoader, ProjectSide, ProjectSummary, ProviderId, ReleaseChannel, SearchFilters, SearchSide,
    SearchSort,
};
use mosaic_core::error::AppError;
use mosaic_core::modrinth::{
    has_overrides, modpack_projects, normalize_loaders, pack_mod_hashes, pack_warnings, side_from_environment, side_of,
    target_from_mrpack, PackFile,
};
use mosaic_core::provider_fallback::{identity_score, projects_equivalent, rank_candidates};
use mosaic_core::providers::ProviderSearchResult;

fn summary(provider: ProviderId, slug: &str, name: &str, author: &str) -> ProjectSummary {
    ProjectSummary {
        provider,
        project_id: format!("{slug}-id"),
        slug: slug.into(),
        name: name.into(),
        summary: String::new(),
        author: author.into(),
        icon_url: None,
        website_url: String::new(),
        downloads: 1,
        updated_at: String::new(),
        categories: Vec::new(),
        supported_versions: Vec::new(),
        supported_loaders: Vec::new(),
        side: ProjectSide::Unknown,
        featured: None,
    }
}

fn hit(name: &str, downloads: u64) -> ProjectSummary {
    let mut project = summary(ProviderId::Modrinth, name, name, "author");
    project.downloads = downloads;
    project
}

fn filters(query: &str, version: &str, providers: Vec<ProviderId>) -> SearchFilters {
    SearchFilters {
        query: query.into(),
        minecraft_version: version.into(),
        loader: ModLoader::Fabric,
        release_channels: vec![ReleaseChannel::Release],
        providers,
        side: SearchSide::Any,
        sort: SearchSort::Relevance,
        limit: None,
    }
}

#[test]
fn accepts_loader_suffixes_but_rejects_other_projects() {
    let source = summary(ProviderId::Curseforge, "entityculling", "Entity Culling Fabric/Forge", "tr7zw");
    let equivalent = summary(ProviderId::Modrinth, "entityculling", "Entity Culling", "tr7zw");
    let unrelated = summary(ProviderId::Modrinth, "moreculling", "More Culling", "fxmorin");
    assert!(identity_score(&source, &equivalent) >= 6);
    assert_eq!(identity_score(&source, &unrelated), 0);
}

#[test]
fn maps_modrinths_version_environments_to_export_categories() {
    assert_eq!(side_from_environment("client_only_server_optional"), ProjectSide::Client);
    assert_eq!(side_from_environment("dedicated_server_only"), ProjectSide::Server);
    assert_eq!(side_from_environment("client_and_server"), ProjectSide::Both);
    assert_eq!(side_from_environment("unknown"), ProjectSide::Unknown);
}

#[test]
fn sides_follow_modrinths_support_flags() {
    assert_eq!(side_of("required", "optional"), ProjectSide::Both);
    assert_eq!(side_of("required", "unsupported"), ProjectSide::Client);
    assert_eq!(side_of("unsupported", "required"), ProjectSide::Server);
    assert_eq!(side_of("unsupported", "unsupported"), ProjectSide::Unknown);
}

#[test]
fn keeps_only_known_loader_names() {
    let names = vec!["fabric".to_string(), "adventure".to_string(), "neoforge".to_string(), "quilt".to_string()];
    assert_eq!(normalize_loaders(&names), vec![ModLoader::Fabric, ModLoader::Neoforge, ModLoader::Quilt]);
}

#[test]
fn mrpack_dependencies_name_the_target() {
    let dependencies = vec![
        ("minecraft".to_string(), "1.21.1".to_string()),
        ("fabric-loader".to_string(), "0.16".to_string()),
    ];
    let target = target_from_mrpack(&dependencies);
    assert_eq!(target.loader, ModLoader::Fabric);
    assert_eq!(target.minecraft_version, "1.21.1");
    assert_eq!(target.release_channels, vec![ReleaseChannel::Release, ReleaseChannel::Beta]);

    let neoforge = vec![("neoforge".to_string(), "21.1".to_string()), ("forge".to_string(), "1".to_string())];
    let target = target_from_mrpack(&neoforge);
    assert_eq!(target.loader, ModLoader::Neoforge);
    assert_eq!(target.minecraft_version, "1.20.1");
}

#[test]
fn overrides_are_detected_with_either_separator() {
    assert!(has_overrides(&vec!["modrinth.index.json".to_string(), "overrides/config/example.json".to_string()]));
    assert!(has_overrides(&vec!["client-overrides\\options.txt".to_string()]));
    assert!(!has_overrides(&vec!["modrinth.index.json".to_string(), "config/overrides/a".to_string()]));
}

#[test]
fn pack_files_outside_mods_or_unsupported_are_left_out() {
    let file = |path: &str, sha1: &str, env: Option<&str>| PackFile {
        path: path.into(),
        sha1: sha1.into(),
        client_env: env.map(|value| value.to_string()),
    };
    let files = vec![
        file("mods/a.jar", "aaa", None),
        file("mods\\b.jar", "bbb", Some("optional")),
        file("mods/c.jar", "ccc", Some("unsupported")),
        file("resourcepacks/d.zip", "ddd", Some("optional")),
    ];
    let (hashes, optional) = pack_mod_hashes(&files);
    assert_eq!(hashes, vec!["aaa".to_string(), "bbb".to_string()]);
    assert_eq!(optional, 1);
}

#[test]
fn pack_warnings_count_optional_and_unresolved_files() {
    assert!(pack_warnings(0, 0).is_empty());
    assert_eq!(
        pack_warnings(2, 3),
        vec![
            "O pack possui 2 arquivo(s) opcional(is); eles aparecem na seleção para você decidir durante a resolução."
                .to_string(),
            "3 arquivo(s) do índice não puderam ser associados a um projeto público da Modrinth.".to_string(),
        ]
    );
}

#[test]
fn pack_projects_are_listed_once() {
    let ids = vec!["a".to_string(), "b".to_string(), "a".to_string()];
    let refs = modpack_projects(&ids);
    let listed: Vec<&str> = refs.iter().map(|r| r.project_id.as_str()).collect();
    assert_eq!(listed, vec!["a", "b"]);
    assert!(refs.iter().all(|r| r.provider == ProviderId::Modrinth));
}

#[test]
fn curseforge_codes_round_trip() {
    for loader in [ModLoader::Fabric, ModLoader::Forge, ModLoader::Neoforge, ModLoader::Quilt] {
        assert_eq!(loader_from_id(loader_id(loader)), Some(loader));
    }
    assert_eq!(loader_id(ModLoader::Forge), 1);
    assert_eq!(loader_from_id(0), None);
    assert_eq!(channel_from_id(2), ReleaseChannel::Beta);
    assert_eq!(channel_from_id(3), ReleaseChannel::Alpha);
    assert_eq!(channel_from_id(1), ReleaseChannel::Release);
    assert_eq!(dependency_from_id(3), Some(DependencyType::Required));
    assert_eq!(dependency_from_id(6), Some(DependencyType::Embedded));
    assert_eq!(dependency_from_id(4), None);
}

#[test]
fn curseforge_file_indexes_summarize_versions_and_loaders() {
    let versions = vec!["1.20.1".to_string(), "1.19.2".to_string(), "1.20.1".to_string()];
    assert_eq!(supported_versions(&versions), vec!["1.19.2".to_string(), "1.20.1".to_string()]);
    assert_eq!(supported_loaders(&vec![6, 1, 0, 1, 4]), vec![ModLoader::Fabric, ModLoader::Forge, ModLoader::Neoforge]);
}

#[test]
fn search_filters_are_checked_in_order() {
    assert!(validate_filters(&filters("sodium", "1.20.1", vec![ProviderId::Modrinth])).is_ok());
    let long_query = "q".repeat(201);
    assert_eq!(
        validate_filters(&filters(&long_query, "1.20.1", vec![ProviderId::Modrinth])).unwrap_err().text(),
        "A busca deve ter no máximo 200 caracteres."
    );
    assert_eq!(
        validate_filters(&filters("sodium", "", vec![ProviderId::Modrinth])).unwrap_err().text(),
        "Versão do Minecraft inválida."
    );
    assert_eq!(
        validate_filters(&filters("sodium", "1.20.1", Vec::new())).unwrap_err().text(),
        "Selecione pelo menos um catálogo."
    );
}

#[test]
fn only_configured_catalogs_take_part() {
    let requested = vec![ProviderId::Curseforge, ProviderId::Modrinth];
    assert_eq!(active_providers(&requested, false), vec![ProviderId::Modrinth]);
    assert_eq!(active_providers(&requested, true), requested);
}

#[test]
fn merged_search_sorts_by_downloads_and_reports_each_catalog() {
    let requested = vec![ProviderId::Modrinth];
    let answers = vec![(
        ProviderId::Modrinth,
        Ok(ProviderSearchResult { projects: vec![hit("a", 5), hit("b", 9), hit("c", 5)], total: 30 }),
    )];
    let result = merge_search(&requested, false, answers);
    let names: Vec<&str> = result.projects.iter().map(|p| p.name.as_str()).collect();
    assert_eq!(names, vec!["b", "a", "c"]);
    assert_eq!(result.total, 30);
    assert!(result.warnings.is_empty());
    assert_eq!(result.providers[0].0, "modrinth");
    assert!(result.providers[0].1.ok);
    assert_eq!(result.providers[1].0, "curseforge");
    assert!(!result.providers[1].1.enabled);
    assert_eq!(result.providers[1].1.message.as_deref(), Some("Desativado no filtro."));
}

#[test]
fn a_failed_catalog_becomes_a_warning() {
    let requested = vec![ProviderId::Modrinth, ProviderId::Curseforge];
    let answers = vec![
        (ProviderId::Modrinth, Ok(ProviderSearchResult { projects: vec![hit("a", 1)], total: 1 })),
        (ProviderId::Curseforge, Err(AppError::Message("limite".into()))),
    ];
    let result = merge_search(&requested, true, answers);
    assert_eq!(result.warnings, vec!["CurseForge: limite".to_string()]);
    assert!(!result.providers[1].1.ok);
    assert_eq!(result.providers[1].1.message.as_deref(), Some("limite"));
}

#[test]
fn stand_ins_are_ranked_by_match_then_downloads() {
    let source = summary(ProviderId::Curseforge, "jade", "Jade", "snownee");
    let mut popular = summary(ProviderId::Modrinth, "jade-addons", "Jade", "other");
    popular.downloads = 100;
    let exact = summary(ProviderId::Modrinth, "jade", "Jade", "snownee");
    let unrelated = summary(ProviderId::Modrinth, "sodium", "Sodium", "jellysquid");
    assert!(projects_equivalent(&source, &exact));
    assert!(!projects_equivalent(&source, &unrelated));
    let ranked = rank_candidates(&source, vec![unrelated, popular, exact]);
    let slugs: Vec<&str> = ranked.iter().map(|p| p.slug.as_str()).collect();
    assert_eq!(slugs, vec!["jade", "jade-addons"]);
}
