use mosaic_core::domain::{ModPreset, PresetEntry, ProjectRef, ProviderId, SavePresetInput};
use mosaic_core::presets::{
    find_preset, new_preset, preset_position, presets_most_recent_first, remove_preset, update_preset, validate_input,
};

fn entry(id: &str, name: &str) -> PresetEntry {
    PresetEntry { project: ProjectRef { provider: ProviderId::Modrinth, project_id: id.into() }, name: name.into() }
}

#[test]
fn deduplicates_entries_without_losing_order() {
    let entry = entry("sodium", "Sodium");
    let result = validate_input(SavePresetInput {
        name: "Essenciais".into(),
        description: None,
        entries: vec![entry.clone(), entry],
    })
    .unwrap();
    assert_eq!(result.2.len(), 1);
    assert_eq!(result.2[0].name, "Sodium");
}

#[test]
fn preset_names_and_descriptions_are_trimmed() {
    let (name, description, entries) = validate_input(SavePresetInput {
        name: "  Base  ".into(),
        description: Some("  Reutilizável ".into()),
        entries: vec![entry("lithium", "   "), entry("sodium", "Sodium"), entry("lithium", "Other")],
    })
    .unwrap();
    assert_eq!(name, "Base");
    assert_eq!(description, "Reutilizável");
    assert_eq!(entries.len(), 2);
    assert_eq!(entries[0].name, "modrinth:lithium");
    assert_eq!(entries[1].project.project_id, "sodium");
}

#[test]
fn long_entry_names_are_cut() {
    let long = "x".repeat(130);
    let (_, _, entries) = validate_input(SavePresetInput {
        name: "Pack".into(),
        description: None,
        entries: vec![entry("sodium", &long)],
    })
    .unwrap();
    assert_eq!(entries[0].name.chars().count(), 120);
}

#[test]
fn invalid_presets_are_refused_with_a_reason() {
    let refused = |name: &str, description: Option<String>, entries: Vec<PresetEntry>| {
        validate_input(SavePresetInput { name: name.into(), description, entries }).unwrap_err().text()
    };
    assert_eq!(
        refused("   ", None, vec![entry("a", "A")]),
        "O nome da predefinição deve ter entre 1 e 80 caracteres."
    );
    assert_eq!(
        refused("Pack", Some("d".repeat(301)), vec![entry("a", "A")]),
        "A descrição deve ter no máximo 300 caracteres."
    );
    assert_eq!(refused("Pack", None, Vec::new()), "Selecione entre 1 e 200 mods para a predefinição.");
    assert_eq!(
        refused("Pack", None, vec![entry("a", "A"), entry("  ", "B")]),
        "Uma referência de mod da predefinição é inválida."
    );
}

fn saved(id: &str, updated_at: &str) -> ModPreset {
    ModPreset {
        id: id.into(),
        name: format!("Predefinição {id}"),
        description: String::new(),
        entries: vec![entry("sodium", "Sodium")],
        created_at: "2024-01-01T00:00:00+00:00".into(),
        updated_at: updated_at.into(),
    }
}

fn input(name: &str) -> SavePresetInput {
    SavePresetInput { name: name.into(), description: Some(" texto ".into()), entries: vec![entry("lithium", "Lithium")] }
}

fn error_text<T>(result: Result<T, mosaic_core::error::AppError>) -> String {
    match result {
        Ok(_) => panic!("expected an error"),
        Err(error) => error.text(),
    }
}

#[test]
fn creates_presets_with_fresh_ids() {
    let preset = new_preset(input(" Base "), "2024-02-02T00:00:00+00:00".into()).unwrap();
    assert_eq!(preset.id.len(), 36);
    assert_eq!(preset.name, "Base");
    assert_eq!(preset.description, "texto");
    assert_eq!(preset.created_at, preset.updated_at);
    assert_eq!(preset.entries.len(), 1);
    assert_eq!(
        error_text(new_preset(input("  "), "now".into())),
        "O nome da predefinição deve ter entre 1 e 80 caracteres."
    );
}

#[test]
fn finds_updates_and_removes_stored_presets() {
    let mut presets = vec![saved("a", "1"), saved("b", "2")];
    assert_eq!(preset_position(&presets, "b"), Some(1));
    assert_eq!(find_preset(&presets, "a").unwrap().name, "Predefinição a");
    assert_eq!(error_text(find_preset(&presets, "z")), "Esta predefinição não existe mais.");

    let updated = update_preset(&mut presets, "a", input("Nova"), "3".into()).unwrap();
    assert_eq!(updated.name, "Nova");
    assert_eq!(presets[0].entries[0].project.project_id, "lithium");
    assert_eq!(presets[0].updated_at, "3");
    assert_eq!(presets[0].created_at, "2024-01-01T00:00:00+00:00");
    assert_eq!(error_text(update_preset(&mut presets, "z", input("Nova"), "4".into())), "Predefinição não encontrada.");

    assert_eq!(error_text(remove_preset(&mut presets, "z")), "Predefinição não encontrada.");
    assert_eq!(presets.len(), 2);
    remove_preset(&mut presets, "a").unwrap();
    assert_eq!(presets.len(), 1);
    assert_eq!(presets[0].id, "b");
}

#[test]
fn lists_presets_most_recent_first() {
    let presets = vec![saved("old", "2024-01-01"), saved("new", "2024-06-01"), saved("mid", "2024-03-01")];
    let ids: Vec<String> = presets_most_recent_first(presets).into_iter().map(|p| p.id).collect();
    assert_eq!(ids, vec!["new", "mid", "old"]);
}

#[test]
fn persists_updates_and_removal() {
    let mut presets: Vec<ModPreset> = Vec::new();
    let entry = PresetEntry {
        project: ProjectRef { provider: ProviderId::Modrinth, project_id: "sodium".into() },
        name: "Sodium".into(),
    };
    let created = new_preset(
        SavePresetInput { name: "Essenciais".into(), description: None, entries: vec![entry.clone()] },
        "2024-01-01T00:00:00+00:00".into(),
    )
    .unwrap();
    presets.push(created.clone());
    assert_eq!(presets_most_recent_first(presets.clone()).len(), 1);
    let updated = update_preset(
        &mut presets,
        &created.id,
        SavePresetInput {
            name: "Base de desempenho".into(),
            description: Some("Reutilizável".into()),
            entries: vec![entry],
        },
        "2024-01-02T00:00:00+00:00".into(),
    )
    .unwrap();
    assert_eq!(updated.name, "Base de desempenho");
    remove_preset(&mut presets, &created.id).unwrap();
    assert!(presets_most_recent_first(presets).is_empty());
}
