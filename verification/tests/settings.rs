use mosaic_core::domain::{ProjectRef, ProviderId, SaveSettingsInput};
use mosaic_core::error::{AppError, IntoMessage};
use mosaic_core::requests::{checked_project_url, safe_export_name, settings_change, validate_project, validate_uuid, KeyChange};
use mosaic_core::secrets::{clear_outcome, confirm_saved, stored_key, write_outcome, KeychainFailure, SecretStore};
use mosaic_core::store::{Database, StoredSettings};

fn failure(no_entry: bool, text: &str) -> KeychainFailure {
    KeychainFailure { no_entry, text: text.into() }
}

fn settings(key: Option<&str>, clear: Option<bool>, concurrency: u8) -> SaveSettingsInput {
    SaveSettingsInput {
        curse_forge_api_key: key.map(|k| k.to_string()),
        clear_curse_forge_api_key: clear,
        include_optional_dependencies: false,
        download_concurrency: concurrency,
    }
}

#[test]
fn the_key_lives_under_the_application_service() {
    let store = SecretStore::new();
    assert_eq!(store.service(), "studio.mosaic.modpacks");
    assert_eq!(store.account(), "curseforge-api-key");
}

#[test]
fn keychain_answers_become_user_messages() {
    assert_eq!(stored_key(Ok("abc".into())).unwrap(), Some("abc".to_string()));
    assert_eq!(stored_key(Err(failure(true, "none"))).unwrap(), None);
    assert_eq!(
        stored_key(Err(failure(false, "locked"))).unwrap_err().text(),
        "Não foi possível ler a chave no cofre do sistema: locked"
    );
    assert_eq!(
        write_outcome(Err(failure(false, "denied"))).unwrap_err().text(),
        "Não foi possível proteger a chave no cofre do sistema: denied"
    );
    assert!(confirm_saved("abc", Ok("abc".into())).is_ok());
    assert_eq!(
        confirm_saved("abc", Ok("xyz".into())).unwrap_err().text(),
        "O cofre do sistema não confirmou a chave salva."
    );
    assert_eq!(
        confirm_saved("abc", Err(failure(true, "gone"))).unwrap_err().text(),
        "A chave foi enviada ao cofre, mas não pôde ser confirmada: gone"
    );
    assert!(clear_outcome(Err(failure(true, "none"))).is_ok());
    assert_eq!(
        clear_outcome(Err(failure(false, "busy"))).unwrap_err().text(),
        "Não foi possível remover a chave do cofre: busy"
    );
}

#[test]
fn settings_forms_clamp_and_check_the_key() {
    assert!(matches!(settings_change(&settings(Some("k"), Some(true), 0)), Ok((KeyChange::Clear, 1))));
    assert!(matches!(settings_change(&settings(Some("  "), None, 9)), Ok((KeyChange::Keep, 6))));
    match settings_change(&settings(Some("  key  "), Some(false), 4)) {
        Ok((KeyChange::Store(key), 4)) => assert_eq!(key, "key"),
        other => panic!("unexpected {other:?}"),
    }
    assert_eq!(
        settings_change(&settings(Some(&"k".repeat(513)), None, 3)).unwrap_err(),
        "A chave da CurseForge é longa demais."
    );
}

#[test]
fn interface_requests_are_checked() {
    assert!(validate_uuid("550e8400-e29b-41d4-a716-446655440000").is_ok());
    assert_eq!(validate_uuid("not-a-uuid").unwrap_err(), "Identificador inválido.");
    let project = |id: &str| ProjectRef { provider: ProviderId::Modrinth, project_id: id.into() };
    assert!(validate_project(&project("sodium")).is_ok());
    assert_eq!(validate_project(&project("")).unwrap_err(), "Projeto inválido.");
    assert!(validate_project(&project(&"x".repeat(129))).is_err());
    assert_eq!(safe_export_name("Pack de Teste!"), "Pack-de-Teste-");
    assert_eq!(safe_export_name(""), "modpack");
}

#[test]
fn fresh_stores_start_with_defaults() {
    let settings = StoredSettings::default();
    assert!(!settings.include_optional_dependencies);
    assert_eq!(settings.download_concurrency, 3);
    let database = Database::default();
    assert!(database.profiles.is_empty());
    assert!(database.presets.is_empty());
    assert_eq!(database.settings.download_concurrency, 3);
}

#[test]
fn failures_turn_into_their_message() {
    let failed: Result<u8, AppError> = Err(AppError::Message("falhou".into()));
    assert_eq!(failed.message(), Err("falhou".to_string()));
    let fine: Result<u8, AppError> = Ok(7);
    assert_eq!(fine.message(), Ok(7));
}

#[test]
fn opens_only_https_project_pages() {
    assert_eq!(checked_project_url("https://modrinth.com/mod/sodium".into()).unwrap(), "https://modrinth.com/mod/sodium");
    assert_eq!(checked_project_url("http://example.com".into()).unwrap_err(), "O provedor retornou uma URL insegura.");
    assert_eq!(checked_project_url("javascript:alert(1)".into()).unwrap_err(), "O provedor retornou uma URL insegura.");
}
