use mosaic_core::domain::{FileHash, HashAlgorithm, ProviderId};
use mosaic_core::download::{preferred_hash, safe_filename, validate_download_url};
use mosaic_core::file_integrity::{curseforge_fingerprint, digest_hex, eq_ignore_ascii_case, hash_matches, murmur2};

#[test]
fn murmur2_matches_a_stable_vector() {
    assert_eq!(murmur2(b"mosaic", 1), 0x38fe2e60);
}

#[test]
fn fingerprints_ignore_whitespace_bytes() {
    let spaced = b"mo saic\r\n\t".to_vec();
    assert_eq!(curseforge_fingerprint(&spaced), murmur2(b"mosaic", 1));
}

#[test]
fn digests_are_lowercase_hex_of_the_bytes() {
    let data = b"abc".to_vec();
    assert_eq!(digest_hex(HashAlgorithm::Sha1, &data), "a9993e364706816aba3e25717850c26c9cd0d89d");
    assert_eq!(digest_hex(HashAlgorithm::Md5, &data), "900150983cd24fb0d6963f7d28e17f72");
    assert_eq!(
        digest_hex(HashAlgorithm::Sha512, &data),
        "ddaf35a193617abacc417349ae20413112e6fa4e89a97ea20a9eeee64b55d39a2192992a274fc1a836ba3c23a3feebbd454d4423643ce80e2a9ac94fa54ca49f"
    );
}

#[test]
fn expected_hashes_match_in_any_letter_case() {
    let data = b"abc".to_vec();
    let upper = FileHash { algorithm: HashAlgorithm::Sha1, value: "A9993E364706816ABA3E25717850C26C9CD0D89D".into() };
    let wrong = FileHash { algorithm: HashAlgorithm::Sha1, value: "0000".into() };
    assert!(hash_matches(&data, &upper));
    assert!(!hash_matches(&data, &wrong));
    assert!(eq_ignore_ascii_case("AbC", "aBc"));
    assert!(!eq_ignore_ascii_case("abc", "abd"));
}

#[test]
fn the_strongest_known_hash_is_preferred() {
    let hashes = vec![
        FileHash { algorithm: HashAlgorithm::Md5, value: "m".into() },
        FileHash { algorithm: HashAlgorithm::Sha1, value: "s1".into() },
        FileHash { algorithm: HashAlgorithm::Sha512, value: "s512".into() },
    ];
    assert_eq!(preferred_hash(&hashes).unwrap().algorithm, HashAlgorithm::Sha512);
    let only_md5 = vec![FileHash { algorithm: HashAlgorithm::Md5, value: "m".into() }];
    assert_eq!(preferred_hash(&only_md5).unwrap().algorithm, HashAlgorithm::Md5);
    assert!(preferred_hash(&Vec::new()).is_none());
}

#[test]
fn downloads_come_only_from_the_catalogs_own_hosts() {
    assert!(validate_download_url("https://cdn.modrinth.com/data/a.jar", ProviderId::Modrinth).is_ok());
    assert!(validate_download_url("https://edge.forgecdn.net/files/a.jar", ProviderId::Curseforge).is_ok());
    assert_eq!(
        validate_download_url("http://cdn.modrinth.com/a.jar", ProviderId::Modrinth).unwrap_err().text(),
        "Download recusado: a origem não usa HTTPS."
    );
    assert_eq!(
        validate_download_url("https://evil.example/a.jar", ProviderId::Modrinth).unwrap_err().text(),
        "Download recusado: domínio não autorizado (evil.example)."
    );
    assert!(validate_download_url("not a url", ProviderId::Modrinth).unwrap_err().text().starts_with("URL inválida: "));
}

#[test]
fn downloaded_file_names_must_be_plain_mod_files() {
    assert_eq!(safe_filename("sodium-0.5.jar").unwrap(), "sodium-0.5.jar");
    assert_eq!(
        safe_filename("../evil.jar").unwrap_err().text(),
        "O arquivo retornado pelo provedor não é um mod válido."
    );
    assert_eq!(
        safe_filename("readme.txt").unwrap_err().text(),
        "O arquivo retornado pelo provedor não é um mod válido."
    );
}
