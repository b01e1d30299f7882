use mosaic_core::domain::{FileHash, HashAlgorithm};
use mosaic_core::file_integrity::{digest_hex, HashState};

#[test]
fn a_digest_fed_in_chunks_equals_the_digest_of_the_whole() {
    for algorithm in [HashAlgorithm::Sha512, HashAlgorithm::Sha1, HashAlgorithm::Md5] {
        let mut state = HashState::new(algorithm);
        state.update(b"hello ");
        state.update(b"");
        state.update(b"world");
        assert_eq!(state.finish(), digest_hex(algorithm, &b"hello world".to_vec()));
    }
}

#[test]
fn md5_of_abc_is_the_published_value() {
    let mut state = HashState::new(HashAlgorithm::Md5);
    state.update(b"abc");
    assert_eq!(state.finish(), "900150983cd24fb0d6963f7d28e17f72");
}

#[test]
fn a_streamed_download_matches_its_published_hash_in_any_case() {
    let mut state = HashState::new(HashAlgorithm::Sha1);
    state.update(b"a");
    state.update(b"bc");
    let expected = FileHash { algorithm: HashAlgorithm::Sha1, value: "A9993E364706816ABA3E25717850C26C9CD0D89D".into() };
    assert!(state.matches(&expected));
    let mut other = HashState::new(HashAlgorithm::Sha1);
    other.update(b"abd");
    assert!(!other.matches(&expected));
}
