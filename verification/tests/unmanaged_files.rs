use mosaic_core::removal::count_unmanaged;

#[test]
fn only_untracked_jar_files_are_counted() {
    let registered = vec!["Sodium.jar".to_string(), "lithium.JAR".to_string()];
    let present = vec![
        "sodium.jar".to_string(),
        "LITHIUM.jar".to_string(),
        "Extra.JAR".to_string(),
        "notes.txt".to_string(),
        "other.jar".to_string(),
    ];
    assert_eq!(count_unmanaged(&registered, &present), 2);
}

#[test]
fn an_empty_folder_has_no_unmanaged_files() {
    assert_eq!(count_unmanaged(&vec!["a.jar".to_string()], &Vec::new()), 0);
}
