use graphql_swift::file::mark_modified;

#[test]
fn one_newer_file_is_flagged() {
    let found = vec![("a.graphql".to_string(), 5u128), ("b.graphql".to_string(), 20), ("c.graphql".to_string(), 9)];
    let (modified, files) = mark_modified(10, found);
    assert!(modified);
    assert_eq!(files.len(), 3);
    assert_eq!(files.iter().filter(|f| f.modified).count(), 1);
    assert!(files[1].modified);
    assert_eq!(files[1].path, "b.graphql");
    assert!(!files[0].modified && !files[2].modified);
}

#[test]
fn all_older_files_need_no_regeneration() {
    let found = vec![("a.graphql".to_string(), 5u128), ("b.graphql".to_string(), 10)];
    let (modified, files) = mark_modified(10, found);
    assert!(!modified);
    assert!(files.iter().all(|f| !f.modified));
}

#[test]
fn no_files_no_regeneration() {
    let (modified, files) = mark_modified(0, vec![]);
    assert!(!modified);
    assert!(files.is_empty());
}
