use storage_wizard::file_index::{BuildError, FileIndexBuilder};
use storage_wizard::hash_index::{FileGroup, HashBasedFileIndex, HashOutcome};

fn hashed(path: &str, size: u64, hash: &str) -> HashOutcome {
    HashOutcome { path: path.to_string(), size, hash: Some(hash.to_string()) }
}

fn failed(path: &str, size: u64) -> HashOutcome {
    HashOutcome { path: path.to_string(), size, hash: None }
}

fn group(hash: &str, size: u64, files: &[&str]) -> FileGroup {
    FileGroup {
        hash: hash.to_string(),
        size,
        files: files.iter().map(|file| file.to_string()).collect(),
    }
}

fn gathered(outcomes: Vec<HashOutcome>) -> Result<HashBasedFileIndex, BuildError> {
    FileIndexBuilder::new(".").build_hash_based_file_index(outcomes)
}

#[test]
fn a_new_hash_index_is_empty() {
    let index = HashBasedFileIndex::new();
    assert!(index.is_empty());
    assert_eq!(index.len(), 0);
    assert!(index.groups().is_empty());
    assert_eq!(index.get("h"), None);
    assert!(index.duplicates().is_empty());
    assert!(index.query("a", "h").is_empty());
}

#[test]
fn insert_opens_a_group_on_first_occurrence_and_appends_after() {
    let mut index = HashBasedFileIndex::new();
    index.insert("h1".to_string(), 10, "a".to_string());
    index.insert("h2".to_string(), 20, "b".to_string());
    index.insert("h1".to_string(), 10, "c".to_string());
    assert_eq!(index.len(), 2);
    assert!(!index.is_empty());
    assert_eq!(index.get("h1"), Some(&group("h1", 10, &["a", "c"])));
    assert_eq!(index.get("h2"), Some(&group("h2", 20, &["b"])));
    assert_eq!(index.get("h3"), None);
    assert_eq!(index.groups(), &vec![group("h1", 10, &["a", "c"]), group("h2", 20, &["b"])]);
}

#[test]
fn a_group_keeps_the_size_of_its_first_file() {
    let mut index = HashBasedFileIndex::new();
    index.insert("h".to_string(), 10, "a".to_string());
    index.insert("h".to_string(), 11, "b".to_string());
    assert_eq!(index.get("h"), Some(&group("h", 10, &["a", "b"])));
}

#[test]
fn insert_group_replaces_the_group_of_its_fingerprint() {
    let mut index = HashBasedFileIndex::new();
    index.insert_group(group("h1", 1, &["a", "b"]));
    index.insert_group(group("h2", 2, &["c"]));
    index.insert_group(group("h1", 3, &["d"]));
    assert_eq!(index.groups(), &vec![group("h1", 3, &["d"]), group("h2", 2, &["c"])]);
}

#[test]
fn hashed_files_are_gathered_by_fingerprint() {
    let index = gathered(vec![
        hashed("a", 1, "hx"),
        hashed("c", 1, "hy"),
        hashed("b", 1, "hx"),
        hashed("d", 2, "hz"),
        hashed("e", 2, "hz"),
        hashed("f", 1, "hx"),
    ])
    .unwrap();
    assert_eq!(
        index.groups(),
        &vec![
            group("hx", 1, &["a", "b", "f"]),
            group("hy", 1, &["c"]),
            group("hz", 2, &["d", "e"]),
        ]
    );
}

#[test]
fn every_group_of_a_built_index_holds_a_file() {
    let index =
        gathered(vec![hashed("a", 1, "hx"), hashed("b", 1, "hy"), hashed("c", 1, "hx")]).unwrap();
    assert!(index.groups().iter().all(|group| !group.files.is_empty()));
}

#[test]
fn no_hashed_files_give_an_empty_index() {
    assert!(gathered(vec![]).unwrap().is_empty());
}

#[test]
fn the_first_file_that_could_not_be_hashed_ends_the_build() {
    let result = gathered(vec![
        hashed("a", 1, "hx"),
        failed("gone", 1),
        hashed("b", 1, "hx"),
        failed("also gone", 1),
    ]);
    assert_eq!(result.err(), Some(BuildError::HashFailed { path: "gone".to_string() }));
}

#[test]
fn a_failure_at_the_very_start_ends_the_build() {
    let result = gathered(vec![failed("gone", 4)]);
    assert_eq!(result.err(), Some(BuildError::HashFailed { path: "gone".to_string() }));
}

#[test]
fn duplicates_are_the_groups_of_two_files_or_more() {
    let index = gathered(vec![
        hashed("a", 1, "hx"),
        hashed("c", 1, "hy"),
        hashed("b", 1, "hx"),
        hashed("d", 2, "hz"),
        hashed("e", 2, "hz"),
    ])
    .unwrap();
    assert_eq!(index.duplicates(), vec![group("hx", 1, &["a", "b"]), group("hz", 2, &["d", "e"])]);
}

#[test]
fn query_returns_the_other_paths_of_the_group() {
    let index = gathered(vec![hashed("a", 1, "hx"), hashed("b", 1, "hx"), hashed("c", 1, "hx")])
        .unwrap();
    assert_eq!(index.query("b", "hx"), vec!["a".to_string(), "c".to_string()]);
}

#[test]
fn query_for_a_file_outside_the_index_returns_its_whole_group() {
    let index = gathered(vec![hashed("a", 1, "hx"), hashed("b", 1, "hx")]).unwrap();
    assert_eq!(index.query("elsewhere/copy", "hx"), vec!["a".to_string(), "b".to_string()]);
}

#[test]
fn query_for_an_unknown_fingerprint_is_empty_and_no_error() {
    let index = gathered(vec![hashed("a", 1, "hx"), hashed("b", 1, "hx")]).unwrap();
    assert_eq!(index.query("a", "unknown"), Vec::<String>::new());
}

#[test]
fn query_for_a_file_without_duplicates_is_empty() {
    let index = gathered(vec![hashed("a", 1, "hx"), hashed("b", 1, "hy")]).unwrap();
    assert_eq!(index.query("a", "hx"), Vec::<String>::new());
}

#[test]
fn query_leaves_out_the_queried_path_wherever_it_stands() {
    let index = gathered(vec![hashed("a", 1, "hx"), hashed("b", 1, "hx"), hashed("c", 1, "hx")])
        .unwrap();
    for own in ["a", "b", "c"] {
        let found = index.query(own, "hx");
        assert_eq!(found.len(), 2);
        assert!(!found.contains(&own.to_string()));
    }
}

#[test]
fn query_compares_paths_exactly() {
    let index = gathered(vec![hashed("dir/a", 1, "hx"), hashed("dir/b", 1, "hx")]).unwrap();
    assert_eq!(index.query("dir/A", "hx"), vec!["dir/a".to_string(), "dir/b".to_string()]);
    assert_eq!(index.query("./dir/a", "hx"), vec!["dir/a".to_string(), "dir/b".to_string()]);
}
