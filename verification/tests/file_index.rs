use storage_wizard::file_index::{FileIndexBuilder, FileIndexStorage, FormatError};
use storage_wizard::hash_index::{FileGroup, HashBasedFileIndex};

fn group(hash: &str, size: u64, files: &[&str]) -> FileGroup {
    FileGroup {
        hash: hash.to_string(),
        size,
        files: files.iter().map(|file| file.to_string()).collect(),
    }
}

fn sorted(mut paths: Vec<String>) -> Vec<String> {
    paths.sort();
    paths
}

fn sample_index() -> HashBasedFileIndex {
    let mut index = HashBasedFileIndex::new();
    index.insert("h1".to_string(), 10, "x".to_string());
    index.insert("h2".to_string(), 20, "lonely".to_string());
    index.insert("h1".to_string(), 10, "y".to_string());
    index.insert("h3".to_string(), 30, "p".to_string());
    index.insert("h3".to_string(), 30, "q".to_string());
    index.insert("h3".to_string(), 30, "r".to_string());
    index
}

#[test]
fn a_new_record_has_no_groups() {
    assert!(FileIndexStorage::new().groups.is_empty());
}

#[test]
fn the_builder_remembers_its_root() {
    assert_eq!(FileIndexBuilder::new(".").root_path(), ".");
    assert_eq!(FileIndexBuilder::new("/var/data").root_path(), "/var/data");
}

#[test]
fn only_duplicates_are_stored() {
    let storage = FileIndexStorage::from_index(&sample_index());
    assert_eq!(storage.groups, vec![group("h1", 10, &["x", "y"]), group("h3", 30, &["p", "q", "r"])]);
}

#[test]
fn an_index_without_duplicates_is_stored_as_an_empty_record() {
    let mut index = HashBasedFileIndex::new();
    index.insert("h1".to_string(), 1, "a".to_string());
    index.insert("h2".to_string(), 1, "b".to_string());
    assert!(FileIndexStorage::from_index(&index).groups.is_empty());
}

#[test]
fn a_record_is_loaded_group_by_group() {
    let storage = FileIndexStorage {
        groups: vec![group("h1", 10, &["x", "y"]), group("h2", 5, &["z"])],
    };
    let index = FileIndexBuilder::from_file(storage).unwrap();
    assert_eq!(index.len(), 2);
    assert_eq!(index.get("h1"), Some(&group("h1", 10, &["x", "y"])));
    assert_eq!(index.get("h2"), Some(&group("h2", 5, &["z"])));
}

#[test]
fn an_empty_record_is_loaded_as_an_empty_index() {
    let index = FileIndexBuilder::from_file(FileIndexStorage::new()).unwrap();
    assert!(index.is_empty());
}

#[test]
fn the_last_entry_for_a_fingerprint_counts() {
    let storage = FileIndexStorage {
        groups: vec![
            group("h1", 10, &["x", "y"]),
            group("h2", 5, &["z", "w"]),
            group("h1", 11, &["u", "v", "t"]),
        ],
    };
    let index = FileIndexBuilder::from_file(storage).unwrap();
    assert_eq!(
        index.groups(),
        &vec![group("h1", 11, &["u", "v", "t"]), group("h2", 5, &["z", "w"])]
    );
}

#[test]
fn a_record_with_a_group_without_files_is_refused() {
    let storage = FileIndexStorage {
        groups: vec![group("h1", 10, &["x", "y"]), group("h2", 5, &[]), group("h3", 1, &[])],
    };
    assert_eq!(
        FileIndexBuilder::from_file(storage).err(),
        Some(FormatError::EmptyGroup { position: 1 })
    );
}

#[test]
fn loading_what_was_stored_gives_the_duplicates_back() {
    let index = sample_index();
    let storage = FileIndexStorage::from_index(&index);
    let loaded = FileIndexBuilder::from_file(storage.clone()).unwrap();
    assert_eq!(loaded.len(), 2);
    let mut stored_keys: Vec<String> = storage.groups.iter().map(|g| g.hash.clone()).collect();
    let mut loaded_keys: Vec<String> = loaded.groups().iter().map(|g| g.hash.clone()).collect();
    stored_keys.sort();
    loaded_keys.sort();
    assert_eq!(loaded_keys, stored_keys);
    for stored in index.duplicates() {
        let found = loaded.get(&stored.hash).unwrap();
        assert_eq!(found.size, stored.size);
        assert_eq!(sorted(found.files.clone()), sorted(stored.files.clone()));
    }
    assert_eq!(loaded.get("h2"), None);
}

#[test]
fn storing_a_loaded_record_changes_nothing() {
    let storage = FileIndexStorage::from_index(&sample_index());
    let loaded = FileIndexBuilder::from_file(storage.clone()).unwrap();
    assert_eq!(FileIndexStorage::from_index(&loaded), storage);
}

#[test]
fn a_loaded_index_answers_a_query() {
    let storage = FileIndexStorage { groups: vec![group("h1", 10, &["x", "y"])] };
    let index = FileIndexBuilder::from_file(storage).unwrap();
    assert_eq!(index.query("x", "h1"), vec!["y".to_string()]);
    assert_eq!(index.query("y", "h1"), vec!["x".to_string()]);
    assert_eq!(index.query("x", "h2"), Vec::<String>::new());
}
