use storage_wizard::cli::{Cli, Operation};

fn options(no_file_index: bool, search: &[&str], ignore_file_index: bool) -> Cli {
    Cli {
        path: ".".to_string(),
        no_file_index,
        search: search.iter().map(|s| s.to_string()).collect(),
        ignore_file_index,
    }
}

#[test]
fn without_a_search_the_tree_is_reported_and_the_index_written() {
    assert_eq!(options(false, &[], false).operation(), Operation::Report { persist: true });
}

#[test]
fn the_index_is_not_written_when_that_is_switched_off() {
    assert_eq!(options(true, &[], false).operation(), Operation::Report { persist: false });
}

#[test]
fn a_search_is_answered_from_the_stored_index() {
    assert_eq!(options(false, &["a.txt"], false).operation(), Operation::SearchStored);
    assert_eq!(options(true, &["a.txt", "b.txt"], false).operation(), Operation::SearchStored);
}

#[test]
fn a_search_scans_afresh_when_the_stored_index_is_set_aside() {
    assert_eq!(options(false, &["a.txt"], true).operation(), Operation::SearchFresh);
    assert_eq!(options(true, &["a.txt"], true).operation(), Operation::SearchFresh);
}

#[test]
fn setting_the_stored_index_aside_needs_a_search() {
    assert!(!options(false, &[], true).is_consistent());
    assert!(options(false, &["a.txt"], true).is_consistent());
    assert!(options(false, &[], false).is_consistent());
    assert!(options(true, &["a.txt"], false).is_consistent());
}
