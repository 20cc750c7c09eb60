use storage_wizard::file_index::FileIndexBuilder;
use storage_wizard::size_index::{Candidate, SizeBasedFileIndex};
use storage_wizard::walker::WalkEntry;

fn file(path: &str, size: u64) -> WalkEntry {
    WalkEntry { path: path.to_string(), size: Some(size) }
}

fn directory(path: &str) -> WalkEntry {
    WalkEntry { path: path.to_string(), size: None }
}

fn candidate(path: &str, size: u64) -> Candidate {
    Candidate { path: path.to_string(), size }
}

fn bucketed(entries: Vec<WalkEntry>) -> SizeBasedFileIndex {
    FileIndexBuilder::new(".").build_size_based_file_index(entries)
}

fn paths(index: &SizeBasedFileIndex, size: u64) -> Option<Vec<String>> {
    index.get(size).cloned()
}

#[test]
fn a_new_size_index_is_empty() {
    let index = SizeBasedFileIndex::new();
    assert!(index.is_empty());
    assert_eq!(index.len(), 0);
    assert!(index.buckets().is_empty());
    assert_eq!(index.get(0), None);
    assert!(index.hash_candidates().is_empty());
}

#[test]
fn insert_opens_a_bucket_on_first_occurrence_and_appends_after() {
    let mut index = SizeBasedFileIndex::new();
    index.insert(10, "a".to_string());
    assert_eq!(index.len(), 1);
    assert_eq!(paths(&index, 10), Some(vec!["a".to_string()]));
    index.insert(20, "b".to_string());
    index.insert(10, "c".to_string());
    assert_eq!(index.len(), 2);
    assert!(!index.is_empty());
    assert_eq!(paths(&index, 10), Some(vec!["a".to_string(), "c".to_string()]));
    assert_eq!(paths(&index, 20), Some(vec!["b".to_string()]));
    assert_eq!(paths(&index, 30), None);
}

#[test]
fn buckets_stand_in_the_order_in_which_sizes_were_first_seen() {
    let index = bucketed(vec![file("a", 7), file("b", 3), file("c", 7), file("d", 5), file("e", 3)]);
    let sizes: Vec<u64> = index.buckets().iter().map(|bucket| bucket.size).collect();
    assert_eq!(sizes, vec![7, 3, 5]);
    assert_eq!(index.buckets()[0].paths, vec!["a".to_string(), "c".to_string()]);
    assert_eq!(index.buckets()[1].paths, vec!["b".to_string(), "e".to_string()]);
    assert_eq!(index.buckets()[2].paths, vec!["d".to_string()]);
}

#[test]
fn directories_are_passed_over() {
    let index = bucketed(vec![directory("."), file("./a", 1), directory("./sub"), file("./sub/b", 1)]);
    assert_eq!(index.len(), 1);
    assert_eq!(paths(&index, 1), Some(vec!["./a".to_string(), "./sub/b".to_string()]));
}

#[test]
fn no_file_is_dropped_by_the_size_bucketer() {
    let index = bucketed(vec![file("lonely", 99), file("x", 1), file("y", 1)]);
    assert_eq!(paths(&index, 99), Some(vec!["lonely".to_string()]));
    let total: usize = index.buckets().iter().map(|bucket| bucket.paths.len()).sum();
    assert_eq!(total, 3);
}

#[test]
fn empty_files_share_the_size_zero() {
    let index = bucketed(vec![file("a", 0), file("b", 0)]);
    assert_eq!(paths(&index, 0), Some(vec!["a".to_string(), "b".to_string()]));
    assert_eq!(index.hash_candidates(), vec![candidate("a", 0), candidate("b", 0)]);
}

#[test]
fn no_entries_give_no_buckets() {
    let index = bucketed(vec![]);
    assert!(index.is_empty());
    assert!(index.hash_candidates().is_empty());
}

#[test]
fn only_files_that_share_a_size_are_candidates() {
    let index = bucketed(vec![
        file("a", 7),
        file("b", 3),
        file("c", 7),
        file("d", 5),
        file("e", 3),
        file("f", 7),
    ]);
    assert_eq!(
        index.hash_candidates(),
        vec![
            candidate("a", 7),
            candidate("c", 7),
            candidate("f", 7),
            candidate("b", 3),
            candidate("e", 3),
        ]
    );
}

#[test]
fn a_file_alone_with_its_size_is_never_a_candidate() {
    let index = bucketed(vec![file("d.txt", 4), file("e.bin", 5)]);
    assert_eq!(index.len(), 2);
    assert!(index.hash_candidates().is_empty());
}
