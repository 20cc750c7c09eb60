use storage_wizard::walker::{judge_entry, EntryKind, EntryVerdict};

#[test]
fn a_regular_file_is_kept_with_its_size() {
    assert_eq!(
        judge_entry(Some(EntryKind::File), Some(42)),
        EntryVerdict::Keep { size: Some(42) }
    );
    assert_eq!(judge_entry(Some(EntryKind::File), Some(0)), EntryVerdict::Keep { size: Some(0) });
    assert_eq!(
        judge_entry(Some(EntryKind::File), Some(u64::MAX)),
        EntryVerdict::Keep { size: Some(u64::MAX) }
    );
}

#[test]
fn a_directory_is_kept_without_a_size() {
    assert_eq!(judge_entry(Some(EntryKind::Directory), None), EntryVerdict::Keep { size: None });
    assert_eq!(
        judge_entry(Some(EntryKind::Directory), Some(4096)),
        EntryVerdict::Keep { size: None }
    );
}

#[test]
fn links_and_special_files_are_left_out_silently() {
    assert_eq!(judge_entry(Some(EntryKind::Other), None), EntryVerdict::Skip);
    assert_eq!(judge_entry(Some(EntryKind::Other), Some(10)), EntryVerdict::Skip);
}

#[test]
fn an_unreadable_entry_is_left_out_with_a_warning() {
    assert_eq!(judge_entry(None, None), EntryVerdict::Warn);
    assert_eq!(judge_entry(None, Some(10)), EntryVerdict::Warn);
}

#[test]
fn a_file_whose_size_cannot_be_read_is_left_out_with_a_warning() {
    assert_eq!(judge_entry(Some(EntryKind::File), None), EntryVerdict::Warn);
}
