//! Building the index of duplicates, stage by stage, and keeping it as a
//! record that can be stored and loaded again.

use crate::grouping::{
    first_keys, grouped, keys_of, lemma_first_keys, lemma_grouped_push, lemma_members_come_from_items,
    lemma_members_empty, members,
};
use crate::hash_index::{
    all_hashed, distinct_hashes, duplicate_groups, group_views, has_hash, hash_groups,
    lemma_hash_groups_push, no_empty_group, position_of_hash, with_group, FileGroup, GroupView,
    HashBasedFileIndex, HashOutcome,
};
use crate::memory::{built_groups, hash_in_memory, walk_memory, MemoryFile};
use crate::size_index::{lemma_size_buckets_push, size_buckets, SizeBasedFileIndex};
use crate::walker::WalkEntry;
use vstd::prelude::*;

verus! {

/// The record of an index as it is stored: one entry per group.
#[derive(Clone, Debug, PartialEq, Eq)]
pub struct FileIndexStorage {
    pub groups: Vec<FileGroup>,
}

impl View for FileIndexStorage {
    type V = Seq<GroupView>;

    open spec fn view(&self) -> Seq<GroupView> {
        group_views(self.groups@)
    }
}

impl FileIndexStorage {
    /// A record without groups.
    pub fn new() -> (storage: FileIndexStorage)
        ensures
            storage@ == Seq::<GroupView>::empty(),
    {
        FileIndexStorage { groups: Vec::new() }
    }

    /// The record of an index. Only duplicates are worth keeping: a group
    /// goes into the record where it holds two or more files.
    pub fn from_index(index: &HashBasedFileIndex) -> (storage: FileIndexStorage)
        ensures
            storage@ == duplicate_groups(index@),
    {
        FileIndexStorage { groups: index.duplicates() }
    }
}

/// Why a stored record is not an index.
#[derive(Clone, Copy, Debug, PartialEq, Eq, Structural)]
pub enum FormatError {
    /// The group at `position` of the record names no file.
    EmptyGroup { position: usize },
}

/// Why an index could not be built.
#[derive(Clone, Debug, PartialEq, Eq)]
pub enum BuildError {
    /// The file at `path` could not be hashed.
    HashFailed { path: String },
}

/// A record as keyed items: each entry under its fingerprint.
pub open spec fn keyed_records(records: Seq<GroupView>) -> Seq<(Seq<char>, GroupView)> {
    records.map_values(|record: GroupView| (record.hash, record))
}

/// The groups that a record gives when it is loaded: one per fingerprint, in
/// the order in which the fingerprints first occur in the record; where the
/// record has several entries for one fingerprint, the last of them counts.
pub open spec fn loaded_groups(records: Seq<GroupView>) -> Seq<GroupView> {
    grouped(keyed_records(records)).map_values(
        |found: (Seq<char>, Seq<GroupView>)| found.1.last(),
    )
}

/// Whether `i` is the place of the first entry of the record that names no file.
pub open spec fn first_empty_at(records: Seq<GroupView>, i: int) -> bool {
    &&& 0 <= i < records.len()
    &&& records[i].files.len() == 0
    &&& forall|j: int| 0 <= j < i ==> (#[trigger] records[j]).files.len() >= 1
}

/// Whether `i` is the place of the first file of the list that was not hashed.
pub open spec fn first_failure_at(outcomes: Seq<HashOutcome>, i: int) -> bool {
    &&& 0 <= i < outcomes.len()
    &&& outcomes[i].hash is None
    &&& forall|j: int| 0 <= j < i ==> (#[trigger] outcomes[j]).hash is Some
}

/// Each group of a loaded record is an entry of the record, under the
/// fingerprint that its place stands for.
proof fn lemma_loaded_groups_are_records(records: Seq<GroupView>)
    ensures
        forall|i: int|
            0 <= i < loaded_groups(records).len() ==> records.contains(
                #[trigger] loaded_groups(records)[i],
            ) && loaded_groups(records)[i].hash == grouped(keyed_records(records))[i].0,
{
    let items = keyed_records(records);
    let known = first_keys(keys_of(items));
    let loaded = loaded_groups(records);
    lemma_first_keys(keys_of(items));
    assert forall|i: int| 0 <= i < loaded.len() implies records.contains(#[trigger] loaded[i])
        && loaded[i].hash == known[i] by {
        let found = members(items, known[i]);
        assert(known.contains(known[i]));
        lemma_members_empty(items, known[i]);
        lemma_members_come_from_items(items, known[i], found.len() - 1);
        let at = items.index_of((known[i], found.last()));
        assert(items[at] == (records[at].hash, records[at]));
    }
}

/// The groups of a loaded record are keyed by distinct fingerprints, each is
/// an entry of the record, and every fingerprint of the record has its group.
pub proof fn lemma_loaded_groups(records: Seq<GroupView>)
    ensures
        distinct_hashes(loaded_groups(records)),
        forall|i: int|
            0 <= i < loaded_groups(records).len() ==> records.contains(
                #[trigger] loaded_groups(records)[i],
            ),
        no_empty_group(records) ==> no_empty_group(loaded_groups(records)),
        forall|i: int|
            0 <= i < records.len() ==> has_hash(
                loaded_groups(records),
                (#[trigger] records[i]).hash,
            ),
{
    let items = keyed_records(records);
    let keys = keys_of(items);
    let known = first_keys(keys);
    let loaded = loaded_groups(records);
    lemma_first_keys(keys);
    lemma_loaded_groups_are_records(records);
    assert forall|i: int| 0 <= i < records.len() implies has_hash(
        loaded,
        (#[trigger] records[i]).hash,
    ) by {
        assert(keys[i] == records[i].hash);
        assert(keys.contains(records[i].hash));
        let at = known.index_of(records[i].hash);
        assert(loaded[at].hash == records[i].hash);
    }
    if no_empty_group(records) {
        assert forall|i: int| 0 <= i < loaded.len() implies (#[trigger] loaded[i]).files.len()
            >= 1 by {
            let at = records.index_of(loaded[i]);
            assert(records[at].files.len() >= 1);
        }
    }
}

/// The groups of a loaded record after one more entry.
pub proof fn lemma_loaded_groups_push(records: Seq<GroupView>, record: GroupView)
    ensures
        loaded_groups(records.push(record)) == with_group(loaded_groups(records), record),
{
    let items = keyed_records(records);
    let before = grouped(items);
    let loaded = loaded_groups(records);
    assert(keyed_records(records.push(record)) =~= items.push((record.hash, record)));
    lemma_loaded_groups(records);
    lemma_loaded_groups_are_records(records);
    lemma_grouped_push(items, record.hash, record);
    if has_hash(loaded, record.hash) {
        let i = position_of_hash(loaded, record.hash);
        assert(before[i].0 == record.hash);
        assert(before[i].1.push(record).last() == record);
        assert(loaded_groups(records.push(record)) =~= loaded.update(i, record));
    } else {
        assert forall|i: int| 0 <= i < before.len() implies before[i].0 != record.hash by {
            assert(loaded[i].hash == before[i].0);
        }
        assert(seq![record].last() == record);
        assert(loaded_groups(records.push(record)) =~= loaded.push(record));
    }
}

/// A record without two entries for one fingerprint is loaded as it stands.
pub proof fn lemma_loaded_groups_of_distinct(records: Seq<GroupView>)
    requires
        distinct_hashes(records),
    ensures
        loaded_groups(records) == records,
    decreases records.len(),
{
    if records.len() > 0 {
        let front = records.drop_last();
        let last = records.last();
        assert(front.push(last) =~= records);
        assert(distinct_hashes(front)) by {
            assert forall|i: int, j: int|
                0 <= i < front.len() && 0 <= j < front.len() && (#[trigger] front[i]).hash == (
                #[trigger] front[j]).hash implies i == j by {
                assert(records[i].hash == records[j].hash);
            }
        }
        lemma_loaded_groups_of_distinct(front);
        lemma_loaded_groups_push(front, last);
        if has_hash(front, last.hash) {
            let i = position_of_hash(front, last.hash);
            assert(records[i].hash == records[records.len() - 1].hash);
        }
    }
}

/// The duplicates of well-formed groups: each holds two files or more, each
/// is one of the groups, and no two share a fingerprint.
pub proof fn lemma_duplicate_groups(groups: Seq<GroupView>)
    requires
        distinct_hashes(groups),
    ensures
        distinct_hashes(duplicate_groups(groups)),
        forall|i: int|
            0 <= i < duplicate_groups(groups).len() ==> (#[trigger] duplicate_groups(
                groups,
            )[i]).files.len() > 1 && groups.contains(duplicate_groups(groups)[i]),
    decreases groups.len(),
{
    let many = |group: GroupView| group.files.len() > 1;
    if groups.len() == 0 {
        reveal(Seq::filter);
    } else {
        let front = groups.drop_last();
        let last = groups.last();
        assert(front.push(last) =~= groups);
        assert(distinct_hashes(front)) by {
            assert forall|i: int, j: int|
                0 <= i < front.len() && 0 <= j < front.len() && (#[trigger] front[i]).hash == (
                #[trigger] front[j]).hash implies i == j by {
                assert(groups[i].hash == groups[j].hash);
            }
        }
        lemma_duplicate_groups(front);
        front.lemma_filter_push(last, many);
        let kept = duplicate_groups(front);
        let all = duplicate_groups(groups);
        assert forall|i: int| 0 <= i < all.len() implies (#[trigger] all[i]).files.len() > 1
            && groups.contains(all[i]) by {
            if i < kept.len() {
                let at = front.index_of(kept[i]);
                assert(groups[at] == kept[i]);
            } else {
                assert(groups[groups.len() - 1] == all[i]);
            }
        }
        assert forall|i: int, j: int|
            0 <= i < all.len() && 0 <= j < all.len() && (#[trigger] all[i]).hash == (
            #[trigger] all[j]).hash implies i == j by {
            if i < kept.len() && j >= kept.len() {
                let at = front.index_of(kept[i]);
                assert(groups[at].hash == groups[groups.len() - 1].hash);
            }
            if j < kept.len() && i >= kept.len() {
                let at = front.index_of(kept[j]);
                assert(groups[at].hash == groups[groups.len() - 1].hash);
            }
        }
    }
}

/// Round trip: the record of an index can be loaded, and loading it gives
/// back the groups that were stored, which are the duplicates of the index:
/// the same fingerprints, each with its size and its paths.
pub proof fn lemma_load_of_save(index: HashBasedFileIndex)
    requires
        index.wf(),
    ensures
        no_empty_group(duplicate_groups(index@)),
        loaded_groups(duplicate_groups(index@)) == duplicate_groups(index@),
{
    lemma_duplicate_groups(index@);
    lemma_loaded_groups_of_distinct(duplicate_groups(index@));
}

/// Builds the index of the duplicates under a root directory.
pub struct FileIndexBuilder<'a> {
    root_path: &'a str,
}

impl<'a> FileIndexBuilder<'a> {
    /// The path of the directory that the builder was made for.
    pub closed spec fn root(&self) -> Seq<char> {
        self.root_path@
    }

    /// A builder for the tree under `root_path`.
    pub fn new(root_path: &'a str) -> (builder: Self)
        ensures
            builder.root() == root_path@,
    {
        FileIndexBuilder { root_path }
    }

    /// The path of the directory that is to be walked.
    pub fn root_path(&self) -> (root_path: &'a str)
        ensures
            root_path@ == self.root(),
    {
        self.root_path
    }

    /// Rebuilds an index from its stored record. A record with an entry
    /// that names no file is no index, and is refused. Where the record has
    /// several entries for one fingerprint, the last of them counts.
    pub fn from_file(storage: FileIndexStorage) -> (result: Result<
        HashBasedFileIndex,
        FormatError,
    >)
        ensures
            result is Ok <==> no_empty_group(storage@),
            result matches Ok(index) ==> index.wf() && index@ == loaded_groups(storage@),
            result matches Err(error) ==> first_empty_at(storage@, error->position as int),
    {
        let mut index = HashBasedFileIndex::new();
        let ghost all = storage@;
        let ghost records = storage.groups@;
        let mut position: usize = 0;
        let count: usize = storage.groups.len();
        for group in it: storage.groups.into_iter()
            invariant
                it.seq() == records,
                records.len() == count,
                all == group_views(records),
                position == it.index(),
                index.wf(),
                index@ == loaded_groups(all.take(position as int)),
                no_empty_group(all.take(position as int)),
        {
            if group.files.len() == 0 {
                assert(all[position as int].files.len() == 0);
                assert forall|j: int| 0 <= j < position implies (#[trigger] all[j]).files.len()
                    >= 1 by {
                    assert(all.take(position as int)[j] == all[j]);
                }
                return Err(FormatError::EmptyGroup { position });
            }
            proof {
                lemma_loaded_groups_push(all.take(position as int), group@);
                assert(all.take(position + 1) =~= all.take(position as int).push(group@));
                assert forall|j: int| 0 <= j < position + 1 implies (#[trigger] all.take(
                    position + 1,
                )[j]).files.len() >= 1 by {
                    if j < position {
                        assert(all.take(position as int)[j] == all[j]);
                    }
                }
            }
            index.insert_group(group);
            position = position + 1;
        }
        assert(all.take(position as int) =~= all);
        Ok(index)
    }

    /// Buckets the entries of a walk by file size. Directories, which come
    /// without a size, are passed over; no file is left out, not even one
    /// that is alone with its size.
    pub fn build_size_based_file_index(&self, entries: Vec<WalkEntry>) -> (index:
        SizeBasedFileIndex)
        ensures
            index.wf(),
            index@ == size_buckets(entries@),
    {
        let mut index = SizeBasedFileIndex::new();
        let ghost all = entries@;
        assert(size_buckets(all.take(0)) =~= index@) by {
            reveal(Seq::filter);
        }
        for entry in it: entries.into_iter()
            invariant
                it.seq() == all,
                index.wf(),
                index@ == size_buckets(all.take(it.index() as int)),
        {
            proof {
                lemma_size_buckets_push(all.take(it.index() as int), entry);
                assert(all.take(it.index() + 1) =~= all.take(it.index() as int).push(entry));
            }
            match entry.size {
                Some(size) => {
                    index.insert(size, entry.path);
                },
                None => {},
            }
        }
        assert(all.take(all.len() as int) =~= all);
        index
    }

    /// Gathers hashed files into the index. A file that could not be hashed
    /// is not passed over in silence: the first of them ends the build.
    pub fn build_hash_based_file_index(&self, outcomes: Vec<HashOutcome>) -> (result: Result<
        HashBasedFileIndex,
        BuildError,
    >)
        ensures
            result is Ok <==> all_hashed(outcomes@),
            result matches Ok(index) ==> index.wf() && index@ == hash_groups(outcomes@),
            result matches Err(error) ==> exists|i: int|
                first_failure_at(outcomes@, i) && error->path@ == outcomes@[i].path@,
    {
        let mut index = HashBasedFileIndex::new();
        let ghost all = outcomes@;
        for outcome in it: outcomes.into_iter()
            invariant
                it.seq() == all,
                index.wf(),
                index@ == hash_groups(all.take(it.index() as int)),
                all_hashed(all.take(it.index() as int)),
        {
            proof {
                lemma_hash_groups_push(all.take(it.index() as int), outcome);
                assert(all.take(it.index() + 1) =~= all.take(it.index() as int).push(outcome));
            }
            match outcome.hash {
                Some(hash) => {
                    assert forall|j: int| 0 <= j < it.index() + 1 implies (#[trigger] all.take(
                        it.index() + 1,
                    )[j]).hash is Some by {
                        if j < it.index() {
                            assert(all.take(it.index() as int)[j] == all[j]);
                        }
                    }
                    index.insert(hash, outcome.size, outcome.path);
                },
                None => {
                    assert forall|j: int| 0 <= j < it.index() implies (#[trigger] all[j]).hash
                        is Some by {
                        assert(all.take(it.index() as int)[j] == all[j]);
                    }
                    assert(first_failure_at(all, it.index() as int));
                    return Err(BuildError::HashFailed { path: outcome.path });
                },
            }
        }
        assert(all.take(all.len() as int) =~= all);
        Ok(index)
    }

    /// Builds the index of a tree whose files are held in memory. The stages
    /// are those of any build: the files are bucketed by size, those that
    /// share a size are hashed, and the hashed files are gathered by
    /// fingerprint. A file that is alone with its size is never hashed.
    pub fn build(self, files: Vec<MemoryFile>) -> (index: HashBasedFileIndex)
        ensures
            index.wf(),
            index@ == built_groups(files@),
    {
        let entries = walk_memory(&files);
        let size_index = self.build_size_based_file_index(entries);
        let candidates = size_index.hash_candidates();
        let outcomes = hash_in_memory(&files, candidates);
        match self.build_hash_based_file_index(outcomes) {
            Ok(index) => index,
            Err(_) => {
                // Every candidate was hashed, so nothing can end the build.
                assert(false);
                HashBasedFileIndex::new()
            },
        }
    }
}

} // verus!
