//! The hash index: file paths grouped by content fingerprint.

use crate::grouping::{
    first_keys, grouped, keys_of, lemma_first_keys, lemma_grouped_push, lemma_members_empty,
    members,
};
use crate::size_index::path_views;
use vstd::hash_map::StringHashMap;
use vstd::prelude::*;

verus! {

/// A file that was to be hashed, with what came of it: the fingerprint of its
/// content, or `None` where the file could not be read.
#[derive(Clone, Debug, PartialEq, Eq)]
pub struct HashOutcome {
    pub path: String,
    pub size: u64,
    pub hash: Option<String>,
}

/// The files that share one content fingerprint, with their size.
#[derive(Clone, Debug, PartialEq, Eq)]
pub struct FileGroup {
    pub hash: String,
    pub size: u64,
    pub files: Vec<String>,
}

/// What a `FileGroup` stands for.
pub struct GroupView {
    pub hash: Seq<char>,
    pub size: u64,
    pub files: Seq<Seq<char>>,
}

impl View for FileGroup {
    type V = GroupView;

    open spec fn view(&self) -> GroupView {
        GroupView { hash: self.hash@, size: self.size, files: path_views(self.files@) }
    }
}

/// What a list of groups stands for.
pub open spec fn group_views(groups: Seq<FileGroup>) -> Seq<GroupView> {
    groups.map_values(|group: FileGroup| group@)
}

/// Whether some group is keyed by `hash`.
pub open spec fn has_hash(groups: Seq<GroupView>, hash: Seq<char>) -> bool {
    exists|i: int| 0 <= i < groups.len() && (#[trigger] groups[i]).hash == hash
}

/// The place of the group keyed by `hash`, where there is one.
pub open spec fn position_of_hash(groups: Seq<GroupView>, hash: Seq<char>) -> int {
    choose|i: int| 0 <= i < groups.len() && (#[trigger] groups[i]).hash == hash
}

/// No two groups share a fingerprint.
pub open spec fn distinct_hashes(groups: Seq<GroupView>) -> bool {
    forall|i: int, j: int|
        0 <= i < groups.len() && 0 <= j < groups.len() && (#[trigger] groups[i]).hash == (
        #[trigger] groups[j]).hash ==> i == j
}

/// Every group holds at least one file.
pub open spec fn no_empty_group(groups: Seq<GroupView>) -> bool {
    forall|i: int| 0 <= i < groups.len() ==> (#[trigger] groups[i]).files.len() >= 1
}

/// The groups after one more hashed file: it joins the group of its
/// fingerprint where there is one, whose size stays as it is, and opens a new
/// group at the end where there is none.
pub open spec fn with_hashed_file(
    groups: Seq<GroupView>,
    hash: Seq<char>,
    size: u64,
    path: Seq<char>,
) -> Seq<GroupView> {
    if has_hash(groups, hash) {
        let i = position_of_hash(groups, hash);
        groups.update(i, GroupView { hash, size: groups[i].size, files: groups[i].files.push(path) })
    } else {
        groups.push(GroupView { hash, size, files: seq![path] })
    }
}

/// The groups after a whole group was put in: it takes the place of the group
/// of its fingerprint where there is one, and goes to the end where there is
/// none.
pub open spec fn with_group(groups: Seq<GroupView>, group: GroupView) -> Seq<GroupView> {
    if has_hash(groups, group.hash) {
        groups.update(position_of_hash(groups, group.hash), group)
    } else {
        groups.push(group)
    }
}

/// The paths of `files` other than `path`, in their order.
pub open spec fn other_paths(files: Seq<Seq<char>>, path: Seq<char>) -> Seq<Seq<char>> {
    files.filter(|file: Seq<char>| file != path)
}

/// The answer to a query: the paths filed under the fingerprint of the
/// queried file, without the queried path itself; nothing where the
/// fingerprint is not known.
pub open spec fn known_duplicates(groups: Seq<GroupView>, hash: Seq<char>, path: Seq<char>) -> Seq<
    Seq<char>,
> {
    if has_hash(groups, hash) {
        other_paths(groups[position_of_hash(groups, hash)].files, path)
    } else {
        Seq::empty()
    }
}

/// The groups that stand for duplicates: those of two or more files.
pub open spec fn duplicate_groups(groups: Seq<GroupView>) -> Seq<GroupView> {
    groups.filter(|group: GroupView| group.files.len() > 1)
}

/// A copy of a list of paths.
fn copy_paths(paths: &Vec<String>) -> (copy: Vec<String>)
    ensures
        copy@ == paths@,
{
    let mut copy: Vec<String> = Vec::with_capacity(paths.len());
    let mut i: usize = 0;
    while i < paths.len()
        invariant
            i <= paths@.len(),
            copy@ == paths@.take(i as int),
        decreases paths@.len() - i,
    {
        copy.push(paths[i].clone());
        i = i + 1;
    }
    copy
}

/// Whether every file of the list was hashed.
pub open spec fn all_hashed(outcomes: Seq<HashOutcome>) -> bool {
    forall|i: int| 0 <= i < outcomes.len() ==> (#[trigger] outcomes[i]).hash is Some
}

/// Hashed files, each as its fingerprint with its size and path.
pub open spec fn hashed_files(outcomes: Seq<HashOutcome>) -> Seq<(Seq<char>, (u64, Seq<char>))> {
    outcomes.map_values(
        |outcome: HashOutcome| (outcome.hash.unwrap()@, (outcome.size, outcome.path@)),
    )
}

/// The paths filed under the given fingerprint, in the order of the list.
pub open spec fn paths_with_hash(files: Seq<(Seq<char>, (u64, Seq<char>))>, hash: Seq<char>) -> Seq<
    Seq<char>,
> {
    members(files, hash).map_values(|file: (u64, Seq<char>)| file.1)
}

/// The groups of a list of files, each given as its fingerprint with its
/// size and path: one group per fingerprint, in the order in which the
/// fingerprints first occur, each with the size of the first file that has
/// the fingerprint and with the paths of all that have it.
pub open spec fn groups_by_hash(files: Seq<(Seq<char>, (u64, Seq<char>))>) -> Seq<GroupView> {
    grouped(files).map_values(
        |group: (Seq<char>, Seq<(u64, Seq<char>)>)|
            GroupView {
                hash: group.0,
                size: group.1.first().0,
                files: group.1.map_values(|file: (u64, Seq<char>)| file.1),
            },
    )
}

/// The groups of a list of hashed files.
pub open spec fn hash_groups(outcomes: Seq<HashOutcome>) -> Seq<GroupView> {
    groups_by_hash(hashed_files(outcomes))
}

/// Groups by fingerprint are keyed by distinct fingerprints, none is empty,
/// each holds the paths of its fingerprint, and every fingerprint of the
/// list has its group.
pub proof fn lemma_groups_by_hash(files: Seq<(Seq<char>, (u64, Seq<char>))>)
    ensures
        distinct_hashes(groups_by_hash(files)),
        no_empty_group(groups_by_hash(files)),
        forall|i: int|
            0 <= i < groups_by_hash(files).len() ==> (#[trigger] groups_by_hash(files)[i]).files
                == paths_with_hash(files, groups_by_hash(files)[i].hash),
        forall|hash: Seq<char>|
            has_hash(groups_by_hash(files), hash) <==> paths_with_hash(files, hash).len() >= 1,
{
    let keys = keys_of(files);
    let known = first_keys(keys);
    let groups = groups_by_hash(files);
    lemma_first_keys(keys);
    assert forall|i: int| 0 <= i < groups.len() implies (#[trigger] groups[i]).files.len()
        >= 1 by {
        lemma_members_empty(files, known[i]);
    }
    assert forall|hash: Seq<char>| has_hash(groups, hash) <==> paths_with_hash(files, hash).len()
        >= 1 by {
        lemma_members_empty(files, hash);
        if has_hash(groups, hash) {
            let i = position_of_hash(groups, hash);
            assert(known[i] == hash);
        }
        if keys.contains(hash) {
            let i = known.index_of(hash);
            assert(groups[i].hash == hash);
        }
    }
}

/// Groups by fingerprint after one more file.
pub proof fn lemma_groups_by_hash_push(
    files: Seq<(Seq<char>, (u64, Seq<char>))>,
    hash: Seq<char>,
    size: u64,
    path: Seq<char>,
)
    ensures
        groups_by_hash(files.push((hash, (size, path)))) == with_hashed_file(
            groups_by_hash(files),
            hash,
            size,
            path,
        ),
{
    let file = (size, path);
    let before = grouped(files);
    let groups = groups_by_hash(files);
    let path_of = |file: (u64, Seq<char>)| file.1;
    lemma_groups_by_hash(files);
    lemma_grouped_push(files, hash, file);
    if has_hash(groups, hash) {
        let i = position_of_hash(groups, hash);
        assert(before[i].0 == hash);
        assert(before[i].1.push(file).first() == before[i].1.first());
        assert(before[i].1.push(file).map_values(path_of) =~= before[i].1.map_values(
            path_of,
        ).push(path));
    } else {
        assert forall|i: int| 0 <= i < before.len() implies before[i].0 != hash by {
            assert(groups[i].hash == before[i].0);
        }
        assert(seq![file].map_values(path_of) =~= seq![path]);
    }
}

/// The groups of a list of hashed files after one more file.
pub proof fn lemma_hash_groups_push(outcomes: Seq<HashOutcome>, outcome: HashOutcome)
    ensures
        hash_groups(outcomes.push(outcome)) == with_hashed_file(
            hash_groups(outcomes),
            outcome.hash.unwrap()@,
            outcome.size,
            outcome.path@,
        ),
{
    let hash = outcome.hash.unwrap()@;
    assert(hashed_files(outcomes.push(outcome)) =~= hashed_files(outcomes).push(
        (hash, (outcome.size, outcome.path@)),
    ));
    lemma_groups_by_hash_push(hashed_files(outcomes), hash, outcome.size, outcome.path@);
}

/// File paths grouped by content fingerprint. Groups stand in the order in
/// which their fingerprints were first seen.
pub struct HashBasedFileIndex {
    groups: Vec<FileGroup>,
    slots: StringHashMap<usize>,
}

impl View for HashBasedFileIndex {
    type V = Seq<GroupView>;

    closed spec fn view(&self) -> Seq<GroupView> {
        group_views(self.groups@)
    }
}

impl HashBasedFileIndex {
    /// The lookup table names, for each fingerprint, the place of its group.
    pub closed spec fn slots_agree(&self) -> bool {
        &&& forall|i: int|
            0 <= i < self.groups@.len() ==> self.slots@.contains_key(
                (#[trigger] self.groups@[i]).hash@,
            ) && self.slots@[self.groups@[i].hash@] == i
        &&& forall|hash: Seq<char>| #[trigger]
            self.slots@.contains_key(hash) ==> self.slots@[hash] < self.groups@.len()
                && self.groups@[self.slots@[hash] as int].hash@ == hash
    }

    /// Well-formedness: no fingerprint has two groups, and no group is empty.
    pub open spec fn wf(&self) -> bool {
        &&& self.slots_agree()
        &&& distinct_hashes(self@)
        &&& no_empty_group(self@)
    }

    /// An index without groups.
    pub fn new() -> (index: Self)
        ensures
            index.wf(),
            index@ == Seq::<GroupView>::empty(),
    {
        HashBasedFileIndex { groups: Vec::new(), slots: StringHashMap::new() }
    }

    /// The number of groups.
    pub fn len(&self) -> (count: usize)
        ensures
            count == self@.len(),
    {
        self.groups.len()
    }

    /// Whether the index holds no group.
    pub fn is_empty(&self) -> (empty: bool)
        ensures
            empty == (self@.len() == 0),
    {
        self.groups.len() == 0
    }

    /// The groups, in the order in which their fingerprints were first seen.
    pub fn groups(&self) -> (groups: &Vec<FileGroup>)
        ensures
            group_views(groups@) == self@,
    {
        &self.groups
    }

    /// The group keyed by `hash`, if any.
    pub fn get(&self, hash: &str) -> (found: Option<&FileGroup>)
        requires
            self.wf(),
        ensures
            found is Some <==> has_hash(self@, hash@),
            found matches Some(group) ==> group@ == self@[position_of_hash(self@, hash@)],
    {
        match self.slots.get(hash) {
            Some(at) => {
                assert(self@[*at as int].hash == hash@);
                Some(&self.groups[*at])
            },
            None => None,
        }
    }

    /// The known duplicates of a file, given its path and the fingerprint of
    /// its content: every path filed under that fingerprint but the file's
    /// own. A fingerprint that is not known gives an empty answer.
    pub fn query(&self, path: &str, hash: &str) -> (found: Vec<String>)
        requires
            self.wf(),
        ensures
            path_views(found@) == known_duplicates(self@, hash@, path@),
            !path_views(found@).contains(path@),
            !has_hash(self@, hash@) ==> found@.len() == 0,
    {
        let mut found: Vec<String> = Vec::new();
        match self.get(hash) {
            None => {},
            Some(group) => {
                let own = path.to_owned();
                let mut j: usize = 0;
                proof {
                    reveal(Seq::filter);
                }
                while j < group.files.len()
                    invariant
                        j <= group.files@.len(),
                        own@ == path@,
                        path_views(found@) == other_paths(group@.files.take(j as int), path@),
                    decreases group.files@.len() - j,
                {
                    let ghost file = group.files@[j as int]@;
                    proof {
                        group@.files.take(j as int).lemma_filter_push(
                            file,
                            |file: Seq<char>| file != path@,
                        );
                        assert(group@.files.take(j + 1) =~= group@.files.take(j as int).push(file));
                    }
                    if !(group.files[j] == own) {
                        found.push(group.files[j].clone());
                    }
                    j = j + 1;
                }
                assert(group@.files.take(j as int) =~= group@.files);
            },
        }
        proof {
            let listed = path_views(found@);
            if listed.contains(path@) {
                let at = listed.index_of(path@);
                let files = self@[position_of_hash(self@, hash@)].files;
                files.lemma_filter_pred(|file: Seq<char>| file != path@, at);
            }
        }
        found
    }

    /// The groups that stand for duplicates: those of two or more files, in
    /// the order of the index.
    pub fn duplicates(&self) -> (groups: Vec<FileGroup>)
        ensures
            group_views(groups@) == duplicate_groups(self@),
    {
        let mut groups: Vec<FileGroup> = Vec::new();
        let mut i: usize = 0;
        proof {
            reveal(Seq::filter);
        }
        while i < self.groups.len()
            invariant
                i <= self.groups@.len(),
                group_views(groups@) == duplicate_groups(self@.take(i as int)),
            decreases self.groups@.len() - i,
        {
            let group = &self.groups[i];
            proof {
                self@.take(i as int).lemma_filter_push(
                    group@,
                    |group: GroupView| group.files.len() > 1,
                );
                assert(self@.take(i + 1) =~= self@.take(i as int).push(group@));
            }
            if group.files.len() > 1 {
                let copy = FileGroup {
                    hash: group.hash.clone(),
                    size: group.size,
                    files: copy_paths(&group.files),
                };
                groups.push(copy);
            }
            i = i + 1;
        }
        assert(self@.take(i as int) =~= self@);
        groups
    }

    /// Files `path`, of `size` bytes, under `hash`.
    pub fn insert(&mut self, hash: String, size: u64, path: String)
        requires
            old(self).wf(),
        ensures
            final(self).wf(),
            final(self)@ == with_hashed_file(old(self)@, hash@, size, path@),
    {
        let ghost before = self@;
        let ghost held = self.groups@;
        match self.slots.get(hash.as_str()) {
            Some(at) => {
                let at: usize = *at;
                self.groups[at].files.push(path);
                assert(path_views(held[at as int].files@.push(path)) =~= path_views(
                    held[at as int].files@,
                ).push(path@));
                assert(self@ =~= before.update(
                    at as int,
                    GroupView {
                        hash: hash@,
                        size: before[at as int].size,
                        files: before[at as int].files.push(path@),
                    },
                ));
            },
            None => {
                let at: usize = self.groups.len();
                let mut files: Vec<String> = Vec::new();
                files.push(path);
                assert(path_views(files@) =~= seq![path@]);
                let key = hash.clone();
                self.groups.push(FileGroup { hash, size, files });
                self.slots.insert(key, at);
                assert(self@ =~= before.push(GroupView { hash: hash@, size, files: seq![path@] }));
            },
        }
    }

    /// Puts a whole group in, in place of the group of its fingerprint where
    /// there is one.
    pub fn insert_group(&mut self, group: FileGroup)
        requires
            old(self).wf(),
            group@.files.len() >= 1,
        ensures
            final(self).wf(),
            final(self)@ == with_group(old(self)@, group@),
    {
        let ghost before = self@;
        match self.slots.get(group.hash.as_str()) {
            Some(at) => {
                let at: usize = *at;
                assert(before[at as int].hash == group@.hash);
                self.groups[at] = group;
                assert(self@ =~= before.update(at as int, group@));
            },
            None => {
                let at: usize = self.groups.len();
                let key = group.hash.clone();
                self.groups.push(group);
                self.slots.insert(key, at);
                assert(self@ =~= before.push(group@));
            },
        }
    }
}

} // verus!
