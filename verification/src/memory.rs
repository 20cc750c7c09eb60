//! A tree whose files are held in memory, and what the index of its
//! duplicates is.

use crate::grouping::{
    lemma_members_come_from_items, lemma_members_contains, lemma_members_of_shared_key, members,
};
use crate::hash_index::{
    all_hashed, groups_by_hash, has_hash, hashed_files, lemma_groups_by_hash, paths_with_hash,
    position_of_hash, GroupView, HashOutcome,
};
use crate::hasher::{content_hash, hash_file_content};
use crate::size_index::{
    candidate_views, candidates_of, lemma_candidates_share_their_size, lemma_sized_files_push,
    size_buckets, sized_files, Candidate,
};
use crate::walker::WalkEntry;
use vstd::hash_map::StringHashMap;
use vstd::prelude::*;

verus! {

/// A regular file with its content.
#[derive(Clone, Debug, PartialEq, Eq)]
pub struct MemoryFile {
    pub path: String,
    pub content: Vec<u8>,
}

/// The entry that a walk yields for a file: its path and its byte size.
pub open spec fn entry_of(file: MemoryFile) -> WalkEntry {
    WalkEntry { path: file.path, size: Some(file.content.len() as u64) }
}

/// The entries that a walk yields for the files.
pub open spec fn entries_of(files: Seq<MemoryFile>) -> Seq<WalkEntry> {
    files.map_values(|file: MemoryFile| entry_of(file))
}

/// No two files share a path.
pub open spec fn distinct_paths(files: Seq<MemoryFile>) -> bool {
    forall|i: int, j: int|
        0 <= i < files.len() && 0 <= j < files.len() && (#[trigger] files[i]).path@ == (
        #[trigger] files[j]).path@ ==> i == j
}

/// No two contents among the files collide: equal fingerprints come from
/// equal contents only.
pub open spec fn collision_free(files: Seq<MemoryFile>) -> bool {
    forall|i: int, j: int|
        0 <= i < files.len() && 0 <= j < files.len() && content_hash(
            (#[trigger] files[i]).content@,
        ) == content_hash((#[trigger] files[j]).content@) ==> files[i].content@
            == files[j].content@
}

/// Whether `i` is the place of the last file that goes by `path`.
pub open spec fn is_last_with_path(files: Seq<MemoryFile>, path: Seq<char>, i: int) -> bool {
    &&& 0 <= i < files.len()
    &&& files[i].path@ == path
    &&& forall|j: int| i < j < files.len() ==> (#[trigger] files[j]).path@ != path
}

/// The content that stands at `path`: that of the last file that goes by it.
pub open spec fn content_at(files: Seq<MemoryFile>, path: Seq<char>) -> Seq<u8> {
    files[choose|i: int| is_last_with_path(files, path, i)].content@
}

/// The files that are hashed, each as its fingerprint with its size and
/// path: the candidates of the size index, in its order.
pub open spec fn hashed_candidates(files: Seq<MemoryFile>) -> Seq<(Seq<char>, (u64, Seq<char>))> {
    candidates_of(size_buckets(entries_of(files))).map_values(
        |candidate: (Seq<char>, u64)|
            (content_hash(content_at(files, candidate.0)), (candidate.1, candidate.0)),
    )
}

/// The groups of the index of the files.
pub open spec fn built_groups(files: Seq<MemoryFile>) -> Seq<GroupView> {
    groups_by_hash(hashed_candidates(files))
}

/// Whether some group holds both paths.
pub open spec fn in_same_group(groups: Seq<GroupView>, one: Seq<char>, other: Seq<char>) -> bool {
    exists|i: int|
        0 <= i < groups.len() && (#[trigger] groups[i]).files.contains(one)
            && groups[i].files.contains(other)
}

/// Every file of the tree is a regular file to the walk, with its size.
pub proof fn lemma_sized_files_of_memory(files: Seq<MemoryFile>)
    ensures
        sized_files(entries_of(files)) == files.map_values(
            |file: MemoryFile| (file.content.len() as u64, file.path@),
        ),
    decreases files.len(),
{
    let keyed = |file: MemoryFile| (file.content.len() as u64, file.path@);
    if files.len() == 0 {
        reveal(Seq::filter);
    } else {
        let front = files.drop_last();
        let last = files.last();
        lemma_sized_files_of_memory(front);
        assert(entries_of(files) =~= entries_of(front).push(entry_of(last)));
        lemma_sized_files_push(entries_of(front), entry_of(last));
        assert(sized_files(entries_of(files)) =~= files.map_values(keyed));
    }
}

/// Where no two files share a path, the content at a file's path is its own.
pub proof fn lemma_content_at_own_path(files: Seq<MemoryFile>, i: int)
    requires
        distinct_paths(files),
        0 <= i < files.len(),
    ensures
        content_at(files, files[i].path@) == files[i].content@,
{
    assert(is_last_with_path(files, files[i].path@, i));
}

/// Every candidate goes by the path of a file of the tree.
pub proof fn lemma_candidates_are_files(files: Seq<MemoryFile>, at: int)
    requires
        0 <= at < candidates_of(size_buckets(entries_of(files))).len(),
    ensures
        exists|k: int|
            0 <= k < files.len() && (#[trigger] files[k]).path@ == candidates_of(
                size_buckets(entries_of(files)),
            )[at].0,
{
    let entries = entries_of(files);
    let candidates = candidates_of(size_buckets(entries));
    let path = candidates[at].0;
    let size = candidates[at].1;
    assert(candidates.contains((path, size)));
    lemma_candidates_share_their_size(entries, path, size);
    lemma_members_contains(sized_files(entries), size, path);
    lemma_sized_files_of_memory(files);
    let k = sized_files(entries).index_of((size, path));
    assert(files[k].path@ == path);
}

/// The walk of a tree in memory: every file, with its size.
pub fn walk_memory(files: &Vec<MemoryFile>) -> (entries: Vec<WalkEntry>)
    ensures
        entries@ == entries_of(files@),
{
    let mut entries: Vec<WalkEntry> = Vec::with_capacity(files.len());
    let mut i: usize = 0;
    while i < files.len()
        invariant
            i <= files@.len(),
            entries@ == entries_of(files@.take(i as int)),
        decreases files@.len() - i,
    {
        let file = &files[i];
        entries.push(WalkEntry { path: file.path.clone(), size: Some(file.content.len() as u64) });
        i = i + 1;
    }
    entries
}

/// For each path of the tree, the place of the last file that goes by it.
fn index_paths(files: &Vec<MemoryFile>) -> (places: StringHashMap<usize>)
    ensures
        forall|k: int| 0 <= k < files@.len() ==> places@.contains_key((#[trigger] files@[k]).path@),
        forall|path: Seq<char>| #[trigger]
            places@.contains_key(path) ==> is_last_with_path(files@, path, places@[path] as int),
{
    let mut places: StringHashMap<usize> = StringHashMap::new();
    let mut i: usize = 0;
    while i < files.len()
        invariant
            i <= files@.len(),
            forall|k: int| 0 <= k < i ==> places@.contains_key((#[trigger] files@[k]).path@),
            forall|path: Seq<char>| #[trigger]
                places@.contains_key(path) ==> is_last_with_path(
                    files@.take(i as int),
                    path,
                    places@[path] as int,
                ),
        decreases files@.len() - i,
    {
        let ghost before = places@;
        places.insert(files[i].path.clone(), i);
        assert forall|path: Seq<char>| #[trigger] places@.contains_key(path) implies is_last_with_path(
            files@.take(i + 1),
            path,
            places@[path] as int,
        ) by {
            if path != files@[i as int].path@ {
                assert(before.contains_key(path));
                let at = before[path] as int;
                assert(is_last_with_path(files@.take(i as int), path, at));
                assert forall|j: int| at < j < i + 1 implies (#[trigger] files@.take(
                    i + 1,
                )[j]).path@ != path by {
                    if j < i {
                        assert(files@.take(i as int)[j].path@ != path);
                    }
                }
            }
        }
        i = i + 1;
    }
    assert(files@.take(i as int) =~= files@);
    places
}

/// Hashes the candidates of a tree in memory, each by the content at its path.
pub(crate) fn hash_in_memory(files: &Vec<MemoryFile>, candidates: Vec<Candidate>) -> (outcomes: Vec<
    HashOutcome,
>)
    requires
        candidate_views(candidates@) == candidates_of(size_buckets(entries_of(files@))),
    ensures
        all_hashed(outcomes@),
        hashed_files(outcomes@) == hashed_candidates(files@),
{
    let places = index_paths(files);
    let mut outcomes: Vec<HashOutcome> = Vec::with_capacity(candidates.len());
    let ghost all = candidates@;
    let ghost due = hashed_candidates(files@);
    for candidate in it: candidates.into_iter()
        invariant
            it.seq() == all,
            candidate_views(all) == candidates_of(size_buckets(entries_of(files@))),
            due == hashed_candidates(files@),
            all_hashed(outcomes@),
            hashed_files(outcomes@) == due.take(it.index() as int),
            forall|k: int|
                0 <= k < files@.len() ==> places@.contains_key((#[trigger] files@[k]).path@),
            forall|path: Seq<char>| #[trigger]
                places@.contains_key(path) ==> is_last_with_path(
                    files@,
                    path,
                    places@[path] as int,
                ),
    {
        proof {
            lemma_candidates_are_files(files@, it.index() as int);
        }
        match places.get(candidate.path.as_str()) {
            Some(at) => {
                let at: usize = *at;
                let hash = hash_file_content(files[at].content.as_slice());
                assert(content_at(files@, candidate.path@) == files@[at as int].content@) by {
                    let chosen = choose|i: int| is_last_with_path(files@, candidate.path@, i);
                    assert(is_last_with_path(files@, candidate.path@, at as int));
                    assert(chosen == at);
                }
                outcomes.push(
                    HashOutcome { path: candidate.path, size: candidate.size, hash: Some(hash) },
                );
                assert(due.take(it.index() + 1) =~= due.take(it.index() as int).push(
                    due[it.index() as int],
                ));
            },
            None => {
                assert(false);
            },
        }
    }
    outcomes
}

/// Two files of one content are both hashed, and their paths are filed
/// under the fingerprint of that content.
proof fn lemma_equal_contents_share_a_group(files: Seq<MemoryFile>, i: int, j: int)
    requires
        distinct_paths(files),
        0 <= i < j < files.len(),
        files[i].content@ == files[j].content@,
    ensures
        in_same_group(built_groups(files), files[i].path@, files[j].path@),
{
    let entries = entries_of(files);
    let sized = sized_files(entries);
    let candidates = candidates_of(size_buckets(entries));
    let hashed = hashed_candidates(files);
    let groups = built_groups(files);
    let size = files[i].content.len() as u64;
    let hash = content_hash(files[i].content@);
    let one = files[i].path@;
    let other = files[j].path@;
    lemma_sized_files_of_memory(files);
    assert(sized[i] == (size, one));
    assert(sized[j] == (size, other));
    lemma_members_of_shared_key(sized, size, i, j);
    lemma_members_contains(sized, size, one);
    lemma_members_contains(sized, size, other);
    lemma_candidates_share_their_size(entries, one, size);
    lemma_candidates_share_their_size(entries, other, size);
    lemma_content_at_own_path(files, i);
    lemma_content_at_own_path(files, j);
    let a = candidates.index_of((one, size));
    let b = candidates.index_of((other, size));
    assert(hashed[a] == (hash, (size, one)));
    assert(hashed[b] == (hash, (size, other)));
    lemma_members_contains(hashed, hash, (size, one));
    lemma_members_contains(hashed, hash, (size, other));
    let under = members(hashed, hash);
    let m = under.index_of((size, one));
    let n = under.index_of((size, other));
    lemma_groups_by_hash(hashed);
    assert(paths_with_hash(hashed, hash)[m] == one);
    assert(paths_with_hash(hashed, hash)[n] == other);
    assert(has_hash(groups, hash));
    let g = position_of_hash(groups, hash);
    assert(groups[g].files.contains(one));
    assert(groups[g].files.contains(other));
}

/// Every group of the index is of one fingerprint: a file whose path the
/// group holds has the group's fingerprint. This holds of trees in which no
/// two files share a path.
pub proof fn lemma_group_members_have_its_hash(files: Seq<MemoryFile>, g: int, i: int)
    requires
        distinct_paths(files),
        0 <= g < built_groups(files).len(),
        0 <= i < files.len(),
        built_groups(files)[g].files.contains(files[i].path@),
    ensures
        built_groups(files)[g].hash == content_hash(files[i].content@),
{
    let candidates = candidates_of(size_buckets(entries_of(files)));
    let hashed = hashed_candidates(files);
    let groups = built_groups(files);
    let hash = groups[g].hash;
    let path = files[i].path@;
    lemma_groups_by_hash(hashed);
    let under = members(hashed, hash);
    let m = groups[g].files.index_of(path);
    assert(under[m].1 == path);
    lemma_members_come_from_items(hashed, hash, m);
    let a = hashed.index_of((hash, under[m]));
    assert(candidates[a].0 == path);
    lemma_content_at_own_path(files, i);
}

/// Every group of the index is of one size: a file whose path the group
/// holds has the group's size. This holds of trees in which no two files
/// share a path and no two contents collide.
pub proof fn lemma_group_members_have_its_size(files: Seq<MemoryFile>, g: int, i: int)
    requires
        distinct_paths(files),
        collision_free(files),
        0 <= g < built_groups(files).len(),
        0 <= i < files.len(),
        built_groups(files)[g].files.contains(files[i].path@),
    ensures
        built_groups(files)[g].size == files[i].content@.len(),
{
    let entries = entries_of(files);
    let candidates = candidates_of(size_buckets(entries));
    let hashed = hashed_candidates(files);
    let groups = built_groups(files);
    let hash = groups[g].hash;
    lemma_groups_by_hash(hashed);
    lemma_group_members_have_its_hash(files, g, i);
    let first = members(hashed, hash).first();
    lemma_members_come_from_items(hashed, hash, 0);
    let a = hashed.index_of((hash, first));
    assert(candidates[a] == (first.1, first.0));
    assert(candidates.contains((first.1, first.0)));
    lemma_candidates_share_their_size(entries, first.1, first.0);
    lemma_members_contains(sized_files(entries), first.0, first.1);
    lemma_sized_files_of_memory(files);
    let k = sized_files(entries).index_of(first);
    lemma_content_at_own_path(files, k);
    assert(content_hash(files[k].content@) == content_hash(files[i].content@));
}

/// Two files stand in one group of the index exactly when their contents
/// are the same, byte for byte. This holds of trees in which no two files
/// share a path and no two contents collide.
pub proof fn lemma_same_group_iff_same_content(files: Seq<MemoryFile>, i: int, j: int)
    requires
        distinct_paths(files),
        collision_free(files),
        0 <= i < files.len(),
        0 <= j < files.len(),
        i != j,
    ensures
        in_same_group(built_groups(files), files[i].path@, files[j].path@) <==> files[i].content@
            == files[j].content@,
{
    let groups = built_groups(files);
    if files[i].content@ == files[j].content@ {
        if i < j {
            lemma_equal_contents_share_a_group(files, i, j);
        } else {
            lemma_equal_contents_share_a_group(files, j, i);
            let g = choose|g: int|
                0 <= g < groups.len() && (#[trigger] groups[g]).files.contains(files[j].path@)
                    && groups[g].files.contains(files[i].path@);
            assert(groups[g].files.contains(files[i].path@));
        }
    }
    if in_same_group(groups, files[i].path@, files[j].path@) {
        let g = choose|g: int|
            0 <= g < groups.len() && (#[trigger] groups[g]).files.contains(files[i].path@)
                && groups[g].files.contains(files[j].path@);
        lemma_group_members_have_its_hash(files, g, i);
        lemma_group_members_have_its_hash(files, g, j);
    }
}

/// Files of one size do not share a group unless their contents are the
/// same: equal size is needed for a match, and is not enough.
pub proof fn lemma_equal_size_is_not_enough(files: Seq<MemoryFile>, i: int, j: int)
    requires
        distinct_paths(files),
        collision_free(files),
        0 <= i < files.len(),
        0 <= j < files.len(),
        files[i].content@.len() == files[j].content@.len(),
        files[i].content@ != files[j].content@,
    ensures
        !in_same_group(built_groups(files), files[i].path@, files[j].path@),
{
    lemma_same_group_iff_same_content(files, i, j);
}

} // verus!
