//! The size index: file paths bucketed by exact byte size.

use crate::grouping::{grouped, lemma_first_keys, lemma_grouped_push, lemma_members_empty, members};
use crate::walker::WalkEntry;
use std::collections::HashMap;
use vstd::prelude::*;

verus! {

broadcast use vstd::std_specs::hash::group_hash_axioms;

/// The character sequences of a list of paths.
pub open spec fn path_views(paths: Seq<String>) -> Seq<Seq<char>> {
    paths.map_values(|path: String| path@)
}

/// The paths of all files seen with one size, in the order they were seen.
pub struct SizeBucket {
    pub size: u64,
    pub paths: Vec<String>,
}

/// What a `SizeBucket` stands for.
pub struct BucketView {
    pub size: u64,
    pub paths: Seq<Seq<char>>,
}

impl View for SizeBucket {
    type V = BucketView;

    open spec fn view(&self) -> BucketView {
        BucketView { size: self.size, paths: path_views(self.paths@) }
    }
}

/// Whether some bucket is keyed by `size`.
pub open spec fn has_size(buckets: Seq<BucketView>, size: u64) -> bool {
    exists|i: int| 0 <= i < buckets.len() && (#[trigger] buckets[i]).size == size
}

/// No two buckets share a size.
pub open spec fn distinct_sizes(buckets: Seq<BucketView>) -> bool {
    forall|i: int, j: int|
        0 <= i < buckets.len() && 0 <= j < buckets.len() && (#[trigger] buckets[i]).size == (
        #[trigger] buckets[j]).size ==> i == j
}

/// The place of the bucket keyed by `size`, where there is one.
pub open spec fn position_of_size(buckets: Seq<BucketView>, size: u64) -> int {
    choose|i: int| 0 <= i < buckets.len() && (#[trigger] buckets[i]).size == size
}

/// The buckets after one more file: it joins the bucket of its size where
/// there is one, and opens a new bucket at the end where there is none.
pub open spec fn with_file(buckets: Seq<BucketView>, size: u64, path: Seq<char>) -> Seq<
    BucketView,
> {
    if has_size(buckets, size) {
        let i = position_of_size(buckets, size);
        buckets.update(i, BucketView { size, paths: buckets[i].paths.push(path) })
    } else {
        buckets.push(BucketView { size, paths: seq![path] })
    }
}

/// A file that is to be hashed: its path, and the size it shares with at
/// least one other file.
#[derive(Clone, Debug, PartialEq, Eq)]
pub struct Candidate {
    pub path: String,
    pub size: u64,
}

impl View for Candidate {
    type V = (Seq<char>, u64);

    open spec fn view(&self) -> (Seq<char>, u64) {
        (self.path@, self.size)
    }
}

/// What a list of candidates stands for.
pub open spec fn candidate_views(candidates: Seq<Candidate>) -> Seq<(Seq<char>, u64)> {
    candidates.map_values(|candidate: Candidate| candidate@)
}

/// The candidates that one bucket gives: all of its files where it holds two
/// or more, and none where it holds fewer.
pub open spec fn bucket_candidates(bucket: BucketView) -> Seq<(Seq<char>, u64)> {
    if bucket.paths.len() >= 2 {
        bucket.paths.map_values(|path: Seq<char>| (path, bucket.size))
    } else {
        Seq::empty()
    }
}

/// The candidates of an index: those of its buckets, bucket after bucket.
pub open spec fn candidates_of(buckets: Seq<BucketView>) -> Seq<(Seq<char>, u64)> {
    buckets.map_values(|bucket: BucketView| bucket_candidates(bucket)).flatten()
}

/// The regular files among the entries of a walk, each as its size and path.
pub open spec fn sized_files(entries: Seq<WalkEntry>) -> Seq<(u64, Seq<char>)> {
    entries.filter(|entry: WalkEntry| entry.size is Some).map_values(
        |entry: WalkEntry| (entry.size.unwrap(), entry.path@),
    )
}

/// The paths of the files of a walk that have the given size, in walk order.
pub open spec fn paths_with_size(entries: Seq<WalkEntry>, size: u64) -> Seq<Seq<char>> {
    members(sized_files(entries), size)
}

/// The buckets of a walk: one per size, in the order in which the sizes first
/// occur, each with the paths of all files of that size in walk order.
pub open spec fn size_buckets(entries: Seq<WalkEntry>) -> Seq<BucketView> {
    grouped(sized_files(entries)).map_values(
        |group: (u64, Seq<Seq<char>>)| BucketView { size: group.0, paths: group.1 },
    )
}

/// The files of a walk after one more entry.
pub proof fn lemma_sized_files_push(entries: Seq<WalkEntry>, entry: WalkEntry)
    ensures
        entry.size is Some ==> sized_files(entries.push(entry)) == sized_files(entries).push(
            (entry.size.unwrap(), entry.path@),
        ),
        entry.size is None ==> sized_files(entries.push(entry)) == sized_files(entries),
{
    let is_file = |entry: WalkEntry| entry.size is Some;
    let keyed = |entry: WalkEntry| (entry.size.unwrap(), entry.path@);
    entries.lemma_filter_push(entry, is_file);
    if entry.size is Some {
        entries.filter(is_file).lemma_push_map_commute(keyed, entry);
    }
}

/// The buckets of a walk are keyed by distinct sizes, none is empty, and each
/// holds the paths of its size.
pub proof fn lemma_size_buckets(entries: Seq<WalkEntry>)
    ensures
        distinct_sizes(size_buckets(entries)),
        forall|i: int|
            0 <= i < size_buckets(entries).len() ==> (#[trigger] size_buckets(entries)[i]).paths
                == paths_with_size(entries, size_buckets(entries)[i].size),
        forall|i: int|
            0 <= i < size_buckets(entries).len() ==> (#[trigger] size_buckets(
                entries,
            )[i]).paths.len() >= 1,
        forall|size: u64|
            has_size(size_buckets(entries), size) <==> paths_with_size(entries, size).len() >= 1,
{
    let files = sized_files(entries);
    let keys = crate::grouping::keys_of(files);
    let known = crate::grouping::first_keys(keys);
    let buckets = size_buckets(entries);
    lemma_first_keys(keys);
    assert forall|i: int| 0 <= i < buckets.len() implies (#[trigger] buckets[i]).paths.len()
        >= 1 by {
        lemma_members_empty(files, known[i]);
    }
    assert forall|size: u64| has_size(buckets, size) <==> paths_with_size(entries, size).len()
        >= 1 by {
        lemma_members_empty(files, size);
        if has_size(buckets, size) {
            let i = position_of_size(buckets, size);
            assert(known[i] == size);
        }
        if keys.contains(size) {
            let i = known.index_of(size);
            assert(buckets[i].size == size);
        }
    }
}

/// The buckets of a walk after one more entry: a directory changes nothing,
/// and a file is filed under its size.
pub proof fn lemma_size_buckets_push(entries: Seq<WalkEntry>, entry: WalkEntry)
    ensures
        entry.size is Some ==> size_buckets(entries.push(entry)) == with_file(
            size_buckets(entries),
            entry.size.unwrap(),
            entry.path@,
        ),
        entry.size is None ==> size_buckets(entries.push(entry)) == size_buckets(entries),
{
    lemma_sized_files_push(entries, entry);
    if let Some(size) = entry.size {
        let files = sized_files(entries);
        let path = entry.path@;
        let groups = grouped(files);
        let buckets = size_buckets(entries);
        lemma_size_buckets(entries);
        lemma_grouped_push(files, size, path);
        if has_size(buckets, size) {
            let i = position_of_size(buckets, size);
            assert(groups[i].0 == size);
        } else {
            assert forall|i: int| 0 <= i < groups.len() implies groups[i].0 != size by {
                assert(buckets[i].size == groups[i].0);
            }
        }
    }
}

/// A candidate of an index is a candidate of one of its buckets.
pub proof fn lemma_candidates_of_contains(buckets: Seq<BucketView>, candidate: (Seq<char>, u64))
    ensures
        candidates_of(buckets).contains(candidate) <==> exists|i: int|
            0 <= i < buckets.len() && bucket_candidates(#[trigger] buckets[i]).contains(candidate),
    decreases buckets.len(),
{
    let lists = |bucket: BucketView| bucket_candidates(bucket);
    if buckets.len() > 0 {
        let front = buckets.drop_last();
        let last = buckets.last();
        lemma_candidates_of_contains(front, candidate);
        assert(front.push(last) =~= buckets);
        front.lemma_push_map_commute(lists, last);
        front.map_values(lists).lemma_flatten_push(bucket_candidates(last));
        vstd::seq_lib::lemma_seq_concat_contains_all_elements(
            candidates_of(front),
            bucket_candidates(last),
            candidate,
        );
        if candidates_of(front).contains(candidate) {
            let i = choose|i: int|
                0 <= i < front.len() && bucket_candidates(#[trigger] front[i]).contains(candidate);
            assert(bucket_candidates(buckets[i]).contains(candidate));
        }
        if bucket_candidates(last).contains(candidate) {
            assert(bucket_candidates(buckets[buckets.len() - 1]).contains(candidate));
        }
        if exists|i: int|
            0 <= i < buckets.len() && bucket_candidates(#[trigger] buckets[i]).contains(candidate) {
            let i = choose|i: int|
                0 <= i < buckets.len() && bucket_candidates(#[trigger] buckets[i]).contains(
                    candidate,
                );
            if i < front.len() {
                assert(bucket_candidates(front[i]).contains(candidate));
            }
        }
    }
}

/// Which files of a walk are hashed: a file is a candidate exactly when at
/// least two files of the walk have its size.
pub proof fn lemma_candidates_share_their_size(
    entries: Seq<WalkEntry>,
    path: Seq<char>,
    size: u64,
)
    ensures
        candidates_of(size_buckets(entries)).contains((path, size)) <==> paths_with_size(
            entries,
            size,
        ).len() >= 2 && paths_with_size(entries, size).contains(path),
{
    let buckets = size_buckets(entries);
    let sharing = paths_with_size(entries, size);
    lemma_size_buckets(entries);
    lemma_candidates_of_contains(buckets, (path, size));
    if candidates_of(buckets).contains((path, size)) {
        let i = choose|i: int|
            0 <= i < buckets.len() && bucket_candidates(#[trigger] buckets[i]).contains(
                (path, size),
            );
        let at = bucket_candidates(buckets[i]).index_of((path, size));
        assert(buckets[i].paths[at] == path);
    }
    if sharing.len() >= 2 && sharing.contains(path) {
        assert(has_size(buckets, size));
        let i = position_of_size(buckets, size);
        let at = sharing.index_of(path);
        assert(bucket_candidates(buckets[i])[at] == (path, size));
    }
}

/// A file that is alone with its size is never hashed.
pub proof fn lemma_lone_size_is_never_hashed(entries: Seq<WalkEntry>, size: u64)
    requires
        paths_with_size(entries, size).len() <= 1,
    ensures
        forall|path: Seq<char>| !candidates_of(size_buckets(entries)).contains((path, size)),
{
    assert forall|path: Seq<char>| !candidates_of(size_buckets(entries)).contains(
        (path, size),
    ) by {
        lemma_candidates_share_their_size(entries, path, size);
    }
}

/// File paths bucketed by byte size. Buckets stand in the order in which
/// their sizes were first seen.
pub struct SizeBasedFileIndex {
    buckets: Vec<SizeBucket>,
    slots: HashMap<u64, usize>,
}

impl View for SizeBasedFileIndex {
    type V = Seq<BucketView>;

    closed spec fn view(&self) -> Seq<BucketView> {
        self.buckets@.map_values(|bucket: SizeBucket| bucket@)
    }
}

impl SizeBasedFileIndex {
    /// The lookup table names, for each size, the place of its bucket.
    pub closed spec fn slots_agree(&self) -> bool {
        &&& forall|i: int|
            0 <= i < self.buckets@.len() ==> self.slots@.contains_key(
                (#[trigger] self.buckets@[i]).size,
            ) && self.slots@[self.buckets@[i].size] == i
        &&& forall|size: u64| #[trigger]
            self.slots@.contains_key(size) ==> self.slots@[size] < self.buckets@.len()
                && self.buckets@[self.slots@[size] as int].size == size
    }

    /// Well-formedness: no size has two buckets, and no bucket is empty.
    pub open spec fn wf(&self) -> bool {
        &&& self.slots_agree()
        &&& distinct_sizes(self@)
        &&& forall|i: int| 0 <= i < self@.len() ==> (#[trigger] self@[i]).paths.len() >= 1
    }

    /// An index without buckets.
    pub fn new() -> (index: Self)
        ensures
            index.wf(),
            index@ == Seq::<BucketView>::empty(),
    {
        SizeBasedFileIndex { buckets: Vec::new(), slots: HashMap::new() }
    }

    /// The number of buckets.
    pub fn len(&self) -> (count: usize)
        ensures
            count == self@.len(),
    {
        self.buckets.len()
    }

    /// Whether the index holds no bucket.
    pub fn is_empty(&self) -> (empty: bool)
        ensures
            empty == (self@.len() == 0),
    {
        self.buckets.len() == 0
    }

    /// The buckets, in the order in which their sizes were first seen.
    pub fn buckets(&self) -> (buckets: &Vec<SizeBucket>)
        ensures
            buckets@.map_values(|bucket: SizeBucket| bucket@) == self@,
    {
        &self.buckets
    }

    /// The paths filed under `size`, if any.
    pub fn get(&self, size: u64) -> (found: Option<&Vec<String>>)
        requires
            self.wf(),
        ensures
            found is Some <==> has_size(self@, size),
            found matches Some(paths) ==> path_views(paths@) == self@[position_of_size(
                self@,
                size,
            )].paths,
    {
        match self.slots.get(&size) {
            Some(at) => {
                assert(self@[*at as int].size == size);
                Some(&self.buckets[*at].paths)
            },
            None => None,
        }
    }

    /// The files that are to be hashed: those of every bucket of two or more
    /// files. A file that is alone with its size can have no duplicate, and
    /// is left out.
    pub fn hash_candidates(&self) -> (candidates: Vec<Candidate>)
        ensures
            candidate_views(candidates@) == candidates_of(self@),
    {
        let mut candidates: Vec<Candidate> = Vec::new();
        let mut i: usize = 0;
        while i < self.buckets.len()
            invariant
                i <= self.buckets@.len(),
                candidate_views(candidates@) == candidates_of(self@.take(i as int)),
            decreases self.buckets@.len() - i,
        {
            let bucket = &self.buckets[i];
            let ghost done = candidate_views(candidates@);
            if bucket.paths.len() >= 2 {
                let mut j: usize = 0;
                while j < bucket.paths.len()
                    invariant
                        j <= bucket.paths@.len(),
                        candidate_views(candidates@) == done + bucket@.paths.take(
                            j as int,
                        ).map_values(|path: Seq<char>| (path, bucket.size)),
                    decreases bucket.paths@.len() - j,
                {
                    let ghost before = candidates@;
                    candidates.push(Candidate { path: bucket.paths[j].clone(), size: bucket.size });
                    assert(candidate_views(candidates@) =~= candidate_views(before).push(
                        (bucket.paths@[j as int]@, bucket.size),
                    ));
                    j = j + 1;
                }
            }
            proof {
                let lists = |bucket: BucketView| bucket_candidates(bucket);
                assert(self@.take(i + 1) =~= self@.take(i as int).push(bucket@));
                self@.take(i as int).lemma_push_map_commute(lists, bucket@);
                self@.take(i as int).map_values(lists).lemma_flatten_push(bucket_candidates(bucket@));
            }
            i = i + 1;
        }
        assert(self@.take(i as int) =~= self@);
        candidates
    }

    /// Files `path` under `size`.
    pub fn insert(&mut self, size: u64, path: String)
        requires
            old(self).wf(),
        ensures
            final(self).wf(),
            final(self)@ == with_file(old(self)@, size, path@),
    {
        let slot = self.slots.get(&size);
        let ghost before = self@;
        let ghost held = self.buckets@;
        match slot {
            Some(at) => {
                let at: usize = *at;
                self.buckets[at].paths.push(path);
                assert(path_views(held[at as int].paths@.push(path)) =~= path_views(
                    held[at as int].paths@,
                ).push(path@));
                assert(self@ =~= before.update(
                    at as int,
                    BucketView { size, paths: before[at as int].paths.push(path@) },
                ));
            },
            None => {
                let at: usize = self.buckets.len();
                let mut paths: Vec<String> = Vec::new();
                paths.push(path);
                assert(path_views(paths@) =~= seq![path@]);
                self.buckets.push(SizeBucket { size, paths });
                self.slots.insert(size, at);
                assert(self@ =~= before.push(BucketView { size, paths: seq![path@] }));
            },
        }
    }
}

} // verus!
