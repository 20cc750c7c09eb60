//! The tree walker's rules: which directory entries a walk yields, and with
//! what. Reading the directories is the caller's work; the verdict on each
//! entry read is made here.

use vstd::prelude::*;

verus! {

/// What a directory entry is.
#[derive(Clone, Copy, Debug, PartialEq, Eq, Structural)]
pub enum EntryKind {
    /// A regular file.
    File,
    /// A directory.
    Directory,
    /// Anything else: a symbolic link, a device, a socket, a pipe.
    Other,
}

/// What the walk does with an entry it has read.
#[derive(Clone, Copy, Debug, PartialEq, Eq, Structural)]
pub enum EntryVerdict {
    /// The entry is yielded; `size` is the byte size of a file, and `None`
    /// for a directory.
    Keep { size: Option<u64> },
    /// The entry is left out without a word.
    Skip,
    /// The entry is left out and a warning is due; the walk goes on.
    Warn,
}

/// One yielded entry of a walk: the path, and the byte size where the entry
/// is a regular file.
#[derive(Clone, Debug, PartialEq, Eq)]
pub struct WalkEntry {
    pub path: String,
    pub size: Option<u64>,
}

/// Judges one directory entry. `kind` is `None` where the entry could not be
/// read; `size` is the byte size taken from the metadata of a regular file,
/// `None` where it could not be taken.
///
/// Regular files with a size and directories are kept. An entry that could
/// not be read, and a file whose size could not be, are left out with a
/// warning. Everything else is left out silently.
pub fn judge_entry(kind: Option<EntryKind>, size: Option<u64>) -> (verdict: EntryVerdict)
    ensures
        verdict is Keep <==> (kind == Some(EntryKind::File) && size is Some) || kind == Some(
            EntryKind::Directory,
        ),
        verdict is Warn <==> kind is None || (kind == Some(EntryKind::File) && size is None),
        verdict is Skip <==> kind == Some(EntryKind::Other),
        verdict is Keep && kind == Some(EntryKind::File) ==> verdict->size == size,
        verdict is Keep && kind == Some(EntryKind::Directory) ==> verdict->size is None,
{
    match kind {
        None => EntryVerdict::Warn,
        Some(EntryKind::Other) => EntryVerdict::Skip,
        Some(EntryKind::Directory) => EntryVerdict::Keep { size: None },
        Some(EntryKind::File) => match size {
            Some(bytes) => EntryVerdict::Keep { size: Some(bytes) },
            None => EntryVerdict::Warn,
        },
    }
}

} // verus!
