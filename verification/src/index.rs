//! The catalog data model: one entry per buried filesystem object.
use vstd::prelude::*;

use crate::pathutil;

verus! {

/// What kind of filesystem object an entry was when it was buried.
#[derive(Clone, Copy, Debug, PartialEq, Eq, Structural)]
pub enum Kind {
    File,
    Dir,
    Symlink,
    Other,
}

/// Mathematical model of an [`Entry`].
#[verifier::ext_equal]
pub ghost struct EntryV {
    pub original_path: Seq<u8>,
    pub trashed_path: Seq<u8>,
    pub deleted_at: int,
    pub kind: Kind,
}

/// One catalog record: where the object lived, where it lies now, when it
/// was buried (epoch seconds), and what it was.
#[derive(Clone, Debug)]
pub struct Entry {
    pub original_path: Vec<u8>,
    pub trashed_path: Vec<u8>,
    pub deleted_at: i64,
    pub kind: Kind,
}

impl View for Entry {
    type V = EntryV;

    open spec fn view(&self) -> EntryV {
        EntryV {
            original_path: self.original_path@,
            trashed_path: self.trashed_path@,
            deleted_at: self.deleted_at as int,
            kind: self.kind,
        }
    }
}

/// The whole catalog, in burial order.
#[derive(Clone, Debug)]
pub struct Index {
    pub items: Vec<Entry>,
}

/// Model of a sequence of entries.
pub open spec fn entries_view(s: Seq<Entry>) -> Seq<EntryV> {
    s.map_values(|e: Entry| e@)
}

impl View for Index {
    type V = Seq<EntryV>;

    open spec fn view(&self) -> Seq<EntryV> {
        entries_view(self.items@)
    }
}

/// Entry kind as decided from the file type flags read before the move,
/// with the same priority the flags are examined in everywhere: directory,
/// then regular file, then symlink.
pub fn kind_from_flags(is_dir: bool, is_file: bool, is_symlink: bool) -> (k: Kind)
    ensures
        k == (if is_dir {
            Kind::Dir
        } else if is_file {
            Kind::File
        } else if is_symlink {
            Kind::Symlink
        } else {
            Kind::Other
        }),
{
    if is_dir {
        Kind::Dir
    } else if is_file {
        Kind::File
    } else if is_symlink {
        Kind::Symlink
    } else {
        Kind::Other
    }
}

/// Final segment of the entry's original path; empty when the original
/// path has no segment (the root).
pub fn basename_of_original(e: &Entry) -> (r: Vec<u8>)
    ensures
        r@ == pathutil::spec_basename(e.original_path@),
{
    pathutil::basename(&e.original_path)
}

/// Least index whose entry is trashed at exactly `t`, if any.
pub fn find_by_trashed(entries: &Vec<Entry>, t: &Vec<u8>) -> (r: Option<usize>)
    ensures
        match r {
            Some(i) => {
                &&& i < entries@.len()
                &&& entries@[i as int].trashed_path@ == t@
                &&& forall|j: int| 0 <= j < i ==> entries@[j].trashed_path@ != t@
            },
            None => forall|j: int| 0 <= j < entries@.len() ==> entries@[j].trashed_path@ != t@,
        },
{
    let mut i: usize = 0;
    while i < entries.len()
        invariant
            i <= entries@.len(),
            forall|j: int| 0 <= j < i ==> entries@[j].trashed_path@ != t@,
        decreases entries@.len() - i,
    {
        if crate::bytesutil::eq_bytes(&entries[i].trashed_path, t) {
            return Some(i);
        }
        i = i + 1;
    }
    None
}

/// Least index whose entry originally lived at exactly `p`, if any.
pub fn find_by_original(entries: &Vec<Entry>, p: &Vec<u8>) -> (r: Option<usize>)
    ensures
        match r {
            Some(i) => {
                &&& i < entries@.len()
                &&& entries@[i as int].original_path@ == p@
                &&& forall|j: int| 0 <= j < i ==> entries@[j].original_path@ != p@
            },
            None => forall|j: int| 0 <= j < entries@.len() ==> entries@[j].original_path@ != p@,
        },
{
    let mut i: usize = 0;
    while i < entries.len()
        invariant
            i <= entries@.len(),
            forall|j: int| 0 <= j < i ==> entries@[j].original_path@ != p@,
        decreases entries@.len() - i,
    {
        if crate::bytesutil::eq_bytes(&entries[i].original_path, p) {
            return Some(i);
        }
        i = i + 1;
    }
    None
}

/// A catalog record for a burial that just completed, stamped with the
/// clock's idea of now.
pub fn new_entry(original_path: Vec<u8>, trashed_path: Vec<u8>, kind: Kind) -> (e: Entry)
    ensures
        e.original_path@ == original_path@,
        e.trashed_path@ == trashed_path@,
        e.kind == kind,
{
    Entry { original_path, trashed_path, deleted_at: crate::naming::epoch_seconds(), kind }
}

/// The catalog's structural invariants: every live entry is trashed at a
/// distinct path strictly inside the graveyard, and no entry's original
/// location lies at or under the graveyard.
pub open spec fn catalog_wf(entries: Seq<EntryV>, graveyard: Seq<u8>) -> bool {
    &&& forall|i: int, j: int|
        0 <= i < j < entries.len() ==> (#[trigger] entries[i]).trashed_path != (
        #[trigger] entries[j]).trashed_path
    &&& forall|i: int|
        0 <= i < entries.len() ==> pathutil::spec_is_strict_ancestor(
            graveyard,
            (#[trigger] entries[i]).trashed_path,
        )
    &&& forall|i: int|
        0 <= i < entries.len() ==> !pathutil::spec_is_strict_ancestor(
            graveyard,
            (#[trigger] entries[i]).original_path,
        ) && pathutil::spec_strip_trailing_slashes((#[trigger] entries[i]).original_path)
            != pathutil::spec_strip_trailing_slashes(graveyard)
}

} // verus!
