//! Reserved file names and the layout of the data directory: the catalog
//! file and its lock live directly in the data directory, buried objects in
//! its `graveyard` subdirectory, and the journal inside the graveyard.
use vstd::prelude::*;

use crate::pathutil::slash;

verus! {

pub open spec fn catalog_file_name() -> Seq<u8> {
    seq![
        'i' as u8,
        'n' as u8,
        'd' as u8,
        'e' as u8,
        'x' as u8,
        '.' as u8,
        'j' as u8,
        's' as u8,
        'o' as u8,
        'n' as u8,
    ]
}

pub open spec fn lock_file_name() -> Seq<u8> {
    seq![
        '.' as u8,
        'i' as u8,
        'n' as u8,
        'd' as u8,
        'e' as u8,
        'x' as u8,
        '.' as u8,
        'l' as u8,
        'o' as u8,
        'c' as u8,
        'k' as u8,
    ]
}

pub open spec fn journal_file_name() -> Seq<u8> {
    seq!['.' as u8, 'j' as u8, 'o' as u8, 'u' as u8, 'r' as u8, 'n' as u8, 'a' as u8, 'l' as u8]
}

pub open spec fn graveyard_dir_name() -> Seq<u8> {
    seq![
        'g' as u8,
        'r' as u8,
        'a' as u8,
        'v' as u8,
        'e' as u8,
        'y' as u8,
        'a' as u8,
        'r' as u8,
        'd' as u8,
    ]
}

pub fn catalog_file_name_bytes() -> (v: Vec<u8>)
    ensures
        v@ == catalog_file_name(),
{
    let mut v: Vec<u8> = Vec::new();
    v.push('i' as u8);
    v.push('n' as u8);
    v.push('d' as u8);
    v.push('e' as u8);
    v.push('x' as u8);
    v.push('.' as u8);
    v.push('j' as u8);
    v.push('s' as u8);
    v.push('o' as u8);
    v.push('n' as u8);
    proof {
        assert(v@ =~= catalog_file_name());
    }
    v
}

pub fn lock_file_name_bytes() -> (v: Vec<u8>)
    ensures
        v@ == lock_file_name(),
{
    let mut v: Vec<u8> = Vec::new();
    v.push('.' as u8);
    v.push('i' as u8);
    v.push('n' as u8);
    v.push('d' as u8);
    v.push('e' as u8);
    v.push('x' as u8);
    v.push('.' as u8);
    v.push('l' as u8);
    v.push('o' as u8);
    v.push('c' as u8);
    v.push('k' as u8);
    proof {
        assert(v@ =~= lock_file_name());
    }
    v
}

pub fn journal_file_name_bytes() -> (v: Vec<u8>)
    ensures
        v@ == journal_file_name(),
{
    let mut v: Vec<u8> = Vec::new();
    v.push('.' as u8);
    v.push('j' as u8);
    v.push('o' as u8);
    v.push('u' as u8);
    v.push('r' as u8);
    v.push('n' as u8);
    v.push('a' as u8);
    v.push('l' as u8);
    proof {
        assert(v@ =~= journal_file_name());
    }
    v
}

fn graveyard_dir_name_bytes() -> (v: Vec<u8>)
    ensures
        v@ == graveyard_dir_name(),
{
    let mut v: Vec<u8> = Vec::new();
    v.push('g' as u8);
    v.push('r' as u8);
    v.push('a' as u8);
    v.push('v' as u8);
    v.push('e' as u8);
    v.push('y' as u8);
    v.push('a' as u8);
    v.push('r' as u8);
    v.push('d' as u8);
    proof {
        assert(v@ =~= graveyard_dir_name());
    }
    v
}

/// Directory holding the buried objects, below the data directory.
pub fn graveyard_dir(data_dir: &Vec<u8>) -> (r: Vec<u8>)
    ensures
        r@ == data_dir@ + seq![slash()] + graveyard_dir_name(),
{
    let name = graveyard_dir_name_bytes();
    crate::pathutil::join_path(data_dir, &name)
}

/// The journal file, inside the graveyard directory.
pub fn journal_path(data_dir: &Vec<u8>) -> (r: Vec<u8>)
    ensures
        r@ == data_dir@ + seq![slash()] + graveyard_dir_name() + seq![slash()]
            + journal_file_name(),
{
    let gy = graveyard_dir(data_dir);
    let name = journal_file_name_bytes();
    crate::pathutil::join_path(&gy, &name)
}

/// The lock file guarding the catalog in `dir`.
pub fn lock_path(dir: &Vec<u8>) -> (r: Vec<u8>)
    ensures
        r@ == dir@ + seq![slash()] + lock_file_name(),
{
    let name = lock_file_name_bytes();
    crate::pathutil::join_path(dir, &name)
}

/// The catalog file itself, inside the data directory.
pub fn catalog_path(data_dir: &Vec<u8>) -> (r: Vec<u8>)
    ensures
        r@ == data_dir@ + seq![slash()] + catalog_file_name(),
{
    let name = catalog_file_name_bytes();
    crate::pathutil::join_path(data_dir, &name)
}

/// Names that a full-catalog sweep of the graveyard directory must leave
/// alone: the journal and the lock marker.
pub fn is_protected_name(name: &Vec<u8>) -> (r: bool)
    ensures
        r == (name@ == journal_file_name() || name@ == lock_file_name()),
{
    let j = journal_file_name_bytes();
    let l = lock_file_name_bytes();
    crate::bytesutil::eq_bytes(name, &j) || crate::bytesutil::eq_bytes(name, &l)
}

} // verus!
