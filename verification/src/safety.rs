//! The safety guard: which paths may never be buried, and when force
//! overrides a refusal.
use vstd::prelude::*;

use crate::pathutil;
use crate::pathutil::slash;
use crate::wellknown;

verus! {

/// Why a path is refused, in priority order.
#[derive(Clone, Copy, Debug, PartialEq, Eq, Structural)]
pub enum Forbid {
    Root,
    Dot,
    DotDot,
    GraveyardItself,
    InsideGraveyard,
    IndexFile,
    JournalFile,
    Empty,
}

/// What the guard judges against: the graveyard root, whether the
/// filesystem root is protected, and whether force was requested.
#[derive(Clone, Debug)]
pub struct SafetyCtx {
    pub graveyard: Vec<u8>,
    pub preserve_root: bool,
    pub force: bool,
}

pub open spec fn dot_path() -> Seq<u8> {
    seq!['.' as u8]
}

pub open spec fn dot_dot_path() -> Seq<u8> {
    seq!['.' as u8, '.' as u8]
}

/// The reason a path is refused, if any; priority is the order of the tests.
pub open spec fn spec_classify(p: Seq<u8>, graveyard: Seq<u8>, preserve_root: bool) -> Option<
    Forbid,
> {
    if p.len() == 0 {
        Some(Forbid::Empty)
    } else if p == dot_path() {
        Some(Forbid::Dot)
    } else if p == dot_dot_path() {
        Some(Forbid::DotDot)
    } else if preserve_root && pathutil::spec_strip_trailing_slashes(p) == seq![slash()] {
        Some(Forbid::Root)
    } else if pathutil::spec_strip_trailing_slashes(p) == pathutil::spec_strip_trailing_slashes(
        graveyard,
    ) {
        Some(Forbid::GraveyardItself)
    } else if pathutil::spec_is_strict_ancestor(graveyard, p) {
        Some(Forbid::InsideGraveyard)
    } else if pathutil::spec_basename(p) == wellknown::catalog_file_name()
        || pathutil::spec_basename(p) == wellknown::lock_file_name() {
        Some(Forbid::IndexFile)
    } else if pathutil::spec_basename(p) == wellknown::journal_file_name() {
        Some(Forbid::JournalFile)
    } else {
        None
    }
}

/// Only the filesystem-root refusal resists force.
pub open spec fn spec_bypassable(f: Forbid) -> bool {
    f != Forbid::Root
}

/// Does the final segment of `p` name the catalog file or its lock?
pub fn is_index_like(p: &Vec<u8>) -> (r: bool)
    ensures
        r == (pathutil::spec_basename(p@) == wellknown::catalog_file_name()
            || pathutil::spec_basename(p@) == wellknown::lock_file_name()),
{
    let base = pathutil::basename(p);
    let cat = wellknown::catalog_file_name_bytes();
    let lock = wellknown::lock_file_name_bytes();
    crate::bytesutil::eq_bytes(&base, &cat) || crate::bytesutil::eq_bytes(&base, &lock)
}

/// Does the final segment of `p` name the journal?
pub fn is_journal(p: &Vec<u8>) -> (r: bool)
    ensures
        r == (pathutil::spec_basename(p@) == wellknown::journal_file_name()),
{
    let base = pathutil::basename(p);
    let j = wellknown::journal_file_name_bytes();
    crate::bytesutil::eq_bytes(&base, &j)
}

/// The reason `p` is refused under `ctx`, if any.
pub fn classify_forbid(p: &Vec<u8>, ctx: &SafetyCtx) -> (r: Option<Forbid>)
    ensures
        r == spec_classify(p@, ctx.graveyard@, ctx.preserve_root),
{
    if p.len() == 0 {
        return Some(Forbid::Empty);
    }
    if p.len() == 1 && p[0] == '.' as u8 {
        proof {
            assert(p@ =~= dot_path());
        }
        return Some(Forbid::Dot);
    }
    proof {
        assert(p@ != dot_path());
    }
    if p.len() == 2 && p[0] == '.' as u8 && p[1] == '.' as u8 {
        proof {
            assert(p@ =~= dot_dot_path());
        }
        return Some(Forbid::DotDot);
    }
    proof {
        assert(p@ != dot_dot_path());
    }
    let stripped = pathutil::strip_trailing_slashes(p);
    if ctx.preserve_root && stripped.len() == 1 && stripped[0] == '/' as u8 {
        proof {
            assert(stripped@ =~= seq![slash()]);
        }
        return Some(Forbid::Root);
    }
    proof {
        if ctx.preserve_root {
            assert(stripped@ != seq![slash()]);
        }
    }
    let gy_stripped = pathutil::strip_trailing_slashes(&ctx.graveyard);
    if crate::bytesutil::eq_bytes(&stripped, &gy_stripped) {
        return Some(Forbid::GraveyardItself);
    }
    if pathutil::is_strict_ancestor(&ctx.graveyard, p) {
        return Some(Forbid::InsideGraveyard);
    }
    if is_index_like(p) {
        return Some(Forbid::IndexFile);
    }
    if is_journal(p) {
        return Some(Forbid::JournalFile);
    }
    None
}

/// Refuse `p` unless it is clean, or force is set and the reason bends to
/// force. The error carries the reason.
pub fn guard_path(p: &Vec<u8>, ctx: &SafetyCtx) -> (r: Result<(), Forbid>)
    ensures
        match r {
            Ok(_) => {
                let c = spec_classify(p@, ctx.graveyard@, ctx.preserve_root);
                c == None::<Forbid> || (ctx.force && c is Some && spec_bypassable(c->Some_0))
            },
            Err(f) => {
                &&& spec_classify(p@, ctx.graveyard@, ctx.preserve_root) == Some(f)
                &&& !(ctx.force && spec_bypassable(f))
            },
        },
{
    match classify_forbid(p, ctx) {
        None => Ok(()),
        Some(reason) => {
            let bypassable = !matches!(reason, Forbid::Root);
            if ctx.force && bypassable {
                Ok(())
            } else {
                Err(reason)
            }
        },
    }
}

/// One-line refusal message for a reason, as shown to the user.
pub fn deny_message(f: Forbid) -> (r: &'static str)
    ensures
        f == Forbid::Root ==> r@ == "denied: / is protected (cannot be overridden)"@,
        f == Forbid::Dot ==> r@ == "denied: '.' is not allowed"@,
        f == Forbid::DotDot ==> r@ == "denied: '..' is not allowed"@,
        f == Forbid::GraveyardItself ==> r@ == "denied: target is the graveyard itself"@,
        f == Forbid::InsideGraveyard ==> r@ == "denied: item is inside the graveyard"@,
        f == Forbid::IndexFile ==> r@ == "denied: target is index.json/.index.lock"@,
        f == Forbid::JournalFile ==> r@ == "denied: target is .journal"@,
        f == Forbid::Empty ==> r@ == "denied: empty path"@,
{
    match f {
        Forbid::Root => "denied: / is protected (cannot be overridden)",
        Forbid::Dot => "denied: '.' is not allowed",
        Forbid::DotDot => "denied: '..' is not allowed",
        Forbid::GraveyardItself => "denied: target is the graveyard itself",
        Forbid::InsideGraveyard => "denied: item is inside the graveyard",
        Forbid::IndexFile => "denied: target is index.json/.index.lock",
        Forbid::JournalFile => "denied: target is .journal",
        Forbid::Empty => "denied: empty path",
    }
}

} // verus!
