//! Selection and policy decisions of the orchestrator: which entries a
//! query names, which confirmations are owed, and which entries a prune
//! keeps.
use vstd::prelude::*;

use vstd::multiset::Multiset;

use crate::bytesutil;
use crate::index::{Entry, EntryV};
use crate::naming;
use crate::pathutil;

verus! {

/// A query names an entry when its original basename contains the query,
/// or the short identifier starts with it; both ASCII-case-insensitively.
pub open spec fn spec_entry_matches(e: EntryV, q: Seq<u8>) -> bool {
    ||| bytesutil::spec_contains_ci(pathutil::spec_basename(e.original_path), q)
    ||| bytesutil::spec_starts_with_ci(naming::spec_display_id(e.trashed_path), q)
}

pub fn entry_matches(e: &Entry, q: &Vec<u8>) -> (r: bool)
    ensures
        r == spec_entry_matches(e@, q@),
{
    let base = crate::index::basename_of_original(e);
    if bytesutil::contains_ci(&base, q) {
        return true;
    }
    let id = naming::display_id(e);
    bytesutil::starts_with_ci(&id, q)
}

/// Indices of the entries a query names, in catalog order.
#[verifier::loop_isolation(false)]
pub fn select_matches(entries: &Vec<Entry>, q: &Vec<u8>) -> (r: Vec<usize>)
    ensures
        forall|k: int|
            0 <= k < r@.len() ==> #[trigger] r@[k] < entries@.len() && spec_entry_matches(
                entries@[r@[k] as int]@,
                q@,
            ),
        forall|k1: int, k2: int| 0 <= k1 < k2 < r@.len() ==> r@[k1] < r@[k2],
        forall|i: int|
            0 <= i < entries@.len() && spec_entry_matches(#[trigger] entries@[i]@, q@)
                ==> exists|k: int| 0 <= k < r@.len() && r@[k] == i,
{
    let mut r: Vec<usize> = Vec::new();
    let mut i: usize = 0;
    while i < entries.len()
        invariant
            i <= entries@.len(),
            forall|k: int|
                0 <= k < r@.len() ==> #[trigger] r@[k] < i && spec_entry_matches(
                    entries@[r@[k] as int]@,
                    q@,
                ),
            forall|k1: int, k2: int| 0 <= k1 < k2 < r@.len() ==> r@[k1] < r@[k2],
            forall|t: int|
                0 <= t < i && spec_entry_matches(#[trigger] entries@[t]@, q@) ==> exists|k: int|
                    0 <= k < r@.len() && r@[k] == t,
        decreases entries@.len() - i,
    {
        if entry_matches(&entries[i], q) {
            let ghost r0 = r@;
            r.push(i);
            proof {
                assert forall|t: int|
                    0 <= t < i + 1 && spec_entry_matches(#[trigger] entries@[t]@, q@) implies exists|
                    k: int,
                |
                    0 <= k < r@.len() && r@[k] == t by {
                    if t == i as int {
                        assert(r@[r@.len() - 1] == i as usize);
                    } else {
                        let k = choose|k: int| 0 <= k < r0.len() && r0[k] == t;
                        assert(r@[k] == t);
                    }
                }
            }
        }
        i = i + 1;
    }
    r
}

/// The confirmation the orchestrator owes before acting on a selection.
#[derive(Clone, Copy, Debug, PartialEq, Eq, Structural)]
pub enum Confirmation {
    DryRun,
    AskTyped,
    AskYesNo,
    Proceed,
}

/// Confirmation policy shared by restore and prune: a dry run never acts;
/// acting on the whole catalog wants the typed token; acting on a single
/// interactively chosen item wants yes or no; an explicit assent flag
/// skips both.
pub fn confirm_mode(n_selected: usize, n_total: usize, dry_run: bool, yes: bool) -> (c:
    Confirmation)
    ensures
        c == (if dry_run {
            Confirmation::DryRun
        } else if n_selected == n_total && !yes {
            Confirmation::AskTyped
        } else if n_selected == 1 && !yes {
            Confirmation::AskYesNo
        } else {
            Confirmation::Proceed
        }),
{
    if dry_run {
        Confirmation::DryRun
    } else if n_selected == n_total && !yes {
        Confirmation::AskTyped
    } else if n_selected == 1 && !yes {
        Confirmation::AskYesNo
    } else {
        Confirmation::Proceed
    }
}

/// An ambiguous selection — more than one entry answering the query —
/// may be acted on only under force; a unique match always may.
pub fn ambiguous_selection_allowed(n_matches: usize, force: bool) -> (r: bool)
    ensures
        r == (n_matches <= 1 || force),
{
    n_matches <= 1 || force
}

/// Leading and trailing ASCII whitespace removed.
pub open spec fn spec_trim(s: Seq<u8>) -> Seq<u8> {
    spec_trim_end(spec_trim_front(s))
}

pub open spec fn spec_trim_front(s: Seq<u8>) -> Seq<u8>
    decreases s.len(),
{
    if s.len() > 0 && crate::codec::is_ws(s.first()) {
        spec_trim_front(s.drop_first())
    } else {
        s
    }
}

pub open spec fn spec_trim_end(s: Seq<u8>) -> Seq<u8>
    decreases s.len(),
{
    if s.len() > 0 && crate::codec::is_ws(s.last()) {
        spec_trim_end(s.drop_last())
    } else {
        s
    }
}

#[verifier::loop_isolation(false)]
fn trim_bytes(s: &Vec<u8>) -> (r: Vec<u8>)
    ensures
        r@ == spec_trim(s@),
{
    let mut lo: usize = 0;
    proof {
        assert(s@.skip(0) =~= s@);
    }
    while lo < s.len() && (s[lo] == ' ' as u8 || s[lo] == 9 || s[lo] == 10 || s[lo] == 13)
        invariant
            lo <= s@.len(),
            spec_trim_front(s@) == spec_trim_front(s@.skip(lo as int)),
        decreases s@.len() - lo,
    {
        proof {
            assert(s@.skip(lo as int).first() == s@[lo as int]);
            assert(s@.skip(lo as int).drop_first() =~= s@.skip(lo + 1));
        }
        lo = lo + 1;
    }
    proof {
        if lo < s@.len() {
            assert(s@.skip(lo as int).first() == s@[lo as int]);
        }
        assert(spec_trim_front(s@) == s@.skip(lo as int));
    }
    let mut hi: usize = s.len();
    proof {
        assert(s@.skip(lo as int).take(s@.len() - lo as int) =~= s@.skip(lo as int));
    }
    while hi > lo && (s[hi - 1] == ' ' as u8 || s[hi - 1] == 9 || s[hi - 1] == 10 || s[hi - 1]
        == 13)
        invariant
            lo <= hi <= s@.len(),
            spec_trim_end(s@.skip(lo as int)) == spec_trim_end(
                s@.skip(lo as int).take(hi - lo as int),
            ),
        decreases hi,
    {
        proof {
            let cur = s@.skip(lo as int).take(hi - lo as int);
            assert(cur.last() == s@[hi - 1]);
            assert(cur.drop_last() =~= s@.skip(lo as int).take(hi - 1 - lo as int));
        }
        hi = hi - 1;
    }
    proof {
        let cur = s@.skip(lo as int).take(hi - lo as int);
        if hi > lo {
            assert(cur.last() == s@[hi - 1]);
        }
        assert(spec_trim_end(s@.skip(lo as int).take(hi - lo as int)) == s@.skip(lo as int).take(
            hi - lo as int,
        ));
    }
    let mut r: Vec<u8> = Vec::new();
    let mut k: usize = lo;
    while k < hi
        invariant
            lo <= k <= hi <= s@.len(),
            r@ == s@.subrange(lo as int, k as int),
        decreases hi - k,
    {
        r.push(s[k]);
        proof {
            assert(s@.subrange(lo as int, k + 1) =~= s@.subrange(lo as int, k as int).push(
                s@[k as int],
            ));
        }
        k = k + 1;
    }
    proof {
        assert(r@ =~= s@.skip(lo as int).take(hi - lo as int));
    }
    r
}

pub open spec fn typed_token() -> Seq<u8> {
    seq!['Y' as u8, 'E' as u8, 'S' as u8]
}

/// Does the typed input confirm a whole-catalog action? Only the literal
/// token, after trimming ASCII whitespace.
pub fn typed_token_accepted(input: &Vec<u8>) -> (r: bool)
    ensures
        r == (spec_trim(input@) == typed_token()),
{
    let t = trim_bytes(input);
    let mut tok: Vec<u8> = Vec::new();
    tok.push('Y' as u8);
    tok.push('E' as u8);
    tok.push('S' as u8);
    proof {
        assert(tok@ =~= typed_token());
    }
    bytesutil::eq_bytes(&t, &tok)
}

/// Does the typed input confirm a single-item action? `y`, in either
/// case, after trimming ASCII whitespace.
pub fn yes_no_accepted(input: &Vec<u8>) -> (r: bool)
    ensures
        r == (bytesutil::spec_lower(spec_trim(input@)) == seq!['y' as u8]),
{
    let t = trim_bytes(input);
    if t.len() != 1 {
        proof {
            assert(bytesutil::spec_lower(spec_trim(input@)).len() == spec_trim(input@).len());
            assert(bytesutil::spec_lower(spec_trim(input@)) != seq!['y' as u8]);
        }
        return false;
    }
    let b = bytesutil::lower_byte(t[0]);
    proof {
        assert(bytesutil::spec_lower(t@) =~= seq![bytesutil::spec_lower_byte(t@[0])]);
        if bytesutil::spec_lower_byte(t@[0]) != 'y' as u8 {
            assert(seq![bytesutil::spec_lower_byte(t@[0])][0] != seq!['y' as u8][0]);
            assert(bytesutil::spec_lower(t@) != seq!['y' as u8]);
        }
    }
    b == 'y' as u8
}

/// Some path in `ps` equals `x`.
pub open spec fn spec_paths_contain(ps: Seq<Seq<u8>>, x: Seq<u8>) -> bool {
    exists|k: int| 0 <= k < ps.len() && ps[k] == x
}

/// Views of a list of paths.
pub open spec fn paths_view(v: Seq<Vec<u8>>) -> Seq<Seq<u8>> {
    v.map_values(|p: Vec<u8>| p@)
}

pub fn paths_contain(ps: &Vec<Vec<u8>>, x: &Vec<u8>) -> (r: bool)
    ensures
        r == spec_paths_contain(paths_view(ps@), x@),
{
    let mut k: usize = 0;
    while k < ps.len()
        invariant
            k <= ps@.len(),
            forall|t: int| 0 <= t < k ==> paths_view(ps@)[t] != x@,
        decreases ps@.len() - k,
    {
        if bytesutil::eq_bytes(&ps[k], x) {
            proof {
                assert(paths_view(ps@)[k as int] == x@);
            }
            return true;
        }
        k = k + 1;
    }
    false
}

/// The trashed paths of the selected entries, in selection order.
#[verifier::loop_isolation(false)]
pub fn doomed_paths(entries: &Vec<Entry>, sel: &Vec<usize>) -> (r: Vec<Vec<u8>>)
    requires
        forall|k: int| 0 <= k < sel@.len() ==> #[trigger] sel@[k] < entries@.len(),
    ensures
        r@.len() == sel@.len(),
        forall|k: int|
            0 <= k < r@.len() ==> (#[trigger] r@[k])@ == entries@[sel@[k] as int].trashed_path@,
{
    let mut r: Vec<Vec<u8>> = Vec::new();
    let mut k: usize = 0;
    while k < sel.len()
        invariant
            k <= sel@.len(),
            r@.len() == k,
            forall|t: int|
                0 <= t < k ==> (#[trigger] r@[t])@ == entries@[sel@[t] as int].trashed_path@,
        decreases sel@.len() - k,
    {
        let p = bytesutil::clone_bytes(&entries[sel[k]].trashed_path);
        r.push(p);
        k = k + 1;
    }
    r
}

/// An entry stays in the catalog after a prune when it was not doomed, or
/// its removal failed and the entry must remain visible.
pub open spec fn spec_prune_keeps(e: EntryV, doomed: Seq<Seq<u8>>, failed: Seq<Seq<u8>>) -> bool {
    !spec_paths_contain(doomed, e.trashed_path) || spec_paths_contain(failed, e.trashed_path)
}

/// The keep-test a prune applies to each entry.
pub open spec fn prune_keep_fn(doomed: Seq<Seq<u8>>, failed: Seq<Seq<u8>>) -> spec_fn(EntryV) -> bool {
    |e: EntryV| spec_prune_keeps(e, doomed, failed)
}

/// The catalog after a prune: doomed entries leave, except those whose
/// removal failed; everything else stays, in order.
#[verifier::loop_isolation(false)]
pub fn prune_rebuild(entries: &Vec<Entry>, doomed: &Vec<Vec<u8>>, failed: &Vec<Vec<u8>>) -> (r: Vec<
    Entry,
>)
    ensures
        crate::index::entries_view(r@) == crate::index::entries_view(entries@).filter(
            prune_keep_fn(paths_view(doomed@), paths_view(failed@)),
        ),
{
    let ghost dv = paths_view(doomed@);
    let ghost fv = paths_view(failed@);
    let mut r: Vec<Entry> = Vec::new();
    let mut i: usize = 0;
    proof {
        reveal(Seq::<EntryV>::filter);
        assert(crate::index::entries_view(entries@).take(0) =~= Seq::<EntryV>::empty());
        assert(Seq::<EntryV>::empty().filter(prune_keep_fn(dv, fv)) =~= Seq::<EntryV>::empty());
        assert(crate::index::entries_view(r@) =~= Seq::<EntryV>::empty());
    }
    while i < entries.len()
        invariant
            i <= entries@.len(),
            dv == paths_view(doomed@),
            fv == paths_view(failed@),
            crate::index::entries_view(r@) == crate::index::entries_view(entries@).take(
                i as int,
            ).filter(prune_keep_fn(dv, fv)),
        decreases entries@.len() - i,
    {
        let e = &entries[i];
        let keep = !paths_contain(doomed, &e.trashed_path) || paths_contain(
            failed,
            &e.trashed_path,
        );
        proof {
            reveal(Seq::<EntryV>::filter);
            let m = crate::index::entries_view(entries@);
            assert(m.take(i + 1).drop_last() =~= m.take(i as int));
            assert(m.take(i + 1).last() == m[i as int]);
            assert(keep == prune_keep_fn(dv, fv)(entries@[i as int]@));
        }
        if keep {
            let copy = Entry {
                original_path: bytesutil::clone_bytes(&e.original_path),
                trashed_path: bytesutil::clone_bytes(&e.trashed_path),
                deleted_at: e.deleted_at,
                kind: e.kind,
            };
            proof {
                assert(copy@ == entries@[i as int]@);
            }
            r.push(copy);
            proof {
                reveal(Seq::<EntryV>::filter);
                assert(crate::index::entries_view(r@) =~= crate::index::entries_view(
                    entries@,
                ).take(i + 1).filter(prune_keep_fn(dv, fv)));
            }
        } else {
            proof {
                reveal(Seq::<EntryV>::filter);
                assert(crate::index::entries_view(r@) =~= crate::index::entries_view(
                    entries@,
                ).take(i + 1).filter(prune_keep_fn(dv, fv)));
            }
        }
        i = i + 1;
    }
    proof {
        assert(crate::index::entries_view(entries@).take(entries@.len() as int)
            =~= crate::index::entries_view(entries@));
    }
    r
}

pub open spec fn no_picker_lit() -> Seq<u8> {
    seq![
        'N' as u8,
        'o' as u8,
        ' ' as u8,
        's' as u8,
        'u' as u8,
        'c' as u8,
        'h' as u8,
        ' ' as u8,
        'f' as u8,
        'i' as u8,
        'l' as u8,
        'e' as u8,
        ' ' as u8,
        'o' as u8,
        'r' as u8,
        ' ' as u8,
        'd' as u8,
        'i' as u8,
        'r' as u8,
        'e' as u8,
        'c' as u8,
        't' as u8,
        'o' as u8,
        'r' as u8,
        'y' as u8,
    ]
}

pub open spec fn not_found_lit() -> Seq<u8> {
    seq![
        'n' as u8,
        'o' as u8,
        't' as u8,
        ' ' as u8,
        'f' as u8,
        'o' as u8,
        'u' as u8,
        'n' as u8,
        'd' as u8,
    ]
}

/// `needle` occurs somewhere in `hay`, byte for byte.
pub open spec fn spec_contains(hay: Seq<u8>, needle: Seq<u8>) -> bool {
    bytesutil::spec_find_at(hay, needle, 0) is Some
}

/// A picker failure that means the picker is not installed: its message
/// names a missing file or command.
pub open spec fn spec_picker_missing(err: Seq<u8>) -> bool {
    spec_contains(err, no_picker_lit()) || spec_contains(err, not_found_lit())
}

fn no_picker_lit_bytes() -> (r: Vec<u8>)
    ensures
        r@ == no_picker_lit(),
{
    let mut v: Vec<u8> = Vec::new();
    v.push('N' as u8);
    v.push('o' as u8);
    v.push(' ' as u8);
    v.push('s' as u8);
    v.push('u' as u8);
    v.push('c' as u8);
    v.push('h' as u8);
    v.push(' ' as u8);
    v.push('f' as u8);
    v.push('i' as u8);
    v.push('l' as u8);
    v.push('e' as u8);
    v.push(' ' as u8);
    v.push('o' as u8);
    v.push('r' as u8);
    v.push(' ' as u8);
    v.push('d' as u8);
    v.push('i' as u8);
    v.push('r' as u8);
    v.push('e' as u8);
    v.push('c' as u8);
    v.push('t' as u8);
    v.push('o' as u8);
    v.push('r' as u8);
    v.push('y' as u8);
    proof {
        assert(v@ =~= no_picker_lit());
    }
    v
}

fn not_found_lit_bytes() -> (r: Vec<u8>)
    ensures
        r@ == not_found_lit(),
{
    let mut v: Vec<u8> = Vec::new();
    v.push('n' as u8);
    v.push('o' as u8);
    v.push('t' as u8);
    v.push(' ' as u8);
    v.push('f' as u8);
    v.push('o' as u8);
    v.push('u' as u8);
    v.push('n' as u8);
    v.push('d' as u8);
    proof {
        assert(v@ =~= not_found_lit());
    }
    v
}

fn contains_bytes(hay: &Vec<u8>, needle: &Vec<u8>) -> (r: bool)
    ensures
        r == spec_contains(hay@, needle@),
{
    match bytesutil::find_at(hay, needle, 0) {
        Some(_) => true,
        None => false,
    }
}

/// Outcome of asking the external picker: either the chosen catalog
/// indices, or its error text. A missing picker counts as an empty
/// choice, so callers fall back gracefully; any other failure stands.
pub fn try_pick_entries(outcome: Result<Vec<usize>, Vec<u8>>) -> (r: Result<Vec<usize>, Vec<u8>>)
    ensures
        match outcome {
            Ok(picks) => r is Ok && r->Ok_0@ == picks@,
            Err(msg) => {
                if spec_picker_missing(msg@) {
                    r is Ok && r->Ok_0@ == Seq::<usize>::empty()
                } else {
                    r is Err && r->Err_0@ == msg@
                }
            },
        },
{
    match outcome {
        Ok(picks) => Ok(picks),
        Err(msg) => {
            let l1 = no_picker_lit_bytes();
            let l2 = not_found_lit_bytes();
            if contains_bytes(&msg, &l1) || contains_bytes(&msg, &l2) {
                let empty: Vec<usize> = Vec::new();
                Ok(empty)
            } else {
                Err(msg)
            }
        },
    }
}

/// Number of set flags at positions `>= i`.
pub open spec fn spec_count_true(s: Seq<bool>, i: int) -> nat
    decreases s.len() - i,
{
    if 0 <= i < s.len() {
        (if s[i] {
            1nat
        } else {
            0nat
        }) + spec_count_true(s, i + 1)
    } else {
        0
    }
}

proof fn lemma_count_true_le(s: Seq<bool>, i: int)
    requires
        0 <= i <= s.len(),
    ensures
        spec_count_true(s, i) <= s.len() - i,
    decreases s.len() - i,
{
    if i < s.len() {
        lemma_count_true_le(s, i + 1);
    }
}

proof fn lemma_count_true_update(s: Seq<bool>, j: int, i: int)
    requires
        0 <= i <= s.len(),
        0 <= j < s.len(),
        !s[j],
    ensures
        spec_count_true(s.update(j, true), i) == spec_count_true(s, i) + (if i <= j {
            1int
        } else {
            0int
        }),
    decreases s.len() - i,
{
    if i < s.len() {
        lemma_count_true_update(s, j, i + 1);
    }
}

/// Selection flags over a catalog, from a list of selected indices;
/// indices out of range are ignored.
#[verifier::loop_isolation(false)]
pub fn flags_from_indices(n: usize, picked: &Vec<usize>) -> (r: Vec<bool>)
    ensures
        r@.len() == n,
        forall|j: int|
            0 <= j < n ==> (r@[j] <==> exists|k: int|
                0 <= k < picked@.len() && #[trigger] picked@[k] == j),
{
    let mut r: Vec<bool> = Vec::new();
    let mut j: usize = 0;
    while j < n
        invariant
            j <= n,
            r@.len() == j,
            forall|t: int| 0 <= t < j ==> !r@[t],
        decreases n - j,
    {
        r.push(false);
        j = j + 1;
    }
    let mut k: usize = 0;
    while k < picked.len()
        invariant
            r@.len() == n,
            k <= picked@.len(),
            forall|t: int|
                0 <= t < n ==> (r@[t] <==> exists|k2: int|
                    0 <= k2 < k && #[trigger] picked@[k2] == t),
        decreases picked@.len() - k,
    {
        let idx = picked[k];
        let ghost r0 = r@;
        if idx < n {
            r.set(idx, true);
        }
        proof {
            assert forall|t: int|
                0 <= t < n implies (r@[t] <==> exists|k2: int|
                0 <= k2 < k + 1 && #[trigger] picked@[k2] == t) by {
                if t == idx as int && idx < n {
                    assert(picked@[k as int] == t);
                } else {
                    assert(r@[t] == r0[t]);
                    if r0[t] {
                        let k2 = choose|k2: int| 0 <= k2 < k && picked@[k2] == t;
                        assert(picked@[k2] == t);
                    } else {
                        if exists|k2: int| 0 <= k2 < k + 1 && picked@[k2] == t {
                            let k2 = choose|k2: int| 0 <= k2 < k + 1 && picked@[k2] == t;
                            if k2 < k {
                                assert(r0[t]);
                            } else {
                                assert(picked@[k as int] == t);
                                assert(t == idx as int && idx < n);
                            }
                        }
                    }
                }
            }
        }
        k = k + 1;
    }
    r
}

/// The selected flag of every entry whose original path lies strictly
/// above a selected entry's original path, to a fixed point: restoring a
/// child needs its buried parents restored too.
#[verifier::loop_isolation(false)]
pub fn expand_selection(entries: &Vec<Entry>, sel: &mut Vec<bool>)
    requires
        old(sel)@.len() == entries@.len(),
    ensures
        final(sel)@.len() == entries@.len(),
        forall|t: int| 0 <= t < entries@.len() && old(sel)@[t] ==> final(sel)@[t],
        forall|i: int, j: int|
            0 <= i < entries@.len() && 0 <= j < entries@.len() && final(sel)@[i]
                && pathutil::spec_is_strict_ancestor(
                entries@[j].original_path@,
                entries@[i].original_path@,
            ) ==> final(sel)@[j],
        forall|j: int|
            0 <= j < entries@.len() && final(sel)@[j] && !old(sel)@[j] ==> exists|i: int|
                0 <= i < entries@.len() && final(sel)@[i] && pathutil::spec_is_strict_ancestor(
                    entries@[j].original_path@,
                    #[trigger] entries@[i].original_path@,
                ),
{
    let n = entries.len();
    let ghost base = sel@;
    let mut selected_count: usize = 0;
    let mut c: usize = 0;
    while c < n
        invariant
            c <= n,
            sel@ == base,
            sel@.len() == n,
            selected_count == spec_count_true(base, 0) - spec_count_true(base, c as int),
            selected_count <= c,
        decreases n - c,
    {
        proof {
            lemma_count_true_le(base, c + 1);
        }
        if sel[c] {
            selected_count = selected_count + 1;
        }
        c = c + 1;
    }
    proof {
        assert(spec_count_true(base, n as int) == 0);
        lemma_count_true_le(base, 0);
    }
    loop
        invariant
            sel@.len() == n,
            n == entries@.len(),
            selected_count == spec_count_true(sel@, 0),
            selected_count <= n,
            forall|t: int| 0 <= t < n && base[t] ==> sel@[t],
            forall|j: int|
                0 <= j < n && sel@[j] && !base[j] ==> exists|i: int|
                    0 <= i < n && sel@[i] && pathutil::spec_is_strict_ancestor(
                        entries@[j].original_path@,
                        #[trigger] entries@[i].original_path@,
                    ),
        decreases n - spec_count_true(sel@, 0),
    {
        let ghost round0 = sel@;
        let mut changed: bool = false;
        let mut i: usize = 0;
        while i < n
            invariant
                sel@.len() == n,
                n == entries@.len(),
                i <= n,
                selected_count == spec_count_true(sel@, 0),
                selected_count <= n,
                forall|t: int| 0 <= t < n && round0[t] ==> sel@[t],
                forall|t: int| 0 <= t < n && base[t] ==> sel@[t],
                forall|j: int|
                    0 <= j < n && sel@[j] && !base[j] ==> exists|i2: int|
                        0 <= i2 < n && sel@[i2] && pathutil::spec_is_strict_ancestor(
                            entries@[j].original_path@,
                            #[trigger] entries@[i2].original_path@,
                        ),
                !changed ==> sel@ == round0,
                changed ==> spec_count_true(sel@, 0) > spec_count_true(round0, 0),
                changed || (forall|i2: int, j2: int|
                    0 <= i2 < i && 0 <= j2 < n && sel@[i2] && pathutil::spec_is_strict_ancestor(
                        entries@[j2].original_path@,
                        entries@[i2].original_path@,
                    ) ==> sel@[j2]),
            decreases n - i,
        {
            if sel[i] {
                let mut j: usize = 0;
                while j < n
                    invariant
                        sel@.len() == n,
                        n == entries@.len(),
                        i < n,
                        j <= n,
                        sel@[i as int],
                        selected_count == spec_count_true(sel@, 0),
                        selected_count <= n,
                        forall|t: int| 0 <= t < n && round0[t] ==> sel@[t],
                        forall|t: int| 0 <= t < n && base[t] ==> sel@[t],
                        forall|j2: int|
                            0 <= j2 < n && sel@[j2] && !base[j2] ==> exists|i2: int|
                                0 <= i2 < n && sel@[i2] && pathutil::spec_is_strict_ancestor(
                                    entries@[j2].original_path@,
                                    #[trigger] entries@[i2].original_path@,
                                ),
                        !changed ==> sel@ == round0,
                        changed ==> spec_count_true(sel@, 0) > spec_count_true(round0, 0),
                        changed || (forall|i2: int, j2: int|
                            0 <= i2 < i && 0 <= j2 < n && sel@[i2]
                                && pathutil::spec_is_strict_ancestor(
                                entries@[j2].original_path@,
                                entries@[i2].original_path@,
                            ) ==> sel@[j2]),
                        changed || (forall|j2: int|
                            0 <= j2 < j && sel@[i as int] && pathutil::spec_is_strict_ancestor(
                                entries@[j2].original_path@,
                                entries@[i as int].original_path@,
                            ) ==> sel@[j2]),
                    decreases n - j,
                {
                    if !sel[j] && pathutil::is_strict_ancestor(
                        &entries[j].original_path,
                        &entries[i].original_path,
                    ) {
                        let ghost s0 = sel@;
                        sel.set(j, true);
                        proof {
                            lemma_count_true_update(s0, j as int, 0);
                            lemma_count_true_le(sel@, 0);
                            if !changed {
                                assert(spec_count_true(sel@, 0) > spec_count_true(round0, 0));
                            }
                            assert forall|j2: int|
                                0 <= j2 < n && sel@[j2] && !base[j2] implies exists|i2: int|
                                0 <= i2 < n && sel@[i2] && pathutil::spec_is_strict_ancestor(
                                    entries@[j2].original_path@,
                                    #[trigger] entries@[i2].original_path@,
                                ) by {
                                if j2 == j as int {
                                    assert(sel@[i as int] && pathutil::spec_is_strict_ancestor(
                                        entries@[j as int].original_path@,
                                        entries@[i as int].original_path@,
                                    ));
                                } else {
                                    assert(s0[j2]);
                                    let i2 = choose|i2: int|
                                        0 <= i2 < n && s0[i2]
                                            && pathutil::spec_is_strict_ancestor(
                                            entries@[j2].original_path@,
                                            entries@[i2].original_path@,
                                        );
                                    assert(sel@[i2]);
                                }
                            }
                        }
                        selected_count = selected_count + 1;
                        changed = true;
                    }
                    j = j + 1;
                }
            }
            i = i + 1;
        }
        if !changed {
            break;
        }
        proof {
            lemma_count_true_le(sel@, 0);
        }
    }
}

/// Entries reordered by ascending segment depth of their original paths:
/// parents restore before their descendants. Ties keep no particular
/// order, but nothing is lost or invented.
#[verifier::loop_isolation(false)]
pub fn sort_by_depth(entries: Vec<Entry>) -> (r: Vec<Entry>)
    ensures
        r@.len() == entries@.len(),
        r@.to_multiset() == entries@.to_multiset(),
        forall|k1: int, k2: int|
            0 <= k1 <= k2 < r@.len() ==> pathutil::spec_depth(#[trigger] r@[k1].original_path@)
                <= pathutil::spec_depth(#[trigger] r@[k2].original_path@),
{
    broadcast use vstd::seq_lib::group_to_multiset_ensures;

    let ghost all = entries@;
    let mut rem: Vec<Entry> = entries;
    let mut r: Vec<Entry> = Vec::new();
    proof {
        assert(r@.to_multiset().add(rem@.to_multiset()) =~= all.to_multiset());
    }
    while rem.len() > 0
        invariant
            r@.to_multiset().add(rem@.to_multiset()) == all.to_multiset(),
            r@.len() + rem@.len() == all.len(),
            forall|k1: int, k2: int|
                0 <= k1 <= k2 < r@.len() ==> pathutil::spec_depth(#[trigger] r@[k1].original_path@)
                    <= pathutil::spec_depth(#[trigger] r@[k2].original_path@),
            forall|k: int, t: int|
                0 <= k < r@.len() && 0 <= t < rem@.len() ==> pathutil::spec_depth(
                    #[trigger] r@[k].original_path@,
                ) <= pathutil::spec_depth(#[trigger] rem@[t].original_path@),
        decreases rem@.len(),
    {
        let mut min_at: usize = 0;
        let mut min_depth: usize = pathutil::path_depth(&rem[0].original_path);
        let mut t: usize = 1;
        while t < rem.len()
            invariant
                rem@.len() > 0,
                min_at < rem@.len(),
                t <= rem@.len(),
                min_depth == pathutil::spec_depth(rem@[min_at as int].original_path@),
                forall|u: int|
                    0 <= u < t ==> min_depth <= pathutil::spec_depth(
                        #[trigger] rem@[u].original_path@,
                    ),
            decreases rem@.len() - t,
        {
            let d = pathutil::path_depth(&rem[t].original_path);
            if d < min_depth {
                min_at = t;
                min_depth = d;
            }
            t = t + 1;
        }
        let ghost rem0 = rem@;
        let picked = rem.remove(min_at);
        let ghost r0 = r@;
        r.push(picked);
        proof {
            assert(rem0.remove(min_at as int).to_multiset() =~= rem0.to_multiset().remove(
                rem0[min_at as int],
            ));
            assert(r0.push(picked).to_multiset() =~= r0.to_multiset().insert(picked));
            assert(rem0.to_multiset().contains(rem0[min_at as int]));
            assert(r@.to_multiset().add(rem@.to_multiset()) =~= all.to_multiset());
        }
    }
    proof {
        assert(rem@.to_multiset() =~= Multiset::<Entry>::empty());
        assert(r@.to_multiset() =~= all.to_multiset());
    }
    r
}

/// Byte-lexicographic order on byte strings; a proper prefix comes first.
pub open spec fn lex_le(a: Seq<u8>, b: Seq<u8>) -> bool
    decreases a.len(),
{
    if a.len() == 0 {
        true
    } else if b.len() == 0 {
        false
    } else if a.first() < b.first() {
        true
    } else if a.first() > b.first() {
        false
    } else {
        lex_le(a.drop_first(), b.drop_first())
    }
}

pub open spec fn lex_lt(a: Seq<u8>, b: Seq<u8>) -> bool {
    lex_le(a, b) && a != b
}

pub proof fn lemma_lex_total(a: Seq<u8>, b: Seq<u8>)
    ensures
        lex_le(a, b) || lex_le(b, a),
    decreases a.len(),
{
    if a.len() > 0 && b.len() > 0 && a.first() == b.first() {
        lemma_lex_total(a.drop_first(), b.drop_first());
    }
}

pub proof fn lemma_lex_antisym(a: Seq<u8>, b: Seq<u8>)
    requires
        lex_le(a, b),
        lex_le(b, a),
    ensures
        a == b,
    decreases a.len(),
{
    if a.len() == 0 {
        assert(b.len() == 0);
        assert(a =~= b);
    } else {
        assert(b.len() > 0);
        assert(a.first() == b.first());
        lemma_lex_antisym(a.drop_first(), b.drop_first());
        assert forall|t: int| 0 <= t < a.len() implies a[t] == b[t] by {
            if t == 0 {
                assert(a[0] == a.first());
                assert(b[0] == b.first());
            } else {
                assert(a.drop_first()[t - 1] == a[t]);
                assert(b.drop_first()[t - 1] == b[t]);
            }
        }
        assert(a =~= b);
    }
}

pub proof fn lemma_lex_trans(a: Seq<u8>, b: Seq<u8>, c: Seq<u8>)
    requires
        lex_le(a, b),
        lex_le(b, c),
    ensures
        lex_le(a, c),
    decreases a.len(),
{
    if a.len() > 0 {
        assert(b.len() > 0);
        assert(c.len() > 0);
        if a.first() == b.first() && b.first() == c.first() {
            lemma_lex_trans(a.drop_first(), b.drop_first(), c.drop_first());
        }
    }
}

proof fn lemma_lex_skip(a: Seq<u8>, b: Seq<u8>, k: int)
    requires
        0 <= k <= a.len(),
        k <= b.len(),
        forall|t: int| 0 <= t < k ==> a[t] == b[t],
    ensures
        lex_le(a, b) == lex_le(a.skip(k), b.skip(k)),
    decreases k,
{
    if k > 0 {
        assert(a.len() > 0 && b.len() > 0 && a.first() == b.first());
        assert(a.drop_first() =~= a.skip(1));
        assert(b.drop_first() =~= b.skip(1));
        assert(forall|t: int| 0 <= t < k - 1 ==> a.skip(1)[t] == b.skip(1)[t]);
        lemma_lex_skip(a.skip(1), b.skip(1), k - 1);
        assert(a.skip(1).skip(k - 1) =~= a.skip(k));
        assert(b.skip(1).skip(k - 1) =~= b.skip(k));
    } else {
        assert(a.skip(0) =~= a);
        assert(b.skip(0) =~= b);
    }
}

/// Byte-lexicographic comparison.
#[verifier::loop_isolation(false)]
pub fn lex_le_bytes(a: &Vec<u8>, b: &Vec<u8>) -> (r: bool)
    ensures
        r == lex_le(a@, b@),
{
    let limit: usize = if a.len() < b.len() {
        a.len()
    } else {
        b.len()
    };
    let mut k: usize = 0;
    while k < limit
        invariant
            k <= limit,
            limit <= a@.len(),
            limit <= b@.len(),
            forall|t: int| 0 <= t < k ==> a@[t] == b@[t],
        decreases limit - k,
    {
        if a[k] < b[k] {
            proof {
                lemma_lex_skip(a@, b@, k as int);
                assert(a@.skip(k as int).first() == a@[k as int]);
                assert(b@.skip(k as int).first() == b@[k as int]);
            }
            return true;
        }
        if a[k] > b[k] {
            proof {
                lemma_lex_skip(a@, b@, k as int);
                assert(a@.skip(k as int).first() == a@[k as int]);
                assert(b@.skip(k as int).first() == b@[k as int]);
            }
            return false;
        }
        k = k + 1;
    }
    proof {
        lemma_lex_skip(a@, b@, limit as int);
        if a@.len() <= b@.len() {
            assert(a@.skip(limit as int).len() == 0);
        } else {
            assert(a@.skip(limit as int).len() > 0);
            assert(b@.skip(limit as int).len() == 0);
        }
    }
    a.len() <= b.len()
}

/// `x` is one of the strings completion offers for some entry: a short
/// identifier or an original basename.
pub open spec fn spec_is_candidate(entries: Seq<Entry>, x: Seq<u8>) -> bool {
    exists|i: int|
        0 <= i < entries.len() && (x == naming::spec_display_id(
            (#[trigger] entries[i]).trashed_path@,
        ) || x == pathutil::spec_basename(entries[i].original_path@))
}

/// Whether a candidate passes the completion filter.
pub open spec fn spec_filter_ok(prefix: Option<Seq<u8>>, x: Seq<u8>) -> bool {
    match prefix {
        None => true,
        Some(p) => bytesutil::spec_contains_ci(x, p),
    }
}

/// Some element of `v` holds exactly the bytes `x`.
pub open spec fn spec_has(v: Seq<Vec<u8>>, x: Seq<u8>) -> bool {
    exists|k: int| 0 <= k < v.len() && (#[trigger] v[k])@ == x
}

/// Strictly sorted: lexicographically increasing, so duplicate-free.
pub open spec fn spec_sorted_unique(v: Seq<Vec<u8>>) -> bool {
    forall|k1: int, k2: int|
        0 <= k1 < k2 < v.len() ==> lex_lt((#[trigger] v[k1])@, (#[trigger] v[k2])@)
}

/// Insert `c` into a strictly sorted list, keeping it strictly sorted;
/// a value already present stays unique.
#[verifier::loop_isolation(false)]
fn insert_candidate(out: &mut Vec<Vec<u8>>, c: Vec<u8>)
    requires
        spec_sorted_unique(old(out)@),
    ensures
        spec_sorted_unique(final(out)@),
        forall|x: Seq<u8>|
            #[trigger] spec_has(final(out)@, x) <==> spec_has(old(out)@, x) || x == c@,
{
    let ghost before = out@;
    let ghost cv = c@;
    let mut pos: usize = 0;
    while pos < out.len() && !lex_le_bytes(&c, &out[pos])
        invariant
            out@ == before,
            pos <= out@.len(),
            forall|t: int| 0 <= t < pos ==> lex_lt((#[trigger] out@[t])@, cv),
        decreases out@.len() - pos,
    {
        proof {
            let ov = (out@[pos as int])@;
            lemma_lex_total(cv, ov);
            if ov == cv {
                assert(lex_le(cv, ov));
            }
        }
        pos = pos + 1;
    }
    if pos < out.len() && bytesutil::eq_bytes(&out[pos], &c) {
        proof {
            assert((out@[pos as int])@ == cv);
            assert forall|x: Seq<u8>|
                #[trigger] spec_has(out@, x) <==> spec_has(before, x) || x == cv by {
                if x == cv {
                    assert((out@[pos as int])@ == x);
                    assert(spec_has(out@, x));
                }
            }
        }
        return ;
    }
    proof {
        if pos < out@.len() {
            assert(lex_le(cv, (out@[pos as int])@));
            assert((out@[pos as int])@ != cv);
        }
    }
    out.insert(pos, c);
    proof {
        assert(out@ == before.insert(pos as int, c));
        assert(forall|t: int| 0 <= t < pos ==> out@[t] == before[t]);
        assert(out@[pos as int] == c);
        assert(forall|t: int| pos < t < out@.len() ==> out@[t] == before[t - 1]);
        assert forall|k1: int, k2: int| 0 <= k1 < k2 < out@.len() implies lex_lt(
            (#[trigger] out@[k1])@,
            (#[trigger] out@[k2])@,
        ) by {
            if k1 == pos {
                let o2 = (before[k2 - 1])@;
                if k2 - 1 > pos as int {
                    assert(lex_lt((before[pos as int])@, o2));
                    assert(lex_le(cv, (before[pos as int])@));
                    lemma_lex_trans(cv, (before[pos as int])@, o2);
                    if cv == o2 {
                        lemma_lex_antisym(cv, (before[pos as int])@);
                    }
                } else {
                    assert(o2 == (before[pos as int])@);
                }
            } else if k2 == pos {
                assert(lex_lt((before[k1])@, cv));
            } else if k1 < pos && k2 > pos {
                assert(lex_lt((before[k1])@, (before[k2 - 1])@) || k1 == k2 - 1);
                if k1 == k2 - 1 {
                    assert(lex_lt((before[k1])@, cv));
                    assert(lex_le(cv, (before[k1])@));
                    lemma_lex_antisym(cv, (before[k1])@);
                } else {
                }
            } else if k2 < pos {
                assert(lex_lt((before[k1])@, (before[k2])@));
            } else {
                assert(lex_lt((before[k1 - 1])@, (before[k2 - 1])@));
            }
        }
        assert forall|x: Seq<u8>|
            #[trigger] spec_has(out@, x) <==> spec_has(before, x) || x == cv by {
            if spec_has(out@, x) {
                let k = choose|k: int| 0 <= k < out@.len() && (#[trigger] out@[k])@ == x;
                if k < pos {
                    assert((before[k])@ == x);
                    assert(spec_has(before, x));
                } else if k == pos {
                    assert(x == cv);
                } else {
                    assert((before[k - 1])@ == x);
                    assert(spec_has(before, x));
                }
            }
            if x == cv {
                assert((out@[pos as int])@ == x);
                assert(spec_has(out@, x));
            }
            if spec_has(before, x) {
                let k = choose|k: int| 0 <= k < before.len() && (#[trigger] before[k])@ == x;
                if k < pos {
                    assert((out@[k])@ == x);
                } else {
                    assert((out@[k + 1])@ == x);
                }
                assert(spec_has(out@, x));
            }
        }
    }
}

/// The strings completion offers for a prune or restore target: every
/// entry's short identifier and original basename, filtered by the typed
/// prefix if any, sorted and without duplicates.
#[verifier::loop_isolation(false)]
pub fn completion_candidates(entries: &Vec<Entry>, prefix: Option<&Vec<u8>>) -> (r: Vec<Vec<u8>>)
    ensures
        spec_sorted_unique(r@),
        forall|k: int|
            0 <= k < r@.len() ==> spec_is_candidate(entries@, (#[trigger] r@[k])@) && spec_filter_ok(
                match prefix {
                    None => None,
                    Some(p) => Some(p@),
                },
                (r@[k])@,
            ),
        forall|x: Seq<u8>|
            spec_is_candidate(entries@, x) && spec_filter_ok(
                match prefix {
                    None => None,
                    Some(p) => Some(p@),
                },
                x,
            ) ==> #[trigger] spec_has(r@, x),
{
    let ghost pv: Option<Seq<u8>> = match prefix {
        None => None,
        Some(p) => Some(p@),
    };
    let mut r: Vec<Vec<u8>> = Vec::new();
    let mut i: usize = 0;
    while i < entries.len()
        invariant
            i <= entries@.len(),
            pv == (match prefix {
                None => None::<Seq<u8>>,
                Some(p) => Some(p@),
            }),
            spec_sorted_unique(r@),
            forall|x: Seq<u8>|
                #[trigger] spec_has(r@, x) ==> spec_is_candidate(entries@, x) && spec_filter_ok(
                    pv,
                    x,
                ),
            forall|t: int, x: Seq<u8>|
                #![trigger entries@[t], spec_has(r@, x)]
                0 <= t < i && (x == naming::spec_display_id(entries@[t].trashed_path@) || x
                    == pathutil::spec_basename(entries@[t].original_path@)) && spec_filter_ok(
                    pv,
                    x,
                ) ==> spec_has(r@, x),
        decreases entries@.len() - i,
    {
        let id = naming::display_id(&entries[i]);
        let keep_id = match prefix {
            None => true,
            Some(p) => bytesutil::contains_ci(&id, p),
        };
        proof {
            assert(keep_id == spec_filter_ok(pv, id@));
        }
        if keep_id {
            let ghost idv = id@;
            insert_candidate(&mut r, id);
            proof {
                assert(spec_is_candidate(entries@, idv)) by {
                    assert(idv == naming::spec_display_id(entries@[i as int].trashed_path@));
                }
            }
        }
        let base = crate::index::basename_of_original(&entries[i]);
        let keep_base = match prefix {
            None => true,
            Some(p) => bytesutil::contains_ci(&base, p),
        };
        proof {
            assert(keep_base == spec_filter_ok(pv, base@));
        }
        if keep_base {
            let ghost bv = base@;
            insert_candidate(&mut r, base);
            proof {
                assert(spec_is_candidate(entries@, bv)) by {
                    assert(bv == pathutil::spec_basename(entries@[i as int].original_path@));
                }
            }
        }
        i = i + 1;
    }
    proof {
        assert forall|k: int|
            0 <= k < r@.len() implies spec_is_candidate(entries@, (#[trigger] r@[k])@)
            && spec_filter_ok(pv, (r@[k])@) by {
            assert(spec_has(r@, (r@[k])@));
        }
    }
    r
}

} // verus!
