//! Catalog-level laws of the graveyard: what burying followed by
//! resurrecting leaves behind, and what a prune without a match changes.
use vstd::prelude::*;

use crate::codec;
use crate::index::{catalog_wf, Entry, EntryV, entries_view};
use crate::naming;
use crate::pathutil;
use crate::safety;
use crate::select;

verus! {

/// Burying appends an entry under a fresh trashed path; resurrecting by
/// that trashed path finds exactly the new entry, and removing it leaves
/// the catalog as it was before the burial.
pub proof fn lemma_bury_then_resurrect(entries: Seq<Entry>, e: Entry)
    requires
        forall|j: int|
            0 <= j < entries.len() ==> (#[trigger] entries[j]).trashed_path@ != e.trashed_path@,
    ensures
        entries.push(e)[entries.len() as int] == e,
        forall|j: int|
            0 <= j < entries.len() ==> (#[trigger] entries.push(e)[j]).trashed_path@
                != e.trashed_path@,
        entries.push(e).remove(entries.len() as int) == entries,
{
    assert(entries.push(e).remove(entries.len() as int) =~= entries);
}

/// With nothing doomed, a prune keeps every entry, and the catalog it
/// writes back is byte-for-byte the one it read: pruning a target with no
/// match changes nothing.
pub proof fn lemma_prune_no_match_is_identity(entries: Seq<Entry>, failed: Seq<Seq<u8>>)
    ensures
        entries_view(entries).filter(select::prune_keep_fn(Seq::empty(), failed)) == entries_view(
            entries,
        ),
        codec::spec_render_catalog(
            entries_view(entries).filter(select::prune_keep_fn(Seq::empty(), failed)),
        ) == codec::spec_render_catalog(entries_view(entries)),
{
    lemma_filter_under_keep_all(entries_view(entries), failed);
}

proof fn lemma_filter_under_keep_all(s: Seq<EntryV>, failed: Seq<Seq<u8>>)
    ensures
        s.filter(select::prune_keep_fn(Seq::empty(), failed)) == s,
    decreases s.len(),
{
    reveal(Seq::<EntryV>::filter);
    if s.len() == 0 {
        assert(s.filter(select::prune_keep_fn(Seq::empty(), failed)) =~= s);
    } else {
        lemma_filter_under_keep_all(s.drop_last(), failed);
        assert(!select::spec_paths_contain(Seq::empty(), s.last().trashed_path));
        assert(select::prune_keep_fn(Seq::empty(), failed)(s.last()));
        assert(s.filter(select::prune_keep_fn(Seq::empty(), failed)) =~= s);
    }
}

/// Two trashed names built from the same timestamp and basename but
/// different equally long suffixes differ: each burial answers to its own
/// name.
pub proof fn lemma_unique_name_distinct_suffixes(
    ts: Seq<u8>,
    s1: Seq<u8>,
    s2: Seq<u8>,
    base: Seq<u8>,
)
    requires
        s1.len() == s2.len(),
        s1 != s2,
    ensures
        naming::spec_unique_name(ts, s1, base) != naming::spec_unique_name(ts, s2, base),
{
    let n1 = naming::spec_unique_name(ts, s1, base);
    let n2 = naming::spec_unique_name(ts, s2, base);
    if n1 == n2 {
        assert forall|k: int| 0 <= k < s1.len() implies s1[k] == s2[k] by {
            let off = ts.len() + 2 + k;
            assert(n1[off as int] == s1[k]);
            assert(n2[off as int] == s2[k]);
        }
        assert(s1 =~= s2);
    }
}

/// Every catalog the library serializes reads back as exactly the entries
/// that were written: after the atomic rename that publishes the file, the
/// canonical catalog is always fully readable.
pub proof fn lemma_saved_catalog_reads_back(entries: Seq<Entry>)
    ensures
        codec::spec_parse_catalog(codec::spec_render_catalog(entries_view(entries))) == Some(
            entries_view(entries),
        ),
{
    assert forall|t: int| 0 <= t < entries_view(entries).len() implies codec::entry_in_range(
        #[trigger] entries_view(entries)[t],
    ) by {
        assert(entries_view(entries)[t] == entries[t]@);
    }
    codec::lemma_catalog_round_trip(entries_view(entries));
}

/// Burying keeps the catalog well-formed: the guard passed the original
/// without needing force, and the fresh trashed path lies strictly inside
/// the graveyard and collides with no live entry.
pub proof fn lemma_wf_after_bury(entries: Seq<EntryV>, e: EntryV, graveyard: Seq<u8>)
    requires
        catalog_wf(entries, graveyard),
        safety::spec_classify(e.original_path, graveyard, true) == None::<safety::Forbid>,
        pathutil::spec_is_strict_ancestor(graveyard, e.trashed_path),
        forall|j: int|
            0 <= j < entries.len() ==> (#[trigger] entries[j]).trashed_path != e.trashed_path,
    ensures
        catalog_wf(entries.push(e), graveyard),
{
    let after = entries.push(e);
    assert(after[after.len() - 1] == e);
    assert(forall|j: int| 0 <= j < entries.len() ==> #[trigger] after[j] == entries[j]);
}

/// Restoring an entry keeps the catalog well-formed: removing a record
/// breaks no invariant of the records that stay.
pub proof fn lemma_wf_after_restore(entries: Seq<EntryV>, pos: int, graveyard: Seq<u8>)
    requires
        catalog_wf(entries, graveyard),
        0 <= pos < entries.len(),
    ensures
        catalog_wf(entries.remove(pos), graveyard),
{
    let after = entries.remove(pos);
    assert(forall|j: int|
        0 <= j < after.len() ==> #[trigger] after[j] == (if j < pos {
            entries[j]
        } else {
            entries[j + 1]
        }));
}

/// Pruning keeps the catalog well-formed: what a prune writes back — the
/// catalog filtered by the keep-test — is a subsequence of what it read.
pub proof fn lemma_wf_after_prune(
    entries: Seq<EntryV>,
    pred: spec_fn(EntryV) -> bool,
    graveyard: Seq<u8>,
)
    requires
        catalog_wf(entries, graveyard),
    ensures
        catalog_wf(entries.filter(pred), graveyard),
    decreases entries.len(),
{
    reveal(Seq::<EntryV>::filter);
    if entries.len() > 0 {
        let head = entries.drop_last();
        assert(catalog_wf(head, graveyard)) by {
            assert(forall|j: int| 0 <= j < head.len() ==> #[trigger] head[j] == entries[j]);
        }
        lemma_wf_after_prune(head, pred, graveyard);
        lemma_filter_members(head, pred);
        let kept = head.filter(pred);
        if pred(entries.last()) {
            let out = entries.filter(pred);
            assert(out == kept.push(entries.last()));
            assert forall|i: int, j: int|
                0 <= i < j < out.len() implies (#[trigger] out[i]).trashed_path != (
            #[trigger] out[j]).trashed_path by {
                if j == out.len() - 1 {
                    let ki = choose|k: int| 0 <= k < head.len() && head[k] == kept[i];
                    assert(entries[ki] == out[i]);
                    assert(entries[entries.len() - 1] == out[j]);
                } else {
                    assert(out[i] == kept[i] && out[j] == kept[j]);
                }
            }
            assert forall|i: int|
                0 <= i < out.len() implies pathutil::spec_is_strict_ancestor(
                graveyard,
                (#[trigger] out[i]).trashed_path,
            ) by {
                if i == out.len() - 1 {
                    assert(out[i] == entries.last());
                } else {
                    assert(out[i] == kept[i]);
                }
            }
            assert forall|i: int|
                0 <= i < out.len() implies !pathutil::spec_is_strict_ancestor(
                graveyard,
                (#[trigger] out[i]).original_path,
            ) && pathutil::spec_strip_trailing_slashes((#[trigger] out[i]).original_path)
                != pathutil::spec_strip_trailing_slashes(graveyard) by {
                if i == out.len() - 1 {
                    assert(out[i] == entries.last());
                } else {
                    assert(out[i] == kept[i]);
                }
            }
        } else {
            assert(entries.filter(pred) == kept);
        }
    } else {
        assert(entries.filter(pred) =~= entries);
    }
}

/// Every element a filter keeps was an element of the input.
proof fn lemma_filter_members(s: Seq<EntryV>, pred: spec_fn(EntryV) -> bool)
    ensures
        forall|i: int|
            0 <= i < s.filter(pred).len() ==> exists|k: int|
                0 <= k < s.len() && #[trigger] s[k] == #[trigger] s.filter(pred)[i],
    decreases s.len(),
{
    reveal(Seq::<EntryV>::filter);
    if s.len() > 0 {
        let head = s.drop_last();
        lemma_filter_members(head, pred);
        let kept = head.filter(pred);
        assert forall|i: int|
            0 <= i < s.filter(pred).len() implies exists|k: int|
            0 <= k < s.len() && #[trigger] s[k] == #[trigger] s.filter(pred)[i] by {
            if i < kept.len() {
                let k = choose|k: int| 0 <= k < head.len() && head[k] == kept[i];
                assert(s[k] == s.filter(pred)[i]);
            } else {
                assert(s.filter(pred)[i] == s.last());
                assert(s[s.len() - 1] == s.filter(pred)[i]);
            }
        }
    }
}

} // verus!
