//! Write-ahead journal records: one tab-separated line per intent or
//! completion marker, appended around every destructive move.
use vstd::prelude::*;

use crate::bytesutil;

verus! {

/// The four record states the journal knows.
#[derive(Clone, Copy, Debug, PartialEq, Eq, Structural)]
pub enum JournalTag {
    Pending,
    Done,
    RestorePending,
    RestoreDone,
}

pub open spec fn tag_bytes(t: JournalTag) -> Seq<u8> {
    match t {
        JournalTag::Pending => seq![
            'P' as u8,
            'E' as u8,
            'N' as u8,
            'D' as u8,
            'I' as u8,
            'N' as u8,
            'G' as u8,
        ],
        JournalTag::Done => seq!['D' as u8, 'O' as u8, 'N' as u8, 'E' as u8],
        JournalTag::RestorePending => seq![
            'R' as u8,
            'E' as u8,
            'S' as u8,
            'T' as u8,
            'O' as u8,
            'R' as u8,
            'E' as u8,
            '_' as u8,
            'P' as u8,
            'E' as u8,
            'N' as u8,
            'D' as u8,
            'I' as u8,
            'N' as u8,
            'G' as u8,
        ],
        JournalTag::RestoreDone => seq![
            'R' as u8,
            'E' as u8,
            'S' as u8,
            'T' as u8,
            'O' as u8,
            'R' as u8,
            'E' as u8,
            '_' as u8,
            'D' as u8,
            'O' as u8,
            'N' as u8,
            'E' as u8,
        ],
    }
}

/// One full journal record: `<STATE>\t<first>\t<second>\n`.
pub open spec fn spec_journal_line(t: JournalTag, a: Seq<u8>, b: Seq<u8>) -> Seq<u8> {
    tag_bytes(t) + seq![9u8] + a + seq![9u8] + b + seq![10u8]
}

fn push_tag(v: &mut Vec<u8>, t: JournalTag)
    ensures
        final(v)@ == old(v)@ + tag_bytes(t),
{
    match t {
        JournalTag::Pending => {
            v.push('P' as u8);
            v.push('E' as u8);
            v.push('N' as u8);
            v.push('D' as u8);
            v.push('I' as u8);
            v.push('N' as u8);
            v.push('G' as u8);
        },
        JournalTag::Done => {
            v.push('D' as u8);
            v.push('O' as u8);
            v.push('N' as u8);
            v.push('E' as u8);
        },
        JournalTag::RestorePending => {
            v.push('R' as u8);
            v.push('E' as u8);
            v.push('S' as u8);
            v.push('T' as u8);
            v.push('O' as u8);
            v.push('R' as u8);
            v.push('E' as u8);
            v.push('_' as u8);
            v.push('P' as u8);
            v.push('E' as u8);
            v.push('N' as u8);
            v.push('D' as u8);
            v.push('I' as u8);
            v.push('N' as u8);
            v.push('G' as u8);
        },
        JournalTag::RestoreDone => {
            v.push('R' as u8);
            v.push('E' as u8);
            v.push('S' as u8);
            v.push('T' as u8);
            v.push('O' as u8);
            v.push('R' as u8);
            v.push('E' as u8);
            v.push('_' as u8);
            v.push('D' as u8);
            v.push('O' as u8);
            v.push('N' as u8);
            v.push('E' as u8);
        },
    }
    proof {
        assert(v@ =~= old(v)@ + tag_bytes(t));
    }
}

/// Render one journal record, newline included; the caller appends it to
/// the journal file and syncs before moving anything.
pub fn journal_line(t: JournalTag, a: &Vec<u8>, b: &Vec<u8>) -> (r: Vec<u8>)
    ensures
        r@ == spec_journal_line(t, a@, b@),
{
    let mut r: Vec<u8> = Vec::new();
    push_tag(&mut r, t);
    r.push(9u8);
    bytesutil::push_bytes(&mut r, a);
    r.push(9u8);
    bytesutil::push_bytes(&mut r, b);
    r.push(10u8);
    proof {
        assert(r@ =~= spec_journal_line(t, a@, b@));
    }
    r
}

} // verus!
