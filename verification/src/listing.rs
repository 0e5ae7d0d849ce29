//! Presentation of catalog entries: the compact age, the one-line listing
//! format, and the lines handed to the interactive picker.
use vstd::prelude::*;

use chrono::TimeZone;

use crate::bytesutil;
use crate::index::{Entry, EntryV, Kind};
use crate::naming;
use crate::numfmt;
use crate::pathutil;

verus! {

/// One-letter tag for an entry kind.
pub fn kind_letter(k: Kind) -> (r: u8)
    ensures
        r == (match k {
            Kind::File => 'F' as u8,
            Kind::Dir => 'D' as u8,
            Kind::Symlink => 'L' as u8,
            Kind::Other => '?' as u8,
        }),
{
    match k {
        Kind::File => 'F' as u8,
        Kind::Dir => 'D' as u8,
        Kind::Symlink => 'L' as u8,
        Kind::Other => '?' as u8,
    }
}

/// Pictogram for an entry kind.
pub fn kind_icon(k: Kind) -> (r: &'static str)
    ensures
        k == Kind::File ==> r@ == "\u{1F4C4}"@,
        k == Kind::Dir ==> r@ == "\u{1F4C1}"@,
        k == Kind::Symlink ==> r@ == "\u{1F517}"@,
        k == Kind::Other ==> r@ == "\u{2754}"@,
{
    match k {
        Kind::File => "\u{1F4C4}",
        Kind::Dir => "\u{1F4C1}",
        Kind::Symlink => "\u{1F517}",
        Kind::Other => "\u{2754}",
    }
}

/// The same pictograms as raw UTF-8 bytes, for building listing lines.
pub open spec fn icon_bytes(k: Kind) -> Seq<u8> {
    match k {
        Kind::File => seq![240u8, 159u8, 147u8, 132u8],
        Kind::Dir => seq![240u8, 159u8, 147u8, 129u8],
        Kind::Symlink => seq![240u8, 159u8, 148u8, 151u8],
        Kind::Other => seq![226u8, 157u8, 148u8],
    }
}

fn push_icon(v: &mut Vec<u8>, k: Kind)
    ensures
        final(v)@ == old(v)@ + icon_bytes(k),
{
    match k {
        Kind::File => {
            v.push(240u8);
            v.push(159u8);
            v.push(147u8);
            v.push(132u8);
        },
        Kind::Dir => {
            v.push(240u8);
            v.push(159u8);
            v.push(147u8);
            v.push(129u8);
        },
        Kind::Symlink => {
            v.push(240u8);
            v.push(159u8);
            v.push(148u8);
            v.push(151u8);
        },
        Kind::Other => {
            v.push(226u8);
            v.push(157u8);
            v.push(148u8);
        },
    }
    proof {
        assert(v@ =~= old(v)@ + icon_bytes(k));
    }
}

/// Compact age with at most two units, as in `1m47s`, `3h12m` or `2d`.
pub open spec fn spec_compact_age(n: u64) -> Seq<u8> {
    if n < 60 {
        numfmt::spec_dec_nat(n as nat) + seq!['s' as u8]
    } else {
        let u1: u64 = if n >= 604800 {
            604800
        } else if n >= 86400 {
            86400
        } else if n >= 3600 {
            3600
        } else {
            60
        };
        let v1 = n as nat / u1 as nat;
        let r = n as int % u1 as int;
        let part1 = numfmt::spec_dec_nat(v1) + seq![unit_suffix(u1)];
        if r == 0 {
            part1
        } else {
            let u2: u64 = if u1 > 86400 && r >= 86400 {
                86400
            } else if u1 > 3600 && r >= 3600 {
                3600
            } else if u1 > 60 && r >= 60 {
                60
            } else {
                1
            };
            part1 + numfmt::spec_dec_nat((r / u2 as int) as nat) + seq![unit_suffix(u2)]
        }
    }
}

pub open spec fn unit_suffix(u: u64) -> u8 {
    if u == 604800 {
        'w' as u8
    } else if u == 86400 {
        'd' as u8
    } else if u == 3600 {
        'h' as u8
    } else if u == 60 {
        'm' as u8
    } else {
        's' as u8
    }
}

/// Render the age of `n` seconds with at most two units.
pub fn compact_age(n: u64) -> (r: Vec<u8>)
    ensures
        r@ == spec_compact_age(n),
{
    let mut v: Vec<u8> = Vec::new();
    if n < 60 {
        numfmt::push_dec_u64(&mut v, n);
        v.push('s' as u8);
        proof {
            assert(v@ =~= spec_compact_age(n));
        }
        return v;
    }
    let u1: u64 = if n >= 604800 {
        604800
    } else if n >= 86400 {
        86400
    } else if n >= 3600 {
        3600
    } else {
        60
    };
    numfmt::push_dec_u64(&mut v, n / u1);
    v.push(if u1 == 604800 {
        'w' as u8
    } else if u1 == 86400 {
        'd' as u8
    } else if u1 == 3600 {
        'h' as u8
    } else {
        'm' as u8
    });
    let r = n % u1;
    if r == 0 {
        proof {
            assert(v@ =~= spec_compact_age(n));
        }
        return v;
    }
    let u2: u64 = if u1 > 86400 && r >= 86400 {
        86400
    } else if u1 > 3600 && r >= 3600 {
        3600
    } else if u1 > 60 && r >= 60 {
        60
    } else {
        1
    };
    numfmt::push_dec_u64(&mut v, r / u2);
    v.push(if u2 == 86400 {
        'd' as u8
    } else if u2 == 3600 {
        'h' as u8
    } else if u2 == 60 {
        'm' as u8
    } else {
        's' as u8
    });
    proof {
        assert(v@ =~= spec_compact_age(n));
    }
    v
}

/// What the listing shows for the rendered burial time of `ts`. The exact
/// bytes come from the formatting routine alone, so they carry a name.
pub uninterp spec fn utc_when_of(ts: int) -> Seq<u8>;

/// Relies on `chrono::DateTime::from_timestamp` and its
/// `%Y-%m-%d %H:%M:%S UTC` formatting: the rendering depends on the
/// timestamp alone (out-of-range timestamps render as the epoch).
#[verifier::external_body]
fn human_when(ts: i64) -> (r: Vec<u8>)
    ensures
        r@ == utc_when_of(ts as int),
{
    let dt = match chrono::DateTime::from_timestamp(ts, 0) {
        Some(d) => d,
        None => chrono::DateTime::from_timestamp(0, 0).unwrap(),
    };
    dt.format("%Y-%m-%d %H:%M:%S UTC").to_string().into_bytes()
}

/// Relies on `chrono::Local.timestamp_opt` and `%Y-%m-%d %H:%M:%S`
/// formatting: the machine's time zone takes part, so nothing is promised
/// of the bytes.
#[verifier::external_body]
fn local_when(ts: i64) -> (r: Vec<u8>) {
    let dt = match chrono::Local.timestamp_opt(ts, 0).single() {
        Some(d) => d,
        None => chrono::Local.timestamp_opt(0, 0).single().unwrap(),
    };
    dt.format("%Y-%m-%d %H:%M:%S").to_string().into_bytes()
}

/// Seconds between the burial and `now`, zero when the burial lies in the
/// future or before the epoch.
pub open spec fn spec_entry_age(now_secs: u64, deleted_at: int) -> u64 {
    if deleted_at >= 0 && deleted_at <= now_secs {
        (now_secs - deleted_at) as u64
    } else {
        0
    }
}

pub fn entry_age(now_secs: u64, deleted_at: i64) -> (r: u64)
    ensures
        r == spec_entry_age(now_secs, deleted_at as int),
{
    if deleted_at >= 0 && deleted_at as u64 <= now_secs {
        now_secs - deleted_at as u64
    } else {
        0
    }
}

/// The identifier padded to seven bytes with spaces, as the listing
/// aligns it.
pub open spec fn pad7(s: Seq<u8>) -> Seq<u8> {
    if s.len() >= 7 {
        s
    } else {
        s + Seq::new((7 - s.len()) as nat, |k: int| ' ' as u8)
    }
}

/// One listing line for an entry, given the rendered local time `when`:
/// `ID  <icon> <letter>  (<when>)  <basename>  <original> (<age>)`.
pub open spec fn spec_list_line(e: EntryV, when: Seq<u8>, now_secs: u64) -> Seq<u8> {
    pad7(naming::spec_display_id(e.trashed_path)) + seq![' ' as u8, ' ' as u8] + icon_bytes(e.kind)
        + seq![' ' as u8] + seq![
        match e.kind {
            Kind::File => 'F' as u8,
            Kind::Dir => 'D' as u8,
            Kind::Symlink => 'L' as u8,
            Kind::Other => '?' as u8,
        },
    ] + seq![' ' as u8, ' ' as u8, '(' as u8] + when + seq![')' as u8, ' ' as u8, ' ' as u8]
        + pathutil::spec_basename(e.original_path) + seq![' ' as u8, ' ' as u8] + e.original_path
        + seq![' ' as u8, '(' as u8] + spec_compact_age(spec_entry_age(now_secs, e.deleted_at))
        + seq![')' as u8]
}

/// Build one listing line from an entry, a rendered time, and the clock.
#[verifier::loop_isolation(false)]
#[verifier::rlimit(100)]
pub fn list_line(e: &Entry, when: &Vec<u8>, now_secs: u64) -> (r: Vec<u8>)
    ensures
        r@ == spec_list_line(e@, when@, now_secs),
{
    let id = naming::display_id(e);
    let mut v = bytesutil::clone_bytes(&id);
    let mut pad: usize = id.len();
    while pad < 7
        invariant
            id@.len() <= pad <= 7 || (id@.len() > 7 && pad == id@.len()),
            id@.len() >= 7 ==> v@ == id@,
            id@.len() < 7 ==> v@ == id@ + Seq::new((pad - id@.len()) as nat, |k: int| ' ' as u8),
        decreases 7 - pad,
    {
        v.push(' ' as u8);
        proof {
            if id@.len() < 7 {
                assert(v@ =~= id@ + Seq::new((pad + 1 - id@.len()) as nat, |k: int| ' ' as u8));
            }
        }
        pad = pad + 1;
    }
    proof {
        assert(v@ == pad7(id@));
    }
    v.push(' ' as u8);
    v.push(' ' as u8);
    push_icon(&mut v, e.kind);
    v.push(' ' as u8);
    v.push(kind_letter(e.kind));
    v.push(' ' as u8);
    v.push(' ' as u8);
    v.push('(' as u8);
    bytesutil::push_bytes(&mut v, when);
    v.push(')' as u8);
    v.push(' ' as u8);
    v.push(' ' as u8);
    let base = crate::index::basename_of_original(e);
    bytesutil::push_bytes(&mut v, &base);
    v.push(' ' as u8);
    v.push(' ' as u8);
    bytesutil::push_bytes(&mut v, &e.original_path);
    v.push(' ' as u8);
    v.push('(' as u8);
    let age = compact_age(entry_age(now_secs, e.deleted_at));
    bytesutil::push_bytes(&mut v, &age);
    v.push(')' as u8);
    proof {
        assert(v@ =~= spec_list_line(e@, when@, now_secs));
    }
    v
}

/// `line` is the listing line of `e` under some rendering of its local
/// burial time.
pub open spec fn is_list_line_for(line: Seq<u8>, e: EntryV, now_secs: u64) -> bool {
    exists|w: Seq<u8>| line == spec_list_line(e, w, now_secs)
}

/// All listing lines for a catalog. The rendered local times come from the
/// machine's time zone, so each line is pinned only up to that part.
pub fn list_lines(entries: &Vec<Entry>, now_secs: u64) -> (lines: Vec<Vec<u8>>)
    ensures
        lines@.len() == entries@.len(),
        forall|i: int|
            0 <= i < lines@.len() ==> is_list_line_for(
                (#[trigger] lines@[i])@,
                entries@[i]@,
                now_secs,
            ),
{
    let mut lines: Vec<Vec<u8>> = Vec::new();
    let ghost mut whens: Seq<Seq<u8>> = Seq::empty();
    let mut i: usize = 0;
    while i < entries.len()
        invariant
            i <= entries@.len(),
            lines@.len() == i,
            whens.len() == i,
            forall|t: int|
                0 <= t < i ==> (#[trigger] lines@[t])@ == spec_list_line(
                    entries@[t]@,
                    whens[t],
                    now_secs,
                ),
        decreases entries@.len() - i,
    {
        let when = local_when(entries[i].deleted_at);
        let line = list_line(&entries[i], &when, now_secs);
        let ghost wv = when@;
        lines.push(line);
        proof {
            whens = whens.push(wv);
        }
        i = i + 1;
    }
    proof {
        assert forall|t: int| 0 <= t < lines@.len() implies is_list_line_for(
            (#[trigger] lines@[t])@,
            entries@[t]@,
            now_secs,
        ) by {
            assert((lines@[t])@ == spec_list_line(entries@[t]@, whens[t], now_secs));
        }
    }
    lines
}

/// One line handed to the interactive picker:
/// `<index>\t<time>\t<original>\t->\t<trashed>`.
pub open spec fn spec_fzf_line(i: int, e: EntryV) -> Seq<u8> {
    numfmt::spec_dec_nat(i as nat) + seq![9u8] + utc_when_of(e.deleted_at) + seq![9u8]
        + e.original_path + seq![9u8, '-' as u8, '>' as u8, 9u8] + e.trashed_path
}

/// Build the picker's input lines: one per entry, in catalog order.
#[verifier::loop_isolation(false)]
pub fn build_fzf_lines(idx: &crate::index::Index) -> (lines: Vec<Vec<u8>>)
    ensures
        lines@.len() == idx.items@.len(),
        forall|i: int|
            0 <= i < lines@.len() ==> (#[trigger] lines@[i])@ == spec_fzf_line(i, idx.items@[i]@),
{
    let entries = &idx.items;
    let mut lines: Vec<Vec<u8>> = Vec::new();
    let mut i: usize = 0;
    while i < entries.len()
        invariant
            i <= entries@.len(),
            lines@.len() == i,
            forall|t: int|
                0 <= t < i ==> (#[trigger] lines@[t])@ == spec_fzf_line(t, entries@[t]@),
        decreases entries@.len() - i,
    {
        let e = &entries[i];
        let mut line: Vec<u8> = Vec::new();
        numfmt::push_dec_u64(&mut line, i as u64);
        line.push(9u8);
        let when = human_when(e.deleted_at);
        bytesutil::push_bytes(&mut line, &when);
        line.push(9u8);
        bytesutil::push_bytes(&mut line, &e.original_path);
        line.push(9u8);
        line.push('-' as u8);
        line.push('>' as u8);
        line.push(9u8);
        bytesutil::push_bytes(&mut line, &e.trashed_path);
        proof {
            assert(line@ =~= spec_fzf_line(i as int, entries@[i as int]@));
        }
        lines.push(line);
        i = i + 1;
    }
    lines
}

} // verus!
