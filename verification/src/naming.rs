//! Trashed-name synthesis and its inverse: the unique name given to a
//! buried object, the short identifier derived back from it, and the
//! temporary sibling used by the cross-filesystem fallback.
use vstd::prelude::*;

use base64::Engine;
use rand::Rng;

use crate::bytesutil;
use crate::numfmt;
use crate::pathutil;

verus! {

pub open spec fn is_b64url_byte(b: u8) -> bool {
    ||| 'A' as u8 <= b <= 'Z' as u8
    ||| 'a' as u8 <= b <= 'z' as u8
    ||| '0' as u8 <= b <= '9' as u8
    ||| b == '-' as u8
    ||| b == '_' as u8
}

/// Relies on `rand::rng` and `Rng::fill_bytes`: six bytes of fresh
/// randomness. Nothing can be promised of their values.
#[verifier::external_body]
fn random_bytes6() -> (r: Vec<u8>)
    ensures
        r@.len() == 6,
{
    let mut b = [0u8; 6];
    rand::rng().fill_bytes(&mut b);
    b.to_vec()
}

/// Relies on `base64::engine::general_purpose::URL_SAFE_NO_PAD.encode`:
/// unpadded base64 over the URL-safe alphabet `A-Z a-z 0-9 - _`, four
/// output characters for every three input bytes, rounded up. The bound on
/// the input keeps the output length computation from overflowing, on
/// which the encoder panics.
#[verifier::external_body]
fn b64url_no_pad(bytes: &Vec<u8>) -> (r: Vec<u8>)
    requires
        bytes@.len() * 4 <= usize::MAX,
    ensures
        r@.len() == (bytes@.len() * 4 + 2) / 3,
        forall|k: int| 0 <= k < r@.len() ==> is_b64url_byte(#[trigger] r@[k]),
{
    base64::engine::general_purpose::URL_SAFE_NO_PAD.encode(bytes.as_slice()).into_bytes()
}

/// Relies on `chrono::Local::now` and its `%Y%m%dT%H%M%S` formatting: the
/// clock and time zone decide the digits, so only the shape is stated —
/// every byte is a digit, a sign, or the literal `T`; never a separator
/// that the name scheme uses.
#[verifier::external_body]
fn local_timestamp_compact() -> (r: Vec<u8>)
    ensures
        r@.len() >= 1,
        forall|k: int|
            0 <= k < r@.len() ==> (numfmt::is_digit(#[trigger] r@[k]) || r@[k] == 'T' as u8 || r@[k]
                == '-' as u8 || r@[k] == '+' as u8),
{
    chrono::Local::now().format("%Y%m%dT%H%M%S").to_string().into_bytes()
}

/// Relies on `chrono::Utc::now().timestamp()`: the current time in epoch
/// seconds. The clock decides the value, so nothing is promised of it.
#[verifier::external_body]
pub(crate) fn epoch_seconds() -> (r: i64)
{
    chrono::Utc::now().timestamp()
}

/// Eight base64url characters drawn from six random bytes: the middle part
/// of every trashed name.
pub fn rand_suffix() -> (r: Vec<u8>)
    ensures
        r@.len() == 8,
        forall|k: int| 0 <= k < r@.len() ==> is_b64url_byte(#[trigger] r@[k]),
{
    let b = random_bytes6();
    b64url_no_pad(&b)
}

pub open spec fn dunder() -> Seq<u8> {
    seq!['_' as u8, '_' as u8]
}

/// `<timestamp>__<suffix>__<basename>`.
pub open spec fn spec_unique_name(ts: Seq<u8>, suffix: Seq<u8>, base: Seq<u8>) -> Seq<u8> {
    ts + dunder() + suffix + dunder() + base
}

pub fn unique_name(ts: &Vec<u8>, suffix: &Vec<u8>, base: &Vec<u8>) -> (r: Vec<u8>)
    ensures
        r@ == spec_unique_name(ts@, suffix@, base@),
{
    let mut r = bytesutil::clone_bytes(ts);
    r.push('_' as u8);
    r.push('_' as u8);
    bytesutil::push_bytes(&mut r, suffix);
    r.push('_' as u8);
    r.push('_' as u8);
    bytesutil::push_bytes(&mut r, base);
    proof {
        assert(r@ =~= spec_unique_name(ts@, suffix@, base@));
    }
    r
}

fn dunder_bytes() -> (r: Vec<u8>)
    ensures
        r@ == dunder(),
{
    let mut r: Vec<u8> = Vec::new();
    r.push('_' as u8);
    r.push('_' as u8);
    proof {
        assert(r@ =~= dunder());
    }
    r
}

/// The short identifier shown for an entry: up to seven bytes of the part
/// of the trashed file name between the first and second `__`, or `-` when
/// the name has no `__` at all.
pub open spec fn spec_display_id(trashed: Seq<u8>) -> Seq<u8> {
    let name = pathutil::spec_basename(trashed);
    match bytesutil::spec_find_at(name, dunder(), 0) {
        None => seq!['-' as u8],
        Some(p1) => {
            let start = p1 + 2;
            let mid_end = match bytesutil::spec_find_at(name, dunder(), start) {
                None => name.len() as int,
                Some(p2) => p2,
            };
            let mid = name.subrange(start, mid_end);
            if mid.len() <= 7 {
                mid
            } else {
                mid.take(7)
            }
        },
    }
}

#[verifier::loop_isolation(false)]
pub fn display_id(e: &crate::index::Entry) -> (r: Vec<u8>)
    ensures
        r@ == spec_display_id(e.trashed_path@),
{
    let name = pathutil::basename(&e.trashed_path);
    let _n: usize = name.len();
    let sep = dunder_bytes();
    match bytesutil::find_at(&name, &sep, 0) {
        None => {
            let mut r: Vec<u8> = Vec::new();
            r.push('-' as u8);
            proof {
                assert(r@ =~= seq!['-' as u8]);
            }
            r
        },
        Some(p1) => {
            proof {
                crate::bytesutil::lemma_find_at_bounds(name@, dunder(), 0);
            }
            let start = p1 + 2;
            let mid_end = match bytesutil::find_at(&name, &sep, start) {
                None => name.len(),
                Some(p2) => p2,
            };
            proof {
                crate::bytesutil::lemma_find_at_bounds(name@, dunder(), start as int);
            }
            let take = if mid_end - start <= 7 {
                mid_end - start
            } else {
                7
            };
            let mut r: Vec<u8> = Vec::new();
            let mut k: usize = 0;
            while k < take
                invariant
                    start + take <= name@.len(),
                    k <= take,
                    r@ == name@.subrange(start as int, start + k),
                decreases take - k,
            {
                r.push(name[start + k]);
                proof {
                    assert(name@.subrange(start as int, start + k + 1) =~= name@.subrange(
                        start as int,
                        start + k,
                    ).push(name@[start + k]));
                }
                k = k + 1;
            }
            proof {
                let mid = name@.subrange(start as int, mid_end as int);
                if mid.len() <= 7 {
                    assert(r@ =~= mid);
                } else {
                    assert(r@ =~= mid.take(7));
                }
            }
            r
        },
    }
}

/// Index of the last `.` in `p`, if any.
pub open spec fn spec_last_dot(p: Seq<u8>) -> Option<int>
    decreases p.len(),
{
    if p.len() == 0 {
        None
    } else if p.last() == '.' as u8 {
        Some(p.len() - 1)
    } else {
        spec_last_dot(p.drop_last())
    }
}

/// Where the extension of `p` begins (the `.` before it), or the length of
/// `p` when its final segment has no extension. A leading `.` of the final
/// segment does not begin an extension.
pub open spec fn spec_ext_start(p: Seq<u8>) -> int {
    let nb_start = match pathutil::spec_last_slash(p) {
        None => 0,
        Some(sl) => sl + 1,
    };
    match spec_last_dot(p) {
        None => p.len() as int,
        Some(d) => if d > nb_start {
            d
        } else {
            p.len() as int
        },
    }
}

/// The temporary sibling used while copying across filesystems: the
/// destination name with its extension replaced by `copying` (or with
/// `.copying` appended when it has none).
pub open spec fn spec_copying_sibling(p: Seq<u8>) -> Seq<u8> {
    p.take(spec_ext_start(p)) + seq![
        '.' as u8,
        'c' as u8,
        'o' as u8,
        'p' as u8,
        'y' as u8,
        'i' as u8,
        'n' as u8,
        'g' as u8,
    ]
}

#[verifier::loop_isolation(false)]
fn last_dot(p: &Vec<u8>) -> (r: Option<usize>)
    ensures
        match r {
            Some(i) => spec_last_dot(p@) == Some(i as int) && i < p@.len(),
            None => spec_last_dot(p@) == None::<int>,
        },
{
    let mut j: usize = p.len();
    proof {
        assert(p@.take(p@.len() as int) =~= p@);
    }
    while j > 0
        invariant
            j <= p.len(),
            spec_last_dot(p@) == spec_last_dot(p@.take(j as int)),
        decreases j,
    {
        if p[j - 1] == '.' as u8 {
            proof {
                assert(p@.take(j as int).last() == '.' as u8);
            }
            return Some(j - 1);
        }
        proof {
            assert(p@.take(j as int).last() != '.' as u8);
            assert(p@.take(j as int).drop_last() =~= p@.take(j as int - 1));
        }
        j = j - 1;
    }
    proof {
        assert(p@.take(0) =~= Seq::<u8>::empty());
    }
    None
}

#[verifier::loop_isolation(false)]
pub fn copying_sibling(p: &Vec<u8>) -> (r: Vec<u8>)
    ensures
        r@ == spec_copying_sibling(p@),
{
    let _n: usize = p.len();
    let nb_start: usize = match pathutil::last_slash(p) {
        None => 0,
        Some(sl) => sl + 1,
    };
    let stem_end: usize = match last_dot(p) {
        None => p.len(),
        Some(d) => if d > nb_start {
            d
        } else {
            p.len()
        },
    };
    let mut r: Vec<u8> = Vec::new();
    let mut k: usize = 0;
    while k < stem_end
        invariant
            k <= stem_end <= p@.len(),
            r@ == p@.take(k as int),
        decreases stem_end - k,
    {
        r.push(p[k]);
        proof {
            assert(p@.take(k + 1) =~= p@.take(k as int).push(p@[k as int]));
        }
        k = k + 1;
    }
    r.push('.' as u8);
    r.push('c' as u8);
    r.push('o' as u8);
    r.push('p' as u8);
    r.push('y' as u8);
    r.push('i' as u8);
    r.push('n' as u8);
    r.push('g' as u8);
    proof {
        assert(r@ =~= spec_copying_sibling(p@));
    }
    r
}

/// `name` has the shape of a freshly minted trashed name for `base`: a
/// timestamp free of underscores and separators, then `__`, then eight
/// base64url bytes, then `__`, then the original basename.
pub open spec fn spec_is_trash_name_for(name: Seq<u8>, base: Seq<u8>) -> bool {
    exists|ts: Seq<u8>, sfx: Seq<u8>|
        #![trigger spec_unique_name(ts, sfx, base)]
        {
            &&& name == spec_unique_name(ts, sfx, base)
            &&& ts.len() >= 1
            &&& forall|k: int| 0 <= k < ts.len() ==> #[trigger] ts[k] != '_' as u8
            &&& forall|k: int| 0 <= k < ts.len() ==> #[trigger] ts[k] != '/' as u8
            &&& sfx.len() == 8
            &&& forall|k: int| 0 <= k < sfx.len() ==> is_b64url_byte(#[trigger] sfx[k])
        }
}

/// Mint the unique name a burial uses: the local timestamp, the random
/// suffix, and the original basename, joined by double underscores.
pub fn fresh_trash_name(base: &Vec<u8>) -> (r: Vec<u8>)
    ensures
        spec_is_trash_name_for(r@, base@),
{
    let ts = local_timestamp_compact();
    let sfx = rand_suffix();
    let r = unique_name(&ts, &sfx, base);
    proof {
        assert(forall|k: int| 0 <= k < ts@.len() ==> #[trigger] ts@[k] != '_' as u8);
        assert(forall|k: int| 0 <= k < ts@.len() ==> #[trigger] ts@[k] != '/' as u8);
        assert(spec_unique_name(ts@, sfx@, base@) == r@);
    }
    r
}

} // verus!
