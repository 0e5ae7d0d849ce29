//! The catalog file format: a JSON document `{"items":[...]}`, one object
//! per entry with fields `original_path`, `trashed_path`, `deleted_at` and
//! `kind` (absent `kind` reads as `Other`, for older catalogs).
//!
//! The writer emits a compact document; the reader tolerates whitespace
//! between tokens and a missing `kind` field, and accepts the usual string
//! escapes plus `\uXXXX` for code points below `0x80`. Paths are byte
//! strings: bytes at or above `0x20` other than `"` and `\` pass through
//! unescaped. Reading back what was written yields the same entries
//! ([`lemma_catalog_round_trip`]).
use vstd::prelude::*;

use crate::bytesutil;
use crate::index::{Entry, EntryV, Kind, entries_view};
use crate::numfmt;

verus! {

pub open spec fn qu() -> u8 {
    '"' as u8
}

pub open spec fn bsl() -> u8 {
    '\\' as u8
}

pub open spec fn is_ws(b: u8) -> bool {
    b == ' ' as u8 || b == 9 || b == 10 || b == 13
}

/// Lowercase hex digit for a value below 16.
pub open spec fn hex_digit(n: int) -> u8 {
    if n < 10 {
        ('0' as u8 + n) as u8
    } else {
        ('a' as u8 + (n - 10)) as u8
    }
}

/// How one byte of a path is written inside a JSON string.
pub open spec fn esc_byte(b: u8) -> Seq<u8> {
    if b == qu() {
        seq![bsl(), qu()]
    } else if b == bsl() {
        seq![bsl(), bsl()]
    } else if b == 8 {
        seq![bsl(), 'b' as u8]
    } else if b == 9 {
        seq![bsl(), 't' as u8]
    } else if b == 10 {
        seq![bsl(), 'n' as u8]
    } else if b == 12 {
        seq![bsl(), 'f' as u8]
    } else if b == 13 {
        seq![bsl(), 'r' as u8]
    } else if b < 32 {
        seq![bsl(), 'u' as u8, '0' as u8, '0' as u8, hex_digit(b as int / 16), hex_digit(
            b as int % 16,
        )]
    } else {
        seq![b]
    }
}

pub open spec fn spec_escape(x: Seq<u8>) -> Seq<u8>
    decreases x.len(),
{
    if x.len() == 0 {
        Seq::empty()
    } else {
        esc_byte(x[0]) + spec_escape(x.drop_first())
    }
}

/// A whole JSON string: quotes around the escaped bytes.
pub open spec fn spec_quoted(x: Seq<u8>) -> Seq<u8> {
    seq![qu()] + (spec_escape(x) + seq![qu()])
}

pub open spec fn key_items_q() -> Seq<u8> {
    seq![qu(), 'i' as u8, 't' as u8, 'e' as u8, 'm' as u8, 's' as u8, qu()]
}

pub open spec fn key_original_q() -> Seq<u8> {
    seq![
        qu(),
        'o' as u8,
        'r' as u8,
        'i' as u8,
        'g' as u8,
        'i' as u8,
        'n' as u8,
        'a' as u8,
        'l' as u8,
        '_' as u8,
        'p' as u8,
        'a' as u8,
        't' as u8,
        'h' as u8,
        qu(),
    ]
}

pub open spec fn key_trashed_q() -> Seq<u8> {
    seq![
        qu(),
        't' as u8,
        'r' as u8,
        'a' as u8,
        's' as u8,
        'h' as u8,
        'e' as u8,
        'd' as u8,
        '_' as u8,
        'p' as u8,
        'a' as u8,
        't' as u8,
        'h' as u8,
        qu(),
    ]
}

pub open spec fn key_deleted_q() -> Seq<u8> {
    seq![
        qu(),
        'd' as u8,
        'e' as u8,
        'l' as u8,
        'e' as u8,
        't' as u8,
        'e' as u8,
        'd' as u8,
        '_' as u8,
        'a' as u8,
        't' as u8,
        qu(),
    ]
}

pub open spec fn key_kind_q() -> Seq<u8> {
    seq![qu(), 'k' as u8, 'i' as u8, 'n' as u8, 'd' as u8, qu()]
}

pub open spec fn kind_lit(k: Kind) -> Seq<u8> {
    match k {
        Kind::File => seq![qu(), 'F' as u8, 'i' as u8, 'l' as u8, 'e' as u8, qu()],
        Kind::Dir => seq![qu(), 'D' as u8, 'i' as u8, 'r' as u8, qu()],
        Kind::Symlink => seq![
            qu(),
            'S' as u8,
            'y' as u8,
            'm' as u8,
            'l' as u8,
            'i' as u8,
            'n' as u8,
            'k' as u8,
            qu(),
        ],
        Kind::Other => seq![qu(), 'O' as u8, 't' as u8, 'h' as u8, 'e' as u8, 'r' as u8, qu()],
    }
}

/// One rendered entry object, fields in a fixed order, kind included.
/// Grouped from the right so that regions peel off the front one by one.
pub open spec fn spec_render_entry(e: EntryV) -> Seq<u8> {
    seq!['{' as u8] + (key_original_q() + (seq![':' as u8] + (spec_quoted(e.original_path) + (seq![
        ',' as u8,
    ] + (key_trashed_q() + (seq![':' as u8] + (spec_quoted(e.trashed_path) + (seq![',' as u8]
        + (key_deleted_q() + (seq![':' as u8] + (numfmt::spec_dec_int(e.deleted_at) + (seq![
        ',' as u8,
    ] + (key_kind_q() + (seq![':' as u8] + (kind_lit(e.kind) + seq!['}' as u8])))))))))))))))
}

/// Second and later rendered entries, each preceded by a comma.
pub open spec fn spec_render_items_rest(xs: Seq<EntryV>) -> Seq<u8>
    decreases xs.len(),
{
    if xs.len() == 0 {
        Seq::empty()
    } else {
        seq![',' as u8] + spec_render_entry(xs[0]) + spec_render_items_rest(xs.drop_first())
    }
}

pub open spec fn spec_render_items(xs: Seq<EntryV>) -> Seq<u8> {
    if xs.len() == 0 {
        Seq::empty()
    } else {
        spec_render_entry(xs[0]) + spec_render_items_rest(xs.drop_first())
    }
}

/// The whole catalog document, grouped from the right.
pub open spec fn spec_render_catalog(xs: Seq<EntryV>) -> Seq<u8> {
    seq!['{' as u8] + (key_items_q() + (seq![':' as u8, '[' as u8] + (spec_render_items(xs)
        + seq![']' as u8, '}' as u8])))
}

pub proof fn lemma_escape_snoc(x: Seq<u8>, b: u8)
    ensures
        spec_escape(x.push(b)) == spec_escape(x) + esc_byte(b),
    decreases x.len(),
{
    if x.len() == 0 {
        assert(x.push(b)[0] == b);
        assert(x.push(b).drop_first() =~= Seq::<u8>::empty());
        assert(spec_escape(x.push(b)) == esc_byte(b) + spec_escape(Seq::<u8>::empty()));
        assert(spec_escape(Seq::<u8>::empty()) =~= Seq::<u8>::empty());
        assert(spec_escape(x) =~= Seq::<u8>::empty());
        assert(spec_escape(x.push(b)) =~= spec_escape(x) + esc_byte(b));
    } else {
        assert(x.push(b).drop_first() =~= x.drop_first().push(b));
        lemma_escape_snoc(x.drop_first(), b);
        assert(spec_escape(x.push(b)) == esc_byte(x[0]) + spec_escape(x.drop_first().push(b)));
        assert(esc_byte(x[0]) + (spec_escape(x.drop_first()) + esc_byte(b)) =~= (esc_byte(x[0])
            + spec_escape(x.drop_first())) + esc_byte(b));
    }
}

pub proof fn lemma_render_items_rest_snoc(xs: Seq<EntryV>, e: EntryV)
    ensures
        spec_render_items_rest(xs.push(e)) == spec_render_items_rest(xs) + seq![',' as u8]
            + spec_render_entry(e),
    decreases xs.len(),
{
    if xs.len() == 0 {
        assert(xs.push(e)[0] == e);
        assert(xs.push(e).drop_first() =~= Seq::<EntryV>::empty());
        assert(spec_render_items_rest(xs.push(e)) == seq![',' as u8] + spec_render_entry(e)
            + spec_render_items_rest(Seq::<EntryV>::empty()));
        assert(spec_render_items_rest(Seq::<EntryV>::empty()) =~= Seq::<u8>::empty());
        assert(spec_render_items_rest(xs) =~= Seq::<u8>::empty());
        assert(spec_render_items_rest(xs.push(e)) =~= spec_render_items_rest(xs) + seq![',' as u8]
            + spec_render_entry(e));
    } else {
        assert(xs.push(e).drop_first() =~= xs.drop_first().push(e));
        lemma_render_items_rest_snoc(xs.drop_first(), e);
        assert(spec_render_items_rest(xs.push(e)) == seq![',' as u8] + spec_render_entry(xs[0])
            + spec_render_items_rest(xs.drop_first().push(e)));
        assert(seq![',' as u8] + spec_render_entry(xs[0]) + (spec_render_items_rest(
            xs.drop_first(),
        ) + seq![',' as u8] + spec_render_entry(e)) =~= (seq![',' as u8] + spec_render_entry(xs[0])
            + spec_render_items_rest(xs.drop_first())) + seq![',' as u8] + spec_render_entry(e));
    }
}

pub proof fn lemma_render_items_snoc(xs: Seq<EntryV>, e: EntryV)
    ensures
        xs.len() == 0 ==> spec_render_items(xs.push(e)) == spec_render_entry(e),
        xs.len() > 0 ==> spec_render_items(xs.push(e)) == spec_render_items(xs) + seq![',' as u8]
            + spec_render_entry(e),
{
    if xs.len() == 0 {
        assert(xs.push(e)[0] == e);
        assert(xs.push(e).drop_first() =~= Seq::<EntryV>::empty());
        assert(spec_render_items(xs.push(e)) =~= spec_render_entry(e));
    } else {
        assert(xs.push(e)[0] == xs[0]);
        assert(xs.push(e).drop_first() =~= xs.drop_first().push(e));
        lemma_render_items_rest_snoc(xs.drop_first(), e);
        assert(spec_render_entry(xs[0]) + (spec_render_items_rest(xs.drop_first()) + seq![
            ',' as u8,
        ] + spec_render_entry(e)) =~= (spec_render_entry(xs[0]) + spec_render_items_rest(
            xs.drop_first(),
        )) + seq![',' as u8] + spec_render_entry(e));
    }
}

fn push_byte(v: &mut Vec<u8>, b: u8)
    ensures
        final(v)@ == old(v)@ + seq![b],
{
    v.push(b);
    proof {
        assert(v@ =~= old(v)@ + seq![b]);
    }
}

fn push_hex_low(v: &mut Vec<u8>, n: u8)
    requires
        n < 16,
    ensures
        final(v)@ == old(v)@ + seq![hex_digit(n as int)],
{
    if n < 10 {
        push_byte(v, '0' as u8 + n);
    } else {
        push_byte(v, 'a' as u8 + (n - 10));
    }
}

/// Append the escaped form of `x` to `v`.
#[verifier::loop_isolation(false)]
fn push_escaped(v: &mut Vec<u8>, x: &Vec<u8>)
    ensures
        final(v)@ == old(v)@ + spec_escape(x@),
{
    let mut i: usize = 0;
    while i < x.len()
        invariant
            i <= x@.len(),
            v@ == old(v)@ + spec_escape(x@.take(i as int)),
        decreases x@.len() - i,
    {
        let b = x[i];
        proof {
            lemma_escape_snoc(x@.take(i as int), b);
            assert(x@.take(i + 1) =~= x@.take(i as int).push(b));
        }
        if b == '"' as u8 {
            push_byte(v, '\\' as u8);
            push_byte(v, '"' as u8);
        } else if b == '\\' as u8 {
            push_byte(v, '\\' as u8);
            push_byte(v, '\\' as u8);
        } else if b == 8 {
            push_byte(v, '\\' as u8);
            push_byte(v, 'b' as u8);
        } else if b == 9 {
            push_byte(v, '\\' as u8);
            push_byte(v, 't' as u8);
        } else if b == 10 {
            push_byte(v, '\\' as u8);
            push_byte(v, 'n' as u8);
        } else if b == 12 {
            push_byte(v, '\\' as u8);
            push_byte(v, 'f' as u8);
        } else if b == 13 {
            push_byte(v, '\\' as u8);
            push_byte(v, 'r' as u8);
        } else if b < 32 {
            push_byte(v, '\\' as u8);
            push_byte(v, 'u' as u8);
            push_byte(v, '0' as u8);
            push_byte(v, '0' as u8);
            push_hex_low(v, b / 16);
            push_hex_low(v, b % 16);
        } else {
            push_byte(v, b);
        }
        proof {
            assert(v@ =~= old(v)@ + spec_escape(x@.take(i + 1)));
        }
        i = i + 1;
    }
    proof {
        assert(x@.take(x@.len() as int) =~= x@);
    }
}

fn push_quoted(v: &mut Vec<u8>, x: &Vec<u8>)
    ensures
        final(v)@ == old(v)@ + spec_quoted(x@),
{
    push_byte(v, '"' as u8);
    push_escaped(v, x);
    push_byte(v, '"' as u8);
    proof {
        assert(v@ =~= old(v)@ + spec_quoted(x@));
    }
}

fn key_original_bytes() -> (v: Vec<u8>)
    ensures
        v@ == key_original_q(),
{
    let mut v: Vec<u8> = Vec::new();
    v.push('"' as u8);
    v.push('o' as u8);
    v.push('r' as u8);
    v.push('i' as u8);
    v.push('g' as u8);
    v.push('i' as u8);
    v.push('n' as u8);
    v.push('a' as u8);
    v.push('l' as u8);
    v.push('_' as u8);
    v.push('p' as u8);
    v.push('a' as u8);
    v.push('t' as u8);
    v.push('h' as u8);
    v.push('"' as u8);
    proof {
        assert(v@ =~= key_original_q());
    }
    v
}

fn key_trashed_bytes() -> (v: Vec<u8>)
    ensures
        v@ == key_trashed_q(),
{
    let mut v: Vec<u8> = Vec::new();
    v.push('"' as u8);
    v.push('t' as u8);
    v.push('r' as u8);
    v.push('a' as u8);
    v.push('s' as u8);
    v.push('h' as u8);
    v.push('e' as u8);
    v.push('d' as u8);
    v.push('_' as u8);
    v.push('p' as u8);
    v.push('a' as u8);
    v.push('t' as u8);
    v.push('h' as u8);
    v.push('"' as u8);
    proof {
        assert(v@ =~= key_trashed_q());
    }
    v
}

fn key_deleted_bytes() -> (v: Vec<u8>)
    ensures
        v@ == key_deleted_q(),
{
    let mut v: Vec<u8> = Vec::new();
    v.push('"' as u8);
    v.push('d' as u8);
    v.push('e' as u8);
    v.push('l' as u8);
    v.push('e' as u8);
    v.push('t' as u8);
    v.push('e' as u8);
    v.push('d' as u8);
    v.push('_' as u8);
    v.push('a' as u8);
    v.push('t' as u8);
    v.push('"' as u8);
    proof {
        assert(v@ =~= key_deleted_q());
    }
    v
}

fn key_kind_bytes() -> (v: Vec<u8>)
    ensures
        v@ == key_kind_q(),
{
    let mut v: Vec<u8> = Vec::new();
    v.push('"' as u8);
    v.push('k' as u8);
    v.push('i' as u8);
    v.push('n' as u8);
    v.push('d' as u8);
    v.push('"' as u8);
    proof {
        assert(v@ =~= key_kind_q());
    }
    v
}

fn key_items_bytes() -> (v: Vec<u8>)
    ensures
        v@ == key_items_q(),
{
    let mut v: Vec<u8> = Vec::new();
    v.push('"' as u8);
    v.push('i' as u8);
    v.push('t' as u8);
    v.push('e' as u8);
    v.push('m' as u8);
    v.push('s' as u8);
    v.push('"' as u8);
    proof {
        assert(v@ =~= key_items_q());
    }
    v
}

fn push_kind_lit(v: &mut Vec<u8>, k: Kind)
    ensures
        final(v)@ == old(v)@ + kind_lit(k),
{
    match k {
        Kind::File => {
            v.push('"' as u8);
            v.push('F' as u8);
            v.push('i' as u8);
            v.push('l' as u8);
            v.push('e' as u8);
            v.push('"' as u8);
        },
        Kind::Dir => {
            v.push('"' as u8);
            v.push('D' as u8);
            v.push('i' as u8);
            v.push('r' as u8);
            v.push('"' as u8);
        },
        Kind::Symlink => {
            v.push('"' as u8);
            v.push('S' as u8);
            v.push('y' as u8);
            v.push('m' as u8);
            v.push('l' as u8);
            v.push('i' as u8);
            v.push('n' as u8);
            v.push('k' as u8);
            v.push('"' as u8);
        },
        Kind::Other => {
            v.push('"' as u8);
            v.push('O' as u8);
            v.push('t' as u8);
            v.push('h' as u8);
            v.push('e' as u8);
            v.push('r' as u8);
            v.push('"' as u8);
        },
    }
    proof {
        assert(v@ =~= old(v)@ + kind_lit(k));
    }
}

#[verifier::rlimit(100)]
fn push_entry(v: &mut Vec<u8>, e: &Entry)
    ensures
        final(v)@ == old(v)@ + spec_render_entry(e@),
{
    push_byte(v, '{' as u8);
    let ko = key_original_bytes();
    bytesutil::push_bytes(v, &ko);
    push_byte(v, ':' as u8);
    push_quoted(v, &e.original_path);
    push_byte(v, ',' as u8);
    let kt = key_trashed_bytes();
    bytesutil::push_bytes(v, &kt);
    push_byte(v, ':' as u8);
    push_quoted(v, &e.trashed_path);
    push_byte(v, ',' as u8);
    let kd = key_deleted_bytes();
    bytesutil::push_bytes(v, &kd);
    push_byte(v, ':' as u8);
    numfmt::push_dec_i64(v, e.deleted_at);
    push_byte(v, ',' as u8);
    let kk = key_kind_bytes();
    bytesutil::push_bytes(v, &kk);
    push_byte(v, ':' as u8);
    push_kind_lit(v, e.kind);
    push_byte(v, '}' as u8);
    proof {
        assert(v@ =~= old(v)@ + spec_render_entry(e@));
    }
}

/// Serialize the whole catalog; reading the result back yields the same
/// entries.
#[verifier::loop_isolation(false)]
pub fn save_entries(entries: &Vec<Entry>) -> (out: Vec<u8>)
    ensures
        out@ == spec_render_catalog(entries_view(entries@)),
{
    let mut v: Vec<u8> = Vec::new();
    push_byte(&mut v, '{' as u8);
    let ki = key_items_bytes();
    bytesutil::push_bytes(&mut v, &ki);
    push_byte(&mut v, ':' as u8);
    push_byte(&mut v, '[' as u8);
    let ghost header = v@;
    let mut i: usize = 0;
    while i < entries.len()
        invariant
            i <= entries@.len(),
            v@ == header + spec_render_items(entries_view(entries@).take(i as int)),
        decreases entries@.len() - i,
    {
        proof {
            assert(entries_view(entries@).take(i + 1) =~= entries_view(entries@).take(
                i as int,
            ).push(entries@[i as int]@));
        }
        if i > 0 {
            push_byte(&mut v, ',' as u8);
        }
        push_entry(&mut v, &entries[i]);
        proof {
            let xs = entries_view(entries@).take(i as int);
            let e = entries@[i as int]@;
            lemma_render_items_snoc(xs, e);
            assert(v@ =~= header + spec_render_items(entries_view(entries@).take(i + 1)));
        }
        i = i + 1;
    }
    push_byte(&mut v, ']' as u8);
    push_byte(&mut v, '}' as u8);
    proof {
        assert(entries_view(entries@).take(entries@.len() as int) =~= entries_view(entries@));
        assert(v@ =~= spec_render_catalog(entries_view(entries@)));
    }
    v
}

/// First position `>= i` that does not hold whitespace (or the end).
pub open spec fn spec_skip_ws(s: Seq<u8>, i: int) -> int
    decreases s.len() - i,
{
    if 0 <= i < s.len() && is_ws(s[i]) {
        spec_skip_ws(s, i + 1)
    } else {
        i
    }
}

/// `lit` occurs literally at position `i`.
pub open spec fn spec_match_lit(s: Seq<u8>, i: int, lit: Seq<u8>) -> bool {
    0 <= i && i + lit.len() <= s.len() && bytesutil::spec_match_at(s, lit, i)
}

pub open spec fn spec_hex_val(b: u8) -> Option<u8> {
    if '0' as u8 <= b <= '9' as u8 {
        Some((b - '0' as u8) as u8)
    } else if 'a' as u8 <= b <= 'f' as u8 {
        Some((b - 'a' as u8 + 10) as u8)
    } else if 'A' as u8 <= b <= 'F' as u8 {
        Some((b - 'A' as u8 + 10) as u8)
    } else {
        None
    }
}

pub open spec fn prepend_parsed(b: u8, r: Option<(Seq<u8>, int)>) -> Option<(Seq<u8>, int)> {
    match r {
        None => None,
        Some((x, e)) => Some((seq![b] + x, e)),
    }
}

/// Reads a JSON string body at `i` (just past the opening quote) up to and
/// including the closing quote: the decoded bytes and the position after.
pub open spec fn spec_parse_str_body(s: Seq<u8>, i: int) -> Option<(Seq<u8>, int)>
    decreases s.len() - i,
{
    if !(0 <= i < s.len()) {
        None
    } else if s[i] == qu() {
        Some((Seq::empty(), i + 1))
    } else if s[i] == bsl() {
        if i + 2 > s.len() {
            None
        } else {
            let c = s[i + 1];
            if c == qu() || c == bsl() || c == '/' as u8 {
                prepend_parsed(c, spec_parse_str_body(s, i + 2))
            } else if c == 'b' as u8 {
                prepend_parsed(8, spec_parse_str_body(s, i + 2))
            } else if c == 't' as u8 {
                prepend_parsed(9, spec_parse_str_body(s, i + 2))
            } else if c == 'n' as u8 {
                prepend_parsed(10, spec_parse_str_body(s, i + 2))
            } else if c == 'f' as u8 {
                prepend_parsed(12, spec_parse_str_body(s, i + 2))
            } else if c == 'r' as u8 {
                prepend_parsed(13, spec_parse_str_body(s, i + 2))
            } else if c == 'u' as u8 {
                if i + 6 > s.len() {
                    None
                } else {
                    let h1 = spec_hex_val(s[i + 2]);
                    let h2 = spec_hex_val(s[i + 3]);
                    let h3 = spec_hex_val(s[i + 4]);
                    let h4 = spec_hex_val(s[i + 5]);
                    if h1 is Some && h2 is Some && h3 is Some && h4 is Some {
                        let v = h1.unwrap() * 4096 + h2.unwrap() * 256 + h3.unwrap() * 16
                            + h4.unwrap();
                        if v < 0x80 {
                            prepend_parsed(v as u8, spec_parse_str_body(s, i + 6))
                        } else {
                            None
                        }
                    } else {
                        None
                    }
                }
            } else {
                None
            }
        }
    } else if s[i] < 32 {
        None
    } else {
        prepend_parsed(s[i], spec_parse_str_body(s, i + 1))
    }
}

/// Reads a quoted kind name at `i`.
pub open spec fn spec_parse_kind(s: Seq<u8>, i: int) -> Option<(Kind, int)> {
    if spec_match_lit(s, i, kind_lit(Kind::File)) {
        Some((Kind::File, i + 6))
    } else if spec_match_lit(s, i, kind_lit(Kind::Dir)) {
        Some((Kind::Dir, i + 5))
    } else if spec_match_lit(s, i, kind_lit(Kind::Symlink)) {
        Some((Kind::Symlink, i + 9))
    } else if spec_match_lit(s, i, kind_lit(Kind::Other)) {
        Some((Kind::Other, i + 7))
    } else {
        None
    }
}

/// Reads one entry object at `i` (at its opening brace): the three fixed
/// fields in order, then an optional `kind` field.
pub open spec fn spec_parse_entry(s: Seq<u8>, i: int) -> Option<(EntryV, int)> {
    if !(0 <= i < s.len() && s[i] == '{' as u8) {
        None
    } else {
        let k1 = spec_skip_ws(s, i + 1);
        if !spec_match_lit(s, k1, key_original_q()) {
            None
        } else {
            let k2 = spec_skip_ws(s, k1 + key_original_q().len());
            if !(k2 < s.len() && s[k2] == ':' as u8) {
                None
            } else {
                let k3 = spec_skip_ws(s, k2 + 1);
                if !(k3 < s.len() && s[k3] == qu()) {
                    None
                } else {
                    match spec_parse_str_body(s, k3 + 1) {
                        None => None,
                        Some((op, k4)) => spec_parse_entry_after_original(s, k4, op),
                    }
                }
            }
        }
    }
}

pub open spec fn spec_parse_entry_after_original(s: Seq<u8>, i: int, op: Seq<u8>) -> Option<
    (EntryV, int),
> {
    let k5 = spec_skip_ws(s, i);
    if !(k5 < s.len() && s[k5] == ',' as u8) {
        None
    } else {
        let k6 = spec_skip_ws(s, k5 + 1);
        if !spec_match_lit(s, k6, key_trashed_q()) {
            None
        } else {
            let k7 = spec_skip_ws(s, k6 + key_trashed_q().len());
            if !(k7 < s.len() && s[k7] == ':' as u8) {
                None
            } else {
                let k8 = spec_skip_ws(s, k7 + 1);
                if !(k8 < s.len() && s[k8] == qu()) {
                    None
                } else {
                    match spec_parse_str_body(s, k8 + 1) {
                        None => None,
                        Some((tp, k9)) => spec_parse_entry_after_trashed(s, k9, op, tp),
                    }
                }
            }
        }
    }
}

pub open spec fn spec_parse_entry_after_trashed(s: Seq<u8>, i: int, op: Seq<u8>, tp: Seq<u8>)
    -> Option<(EntryV, int)> {
    let k10 = spec_skip_ws(s, i);
    if !(k10 < s.len() && s[k10] == ',' as u8) {
        None
    } else {
        let k11 = spec_skip_ws(s, k10 + 1);
        if !spec_match_lit(s, k11, key_deleted_q()) {
            None
        } else {
            let k12 = spec_skip_ws(s, k11 + key_deleted_q().len());
            if !(k12 < s.len() && s[k12] == ':' as u8) {
                None
            } else {
                let k13 = spec_skip_ws(s, k12 + 1);
                match numfmt::spec_parse_i64(s, k13) {
                    None => None,
                    Some((n, k14)) => spec_parse_entry_after_deleted(s, k14, op, tp, n),
                }
            }
        }
    }
}

pub open spec fn spec_parse_entry_after_deleted(
    s: Seq<u8>,
    i: int,
    op: Seq<u8>,
    tp: Seq<u8>,
    n: int,
) -> Option<(EntryV, int)> {
    let k15 = spec_skip_ws(s, i);
    if !(k15 < s.len()) {
        None
    } else if s[k15] == '}' as u8 {
        Some(
            (
                EntryV {
                    original_path: op,
                    trashed_path: tp,
                    deleted_at: n,
                    kind: Kind::Other,
                },
                k15 + 1,
            ),
        )
    } else if s[k15] == ',' as u8 {
        let k16 = spec_skip_ws(s, k15 + 1);
        if !spec_match_lit(s, k16, key_kind_q()) {
            None
        } else {
            let k17 = spec_skip_ws(s, k16 + key_kind_q().len());
            if !(k17 < s.len() && s[k17] == ':' as u8) {
                None
            } else {
                let k18 = spec_skip_ws(s, k17 + 1);
                match spec_parse_kind(s, k18) {
                    None => None,
                    Some((kd, k19)) => {
                        let k20 = spec_skip_ws(s, k19);
                        if !(k20 < s.len() && s[k20] == '}' as u8) {
                            None
                        } else {
                            Some(
                                (
                                    EntryV {
                                        original_path: op,
                                        trashed_path: tp,
                                        deleted_at: n,
                                        kind: kd,
                                    },
                                    k20 + 1,
                                ),
                            )
                        }
                    },
                }
            }
        }
    } else {
        None
    }
}

/// Reads the entries after the first one: either a closing bracket, or a
/// comma followed by another entry, repeated.
pub open spec fn spec_parse_items_rest(s: Seq<u8>, i: int) -> Option<(Seq<EntryV>, int)>
    decreases s.len() - i,
{
    if !(0 <= i <= s.len()) {
        None
    } else {
        let j = spec_skip_ws(s, i);
        if !(i <= j < s.len()) {
            None
        } else if s[j] == ']' as u8 {
            Some((Seq::empty(), j + 1))
        } else if s[j] == ',' as u8 {
            let k = spec_skip_ws(s, j + 1);
            match spec_parse_entry(s, k) {
                None => None,
                Some((e, m)) => {
                    if i < m <= s.len() {
                        match spec_parse_items_rest(s, m) {
                            None => None,
                            Some((rest, e2)) => Some((seq![e] + rest, e2)),
                        }
                    } else {
                        None
                    }
                },
            }
        } else {
            None
        }
    }
}

/// Reads a whole catalog document; `Some` exactly on well-formed input.
pub open spec fn spec_parse_catalog(s: Seq<u8>) -> Option<Seq<EntryV>> {
    let i0 = spec_skip_ws(s, 0);
    if !(0 <= i0 < s.len() && s[i0] == '{' as u8) {
        None
    } else {
        let i1 = spec_skip_ws(s, i0 + 1);
        if !spec_match_lit(s, i1, key_items_q()) {
            None
        } else {
            let i2 = spec_skip_ws(s, i1 + key_items_q().len());
            if !(i2 < s.len() && s[i2] == ':' as u8) {
                None
            } else {
                let i3 = spec_skip_ws(s, i2 + 1);
                if !(i3 < s.len() && s[i3] == '[' as u8) {
                    None
                } else {
                    let i4 = spec_skip_ws(s, i3 + 1);
                    if i4 < s.len() && s[i4] == ']' as u8 {
                        spec_parse_catalog_close(s, i4 + 1, Seq::empty())
                    } else {
                        match spec_parse_entry(s, i4) {
                            None => None,
                            Some((e0, j0)) => {
                                match spec_parse_items_rest(s, j0) {
                                    None => None,
                                    Some((rest, j1)) => spec_parse_catalog_close(
                                        s,
                                        j1,
                                        seq![e0] + rest,
                                    ),
                                }
                            },
                        }
                    }
                }
            }
        }
    }
}

pub open spec fn spec_parse_catalog_close(s: Seq<u8>, i: int, xs: Seq<EntryV>) -> Option<
    Seq<EntryV>,
> {
    let i5 = spec_skip_ws(s, i);
    if i5 < s.len() && s[i5] == '}' as u8 && spec_skip_ws(s, i5 + 1) == s.len() {
        Some(xs)
    } else {
        None
    }
}

pub open spec fn prepend_parsed_seq(a: Seq<u8>, r: Option<(Seq<u8>, int)>) -> Option<
    (Seq<u8>, int),
> {
    match r {
        None => None,
        Some((x, e)) => Some((a + x, e)),
    }
}

pub open spec fn prepend_entries(a: Seq<EntryV>, r: Option<(Seq<EntryV>, int)>) -> Option<
    (Seq<EntryV>, int),
> {
    match r {
        None => None,
        Some((xs, e)) => Some((a + xs, e)),
    }
}

#[verifier::loop_isolation(false)]
fn skip_ws_exec(s: &Vec<u8>, i: usize) -> (r: usize)
    requires
        i <= s@.len(),
    ensures
        i <= r <= s@.len(),
        r as int == spec_skip_ws(s@, i as int),
{
    let mut k: usize = i;
    while k < s.len() && (s[k] == ' ' as u8 || s[k] == 9 || s[k] == 10 || s[k] == 13)
        invariant
            i <= k <= s@.len(),
            spec_skip_ws(s@, i as int) == spec_skip_ws(s@, k as int),
        decreases s@.len() - k,
    {
        k = k + 1;
    }
    k
}

fn lit_at(s: &Vec<u8>, i: usize, lit: &Vec<u8>) -> (r: bool)
    ensures
        r == spec_match_lit(s@, i as int, lit@),
{
    if i > s.len() || lit.len() > s.len() - i {
        return false;
    }
    bytesutil::match_at(s, lit, i)
}

fn byte_at(s: &Vec<u8>, i: usize, b: u8) -> (r: bool)
    ensures
        r == (i < s@.len() && s@[i as int] == b),
{
    i < s.len() && s[i] == b
}

fn hex_val(b: u8) -> (r: Option<u8>)
    ensures
        r == spec_hex_val(b),
{
    if '0' as u8 <= b && b <= '9' as u8 {
        Some(b - '0' as u8)
    } else if 'a' as u8 <= b && b <= 'f' as u8 {
        Some(b - 'a' as u8 + 10)
    } else if 'A' as u8 <= b && b <= 'F' as u8 {
        Some(b - 'A' as u8 + 10)
    } else {
        None
    }
}

fn kind_lit_bytes(k: Kind) -> (v: Vec<u8>)
    ensures
        v@ == kind_lit(k),
{
    let mut v: Vec<u8> = Vec::new();
    push_kind_lit(&mut v, k);
    proof {
        assert(v@ =~= kind_lit(k));
    }
    v
}

proof fn lemma_prepend_seq_empty(r: Option<(Seq<u8>, int)>)
    ensures
        prepend_parsed_seq(Seq::empty(), r) == r,
{
    match r {
        Some((x, e)) => {
            assert(Seq::<u8>::empty() + x =~= x);
        },
        None => {},
    }
}

proof fn lemma_prepend_seq_push(a: Seq<u8>, d: u8, r: Option<(Seq<u8>, int)>)
    ensures
        prepend_parsed_seq(a, prepend_parsed(d, r)) == prepend_parsed_seq(a.push(d), r),
{
    match r {
        Some((x, e)) => {
            assert(a + (seq![d] + x) =~= a.push(d) + x);
        },
        None => {},
    }
}

/// Decode a JSON string body starting just past the opening quote.
#[verifier::loop_isolation(false)]
#[verifier::rlimit(30)]
fn parse_str_body(s: &Vec<u8>, i: usize) -> (r: Option<(Vec<u8>, usize)>)
    requires
        i <= s@.len(),
    ensures
        match r {
            Some((x, e)) => spec_parse_str_body(s@, i as int) == Some((x@, e as int)) && i < e
                <= s@.len(),
            None => spec_parse_str_body(s@, i as int) == None::<(Seq<u8>, int)>,
        },
{
    let _n: usize = s.len();
    let mut acc: Vec<u8> = Vec::new();
    let mut cur: usize = i;
    proof {
        lemma_prepend_seq_empty(spec_parse_str_body(s@, i as int));
        assert(acc@ =~= Seq::<u8>::empty());
    }
    loop
        invariant
            i <= cur <= s@.len(),
            spec_parse_str_body(s@, i as int) == prepend_parsed_seq(
                acc@,
                spec_parse_str_body(s@, cur as int),
            ),
        decreases s@.len() - cur,
    {
        if cur >= s.len() {
            return None;
        }
        let b = s[cur];
        if b == '"' as u8 {
            proof {
                assert(acc@ + Seq::<u8>::empty() =~= acc@);
            }
            return Some((acc, cur + 1));
        }
        if b == '\\' as u8 {
            if s.len() - cur < 2 {
                return None;
            }
            let c = s[cur + 1];
            if c == '"' as u8 || c == '\\' as u8 || c == '/' as u8 {
                proof {
                    lemma_prepend_seq_push(acc@, c, spec_parse_str_body(s@, cur + 2));
                }
                acc.push(c);
                cur = cur + 2;
            } else if c == 'b' as u8 {
                proof {
                    lemma_prepend_seq_push(acc@, 8, spec_parse_str_body(s@, cur + 2));
                }
                acc.push(8);
                cur = cur + 2;
            } else if c == 't' as u8 {
                proof {
                    lemma_prepend_seq_push(acc@, 9, spec_parse_str_body(s@, cur + 2));
                }
                acc.push(9);
                cur = cur + 2;
            } else if c == 'n' as u8 {
                proof {
                    lemma_prepend_seq_push(acc@, 10, spec_parse_str_body(s@, cur + 2));
                }
                acc.push(10);
                cur = cur + 2;
            } else if c == 'f' as u8 {
                proof {
                    lemma_prepend_seq_push(acc@, 12, spec_parse_str_body(s@, cur + 2));
                }
                acc.push(12);
                cur = cur + 2;
            } else if c == 'r' as u8 {
                proof {
                    lemma_prepend_seq_push(acc@, 13, spec_parse_str_body(s@, cur + 2));
                }
                acc.push(13);
                cur = cur + 2;
            } else if c == 'u' as u8 {
                if s.len() - cur < 6 {
                    return None;
                }
                let h1 = hex_val(s[cur + 2]);
                let h2 = hex_val(s[cur + 3]);
                let h3 = hex_val(s[cur + 4]);
                let h4 = hex_val(s[cur + 5]);
                match (h1, h2, h3, h4) {
                    (Some(a1), Some(a2), Some(a3), Some(a4)) => {
                        let v: u32 = a1 as u32 * 4096 + a2 as u32 * 256 + a3 as u32 * 16
                            + a4 as u32;
                        if v >= 0x80 {
                            return None;
                        }
                        let d: u8 = v as u8;
                        proof {
                            lemma_prepend_seq_push(acc@, d, spec_parse_str_body(s@, cur + 6));
                        }
                        acc.push(d);
                        cur = cur + 6;
                    },
                    _ => {
                        return None;
                    },
                }
            } else {
                return None;
            }
        } else if b < 32 {
            return None;
        } else {
            proof {
                lemma_prepend_seq_push(acc@, b, spec_parse_str_body(s@, cur + 1));
            }
            acc.push(b);
            cur = cur + 1;
        }
    }
}

fn parse_kind(s: &Vec<u8>, i: usize) -> (r: Option<(Kind, usize)>)
    requires
        i <= s@.len(),
    ensures
        match r {
            Some((k, e)) => spec_parse_kind(s@, i as int) == Some((k, e as int)) && i < e
                <= s@.len(),
            None => spec_parse_kind(s@, i as int) == None::<(Kind, int)>,
        },
{
    let _n: usize = s.len();
    let lf = kind_lit_bytes(Kind::File);
    if lit_at(s, i, &lf) {
        return Some((Kind::File, i + 6));
    }
    let ld = kind_lit_bytes(Kind::Dir);
    if lit_at(s, i, &ld) {
        return Some((Kind::Dir, i + 5));
    }
    let ls = kind_lit_bytes(Kind::Symlink);
    if lit_at(s, i, &ls) {
        return Some((Kind::Symlink, i + 9));
    }
    let lo = kind_lit_bytes(Kind::Other);
    if lit_at(s, i, &lo) {
        return Some((Kind::Other, i + 7));
    }
    None
}

/// Read one entry object at `i`.
#[verifier::rlimit(60)]
fn parse_entry(s: &Vec<u8>, i: usize) -> (r: Option<(Entry, usize)>)
    requires
        i <= s@.len(),
    ensures
        match r {
            Some((ent, e)) => spec_parse_entry(s@, i as int) == Some((ent@, e as int)) && i < e
                <= s@.len(),
            None => spec_parse_entry(s@, i as int) == None::<(EntryV, int)>,
        },
{
    let _n: usize = s.len();
    if !byte_at(s, i, '{' as u8) {
        return None;
    }
    let k1 = skip_ws_exec(s, i + 1);
    let ko = key_original_bytes();
    if !lit_at(s, k1, &ko) {
        return None;
    }
    let k2 = skip_ws_exec(s, k1 + ko.len());
    if !byte_at(s, k2, ':' as u8) {
        return None;
    }
    let k3 = skip_ws_exec(s, k2 + 1);
    if !byte_at(s, k3, '"' as u8) {
        return None;
    }
    let op = match parse_str_body(s, k3 + 1) {
        None => {
            return None;
        },
        Some(x) => x,
    };
    let k5 = skip_ws_exec(s, op.1);
    if !byte_at(s, k5, ',' as u8) {
        return None;
    }
    let k6 = skip_ws_exec(s, k5 + 1);
    let kt = key_trashed_bytes();
    if !lit_at(s, k6, &kt) {
        return None;
    }
    let k7 = skip_ws_exec(s, k6 + kt.len());
    if !byte_at(s, k7, ':' as u8) {
        return None;
    }
    let k8 = skip_ws_exec(s, k7 + 1);
    if !byte_at(s, k8, '"' as u8) {
        return None;
    }
    let tp = match parse_str_body(s, k8 + 1) {
        None => {
            return None;
        },
        Some(x) => x,
    };
    let k10 = skip_ws_exec(s, tp.1);
    if !byte_at(s, k10, ',' as u8) {
        return None;
    }
    let k11 = skip_ws_exec(s, k10 + 1);
    let kd = key_deleted_bytes();
    if !lit_at(s, k11, &kd) {
        return None;
    }
    let k12 = skip_ws_exec(s, k11 + kd.len());
    if !byte_at(s, k12, ':' as u8) {
        return None;
    }
    let k13 = skip_ws_exec(s, k12 + 1);
    let num = match numfmt::parse_i64(s, k13) {
        None => {
            return None;
        },
        Some(x) => x,
    };
    let k15 = skip_ws_exec(s, num.1);
    if byte_at(s, k15, '}' as u8) {
        let ent = Entry {
            original_path: op.0,
            trashed_path: tp.0,
            deleted_at: num.0,
            kind: Kind::Other,
        };
        return Some((ent, k15 + 1));
    }
    if !byte_at(s, k15, ',' as u8) {
        return None;
    }
    let k16 = skip_ws_exec(s, k15 + 1);
    let kk = key_kind_bytes();
    if !lit_at(s, k16, &kk) {
        return None;
    }
    let k17 = skip_ws_exec(s, k16 + kk.len());
    if !byte_at(s, k17, ':' as u8) {
        return None;
    }
    let k18 = skip_ws_exec(s, k17 + 1);
    let kv = match parse_kind(s, k18) {
        None => {
            return None;
        },
        Some(x) => x,
    };
    let k20 = skip_ws_exec(s, kv.1);
    if !byte_at(s, k20, '}' as u8) {
        return None;
    }
    let ent = Entry {
        original_path: op.0,
        trashed_path: tp.0,
        deleted_at: num.0,
        kind: kv.0,
    };
    Some((ent, k20 + 1))
}

/// Read the entries that follow the first one, up to the closing bracket.
#[verifier::loop_isolation(false)]
#[verifier::rlimit(30)]
fn parse_items_rest(s: &Vec<u8>, i: usize) -> (r: Option<(Vec<Entry>, usize)>)
    requires
        i <= s@.len(),
    ensures
        match r {
            Some((es, e)) => spec_parse_items_rest(s@, i as int) == Some(
                (entries_view(es@), e as int),
            ) && e <= s@.len(),
            None => spec_parse_items_rest(s@, i as int) == None::<(Seq<EntryV>, int)>,
        },
{
    let _n: usize = s.len();
    let mut acc: Vec<Entry> = Vec::new();
    let mut cur: usize = i;
    proof {
        assert(entries_view(acc@) =~= Seq::<EntryV>::empty());
        match spec_parse_items_rest(s@, i as int) {
            Some((xs, e)) => {
                assert(Seq::<EntryV>::empty() + xs =~= xs);
            },
            None => {},
        }
    }
    loop
        invariant
            i <= cur <= s@.len(),
            spec_parse_items_rest(s@, i as int) == prepend_entries(
                entries_view(acc@),
                spec_parse_items_rest(s@, cur as int),
            ),
        decreases s@.len() - cur,
    {
        let j = skip_ws_exec(s, cur);
        if j >= s.len() {
            return None;
        }
        if s[j] == ']' as u8 {
            proof {
                assert(entries_view(acc@) + Seq::<EntryV>::empty() =~= entries_view(acc@));
            }
            return Some((acc, j + 1));
        }
        if s[j] != ',' as u8 {
            return None;
        }
        let k = skip_ws_exec(s, j + 1);
        let pe = match parse_entry(s, k) {
            None => {
                return None;
            },
            Some(x) => x,
        };
        proof {
            let ghost_rest = spec_parse_items_rest(s@, pe.1 as int);
            assert(entries_view(acc@.push(pe.0)) =~= entries_view(acc@).push(pe.0@));
            match ghost_rest {
                Some((xs, e)) => {
                    assert(entries_view(acc@) + (seq![pe.0@] + xs) =~= entries_view(
                        acc@.push(pe.0),
                    ) + xs);
                },
                None => {},
            }
        }
        acc.push(pe.0);
        cur = pe.1;
    }
}

/// A catalog document that could not be read.
#[derive(Clone, Copy, Debug, PartialEq, Eq, Structural)]
pub struct ParseError;

/// Read a whole catalog document. `Ok` exactly on well-formed input; the
/// entries come back in document order.
#[verifier::rlimit(30)]
pub fn load_entries(data: &Vec<u8>) -> (r: Result<Vec<Entry>, ParseError>)
    ensures
        match r {
            Ok(es) => spec_parse_catalog(data@) == Some(entries_view(es@)),
            Err(_) => spec_parse_catalog(data@) == None::<Seq<EntryV>>,
        },
{
    let s = data;
    let _n: usize = s.len();
    let i0 = skip_ws_exec(s, 0);
    if !byte_at(s, i0, '{' as u8) {
        return Err(ParseError);
    }
    let ki = key_items_bytes();
    let i1 = skip_ws_exec(s, i0 + 1);
    if !lit_at(s, i1, &ki) {
        return Err(ParseError);
    }
    let i2 = skip_ws_exec(s, i1 + ki.len());
    if !byte_at(s, i2, ':' as u8) {
        return Err(ParseError);
    }
    let i3 = skip_ws_exec(s, i2 + 1);
    if !byte_at(s, i3, '[' as u8) {
        return Err(ParseError);
    }
    let i4 = skip_ws_exec(s, i3 + 1);
    if byte_at(s, i4, ']' as u8) {
        let i5 = skip_ws_exec(s, i4 + 1);
        if byte_at(s, i5, '}' as u8) && skip_ws_exec(s, i5 + 1) == s.len() {
            let es: Vec<Entry> = Vec::new();
            proof {
                assert(entries_view(es@) =~= Seq::<EntryV>::empty());
            }
            return Ok(es);
        }
        return Err(ParseError);
    }
    let first = match parse_entry(s, i4) {
        None => {
            return Err(ParseError);
        },
        Some(x) => x,
    };
    let rest = match parse_items_rest(s, first.1) {
        None => {
            return Err(ParseError);
        },
        Some(x) => x,
    };
    let i5 = skip_ws_exec(s, rest.1);
    if byte_at(s, i5, '}' as u8) && skip_ws_exec(s, i5 + 1) == s.len() {
        let f0 = first.0;
        let ghost rest_model = rest.0@;
        let mut es: Vec<Entry> = rest.0;
        es.insert(0, f0);
        proof {
            assert(entries_view(es@) =~= seq![f0@] + entries_view(rest_model));
        }
        return Ok(es);
    }
    Err(ParseError)
}

/// A catalog entry whose timestamp fits the on-disk integer width. Views of
/// executable entries always do.
pub open spec fn entry_in_range(e: EntryV) -> bool {
    -0x8000_0000_0000_0000 <= e.deleted_at <= 0x7fff_ffff_ffff_ffff
}

/// A region known to hold `a + b` splits into a region holding `a` and one
/// holding `b`.
pub proof fn lemma_split_concat(s: Seq<u8>, i: int, j: int, a: Seq<u8>, b: Seq<u8>)
    requires
        0 <= i <= j <= s.len(),
        s.subrange(i, j) == a + b,
    ensures
        a.len() + b.len() == j - i,
        s.subrange(i, i + a.len()) == a,
        s.subrange(i + a.len(), j) == b,
{
    assert(s.subrange(i, j).len() == j - i);
    assert((a + b).len() == a.len() + b.len());
    let m = i + a.len();
    assert forall|t: int| 0 <= t < a.len() implies #[trigger] s.subrange(i, m)[t] == a[t] by {
        assert(s.subrange(i, m)[t] == s[i + t]);
        assert(s.subrange(i, j)[t] == s[i + t]);
        assert((a + b)[t] == a[t]);
    }
    assert(s.subrange(i, m) =~= a);
    assert forall|t: int| 0 <= t < b.len() implies #[trigger] s.subrange(m, j)[t] == b[t] by {
        assert(s.subrange(m, j)[t] == s[m + t]);
        assert(s.subrange(i, j)[a.len() + t] == s[m + t]);
        assert((a + b)[a.len() + t] == b[t]);
    }
    assert(s.subrange(m, j) =~= b);
}

/// A region holding a literal matches that literal.
pub proof fn lemma_lit_from_subrange(s: Seq<u8>, i: int, lit: Seq<u8>)
    requires
        0 <= i,
        i + lit.len() <= s.len(),
        s.subrange(i, i + lit.len()) == lit,
    ensures
        spec_match_lit(s, i, lit),
{
    assert forall|t: int| 0 <= t < lit.len() implies s[i + t] == lit[t] by {
        assert(s.subrange(i, i + lit.len())[t] == s[i + t]);
    }
    assert(bytesutil::spec_match_at(s, lit, i));
}

/// Parsing an escaped region closed by a quote recovers the raw bytes.
#[verifier::rlimit(100)]
pub proof fn lemma_parse_str_of_escaped(s: Seq<u8>, i: int, x: Seq<u8>, j: int)
    requires
        0 <= i <= j < s.len(),
        s.subrange(i, j) == spec_escape(x),
        s[j] == qu(),
    ensures
        spec_parse_str_body(s, i) == Some((x, j + 1)),
    decreases x.len(),
{
    assert(s.subrange(i, j).len() == j - i);
    if x.len() == 0 {
        assert(spec_escape(x) =~= Seq::<u8>::empty());
        assert(i == j);
        assert(spec_parse_str_body(s, i) == Some((Seq::<u8>::empty(), i + 1)));
        assert(x =~= Seq::<u8>::empty());
    } else {
        let b = x[0];
        let eb = esc_byte(b);
        let rest = spec_escape(x.drop_first());
        assert(spec_escape(x) == eb + rest);
        lemma_split_concat(s, i, j, eb, rest);
        let m = i + eb.len();
        assert(s.subrange(m, j) == rest);
        assert(forall|t: int| 0 <= t < eb.len() ==> #[trigger] s.subrange(i, m)[t] == s[i + t]);
        assert(seq![b] + x.drop_first() =~= x);
        if b == qu() {
            assert(eb =~= seq![bsl(), qu()]);
            assert(s[i] == bsl() && s[i + 1] == qu());
            lemma_parse_str_of_escaped(s, i + 2, x.drop_first(), j);
            assert(spec_parse_str_body(s, i) == prepend_parsed(b, spec_parse_str_body(s, i + 2)));
        } else if b == bsl() {
            assert(eb =~= seq![bsl(), bsl()]);
            assert(s[i] == bsl() && s[i + 1] == bsl());
            lemma_parse_str_of_escaped(s, i + 2, x.drop_first(), j);
            assert(spec_parse_str_body(s, i) == prepend_parsed(b, spec_parse_str_body(s, i + 2)));
        } else if b == 8 || b == 9 || b == 10 || b == 12 || b == 13 {
            assert(s[i] == bsl() && s[i + 1] == eb[1]);
            lemma_parse_str_of_escaped(s, i + 2, x.drop_first(), j);
            assert(spec_parse_str_body(s, i) == prepend_parsed(b, spec_parse_str_body(s, i + 2)));
        } else if b < 32 {
            assert(eb == seq![bsl(), 'u' as u8, '0' as u8, '0' as u8, hex_digit(b as int / 16),
                hex_digit(b as int % 16)]);
            assert(s[i] == bsl());
            assert(s[i + 1] == 'u' as u8);
            assert(s[i + 2] == '0' as u8);
            assert(s[i + 3] == '0' as u8);
            assert(s[i + 4] == hex_digit(b as int / 16));
            assert(s[i + 5] == hex_digit(b as int % 16));
            assert(spec_hex_val('0' as u8) == Some(0u8));
            assert(b as int / 16 < 10);
            assert(spec_hex_val(hex_digit(b as int / 16)) == Some((b / 16) as u8));
            assert(spec_hex_val(hex_digit(b as int % 16)) == Some((b % 16) as u8)) by {
                if b as int % 16 < 10 {
                } else {
                }
            }
            assert(0 * 4096 + 0 * 256 + (b / 16) * 16 + (b % 16) == b);
            lemma_parse_str_of_escaped(s, i + 6, x.drop_first(), j);
            assert(spec_parse_str_body(s, i) == prepend_parsed(b, spec_parse_str_body(s, i + 6)));
        } else {
            assert(eb =~= seq![b]);
            assert(s[i] == b);
            assert(b != qu() && b != bsl() && !(b < 32));
            lemma_parse_str_of_escaped(s, i + 1, x.drop_first(), j);
            assert(spec_parse_str_body(s, i) == prepend_parsed(b, spec_parse_str_body(s, i + 1)));
        }
        assert(spec_parse_str_body(s, i) == Some((x, j + 1)));
    }
}

/// Parsing a region holding a rendered kind name yields that kind.
pub proof fn lemma_parse_kind_of_lit(s: Seq<u8>, i: int, k: Kind)
    requires
        0 <= i,
        i + kind_lit(k).len() <= s.len(),
        s.subrange(i, i + kind_lit(k).len()) == kind_lit(k),
    ensures
        spec_parse_kind(s, i) == Some((k, i + kind_lit(k).len())),
{
    lemma_lit_from_subrange(s, i, kind_lit(k));
    assert(s[i + 1] == kind_lit(k)[1]) by {
        assert(s.subrange(i, i + kind_lit(k).len())[1] == s[i + 1]);
    }
    match k {
        Kind::File => {},
        Kind::Dir => {
            assert(s[i + 1] == 'D' as u8);
            assert(!spec_match_lit(s, i, kind_lit(Kind::File))) by {
                if spec_match_lit(s, i, kind_lit(Kind::File)) {
                    assert(s[i + 1] == kind_lit(Kind::File)[1]);
                }
            }
        },
        Kind::Symlink => {
            assert(s[i + 1] == 'S' as u8);
            assert(!spec_match_lit(s, i, kind_lit(Kind::File))) by {
                if spec_match_lit(s, i, kind_lit(Kind::File)) {
                    assert(s[i + 1] == kind_lit(Kind::File)[1]);
                }
            }
            assert(!spec_match_lit(s, i, kind_lit(Kind::Dir))) by {
                if spec_match_lit(s, i, kind_lit(Kind::Dir)) {
                    assert(s[i + 1] == kind_lit(Kind::Dir)[1]);
                }
            }
        },
        Kind::Other => {
            assert(s[i + 1] == 'O' as u8);
            assert(!spec_match_lit(s, i, kind_lit(Kind::File))) by {
                if spec_match_lit(s, i, kind_lit(Kind::File)) {
                    assert(s[i + 1] == kind_lit(Kind::File)[1]);
                }
            }
            assert(!spec_match_lit(s, i, kind_lit(Kind::Dir))) by {
                if spec_match_lit(s, i, kind_lit(Kind::Dir)) {
                    assert(s[i + 1] == kind_lit(Kind::Dir)[1]);
                }
            }
            assert(!spec_match_lit(s, i, kind_lit(Kind::Symlink))) by {
                if spec_match_lit(s, i, kind_lit(Kind::Symlink)) {
                    assert(s[i + 1] == kind_lit(Kind::Symlink)[1]);
                }
            }
        },
    }
}

/// Parsing a region holding one rendered entry yields that entry.
#[verifier::rlimit(100)]
#[verifier::spinoff_prover]
pub proof fn lemma_parse_entry_of_render(s: Seq<u8>, i: int, e: EntryV)
    requires
        0 <= i,
        i + spec_render_entry(e).len() <= s.len(),
        s.subrange(i, i + spec_render_entry(e).len()) == spec_render_entry(e),
        entry_in_range(e),
    ensures
        spec_parse_entry(s, i) == Some((e, i + spec_render_entry(e).len())),
{
    let r = spec_render_entry(e);
    let j = i + r.len();
    let op = e.original_path;
    let tp = e.trashed_path;
    // peel '{'
    let r2 = key_original_q() + (seq![':' as u8] + (spec_quoted(op) + (seq![',' as u8]
        + (key_trashed_q() + (seq![':' as u8] + (spec_quoted(tp) + (seq![',' as u8]
        + (key_deleted_q() + (seq![':' as u8] + (numfmt::spec_dec_int(e.deleted_at) + (seq![
        ',' as u8,
    ] + (key_kind_q() + (seq![':' as u8] + (kind_lit(e.kind) + seq!['}' as u8]))))))))))))));
    lemma_split_concat(s, i, j, seq!['{' as u8], r2);
    assert(s[i] == '{' as u8) by {
        assert(s.subrange(i, i + 1)[0] == s[i]);
    }
    let a1 = i + 1;
    // key "original_path"
    let r3 = seq![':' as u8] + (spec_quoted(op) + (seq![',' as u8] + (key_trashed_q() + (seq![
        ':' as u8,
    ] + (spec_quoted(tp) + (seq![',' as u8] + (key_deleted_q() + (seq![':' as u8]
        + (numfmt::spec_dec_int(e.deleted_at) + (seq![',' as u8] + (key_kind_q() + (seq![':' as u8]
        + (kind_lit(e.kind) + seq!['}' as u8])))))))))))));
    lemma_split_concat(s, a1, j, key_original_q(), r3);
    lemma_lit_from_subrange(s, a1, key_original_q());
    let a2 = a1 + 15;
    // ':'
    let r4 = spec_quoted(op) + (seq![',' as u8] + (key_trashed_q() + (seq![':' as u8]
        + (spec_quoted(tp) + (seq![',' as u8] + (key_deleted_q() + (seq![':' as u8]
        + (numfmt::spec_dec_int(e.deleted_at) + (seq![',' as u8] + (key_kind_q() + (seq![':' as u8]
        + (kind_lit(e.kind) + seq!['}' as u8]))))))))))));
    lemma_split_concat(s, a2, j, seq![':' as u8], r4);
    assert(s[a2] == ':' as u8) by {
        assert(s.subrange(a2, a2 + 1)[0] == s[a2]);
    }
    let a3 = a2 + 1;
    // quoted original path
    let r5 = seq![',' as u8] + (key_trashed_q() + (seq![':' as u8] + (spec_quoted(tp) + (seq![
        ',' as u8,
    ] + (key_deleted_q() + (seq![':' as u8] + (numfmt::spec_dec_int(e.deleted_at) + (seq![
        ',' as u8,
    ] + (key_kind_q() + (seq![':' as u8] + (kind_lit(e.kind) + seq!['}' as u8])))))))))));
    assert(spec_quoted(op) + r5 =~= seq![qu()] + (spec_escape(op) + (seq![qu()] + r5)));
    lemma_split_concat(s, a3, j, seq![qu()], spec_escape(op) + (seq![qu()] + r5));
    assert(s[a3] == qu()) by {
        assert(s.subrange(a3, a3 + 1)[0] == s[a3]);
    }
    let a4 = a3 + 1;
    lemma_split_concat(s, a4, j, spec_escape(op), seq![qu()] + r5);
    let a5 = a4 + spec_escape(op).len();
    lemma_split_concat(s, a5, j, seq![qu()], r5);
    assert(s[a5] == qu()) by {
        assert(s.subrange(a5, a5 + 1)[0] == s[a5]);
    }
    lemma_parse_str_of_escaped(s, a4, op, a5);
    let a6 = a5 + 1;
    // ',' before trashed_path
    let r6 = key_trashed_q() + (seq![':' as u8] + (spec_quoted(tp) + (seq![',' as u8]
        + (key_deleted_q() + (seq![':' as u8] + (numfmt::spec_dec_int(e.deleted_at) + (seq![
        ',' as u8,
    ] + (key_kind_q() + (seq![':' as u8] + (kind_lit(e.kind) + seq!['}' as u8]))))))))));
    lemma_split_concat(s, a6, j, seq![',' as u8], r6);
    assert(s[a6] == ',' as u8) by {
        assert(s.subrange(a6, a6 + 1)[0] == s[a6]);
    }
    let a7 = a6 + 1;
    let r7 = seq![':' as u8] + (spec_quoted(tp) + (seq![',' as u8] + (key_deleted_q() + (seq![
        ':' as u8,
    ] + (numfmt::spec_dec_int(e.deleted_at) + (seq![',' as u8] + (key_kind_q() + (seq![':' as u8]
        + (kind_lit(e.kind) + seq!['}' as u8])))))))));
    lemma_split_concat(s, a7, j, key_trashed_q(), r7);
    lemma_lit_from_subrange(s, a7, key_trashed_q());
    let a8 = a7 + 14;
    let r8 = spec_quoted(tp) + (seq![',' as u8] + (key_deleted_q() + (seq![':' as u8]
        + (numfmt::spec_dec_int(e.deleted_at) + (seq![',' as u8] + (key_kind_q() + (seq![':' as u8]
        + (kind_lit(e.kind) + seq!['}' as u8]))))))));
    lemma_split_concat(s, a8, j, seq![':' as u8], r8);
    assert(s[a8] == ':' as u8) by {
        assert(s.subrange(a8, a8 + 1)[0] == s[a8]);
    }
    let a9 = a8 + 1;
    let r9 = seq![',' as u8] + (key_deleted_q() + (seq![':' as u8] + (numfmt::spec_dec_int(
        e.deleted_at,
    ) + (seq![',' as u8] + (key_kind_q() + (seq![':' as u8] + (kind_lit(e.kind) + seq![
        '}' as u8,
    ])))))));
    assert(spec_quoted(tp) + r9 =~= seq![qu()] + (spec_escape(tp) + (seq![qu()] + r9)));
    lemma_split_concat(s, a9, j, seq![qu()], spec_escape(tp) + (seq![qu()] + r9));
    assert(s[a9] == qu()) by {
        assert(s.subrange(a9, a9 + 1)[0] == s[a9]);
    }
    let a10 = a9 + 1;
    lemma_split_concat(s, a10, j, spec_escape(tp), seq![qu()] + r9);
    let a11 = a10 + spec_escape(tp).len();
    lemma_split_concat(s, a11, j, seq![qu()], r9);
    assert(s[a11] == qu()) by {
        assert(s.subrange(a11, a11 + 1)[0] == s[a11]);
    }
    lemma_parse_str_of_escaped(s, a10, tp, a11);
    let a12 = a11 + 1;
    // ',' before deleted_at
    let r10 = key_deleted_q() + (seq![':' as u8] + (numfmt::spec_dec_int(e.deleted_at) + (seq![
        ',' as u8,
    ] + (key_kind_q() + (seq![':' as u8] + (kind_lit(e.kind) + seq!['}' as u8]))))));
    lemma_split_concat(s, a12, j, seq![',' as u8], r10);
    assert(s[a12] == ',' as u8) by {
        assert(s.subrange(a12, a12 + 1)[0] == s[a12]);
    }
    let a13 = a12 + 1;
    let r11 = seq![':' as u8] + (numfmt::spec_dec_int(e.deleted_at) + (seq![',' as u8]
        + (key_kind_q() + (seq![':' as u8] + (kind_lit(e.kind) + seq!['}' as u8])))));
    lemma_split_concat(s, a13, j, key_deleted_q(), r11);
    lemma_lit_from_subrange(s, a13, key_deleted_q());
    let a14 = a13 + 12;
    let r12 = numfmt::spec_dec_int(e.deleted_at) + (seq![',' as u8] + (key_kind_q() + (seq![
        ':' as u8,
    ] + (kind_lit(e.kind) + seq!['}' as u8]))));
    lemma_split_concat(s, a14, j, seq![':' as u8], r12);
    assert(s[a14] == ':' as u8) by {
        assert(s.subrange(a14, a14 + 1)[0] == s[a14]);
    }
    let a15 = a14 + 1;
    let r13 = seq![',' as u8] + (key_kind_q() + (seq![':' as u8] + (kind_lit(e.kind) + seq![
        '}' as u8,
    ])));
    lemma_split_concat(s, a15, j, numfmt::spec_dec_int(e.deleted_at), r13);
    let a16 = a15 + numfmt::spec_dec_int(e.deleted_at).len();
    lemma_split_concat(s, a16, j, seq![',' as u8], key_kind_q() + (seq![':' as u8] + (kind_lit(
        e.kind,
    ) + seq!['}' as u8])));
    assert(s[a16] == ',' as u8) by {
        assert(s.subrange(a16, a16 + 1)[0] == s[a16]);
    }
    assert(!numfmt::is_digit(',' as u8));
    numfmt::lemma_parse_i64_of_dec(s, a15, a16, e.deleted_at);
    let a17 = a16 + 1;
    let r14 = seq![':' as u8] + (kind_lit(e.kind) + seq!['}' as u8]);
    lemma_split_concat(s, a17, j, key_kind_q(), r14);
    lemma_lit_from_subrange(s, a17, key_kind_q());
    let a18 = a17 + 6;
    lemma_split_concat(s, a18, j, seq![':' as u8], kind_lit(e.kind) + seq!['}' as u8]);
    assert(s[a18] == ':' as u8) by {
        assert(s.subrange(a18, a18 + 1)[0] == s[a18]);
    }
    let a19 = a18 + 1;
    lemma_split_concat(s, a19, j, kind_lit(e.kind), seq!['}' as u8]);
    lemma_parse_kind_of_lit(s, a19, e.kind);
    let a20 = a19 + kind_lit(e.kind).len();
    assert(s[a20] == '}' as u8) by {
        assert(s.subrange(a20, j)[0] == s[a20]);
    }
    assert(a20 + 1 == j);
    // every structural byte is non-whitespace, so each skip is a no-op
    assert(spec_parse_entry(s, i) == Some(
        (
            EntryV { original_path: op, trashed_path: tp, deleted_at: e.deleted_at, kind: e.kind },
            j,
        ),
    ));
    assert(EntryV {
        original_path: op,
        trashed_path: tp,
        deleted_at: e.deleted_at,
        kind: e.kind,
    } =~= e);
}

/// Parsing the rendered tail of an item list, closed by a bracket, yields
/// those entries.
#[verifier::rlimit(60)]
pub proof fn lemma_parse_items_rest_of_render(s: Seq<u8>, i: int, xs: Seq<EntryV>, j: int)
    requires
        0 <= i <= j < s.len(),
        s.subrange(i, j) == spec_render_items_rest(xs),
        s[j] == ']' as u8,
        forall|t: int| 0 <= t < xs.len() ==> entry_in_range(#[trigger] xs[t]),
    ensures
        spec_parse_items_rest(s, i) == Some((xs, j + 1)),
    decreases xs.len(),
{
    assert(s.subrange(i, j).len() == j - i);
    if xs.len() == 0 {
        assert(spec_render_items_rest(xs) =~= Seq::<u8>::empty());
        assert(i == j);
        assert(spec_parse_items_rest(s, i) == Some((Seq::<EntryV>::empty(), i + 1)));
        assert(xs =~= Seq::<EntryV>::empty());
    } else {
        let e0 = xs[0];
        let rest = spec_render_items_rest(xs.drop_first());
        assert(spec_render_items_rest(xs) == seq![',' as u8] + (spec_render_entry(e0) + rest))
            by {
            assert(seq![',' as u8] + spec_render_entry(e0) + rest =~= seq![',' as u8]
                + (spec_render_entry(e0) + rest));
        }
        lemma_split_concat(s, i, j, seq![',' as u8], spec_render_entry(e0) + rest);
        assert(s[i] == ',' as u8) by {
            assert(s.subrange(i, i + 1)[0] == s[i]);
        }
        let m0 = i + 1;
        lemma_split_concat(s, m0, j, spec_render_entry(e0), rest);
        let m1 = m0 + spec_render_entry(e0).len();
        lemma_parse_entry_of_render(s, m0, e0);
        assert(forall|t: int|
            0 <= t < xs.drop_first().len() ==> entry_in_range(#[trigger] xs.drop_first()[t]));
        lemma_parse_items_rest_of_render(s, m1, xs.drop_first(), j);
        assert(spec_parse_items_rest(s, i) == Some((seq![e0] + xs.drop_first(), j + 1)));
        assert(seq![e0] + xs.drop_first() =~= xs);
    }
}

/// First byte of a rendered entry is its opening brace.
pub proof fn lemma_render_entry_first(e: EntryV)
    ensures
        spec_render_entry(e).len() >= 1,
        spec_render_entry(e)[0] == '{' as u8,
{
    assert((seq!['{' as u8] + (key_original_q() + (seq![':' as u8] + (spec_quoted(e.original_path)
        + (seq![',' as u8] + (key_trashed_q() + (seq![':' as u8] + (spec_quoted(e.trashed_path)
        + (seq![',' as u8] + (key_deleted_q() + (seq![':' as u8] + (numfmt::spec_dec_int(
        e.deleted_at,
    ) + (seq![',' as u8] + (key_kind_q() + (seq![':' as u8] + (kind_lit(e.kind) + seq![
        '}' as u8,
    ]))))))))))))))))[0] == '{' as u8);
}

/// The fixed tokens of a rendered catalog sit where the reader expects
/// them, with the items region in between.
#[verifier::rlimit(100)]
pub proof fn lemma_catalog_frame(xs: Seq<EntryV>)
    ensures
        spec_render_catalog(xs).len() == 12 + spec_render_items(xs).len(),
        spec_render_catalog(xs)[0] == '{' as u8,
        spec_match_lit(spec_render_catalog(xs), 1, key_items_q()),
        spec_render_catalog(xs)[8] == ':' as u8,
        spec_render_catalog(xs)[9] == '[' as u8,
        spec_render_catalog(xs).subrange(10, 10 + spec_render_items(xs).len() as int)
            == spec_render_items(xs),
        spec_render_catalog(xs)[10 + spec_render_items(xs).len() as int] == ']' as u8,
        spec_render_catalog(xs)[11 + spec_render_items(xs).len() as int] == '}' as u8,
{
    let s = spec_render_catalog(xs);
    let items = spec_render_items(xs);
    let j = s.len() as int;
    assert(s == seq!['{' as u8] + (key_items_q() + (seq![':' as u8, '[' as u8] + (items + seq![
        ']' as u8,
        '}' as u8,
    ]))));
    assert(s.subrange(0, j) =~= s);
    lemma_split_concat(s, 0, j, seq!['{' as u8], key_items_q() + (seq![':' as u8, '[' as u8]
        + (items + seq![']' as u8, '}' as u8])));
    assert(s[0] == '{' as u8) by {
        assert(s.subrange(0, 1)[0] == s[0]);
    }
    lemma_split_concat(s, 1, j, key_items_q(), seq![':' as u8, '[' as u8] + (items + seq![
        ']' as u8,
        '}' as u8,
    ]));
    lemma_lit_from_subrange(s, 1, key_items_q());
    lemma_split_concat(s, 8, j, seq![':' as u8, '[' as u8], items + seq![']' as u8, '}' as u8]);
    assert(s[8] == ':' as u8 && s[9] == '[' as u8) by {
        assert(s.subrange(8, 10)[0] == s[8]);
        assert(s.subrange(8, 10)[1] == s[9]);
    }
    lemma_split_concat(s, 10, j, items, seq![']' as u8, '}' as u8]);
    let m: int = 10 + items.len() as int;
    assert(s[m] == ']' as u8 && s[m + 1] == '}' as u8) by {
        assert(s.subrange(m, j)[0] == s[m]);
        assert(s.subrange(m, j)[1] == s[m + 1]);
    }
}

/// The headline round trip: reading back a rendered catalog yields exactly
/// the entries that were written.
#[verifier::rlimit(100)]
#[verifier::spinoff_prover]
pub proof fn lemma_catalog_round_trip(xs: Seq<EntryV>)
    requires
        forall|t: int| 0 <= t < xs.len() ==> entry_in_range(#[trigger] xs[t]),
    ensures
        spec_parse_catalog(spec_render_catalog(xs)) == Some(xs),
{
    let s = spec_render_catalog(xs);
    let items = spec_render_items(xs);
    let m: int = 10 + items.len() as int;
    lemma_catalog_frame(xs);
    if xs.len() == 0 {
        assert(items =~= Seq::<u8>::empty());
        assert(m == 10);
        assert(spec_skip_ws(s, m + 2) == s.len());
        assert(spec_parse_catalog(s) == Some(Seq::<EntryV>::empty()));
        assert(xs =~= Seq::<EntryV>::empty());
    } else {
        let e0 = xs[0];
        let rest = spec_render_items_rest(xs.drop_first());
        assert(items == spec_render_entry(e0) + rest);
        lemma_split_concat(s, 10, m, spec_render_entry(e0), rest);
        let m1: int = 10 + spec_render_entry(e0).len() as int;
        assert(entry_in_range(e0));
        lemma_parse_entry_of_render(s, 10, e0);
        lemma_render_entry_first(e0);
        assert(s[10] == '{' as u8) by {
            assert(s.subrange(10, m1)[0] == s[10]);
        }
        assert(forall|t: int|
            0 <= t < xs.drop_first().len() ==> entry_in_range(#[trigger] xs.drop_first()[t]));
        lemma_parse_items_rest_of_render(s, m1, xs.drop_first(), m);
        assert(spec_skip_ws(s, m + 2) == s.len());
        assert(spec_parse_catalog(s) == Some(seq![e0] + xs.drop_first()));
        assert(seq![e0] + xs.drop_first() =~= xs);
    }
}

} // verus!
