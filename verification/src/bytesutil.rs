//! Small helpers on byte strings.
use vstd::prelude::*;

verus! {

/// ASCII lower-casing of one byte.
pub open spec fn spec_lower_byte(b: u8) -> u8 {
    if 'A' as u8 <= b <= 'Z' as u8 {
        (b + 32) as u8
    } else {
        b
    }
}

/// ASCII lower-casing of a byte string.
pub open spec fn spec_lower(s: Seq<u8>) -> Seq<u8> {
    s.map_values(|b: u8| spec_lower_byte(b))
}

/// `needle` occurs at offset `k` of `hay`, comparing ASCII-case-insensitively.
pub open spec fn spec_match_ci_at(hay: Seq<u8>, needle: Seq<u8>, k: int) -> bool {
    &&& 0 <= k
    &&& k + needle.len() <= hay.len()
    &&& forall|j: int|
        0 <= j < needle.len() ==> spec_lower_byte(hay[k + j]) == spec_lower_byte(needle[j])
}

/// `needle` occurs somewhere in `hay`, ASCII-case-insensitively.
pub open spec fn spec_contains_ci(hay: Seq<u8>, needle: Seq<u8>) -> bool {
    exists|k: int| spec_match_ci_at(hay, needle, k)
}

/// `s` begins with `prefix`, ASCII-case-insensitively.
pub open spec fn spec_starts_with_ci(s: Seq<u8>, prefix: Seq<u8>) -> bool {
    spec_match_ci_at(s, prefix, 0)
}

/// `needle` occurs at offset `k` of `hay`, byte for byte.
pub open spec fn spec_match_at(hay: Seq<u8>, needle: Seq<u8>, k: int) -> bool {
    &&& 0 <= k
    &&& k + needle.len() <= hay.len()
    &&& forall|j: int| 0 <= j < needle.len() ==> hay[k + j] == needle[j]
}

/// Least offset at which `needle` occurs in `hay` at position `>= from`.
pub open spec fn spec_find_at(hay: Seq<u8>, needle: Seq<u8>, from: int) -> Option<int>
    decreases hay.len() - from,
{
    if from < 0 || from + needle.len() > hay.len() {
        None
    } else if spec_match_at(hay, needle, from) {
        Some(from)
    } else {
        spec_find_at(hay, needle, from + 1)
    }
}

#[verifier::loop_isolation(false)]
pub fn eq_bytes(a: &Vec<u8>, b: &Vec<u8>) -> (r: bool)
    ensures
        r == (a@ == b@),
{
    if a.len() != b.len() {
        return false;
    }
    let mut i: usize = 0;
    while i < a.len()
        invariant
            i <= a.len() == b.len(),
            forall|j: int| 0 <= j < i ==> a@[j] == b@[j],
        decreases a.len() - i,
    {
        if a[i] != b[i] {
            return false;
        }
        i = i + 1;
    }
    proof {
        assert(a@ =~= b@);
    }
    true
}

#[verifier::loop_isolation(false)]
pub fn clone_bytes(a: &Vec<u8>) -> (r: Vec<u8>)
    ensures
        r@ == a@,
{
    let mut r: Vec<u8> = Vec::new();
    let mut i: usize = 0;
    while i < a.len()
        invariant
            i <= a.len(),
            r@ == a@.take(i as int),
        decreases a.len() - i,
    {
        r.push(a[i]);
        proof {
            assert(a@.take(i + 1) =~= a@.take(i as int).push(a@[i as int]));
        }
        i = i + 1;
    }
    proof {
        assert(a@.take(a@.len() as int) =~= a@);
    }
    r
}

#[verifier::loop_isolation(false)]
pub fn push_bytes(v: &mut Vec<u8>, a: &Vec<u8>)
    ensures
        final(v)@ == old(v)@ + a@,
{
    let mut i: usize = 0;
    while i < a.len()
        invariant
            i <= a.len(),
            v@ == old(v)@ + a@.take(i as int),
        decreases a.len() - i,
    {
        v.push(a[i]);
        proof {
            assert(a@.take(i + 1) =~= a@.take(i as int).push(a@[i as int]));
            assert(old(v)@ + a@.take(i + 1) =~= (old(v)@ + a@.take(i as int)).push(a@[i as int]));
        }
        i = i + 1;
    }
    proof {
        assert(a@.take(a@.len() as int) =~= a@);
        assert(v@ =~= old(v)@ + a@);
    }
}

pub fn lower_byte(b: u8) -> (r: u8)
    ensures
        r == spec_lower_byte(b),
{
    if 'A' as u8 <= b && b <= 'Z' as u8 {
        b + 32
    } else {
        b
    }
}

#[verifier::loop_isolation(false)]
fn match_ci_at(hay: &Vec<u8>, needle: &Vec<u8>, k: usize) -> (r: bool)
    requires
        k + needle@.len() <= hay@.len(),
    ensures
        r == spec_match_ci_at(hay@, needle@, k as int),
{
    let _hay_len: usize = hay.len();
    let mut j: usize = 0;
    while j < needle.len()
        invariant
            j <= needle.len(),
            k + needle@.len() <= hay@.len(),
            forall|t: int|
                0 <= t < j ==> spec_lower_byte(hay@[k + t]) == spec_lower_byte(needle@[t]),
        decreases needle.len() - j,
    {
        if lower_byte(hay[k + j]) != lower_byte(needle[j]) {
            return false;
        }
        j = j + 1;
    }
    true
}

/// Case-insensitive (ASCII) substring test.
#[verifier::loop_isolation(false)]
pub fn contains_ci(hay: &Vec<u8>, needle: &Vec<u8>) -> (r: bool)
    ensures
        r == spec_contains_ci(hay@, needle@),
{
    if needle.len() > hay.len() {
        proof {
            assert(forall|k: int| !spec_match_ci_at(hay@, needle@, k));
        }
        return false;
    }
    let mut k: usize = 0;
    while k <= hay.len() - needle.len()
        invariant
            k <= hay@.len() - needle@.len() + 1,
            forall|t: int| 0 <= t < k ==> !spec_match_ci_at(hay@, needle@, t),
        decreases hay.len() - k,
    {
        if match_ci_at(hay, needle, k) {
            return true;
        }
        k = k + 1;
    }
    proof {
        assert(forall|t: int| !spec_match_ci_at(hay@, needle@, t));
    }
    false
}

/// Case-insensitive (ASCII) prefix test.
pub fn starts_with_ci(s: &Vec<u8>, prefix: &Vec<u8>) -> (r: bool)
    ensures
        r == spec_starts_with_ci(s@, prefix@),
{
    if prefix.len() > s.len() {
        return false;
    }
    match_ci_at(s, prefix, 0)
}

#[verifier::loop_isolation(false)]
pub fn match_at(hay: &Vec<u8>, needle: &Vec<u8>, k: usize) -> (r: bool)
    requires
        k + needle@.len() <= hay@.len(),
    ensures
        r == spec_match_at(hay@, needle@, k as int),
{
    let _hay_len: usize = hay.len();
    let mut j: usize = 0;
    while j < needle.len()
        invariant
            j <= needle.len(),
            k + needle@.len() <= hay@.len(),
            forall|t: int| 0 <= t < j ==> hay@[k + t] == needle@[t],
        decreases needle.len() - j,
    {
        if hay[k + j] != needle[j] {
            return false;
        }
        j = j + 1;
    }
    true
}

/// A found offset lies at or after `from` and carries a real match.
pub proof fn lemma_find_at_bounds(hay: Seq<u8>, needle: Seq<u8>, from: int)
    ensures
        match spec_find_at(hay, needle, from) {
            Some(i) => from <= i && spec_match_at(hay, needle, i),
            None => true,
        },
    decreases hay.len() - from,
{
    if !(from < 0 || from + needle.len() > hay.len()) && !spec_match_at(hay, needle, from) {
        lemma_find_at_bounds(hay, needle, from + 1);
    }
}

/// Least offset `>= from` at which `needle` occurs in `hay`.
#[verifier::loop_isolation(false)]
pub fn find_at(hay: &Vec<u8>, needle: &Vec<u8>, from: usize) -> (r: Option<usize>)
    ensures
        match r {
            Some(i) => spec_find_at(hay@, needle@, from as int) == Some(i as int),
            None => spec_find_at(hay@, needle@, from as int) == None::<int>,
        },
{
    if from > hay.len() || needle.len() > hay.len() - from {
        return None;
    }
    let mut k: usize = from;
    while k <= hay.len() - needle.len()
        invariant
            from <= k <= hay@.len() - needle@.len() + 1,
            spec_find_at(hay@, needle@, from as int) == spec_find_at(hay@, needle@, k as int),
        decreases hay.len() - k,
    {
        if match_at(hay, needle, k) {
            return Some(k);
        }
        k = k + 1;
    }
    None
}

} // verus!
