//! Byte-level path model.
//!
//! Paths are byte strings separated by `/`, as on Unix. All reasoning about
//! ancestry, basenames and depth is done on this model; the conversion from
//! the operating system's path type happens outside the library.
use vstd::prelude::*;

verus! {

pub open spec fn slash() -> u8 {
    '/' as u8
}

/// `p` with trailing slashes removed; a lone `/` is kept.
pub open spec fn spec_strip_trailing_slashes(p: Seq<u8>) -> Seq<u8>
    decreases p.len(),
{
    if p.len() > 1 && p.last() == slash() {
        spec_strip_trailing_slashes(p.drop_last())
    } else {
        p
    }
}

/// Index of the last `/` in `p`, if any.
pub open spec fn spec_last_slash(p: Seq<u8>) -> Option<int>
    decreases p.len(),
{
    if p.len() == 0 {
        None
    } else if p.last() == slash() {
        Some(p.len() - 1)
    } else {
        spec_last_slash(p.drop_last())
    }
}

/// The final path segment: what follows the last `/` once trailing slashes
/// are stripped; empty for the root and for the empty path.
pub open spec fn spec_basename(p: Seq<u8>) -> Seq<u8> {
    let q = spec_strip_trailing_slashes(p);
    match spec_last_slash(q) {
        None => q,
        Some(i) => q.subrange(i + 1, q.len() as int),
    }
}

/// The parent path: everything before the last `/`; `/x` has parent `/`;
/// the root and slash-free paths have none.
pub open spec fn spec_parent(p: Seq<u8>) -> Option<Seq<u8>> {
    let q = spec_strip_trailing_slashes(p);
    if q =~= seq![slash()] {
        None
    } else {
        match spec_last_slash(q) {
            None => None,
            Some(i) => if i == 0 {
                Some(seq![slash()])
            } else {
                Some(q.subrange(0, i))
            },
        }
    }
}

/// `a` names a directory strictly above `b`, comparing stripped forms.
pub open spec fn spec_is_strict_ancestor(a: Seq<u8>, b: Seq<u8>) -> bool {
    let sa = spec_strip_trailing_slashes(a);
    let sb = spec_strip_trailing_slashes(b);
    &&& sa.len() > 0
    &&& sa.len() < sb.len()
    &&& sb.take(sa.len() as int) == sa
    &&& (sa =~= seq![slash()] || sb[sa.len() as int] == slash())
}

/// True at index `i` when a path segment starts there.
pub open spec fn spec_seg_start(p: Seq<u8>, i: int) -> bool {
    &&& 0 <= i < p.len()
    &&& p[i] != slash()
    &&& (i == 0 || p[i - 1] == slash())
}

/// Number of segment starts in `p` at positions `>= i`.
pub open spec fn spec_depth_from(p: Seq<u8>, i: int) -> nat
    decreases p.len() - i,
{
    if i < 0 || i >= p.len() {
        0
    } else {
        (if spec_seg_start(p, i) { 1nat } else { 0nat }) + spec_depth_from(p, i + 1)
    }
}

/// Number of `/`-separated segments of `p`.
pub open spec fn spec_depth(p: Seq<u8>) -> nat {
    spec_depth_from(p, 0)
}

#[verifier::loop_isolation(false)]
pub fn strip_trailing_slashes(p: &Vec<u8>) -> (r: Vec<u8>)
    ensures
        r@ == spec_strip_trailing_slashes(p@),
{
    let mut end: usize = p.len();
    proof {
        assert(p@.take(p@.len() as int) =~= p@);
    }
    while end > 1 && p[end - 1] == '/' as u8
        invariant
            end <= p.len(),
            spec_strip_trailing_slashes(p@) == spec_strip_trailing_slashes(p@.take(end as int)),
        decreases end,
    {
        proof {
            assert(p@.take(end as int).drop_last() =~= p@.take(end as int - 1));
        }
        end = end - 1;
    }
    let mut r: Vec<u8> = Vec::new();
    let mut i: usize = 0;
    while i < end
        invariant
            i <= end <= p.len(),
            r@ == p@.take(end as int).take(i as int),
        decreases end - i,
    {
        r.push(p[i]);
        proof {
            assert(p@.take(end as int).take(i + 1) =~= p@.take(end as int).take(i as int).push(
                p@[i as int],
            ));
        }
        i = i + 1;
    }
    proof {
        assert(p@.take(end as int).take(end as int) =~= p@.take(end as int));
        assert(spec_strip_trailing_slashes(p@.take(end as int)) == p@.take(end as int));
    }
    r
}

#[verifier::loop_isolation(false)]
pub fn last_slash(p: &Vec<u8>) -> (r: Option<usize>)
    ensures
        match r {
            Some(i) => spec_last_slash(p@) == Some(i as int) && i < p@.len(),
            None => spec_last_slash(p@) == None::<int>,
        },
{
    let mut j: usize = p.len();
    proof {
        assert(p@.take(p@.len() as int) =~= p@);
    }
    while j > 0
        invariant
            j <= p.len(),
            spec_last_slash(p@) == spec_last_slash(p@.take(j as int)),
        decreases j,
    {
        if p[j - 1] == '/' as u8 {
            proof {
                assert(p@.take(j as int).last() == slash());
            }
            return Some(j - 1);
        }
        proof {
            assert(p@.take(j as int).last() != slash());
            assert(p@.take(j as int).drop_last() =~= p@.take(j as int - 1));
        }
        j = j - 1;
    }
    proof {
        assert(p@.take(0) =~= Seq::<u8>::empty());
    }
    None
}

/// Final path segment of `p`.
#[verifier::loop_isolation(false)]
pub fn basename(p: &Vec<u8>) -> (r: Vec<u8>)
    ensures
        r@ == spec_basename(p@),
{
    let q = strip_trailing_slashes(p);
    match last_slash(&q) {
        None => q,
        Some(i) => {
            let _q_len: usize = q.len();
            let mut r: Vec<u8> = Vec::new();
            let mut k: usize = i + 1;
            while k < q.len()
                invariant
                    i + 1 <= k <= q.len(),
                    i < q.len(),
                    r@ == q@.subrange(i + 1, k as int),
                decreases q.len() - k,
            {
                r.push(q[k]);
                proof {
                    assert(q@.subrange(i + 1, k + 1) =~= q@.subrange(i + 1, k as int).push(
                        q@[k as int],
                    ));
                }
                k = k + 1;
            }
            r
        },
    }
}

/// Parent path of `p`, if it has one.
#[verifier::loop_isolation(false)]
pub fn parent_path(p: &Vec<u8>) -> (r: Option<Vec<u8>>)
    ensures
        match r {
            Some(v) => spec_parent(p@) == Some(v@),
            None => spec_parent(p@) == None::<Seq<u8>>,
        },
{
    let q = strip_trailing_slashes(p);
    if q.len() == 1 && q[0] == '/' as u8 {
        proof {
            assert(q@ =~= seq![slash()]);
        }
        return None;
    }
    proof {
        assert(!(q@ =~= seq![slash()]));
    }
    match last_slash(&q) {
        None => None,
        Some(i) => {
            if i == 0 {
                let mut v: Vec<u8> = Vec::new();
                v.push('/' as u8);
                proof {
                    assert(v@ =~= seq![slash()]);
                }
                Some(v)
            } else {
                let mut v: Vec<u8> = Vec::new();
                let mut k: usize = 0;
                while k < i
                    invariant
                        k <= i < q.len(),
                        v@ == q@.subrange(0, k as int),
                    decreases i - k,
                {
                    v.push(q[k]);
                    proof {
                        assert(q@.subrange(0, k + 1) =~= q@.subrange(0, k as int).push(
                            q@[k as int],
                        ));
                    }
                    k = k + 1;
                }
                Some(v)
            }
        },
    }
}

/// Does `a` name a directory strictly above `b`?
#[verifier::loop_isolation(false)]
pub fn is_strict_ancestor(a: &Vec<u8>, b: &Vec<u8>) -> (r: bool)
    ensures
        r == spec_is_strict_ancestor(a@, b@),
{
    let sa = strip_trailing_slashes(a);
    let sb = strip_trailing_slashes(b);
    if sa.len() == 0 || sa.len() >= sb.len() {
        return false;
    }
    let mut k: usize = 0;
    while k < sa.len()
        invariant
            k <= sa.len() < sb.len(),
            forall|j: int| 0 <= j < k ==> sa@[j] == sb@[j],
        decreases sa.len() - k,
    {
        if sa[k] != sb[k] {
            proof {
                assert(sb@.take(sa@.len() as int)[k as int] != sa@[k as int]);
            }
            return false;
        }
        k = k + 1;
    }
    proof {
        assert(sb@.take(sa@.len() as int) =~= sa@);
    }
    let root = sa.len() == 1 && sa[0] == '/' as u8;
    proof {
        if root {
            assert(sa@ =~= seq![slash()]);
        } else {
            assert(!(sa@ =~= seq![slash()]));
        }
    }
    root || sb[sa.len()] == '/' as u8
}

/// Number of `/`-separated segments of `p`, as a count of segment starts.
#[verifier::loop_isolation(false)]
pub fn path_depth(p: &Vec<u8>) -> (n: usize)
    ensures
        n == spec_depth(p@),
{
    let mut n: usize = 0;
    let mut i: usize = p.len();
    while i > 0
        invariant
            i <= p.len(),
            n == spec_depth_from(p@, i as int),
            n <= p.len() - i,
        decreases i,
    {
        i = i - 1;
        if p[i] != '/' as u8 && (i == 0 || p[i - 1] == '/' as u8) {
            n = n + 1;
        }
    }
    n
}

/// `p` followed by `/` followed by `name`.
#[verifier::loop_isolation(false)]
pub fn join_path(p: &Vec<u8>, name: &Vec<u8>) -> (r: Vec<u8>)
    ensures
        r@ == p@ + seq![slash()] + name@,
{
    let mut r = crate::bytesutil::clone_bytes(p);
    r.push('/' as u8);
    let mut k: usize = 0;
    while k < name.len()
        invariant
            k <= name.len(),
            r@ == p@ + seq![slash()] + name@.take(k as int),
        decreases name.len() - k,
    {
        r.push(name[k]);
        proof {
            assert(name@.take(k + 1) =~= name@.take(k as int).push(name@[k as int]));
            assert((p@ + seq![slash()] + name@.take(k as int)).push(name@[k as int]) =~= p@ + seq![
                slash(),
            ] + name@.take(k + 1));
        }
        k = k + 1;
    }
    proof {
        assert(name@.take(name@.len() as int) =~= name@);
    }
    r
}

/// Number of segment starts in `p` at positions in `[i, j)`.
pub open spec fn spec_depth_between(p: Seq<u8>, i: int, j: int) -> nat
    decreases j - i,
{
    if i < j {
        (if spec_seg_start(p, i) {
            1nat
        } else {
            0nat
        }) + spec_depth_between(p, i + 1, j)
    } else {
        0
    }
}

pub proof fn lemma_depth_split(p: Seq<u8>, i: int, j: int)
    requires
        0 <= i <= j <= p.len(),
    ensures
        spec_depth_from(p, i) == spec_depth_between(p, i, j) + spec_depth_from(p, j),
    decreases j - i,
{
    if i < j {
        lemma_depth_split(p, i + 1, j);
    }
}

pub proof fn lemma_depth_between_agree(p: Seq<u8>, q: Seq<u8>, i: int, j: int, m: int)
    requires
        0 <= i,
        i <= j <= m,
        m <= p.len(),
        m <= q.len(),
        forall|t: int| 0 <= t < m ==> p[t] == q[t],
    ensures
        spec_depth_between(p, i, j) == spec_depth_between(q, i, j),
    decreases j - i,
{
    if i < j {
        assert(spec_seg_start(p, i) == spec_seg_start(q, i));
        lemma_depth_between_agree(p, q, i + 1, j, m);
    }
}

/// Behind a slash that still has a non-slash byte after it, at least one
/// segment starts.
pub proof fn lemma_start_behind_slash(p: Seq<u8>, j: int)
    requires
        0 <= j < p.len(),
        p[j] == slash(),
        exists|t: int| j < t < p.len() && p[t] != slash(),
    ensures
        spec_depth_from(p, j) >= 1,
    decreases p.len() - j,
{
    let t0 = choose|t: int| j < t < p.len() && p[t] != slash();
    if p[j + 1] != slash() {
        assert(spec_seg_start(p, j + 1));
        assert(spec_depth_from(p, j + 1) >= 1);
    } else {
        assert(j + 1 < p.len());
        assert(t0 != j + 1);
        lemma_start_behind_slash(p, j + 1);
    }
}

/// Dropping a trailing slash never changes the segment count.
pub proof fn lemma_depth_from_drop_slash(p: Seq<u8>, i: int)
    requires
        p.len() > 0,
        p.last() == slash(),
        0 <= i,
    ensures
        spec_depth_from(p.drop_last(), i) == spec_depth_from(p, i),
    decreases p.len() - i,
{
    if i < p.len() - 1 {
        assert(spec_seg_start(p.drop_last(), i) == spec_seg_start(p, i));
        lemma_depth_from_drop_slash(p, i + 1);
    } else if i == p.len() - 1 {
        assert(!spec_seg_start(p, i));
        assert(spec_depth_from(p, i + 1) == 0);
        assert(spec_depth_from(p, i) == 0);
        assert(spec_depth_from(p.drop_last(), i) == 0);
    } else {
        assert(spec_depth_from(p, i) == 0);
        assert(spec_depth_from(p.drop_last(), i) == 0);
    }
}

/// Stripping trailing slashes never changes the segment count.
pub proof fn lemma_depth_strip(p: Seq<u8>)
    ensures
        spec_depth(spec_strip_trailing_slashes(p)) == spec_depth(p),
    decreases p.len(),
{
    if p.len() > 1 && p.last() == slash() {
        lemma_depth_from_drop_slash(p, 0);
        lemma_depth_strip(p.drop_last());
    } else if p.len() == 1 && p.last() == slash() {
    }
}

/// A strict ancestor has strictly fewer segments: restoring in order of
/// ascending depth recreates parents before their children.
pub proof fn lemma_ancestor_shallower(a: Seq<u8>, b: Seq<u8>)
    requires
        spec_is_strict_ancestor(a, b),
    ensures
        spec_depth(a) < spec_depth(b),
{
    let sa = spec_strip_trailing_slashes(a);
    let sb = spec_strip_trailing_slashes(b);
    lemma_depth_strip(a);
    lemma_depth_strip(b);
    lemma_strip_no_trailing(b);
    let m = sa.len() as int;
    assert(forall|t: int| 0 <= t < m ==> sb[t] == sa[t]) by {
        assert(forall|t: int| 0 <= t < m ==> #[trigger] sb.take(m)[t] == sb[t]);
    }
    assert(sb.last() != slash());
    if sa =~= seq![slash()] {
        assert(sb[0] == slash());
        assert(sb.len() - 1 > 0 && sb[sb.len() - 1] != slash());
        lemma_start_behind_slash(sb, 0);
        assert(spec_depth(sa) == 0) by {
            assert(!spec_seg_start(sa, 0));
            assert(spec_depth_from(sa, 1) == 0);
        }
        assert(spec_depth_from(sb, 0) >= 1);
    } else {
        assert(sb[m] == slash());
        lemma_depth_split(sb, 0, m);
        lemma_depth_between_agree(sb, sa, 0, m, m);
        lemma_depth_split(sa, 0, m);
        assert(spec_depth_from(sa, m) == 0);
        assert(spec_depth(sa) == spec_depth_between(sb, 0, m));
        assert(exists|t: int| m < t < sb.len() && sb[t] != slash()) by {
            assert(sb[sb.len() - 1] != slash());
        }
        lemma_start_behind_slash(sb, m);
        assert(spec_depth(sb) >= spec_depth(sa) + 1);
    }
}

/// A stripped path of more than one byte does not end in a slash.
pub proof fn lemma_strip_no_trailing(p: Seq<u8>)
    ensures
        spec_strip_trailing_slashes(p).len() > 1 ==> spec_strip_trailing_slashes(p).last()
            != slash(),
        spec_strip_trailing_slashes(p).len() <= p.len(),
    decreases p.len(),
{
    if p.len() > 1 && p.last() == slash() {
        lemma_strip_no_trailing(p.drop_last());
    }
}

/// Joining a clean directory path with a non-empty name that does not end
/// in a slash lands strictly below that directory.
pub proof fn lemma_join_is_strictly_under(dir: Seq<u8>, name: Seq<u8>)
    requires
        dir.len() > 0,
        spec_strip_trailing_slashes(dir) == dir,
        name.len() > 0,
        name.last() != slash(),
    ensures
        spec_is_strict_ancestor(dir, dir + seq![slash()] + name),
{
    let joined = dir + seq![slash()] + name;
    assert(joined.last() == name.last());
    assert(spec_strip_trailing_slashes(joined) == joined);
    assert(joined.take(dir.len() as int) =~= dir);
    assert(joined[dir.len() as int] == slash());
    if dir =~= seq![slash()] {
    } else {
    }
}

} // verus!
