//! Decimal rendering and reading of integers, used by the catalog codec
//! and the age display.
use vstd::prelude::*;

verus! {

pub open spec fn is_digit(b: u8) -> bool {
    '0' as u8 <= b <= '9' as u8
}

/// Decimal digits of `n`, most significant first.
pub open spec fn spec_dec_nat(n: nat) -> Seq<u8>
    decreases n,
{
    if n < 10 {
        seq![('0' as u8 + n) as u8]
    } else {
        spec_dec_nat(n / 10).push(('0' as u8 + n % 10) as u8)
    }
}

/// Decimal rendering of an integer, with a leading `-` when negative.
pub open spec fn spec_dec_int(n: int) -> Seq<u8> {
    if n < 0 {
        seq!['-' as u8] + spec_dec_nat((-n) as nat)
    } else {
        spec_dec_nat(n as nat)
    }
}

/// First position `>= i` in `s` holding a non-digit (or the end).
pub open spec fn spec_digits_end(s: Seq<u8>, i: int) -> int
    decreases s.len() - i,
{
    if 0 <= i < s.len() && is_digit(s[i]) {
        spec_digits_end(s, i + 1)
    } else {
        i
    }
}

/// Value of the digit run `s[i..j)`, read in base ten.
pub open spec fn spec_digits_val(s: Seq<u8>, i: int, j: int) -> int
    decreases j - i,
{
    if i < j {
        spec_digits_val(s, i, j - 1) * 10 + s[j - 1] - '0' as u8
    } else {
        0
    }
}

/// Position `k` of `s` is in bounds and holds a digit.
pub open spec fn digit_in(s: Seq<u8>, k: int) -> bool {
    0 <= k < s.len() && is_digit(s[k])
}

pub proof fn lemma_digits_val_nonneg(s: Seq<u8>, i: int, j: int)
    requires
        forall|k: int| i <= k < j ==> #[trigger] digit_in(s, k),
    ensures
        spec_digits_val(s, i, j) >= 0,
    decreases j - i,
{
    if i < j {
        assert(digit_in(s, j - 1));
        lemma_digits_val_nonneg(s, i, j - 1);
    }
}

pub proof fn lemma_dec_nat_digits(n: nat)
    ensures
        spec_dec_nat(n).len() >= 1,
        forall|k: int| 0 <= k < spec_dec_nat(n).len() ==> is_digit(#[trigger] spec_dec_nat(n)[k]),
    decreases n,
{
    if n >= 10 {
        lemma_dec_nat_digits(n / 10);
    }
}

pub proof fn lemma_dec_nat_leading(n: nat)
    ensures
        n == 0 ==> spec_dec_nat(n) =~= seq!['0' as u8],
        n > 0 ==> spec_dec_nat(n)[0] != '0' as u8,
    decreases n,
{
    if n >= 10 {
        lemma_dec_nat_leading(n / 10);
        assert(n / 10 > 0);
        assert(spec_dec_nat(n)[0] == spec_dec_nat(n / 10)[0]);
    }
}

/// A digit run equal to `spec_dec_nat(n)` reads back as `n`.
pub proof fn lemma_digits_val_of_dec(s: Seq<u8>, i: int, j: int, n: nat)
    requires
        0 <= i <= j <= s.len(),
        s.subrange(i, j) == spec_dec_nat(n),
    ensures
        spec_digits_val(s, i, j) == n,
    decreases n,
{
    let d = spec_dec_nat(n);
    lemma_dec_nat_digits(n);
    if n < 10 {
        assert(j - i == 1);
        assert(s[i] == d[0]);
        assert(d[0] == ('0' as u8 + n) as u8);
        assert(spec_digits_val(s, i, j) == spec_digits_val(s, i, j - 1) * 10 + s[j - 1] - '0' as u8);
        assert(spec_digits_val(s, i, i) == 0);
    } else {
        assert(d == spec_dec_nat(n / 10).push(('0' as u8 + n % 10) as u8));
        assert(s.subrange(i, j - 1) =~= spec_dec_nat(n / 10)) by {
            assert(forall|k: int|
                0 <= k < j - 1 - i ==> s.subrange(i, j - 1)[k] == s.subrange(i, j)[k]);
        }
        lemma_digits_val_of_dec(s, i, j - 1, n / 10);
        assert(s[j - 1] == d[j - 1 - i]);
        assert(d[d.len() - 1] == ('0' as u8 + n % 10) as u8);
        assert(spec_digits_val(s, i, j) == spec_digits_val(s, i, j - 1) * 10 + s[j - 1] - '0' as u8);
    }
}

pub proof fn lemma_digits_end_ge(s: Seq<u8>, i: int)
    ensures
        spec_digits_end(s, i) >= i,
    decreases s.len() - i,
{
    if 0 <= i < s.len() && is_digit(s[i]) {
        lemma_digits_end_ge(s, i + 1);
    }
}

/// If `s[i..j)` is all digits and `j` sits on a non-digit or the end, the
/// digit run starting at `i` ends exactly at `j`.
pub proof fn lemma_digits_end_at(s: Seq<u8>, i: int, j: int)
    requires
        0 <= i <= j <= s.len(),
        forall|k: int| i <= k < j ==> is_digit(#[trigger] s[k]),
        j == s.len() || !is_digit(s[j]),
    ensures
        spec_digits_end(s, i) == j,
    decreases j - i,
{
    if i < j {
        lemma_digits_end_at(s, i + 1, j);
    }
}

/// Append the decimal digits of `n` to `v`.
pub fn push_dec_u64(v: &mut Vec<u8>, n: u64)
    ensures
        final(v)@ == old(v)@ + spec_dec_nat(n as nat),
    decreases n,
{
    if n < 10 {
        v.push('0' as u8 + n as u8);
        proof {
            assert(v@ =~= old(v)@ + spec_dec_nat(n as nat));
        }
    } else {
        push_dec_u64(v, n / 10);
        v.push('0' as u8 + (n % 10) as u8);
        proof {
            assert(v@ =~= old(v)@ + spec_dec_nat(n as nat));
        }
    }
}

/// Append the decimal rendering of `n`, sign included, to `v`.
pub fn push_dec_i64(v: &mut Vec<u8>, n: i64)
    ensures
        final(v)@ == old(v)@ + spec_dec_int(n as int),
{
    if n >= 0 {
        push_dec_u64(v, n as u64);
    } else {
        v.push('-' as u8);
        let mag: u64 = if n == i64::MIN {
            9223372036854775808u64
        } else {
            (-n) as u64
        };
        assert(mag == -(n as int));
        push_dec_u64(v, mag);
        proof {
            assert(v@ =~= old(v)@ + spec_dec_int(n as int));
        }
    }
}

/// Reads an optionally signed decimal integer at `i`: no empty run, no
/// leading zero (a lone `0` is fine), value within `i64`.
pub open spec fn spec_parse_i64(s: Seq<u8>, i: int) -> Option<(int, int)> {
    if !(0 <= i < s.len()) {
        None
    } else {
        let neg = s[i] == '-' as u8;
        let d0 = if neg {
            i + 1
        } else {
            i
        };
        let de = spec_digits_end(s, d0);
        if de == d0 {
            None
        } else if s[d0] == '0' as u8 && de > d0 + 1 {
            None
        } else {
            let m = spec_digits_val(s, d0, de);
            if neg && m <= 0x8000_0000_0000_0000 {
                Some((-m, de))
            } else if !neg && m <= 0x7fff_ffff_ffff_ffff {
                Some((m, de))
            } else {
                None
            }
        }
    }
}

/// A rendered integer, standing in `s[i..j)` with a non-digit after it,
/// reads back as that integer.
pub proof fn lemma_parse_i64_of_dec(s: Seq<u8>, i: int, j: int, n: int)
    requires
        0 <= i < j <= s.len(),
        s.subrange(i, j) == spec_dec_int(n),
        -0x8000_0000_0000_0000 <= n <= 0x7fff_ffff_ffff_ffff,
        j == s.len() || !is_digit(s[j]),
    ensures
        spec_parse_i64(s, i) == Some((n, j)),
{
    let d = spec_dec_int(n);
    if n < 0 {
        let m = (-n) as nat;
        lemma_dec_nat_digits(m);
        lemma_dec_nat_leading(m);
        assert(s[i] == d[0]);
        assert(d[0] == '-' as u8);
        assert(!is_digit('-' as u8));
        let d0 = i + 1;
        assert(d == seq!['-' as u8] + spec_dec_nat(m));
        assert(s.subrange(i, j).len() == j - i);
        assert(d.len() == 1 + spec_dec_nat(m).len());
        assert(forall|t: int| 0 <= t < spec_dec_nat(m).len() ==> d[t + 1] == #[trigger] spec_dec_nat(
            m,
        )[t]);
        assert forall|t: int| 0 <= t < j - d0 implies #[trigger] s.subrange(d0, j)[t]
            == spec_dec_nat(m)[t] by {
            assert(s.subrange(d0, j)[t] == s[d0 + t]);
            assert(s.subrange(i, j)[t + 1] == s[d0 + t]);
            assert(s.subrange(i, j)[t + 1] == d[t + 1]);
            assert((seq!['-' as u8] + spec_dec_nat(m))[t + 1] == spec_dec_nat(m)[t]);
        }
        assert(s.subrange(d0, j) =~= spec_dec_nat(m));
        assert(forall|t: int| d0 <= t < j ==> is_digit(#[trigger] s[t])) by {
            assert(forall|t: int|
                d0 <= t < j ==> s[t] == spec_dec_nat(m)[t - d0] && is_digit(
                    spec_dec_nat(m)[t - d0],
                ));
        }
        lemma_digits_end_at(s, d0, j);
        lemma_digits_val_of_dec(s, d0, j, m);
        assert(s[d0] == spec_dec_nat(m)[0]);
        if m == 0 {
            assert(j == d0 + 1);
        } else {
            assert(s[d0] != '0' as u8);
        }
        assert(spec_parse_i64(s, i) == Some((n, j)));
    } else {
        let m = n as nat;
        lemma_dec_nat_digits(m);
        lemma_dec_nat_leading(m);
        assert(s.subrange(i, j) =~= spec_dec_nat(m));
        assert(forall|t: int| i <= t < j ==> is_digit(#[trigger] s[t])) by {
            assert(forall|t: int|
                i <= t < j ==> s[t] == spec_dec_nat(m)[t - i] && is_digit(spec_dec_nat(m)[t - i]));
        }
        lemma_digits_end_at(s, i, j);
        lemma_digits_val_of_dec(s, i, j, m);
        assert(s[i] == spec_dec_nat(m)[0]);
        assert(s[i] != '-' as u8);
        if m == 0 {
            assert(j == i + 1);
        } else {
            assert(s[i] != '0' as u8);
        }
        assert(spec_parse_i64(s, i) == Some((n, j)));
    }
}

fn digit_at(s: &Vec<u8>, k: usize) -> (r: bool)
    requires
        k <= s@.len(),
    ensures
        r == (k < s@.len() && is_digit(s@[k as int])),
{
    k < s.len() && '0' as u8 <= s[k] && s[k] <= '9' as u8
}

/// Read an optionally signed decimal `i64` at position `i`; on success
/// also returns the position just past the digits.
#[verifier::loop_isolation(false)]
pub fn parse_i64(s: &Vec<u8>, i: usize) -> (r: Option<(i64, usize)>)
    ensures
        match r {
            Some((v, e)) => spec_parse_i64(s@, i as int) == Some((v as int, e as int)) && i < e
                <= s@.len(),
            None => spec_parse_i64(s@, i as int) == None::<(int, int)>,
        },
{
    if i >= s.len() {
        return None;
    }
    let neg = s[i] == '-' as u8;
    let d0: usize = if neg {
        i + 1
    } else {
        i
    };
    if !digit_at(s, d0) {
        proof {
            assert(spec_digits_end(s@, d0 as int) == d0);
        }
        return None;
    }
    if s[d0] == '0' as u8 && digit_at(s, d0 + 1) {
        proof {
            assert(spec_digits_end(s@, d0 as int) == spec_digits_end(s@, d0 + 1));
            assert(spec_digits_end(s@, d0 + 1) >= d0 + 2) by {
                assert(spec_digits_end(s@, d0 + 1) == spec_digits_end(s@, d0 + 2));
                lemma_digits_end_ge(s@, d0 + 2);
            }
        }
        return None;
    }
    let ghost de = spec_digits_end(s@, d0 as int);
    let mut k: usize = d0;
    let mut acc: u64 = 0;
    let mut too_big: bool = false;
    while digit_at(s, k)
        invariant
            d0 <= k <= s@.len(),
            forall|t: int| d0 <= t < k ==> is_digit(#[trigger] s@[t]),
            spec_digits_end(s@, d0 as int) == spec_digits_end(s@, k as int),
            !too_big ==> acc == spec_digits_val(s@, d0 as int, k as int),
            too_big ==> spec_digits_val(s@, d0 as int, k as int) > 0x8000_0000_0000_0000,
        decreases s@.len() - k,
    {
        let d: u8 = s[k] - '0' as u8;
        proof {
            lemma_digits_val_nonneg(s@, d0 as int, k as int);
            assert(spec_digits_val(s@, d0 as int, k + 1) == spec_digits_val(
                s@,
                d0 as int,
                k as int,
            ) * 10 + d);
        }
        if too_big || acc > (u64::MAX - 9) / 10 {
            too_big = true;
        } else {
            acc = acc * 10 + d as u64;
        }
        k = k + 1;
    }
    proof {
        assert(spec_digits_end(s@, k as int) == k);
        assert(de == k);
    }
    if too_big {
        return None;
    }
    if neg {
        if acc > 0x8000_0000_0000_0000 {
            return None;
        }
        let v: i64 = if acc == 0x8000_0000_0000_0000 {
            i64::MIN
        } else {
            -(acc as i64)
        };
        Some((v, k))
    } else {
        if acc > 0x7fff_ffff_ffff_ffff {
            return None;
        }
        Some((acc as i64, k))
    }
}

} // verus!
