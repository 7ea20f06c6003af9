//! Decimal literals: parsing bounded integers, parsing fixed-point
//! ratings in tenths, and rendering an integer back to digits.

use vstd::prelude::*;

verus! {

/// An ASCII decimal digit.
pub open spec fn is_digit(b: u8) -> bool {
    48 <= b && b <= 57
}

/// Every byte of `s` is an ASCII digit.
pub open spec fn all_digits(s: Seq<u8>) -> bool {
    forall|i: int| 0 <= i < s.len() ==> is_digit(#[trigger] s[i])
}

/// The value of a run of ASCII digits, most significant first.
pub open spec fn digits_val(s: Seq<u8>) -> int
    decreases s.len(),
{
    if s.len() == 0 {
        0
    } else {
        digits_val(s.drop_last()) * 10 + (s.last() - 48)
    }
}

/// The value denoted by an optionally signed decimal integer literal:
/// an optional `+` or `-`, then one or more ASCII digits — the grammar
/// of `i32::from_str`, but with an unbounded result.
pub open spec fn int_literal_val(s: Seq<u8>) -> Option<int> {
    if s.len() == 0 {
        None
    } else if s[0] == 43 || s[0] == 45 {
        if s.len() >= 2 && all_digits(s.subrange(1, s.len() as int)) {
            let v = digits_val(s.subrange(1, s.len() as int));
            Some(if s[0] == 45 { -v } else { v })
        } else {
            None
        }
    } else if all_digits(s) {
        Some(digits_val(s))
    } else {
        None
    }
}

proof fn lemma_digits_val_nonneg(s: Seq<u8>)
    requires
        all_digits(s),
    ensures
        digits_val(s) >= 0,
    decreases s.len(),
{
    if s.len() > 0 {
        assert(all_digits(s.drop_last()));
        lemma_digits_val_nonneg(s.drop_last());
    }
}

/// Parse `v` as a decimal integer literal and keep the result only if
/// it lies in `[lo, hi]`; every overflowing literal is out of range.
pub fn parse_int_in_range(v: &Vec<u8>, lo: u32, hi: u32) -> (r: Option<u32>)
    requires
        1 <= lo <= hi <= 99999,
    ensures
        match r {
            Some(x) => lo <= x <= hi && int_literal_val(v@) == Some(x as int),
            None => !(int_literal_val(v@) matches Some(x) && lo <= x <= hi),
        },
{
    let n = v.len();
    if n == 0 {
        return None;
    }
    let negative = v[0] == 45;
    let start: usize = if v[0] == 43 || v[0] == 45 {
        1
    } else {
        0
    };
    if start >= n {
        // a sign alone is not a literal
        return None;
    }
    let ghost digits = v@.subrange(start as int, n as int);
    let mut acc: u32 = 0;
    let mut j: usize = start;
    proof {
        assert(v@.subrange(start as int, start as int) =~= Seq::<u8>::empty());
    }
    while j < n
        invariant
            start <= j <= n,
            n == v@.len(),
            start == 1 <==> (v@[0] == 43 || v@[0] == 45),
            start == 0 || start == 1,
            start < n,
            digits == v@.subrange(start as int, n as int),
            all_digits(v@.subrange(start as int, j as int)),
            ({
                let val = digits_val(v@.subrange(start as int, j as int));
                (val <= 99999 && acc == val) || (val > 99999 && acc == 100000)
            }),
        decreases n - j,
    {
        let b = v[j];
        if b < 48 || b > 57 {
            proof {
                assert(digits[j - start] == v@[j as int]);
                assert(!all_digits(digits));
                if start == 1 {
                    assert(int_literal_val(v@) is None);
                } else {
                    assert(digits =~= v@);
                    assert(int_literal_val(v@) is None);
                }
            }
            return None;
        }
        let d = (b - 48) as u32;
        proof {
            let pre = v@.subrange(start as int, j as int);
            let cur = v@.subrange(start as int, j + 1);
            assert(cur.drop_last() =~= pre);
            assert(cur.last() == v@[j as int]);
            let val = digits_val(pre);
            if val > 99999 {
                assert(digits_val(cur) == val * 10 + d >= 99999 * 10);
            }
        }
        if acc <= 99999 {
            acc = acc * 10 + d;
        }
        if acc > 99999 {
            acc = 100000;
        }
        j = j + 1;
    }
    proof {
        assert(digits =~= v@.subrange(start as int, j as int));
        lemma_digits_val_nonneg(digits);
        if start == 0 {
            assert(digits =~= v@);
        }
    }
    if negative {
        // every admissible bound is positive
        return None;
    }
    if lo <= acc && acc <= hi {
        Some(acc)
    } else {
        None
    }
}

/// Position `k` splits `t` into a decimal literal with a fractional
/// part: digits, a dot at `k`, then digits of which every one past the
/// first is `0`. Ratings carry one decimal place; only values exactly
/// representable in tenths parse.
pub open spec fn dot_split_ok(t: Seq<u8>, k: int) -> bool {
    &&& 1 <= k < t.len() - 1
    &&& t[k] == 46
    &&& all_digits(t.subrange(0, k))
    &&& all_digits(t.subrange(k + 1, t.len() as int))
    &&& forall|j: int| k + 2 <= j < t.len() ==> #[trigger] t[j] == 48
}

pub proof fn lemma_dot_split_unique(t: Seq<u8>, k1: int, k2: int)
    requires
        dot_split_ok(t, k1),
        dot_split_ok(t, k2),
    ensures
        k1 == k2,
{
    if k1 < k2 {
        if k2 < t.len() - 1 + 1 {
            assert(t.subrange(k1 + 1, t.len() as int)[k2 - k1 - 1] == t[k2]);
        }
    }
    if k2 < k1 {
        assert(t.subrange(k2 + 1, t.len() as int)[k1 - k2 - 1] == t[k1]);
    }
}

/// The value, in tenths, of an unsigned rating literal: either a run
/// of digits, or digits, a dot, and a fractional part whose digits
/// past the first are all `0`.
pub open spec fn rating_body_tenths(t: Seq<u8>) -> Option<int> {
    if t.len() > 0 && all_digits(t) {
        Some(digits_val(t) * 10)
    } else if exists|k: int| dot_split_ok(t, k) {
        let k = choose|k: int| dot_split_ok(t, k);
        Some(digits_val(t.subrange(0, k)) * 10 + (t[k + 1] - 48))
    } else {
        None
    }
}

/// `s` with one optional leading `+` removed.
pub open spec fn strip_plus(s: Seq<u8>) -> Seq<u8> {
    if s.len() > 0 && s[0] == 43 {
        s.subrange(1, s.len() as int)
    } else {
        s
    }
}

/// The rating a raw field denotes, in tenths. A value outside
/// [1.0, 10.0], or a field that is not a rating literal at all,
/// yields 0 — such a field never rejects its row.
pub open spec fn rating_tenths_of(s: Seq<u8>) -> int {
    match rating_body_tenths(strip_plus(s)) {
        Some(v) => if 10 <= v <= 100 {
            v
        } else {
            0
        },
        None => 0,
    }
}

/// Parse a rating field into tenths; 0 stands for "no usable rating".
pub fn parse_rating_tenths(v: &Vec<u8>) -> (r: u32)
    ensures
        r as int == rating_tenths_of(v@),
        r == 0 || 10 <= r <= 100,
{
    let n = v.len();
    let start: usize = if n > 0 && v[0] == 43 {
        1
    } else {
        0
    };
    let ghost t = strip_plus(v@);
    proof {
        if start == 1 {
            assert(t =~= v@.subrange(1, n as int));
        } else {
            assert(t =~= v@.subrange(0, n as int));
        }
    }
    // integer part, saturated just past 10: only 1..=10 can be in range
    let mut acc: u32 = 0;
    let mut j: usize = start;
    proof {
        assert(v@.subrange(start as int, start as int) =~= Seq::<u8>::empty());
        assert(t.subrange(0, 0) =~= Seq::<u8>::empty());
    }
    while j < n && v[j] >= 48 && v[j] <= 57
        invariant
            start <= j <= n,
            n == v@.len(),
            start == 0 || start == 1,
            start == 1 ==> n > 0 && v@[0] == 43,
            start == 0 ==> !(v@.len() > 0 && v@[0] == 43),
            t == strip_plus(v@),
            t =~= v@.subrange(start as int, n as int),
            all_digits(t.subrange(0, j - start)),
            ({
                let val = digits_val(t.subrange(0, j - start));
                (val <= 10 && acc == val) || (val > 10 && acc == 11)
            }),
        decreases n - j,
    {
        let d = (v[j] - 48) as u32;
        proof {
            let pre = t.subrange(0, j - start);
            let cur = t.subrange(0, j + 1 - start);
            assert(cur.drop_last() =~= pre);
            assert(cur.last() == t[j - start] == v@[j as int]);
            lemma_digits_val_nonneg(pre);
        }
        if acc > 10 {
            acc = 11;
        } else {
            acc = acc * 10 + d;
            if acc > 10 {
                acc = 11;
            }
        }
        j = j + 1;
    }
    let ghost intpart = t.subrange(0, j - start);
    if j == n {
        // a pure run of digits (or nothing at all)
        proof {
            assert(intpart =~= t);
        }
        if j == start {
            // the body is empty: no digits, no dot
            proof {
                assert(t.len() == 0);
                assert(forall|k: int| !dot_split_ok(t, k));
            }
            return 0;
        }
        if 1 <= acc && acc <= 10 {
            return acc * 10;
        }
        proof {
            lemma_digits_val_nonneg(t);
        }
        return 0;
    }
    // a non-digit stopped the scan
    let ghost stop = (j - start) as int;
    proof {
        assert(t[stop] == v@[j as int]);
        assert(!is_digit(t[stop]));
        assert(!all_digits(t));
    }
    if v[j] != 46 {
        // not a dot: no reading of the field is a rating literal
        proof {
            assert forall|k: int| !dot_split_ok(t, k) by {
                if dot_split_ok(t, k) {
                    if stop < k {
                        assert(is_digit(t.subrange(0, k)[stop]));
                    } else if stop > k {
                        assert(is_digit(t.subrange(k + 1, t.len() as int)[stop - k - 1]));
                    }
                }
            }
        }
        return 0;
    }
    // a dot at `stop`; the fraction must be one digit and then zeros
    proof {
        assert forall|k: int| dot_split_ok(t, k) implies k == stop by {
            if k < stop {
                assert(is_digit(t.subrange(k + 1, t.len() as int)[stop - k - 1]));
            } else if k > stop {
                assert(is_digit(t.subrange(0, k)[stop]));
            }
        }
    }
    if j == start {
        // an empty integer part is not a literal
        proof {
            assert(forall|k: int| !dot_split_ok(t, k));
        }
        return 0;
    }
    if j + 1 >= n {
        // nothing after the dot
        proof {
            assert(forall|k: int| !dot_split_ok(t, k));
        }
        return 0;
    }
    let first = v[j + 1];
    if first < 48 || first > 57 {
        proof {
            assert(t[stop + 1] == v@[j + 1]);
            assert forall|k: int| !dot_split_ok(t, k) by {
                if dot_split_ok(t, k) {
                    assert(k == stop);
                    assert(is_digit(t.subrange(stop + 1, t.len() as int)[0]));
                }
            }
        }
        return 0;
    }
    let d1 = (first - 48) as u32;
    let mut m: usize = j + 2;
    while m < n
        invariant
            j + 2 <= m <= n,
            n == v@.len(),
            j + 1 < n,
            start == 0 || start == 1,
            start <= j,
            t == strip_plus(v@),
            t =~= v@.subrange(start as int, n as int),
            stop == j - start,
            0 <= stop < t.len(),
            !is_digit(t[stop]),
            !all_digits(t),
            forall|k: int| dot_split_ok(t, k) ==> k == stop,
            forall|i: int| stop + 2 <= i < m - start ==> #[trigger] t[i] == 48,
        decreases n - m,
    {
        let b = v[m];
        if b != 48 {
            // a second significant fractional digit: not representable
            proof {
                assert(t[m - start] == v@[m as int]);
                assert forall|k: int| !dot_split_ok(t, k) by {
                    if dot_split_ok(t, k) {
                        assert(k == stop);
                        assert(t[m - start] == 48);
                    }
                }
            }
            return 0;
        }
        m = m + 1;
    }
    proof {
        assert(all_digits(t.subrange(stop + 1, t.len() as int)));
        assert(dot_split_ok(t, stop));
        let kc = choose|k: int| dot_split_ok(t, k);
        lemma_dot_split_unique(t, kc, stop);
        assert(intpart =~= t.subrange(0, stop));
        assert(t[stop + 1] == v@[j + 1]);
        lemma_digits_val_nonneg(intpart);
    }
    if 1 <= acc && acc <= 10 {
        let x = acc * 10 + d1;
        if 10 <= x && x <= 100 {
            return x;
        }
        return 0;
    }
    0
}

/// The digits of `n` in decimal, most significant first, no sign and
/// no leading zero.
pub open spec fn dec_digits(n: nat) -> Seq<u8>
    decreases n,
{
    if n < 10 {
        seq![(48 + n) as u8]
    } else {
        dec_digits(n / 10).push((48 + n % 10) as u8)
    }
}

/// Render `n` in decimal.
pub fn u32_to_decimal(n: u32) -> (r: Vec<u8>)
    ensures
        r@ == dec_digits(n as nat),
{
    let mut out: Vec<u8> = Vec::new();
    let mut m: u32 = n;
    while m >= 10
        invariant
            dec_digits(n as nat) == dec_digits(m as nat) + out@,
        decreases m,
    {
        let d = (m % 10) as u8;
        out.insert(0, 48 + d);
        proof {
            assert(dec_digits((m / 10) as nat).push((48 + (m % 10) as nat) as u8) + out@.subrange(
                1,
                out@.len() as int,
            ) =~= dec_digits((m / 10) as nat) + out@);
        }
        m = m / 10;
    }
    out.insert(0, 48 + m as u8);
    proof {
        assert(dec_digits(m as nat) + out@.subrange(1, out@.len() as int) =~= out@);
    }
    out
}

} // verus!
