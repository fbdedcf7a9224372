//! Reading a decimal price such as `"46.28"` as a fixed-point integer in
//! units of 10^-8.
//!
//! A price is a run of digits with at most one decimal point and at least one
//! digit. Fraction digits past the eighth are dropped; a value that does not
//! fit in a `u64` is refused, as is anything else.

use vstd::prelude::*;
use vstd::string::StrSliceExecFns;

verus! {

/// Fraction digits kept in a fixed-point price.
pub const PRICE_DECIMALS: usize = 8;

/// The fixed-point value of one whole unit of price.
pub const PRICE_SCALE: u64 = 100_000_000;

pub open spec fn is_digit(c: char) -> bool {
    '0' <= c && c <= '9'
}

pub open spec fn digit_value(c: char) -> nat {
    (c as int - '0' as int) as nat
}

pub open spec fn all_digits(d: Seq<char>) -> bool {
    forall|i: int| 0 <= i < d.len() ==> is_digit(#[trigger] d[i])
}

/// The number that a run of decimal digits writes.
pub open spec fn digits_value(d: Seq<char>) -> nat
    decreases d.len(),
{
    if d.len() == 0 {
        0
    } else {
        digits_value(d.drop_last()) * 10 + digit_value(d.last())
    }
}

pub open spec fn pow10(k: nat) -> nat
    decreases k,
{
    if k == 0 {
        1
    } else {
        10 * pow10((k - 1) as nat)
    }
}

/// Fraction digits in units of 10^-8: the first eight, padded with zeros.
pub open spec fn fraction_units(f: Seq<char>) -> nat {
    if f.len() >= PRICE_DECIMALS {
        digits_value(f.take(PRICE_DECIMALS as int))
    } else {
        digits_value(f) * pow10((PRICE_DECIMALS - f.len()) as nat)
    }
}

/// The index of the first decimal point, or the length where there is none.
pub open spec fn point_index(s: Seq<char>) -> nat
    decreases s.len(),
{
    if s.len() == 0 {
        0
    } else if s[0] == '.' {
        0
    } else {
        1 + point_index(s.drop_first())
    }
}

/// The digits before the decimal point.
pub open spec fn whole_part(s: Seq<char>) -> Seq<char> {
    s.take(point_index(s) as int)
}

/// The digits after the decimal point, empty where there is none.
pub open spec fn fraction_part(s: Seq<char>) -> Seq<char> {
    if point_index(s) < s.len() {
        s.skip(point_index(s) + 1int)
    } else {
        seq![]
    }
}

/// The fixed-point value that `s` writes, or `None` where it is no price.
pub open spec fn decimal_value(s: Seq<char>) -> Option<nat> {
    let w = whole_part(s);
    let f = fraction_part(s);
    if all_digits(w) && all_digits(f) && w.len() + f.len() > 0 {
        Some(digits_value(w) * (PRICE_SCALE as nat) + fraction_units(f))
    } else {
        None
    }
}

proof fn lemma_point_index(s: Seq<char>, k: int)
    requires
        0 <= k <= s.len(),
        forall|j: int| 0 <= j < k ==> s[j] != '.',
        k == s.len() || s[k] == '.',
    ensures
        point_index(s) == k,
    decreases s.len(),
{
    if s.len() > 0 && k > 0 {
        let t = s.drop_first();
        assert forall|j: int| 0 <= j < k - 1 implies t[j] != '.' by {
            assert(t[j] == s[j + 1]);
        }
        lemma_point_index(t, k - 1);
    }
}

proof fn lemma_digits_step(d: Seq<char>, j: int)
    requires
        0 <= j < d.len(),
    ensures
        digits_value(d.take(j + 1)) == digits_value(d.take(j)) * 10 + digit_value(d[j]),
{
    assert(d.take(j + 1).drop_last() == d.take(j));
}

proof fn lemma_digits_prefix_le(d: Seq<char>, j: int)
    requires
        0 <= j <= d.len(),
    ensures
        digits_value(d.take(j)) <= digits_value(d),
    decreases d.len() - j,
{
    if j < d.len() {
        lemma_digits_step(d, j);
        lemma_digits_prefix_le(d, j + 1);
    } else {
        assert(d.take(j) == d);
    }
}

proof fn lemma_pow10_scale()
    ensures
        pow10(PRICE_DECIMALS as nat) == PRICE_SCALE,
{
    assert(pow10(0) == 1);
    assert(pow10(1) == 10);
    assert(pow10(2) == 100);
    assert(pow10(3) == 1000);
    assert(pow10(4) == 10000);
    assert(pow10(5) == 100000);
    assert(pow10(6) == 1000000);
    assert(pow10(7) == 10000000);
    assert(pow10(8) == 100000000);
}

proof fn lemma_pow10_le(a: nat, b: nat)
    requires
        a <= b,
    ensures
        pow10(a) <= pow10(b),
    decreases b,
{
    if a < b {
        lemma_pow10_le(a, (b - 1) as nat);
    }
}

/// Reads a decimal price as a fixed-point integer in units of 10^-8; `None`
/// where the text is no price or its value does not fit in a `u64`.
pub fn parse_price(text: &str) -> (r: Option<u64>)
    ensures
        match decimal_value(text@) {
            Some(v) => if v <= u64::MAX {
                r == Some(v as u64)
            } else {
                r is None
            },
            None => r is None,
        },
{
    let ghost s = text@;
    let n = text.unicode_len();
    let mut k: usize = 0;
    while k < n && text.get_char(k) != '.'
        invariant
            s == text@,
            n == s.len(),
            k <= n,
            forall|j: int| 0 <= j < k ==> s[j] != '.',
        decreases n - k,
    {
        k = k + 1;
    }
    proof {
        lemma_point_index(s, k as int);
    }
    let ghost w = whole_part(s);
    let ghost f = fraction_part(s);
    if n == 0 || (n == 1 && k == 0) {
        return None;
    }
    let mut whole: u128 = 0;
    let mut j: usize = 0;
    while j < k
        invariant
            s == text@,
            w == s.take(k as int),
            w == whole_part(s),
            f == fraction_part(s),
            point_index(s) == k,
            k <= n == s.len(),
            j <= k,
            whole == digits_value(w.take(j as int)),
            whole <= u64::MAX,
            all_digits(w.take(j as int)),
        decreases k - j,
    {
        let c = text.get_char(j);
        assert(w[j as int] == c);
        if !('0' <= c && c <= '9') {
            assert(!all_digits(w));
            return None;
        }
        proof {
            lemma_digits_step(w, j as int);
            assert forall|i: int| 0 <= i < j + 1 implies is_digit(#[trigger] w.take(j + 1)[i]) by {
                if i < j {
                    assert(w.take(j as int)[i] == w[i]);
                }
            }
        }
        whole = whole * 10 + ((c as u32 - '0' as u32) as u128);
        j = j + 1;
        if whole > u64::MAX as u128 {
            proof {
                lemma_digits_prefix_le(w, j as int);
                assert(digits_value(w) * (PRICE_SCALE as nat) >= digits_value(w)) by (nonlinear_arith);
            }
            return None;
        }
    }
    assert(w.take(k as int) == w);
    let flen: usize = if k < n {
        n - k - 1
    } else {
        0
    };
    assert(f.len() == flen);
    let mut frac: u128 = 0;
    let mut t: usize = 0;
    while t < flen
        invariant
            s == text@,
            k < n ==> f == s.skip(k + 1),
            w == whole_part(s),
            f == fraction_part(s),
            all_digits(w),
            whole == digits_value(w),
            whole <= u64::MAX,
            flen == f.len(),
            k + 1 + flen <= n == s.len() || flen == 0,
            t <= flen,
            frac == digits_value(f.take(if t < PRICE_DECIMALS { t as int } else { PRICE_DECIMALS as int })),
            frac < pow10(if t < PRICE_DECIMALS { t as nat } else { PRICE_DECIMALS as nat }),
            all_digits(f.take(t as int)),
        decreases flen - t,
    {
        let c = text.get_char(k + 1 + t);
        assert(f[t as int] == c);
        if !('0' <= c && c <= '9') {
            assert(!all_digits(f));
            return None;
        }
        proof {
            assert forall|i: int| 0 <= i < t + 1 implies is_digit(#[trigger] f.take(t + 1)[i]) by {
                if i < t {
                    assert(f.take(t as int)[i] == f[i]);
                }
            }
        }
        if t < PRICE_DECIMALS {
            proof {
                lemma_digits_step(f, t as int);
                assert(frac * 10 + digit_value(c) < 10 * pow10(t as nat)) by (nonlinear_arith)
                    requires
                        frac < pow10(t as nat),
                        digit_value(c) <= 9,
                ;
                lemma_pow10_scale();
                assert(pow10((t + 1) as nat) == 10 * pow10(t as nat));
                lemma_pow10_le((t + 1) as nat, PRICE_DECIMALS as nat);
            }
            frac = frac * 10 + ((c as u32 - '0' as u32) as u128);
        }
        t = t + 1;
    }
    assert(f.take(flen as int) == f);
    assert(all_digits(f));
    proof {
        lemma_pow10_scale();
        assert(pow10(0) == 1);
        assert(digits_value(f) * 1 == digits_value(f));
        if flen < PRICE_DECIMALS {
            lemma_pow10_le(flen as nat, PRICE_DECIMALS as nat);
        }
    }
    let mut units: u128 = frac;
    let mut e: usize = flen;
    while e < PRICE_DECIMALS
        invariant
            flen < PRICE_DECIMALS ==> units == digits_value(f) * pow10((e - flen) as nat),
            flen < PRICE_DECIMALS ==> flen <= e <= PRICE_DECIMALS,
            flen >= PRICE_DECIMALS ==> e == flen && units == frac,
            flen >= PRICE_DECIMALS ==> frac == digits_value(f.take(PRICE_DECIMALS as int)),
            flen < PRICE_DECIMALS ==> frac == digits_value(f),
            units < pow10(if e < PRICE_DECIMALS { e as nat } else { PRICE_DECIMALS as nat }),
        decreases PRICE_DECIMALS - e,
    {
        proof {
            let a = (e - flen) as nat;
            assert(pow10(a + 1) == 10 * pow10(a));
            assert((e + 1 - flen) as nat == a + 1);
            assert(pow10((e + 1) as nat) == 10 * pow10(e as nat));
            assert(digits_value(f) * (10 * pow10(a)) == 10 * (digits_value(f) * pow10(a)))
                by (nonlinear_arith);
            lemma_pow10_le((e + 1) as nat, PRICE_DECIMALS as nat);
            lemma_pow10_scale();
        }
        units = units * 10;
        e = e + 1;
    }
    proof {
        lemma_pow10_scale();
    }
    assert(units == fraction_units(f));
    let total: u128 = whole * (PRICE_SCALE as u128) + units;
    if total > u64::MAX as u128 {
        None
    } else {
        Some(total as u64)
    }
}

} // verus!
