//! Exact overflow decision for decimal literals.
//!
//! A decimal literal rounds to a finite binary64 value exactly when its value
//! is below `2^1024 - 2^970`, the midpoint between the largest finite double
//! and `2^1024` (ties round to even, and the largest double is odd). The
//! decision below compares digit strings, so it needs no floating point.

use vstd::prelude::*;

use crate::text::str_chars;

verus! {

/// The value of an ASCII digit.
pub open spec fn digit(c: u8) -> int {
    c - 48
}

pub open spec fn all_digits(d: Seq<u8>) -> bool {
    forall|i: int| 0 <= i < d.len() ==> 48 <= #[trigger] d[i] <= 57
}

/// The natural number written by a string of ASCII digits.
pub open spec fn digits_value(d: Seq<u8>) -> int
    decreases d.len(),
{
    if d.len() == 0 {
        0
    } else {
        digits_value(d.drop_last()) * 10 + digit(d.last())
    }
}

pub open spec fn pow10(n: nat) -> int
    decreases n,
{
    if n == 0 {
        1
    } else {
        10 * pow10((n - 1) as nat)
    }
}

/// `2^1024 - 2^970`, written in decimal.
pub open spec fn threshold_text() -> Seq<char> {
    "179769313486231580793728971405303415079934132710037826936173778980444968292764750946649017977587207096330286416692887910946555547851940402630657488671505820681908902000708383676273854845817711531764475730270069855571366959622842914819860834936475292719074168444365510704342711559699508093042880177904174497792"@
}

pub open spec fn threshold_digits() -> Seq<u8> {
    threshold_text().map_values(|c: char| c as u8)
}

/// The smallest value that a decimal literal may not reach if it is to
/// round to a finite binary64 number.
pub open spec fn overflow_threshold() -> int {
    digits_value(threshold_digits())
}

/// Whether `value(mantissa) * 10^scale` lies below the overflow threshold.
pub open spec fn scaled_below_threshold(mantissa: Seq<u8>, scale: int) -> bool {
    if scale >= 0 {
        digits_value(mantissa) * pow10(scale as nat) < overflow_threshold()
    } else {
        digits_value(mantissa) < overflow_threshold() * pow10((-scale) as nat)
    }
}

pub open spec fn zeros(n: nat) -> Seq<u8> {
    Seq::new(n, |i: int| 48u8)
}

// ---------------------------------------------------------------------------
// Arithmetic facts
// ---------------------------------------------------------------------------

pub proof fn lemma_pow10_positive(n: nat)
    ensures
        pow10(n) >= 1,
    decreases n,
{
    if n > 0 {
        lemma_pow10_positive((n - 1) as nat);
    }
}

pub proof fn lemma_pow10_add(a: nat, b: nat)
    ensures
        pow10(a + b) == pow10(a) * pow10(b),
    decreases a,
{
    if a > 0 {
        lemma_pow10_add((a - 1) as nat, b);
        assert(pow10(a + b) == 10 * pow10((a - 1 + b) as nat));
        assert(10 * (pow10((a - 1) as nat) * pow10(b)) == (10 * pow10((a - 1) as nat)) * pow10(b))
            by (nonlinear_arith);
    }
}

pub proof fn lemma_pow10_le(a: nat, b: nat)
    requires
        a <= b,
    ensures
        pow10(a) <= pow10(b),
    decreases b,
{
    if a < b {
        lemma_pow10_le(a, (b - 1) as nat);
        lemma_pow10_positive((b - 1) as nat);
    }
}

pub proof fn lemma_digits_value_bounds(d: Seq<u8>)
    requires
        all_digits(d),
    ensures
        0 <= digits_value(d) < pow10(d.len()),
    decreases d.len(),
{
    if d.len() > 0 {
        let p = d.drop_last();
        assert(all_digits(p)) by {
            assert forall|i: int| 0 <= i < p.len() implies 48 <= #[trigger] p[i] <= 57 by {
                assert(p[i] == d[i]);
            }
        }
        lemma_digits_value_bounds(p);
        let v = digits_value(p);
        let q = pow10(p.len());
        assert(d.last() == d[d.len() - 1]);
        let x = digit(d.last());
        assert(0 <= x <= 9);
        assert(v * 10 + x < q * 10) by (nonlinear_arith)
            requires
                0 <= v < q,
                0 <= x <= 9,
        ;
        assert(v * 10 + x >= 0) by (nonlinear_arith)
            requires
                0 <= v,
                0 <= x,
        ;
    }
}

pub proof fn lemma_digits_value_concat(a: Seq<u8>, b: Seq<u8>)
    ensures
        digits_value(a + b) == digits_value(a) * pow10(b.len()) + digits_value(b),
    decreases b.len(),
{
    if b.len() == 0 {
        assert(a + b =~= a);
    } else {
        let b1 = b.drop_last();
        lemma_digits_value_concat(a, b1);
        assert((a + b).drop_last() =~= a + b1);
        assert((a + b).last() == b.last());
        let va = digits_value(a);
        let p = pow10(b1.len());
        let v1 = digits_value(b1);
        assert((va * p + v1) * 10 + digit(b.last()) == va * (10 * p) + (v1 * 10 + digit(b.last())))
            by (nonlinear_arith);
    }
}

pub proof fn lemma_single_digit(x: u8)
    ensures
        digits_value(seq![x]) == digit(x),
{
    assert(seq![x].drop_last() =~= Seq::<u8>::empty());
    assert(seq![x].last() == x);
    assert(digits_value(Seq::<u8>::empty()) == 0);
}

pub proof fn lemma_zeros_value(n: nat)
    ensures
        digits_value(zeros(n)) == 0,
    decreases n,
{
    if n > 0 {
        assert(zeros(n).drop_last() =~= zeros((n - 1) as nat));
        lemma_zeros_value((n - 1) as nat);
    }
}

/// A digit string without a leading zero has its full number of digits.
pub proof fn lemma_leading_digit(d: Seq<u8>)
    requires
        all_digits(d),
        d.len() > 0,
        d[0] != 48,
    ensures
        pow10((d.len() - 1) as nat) <= digits_value(d),
{
    let rest = d.drop_first();
    assert(d =~= seq![d[0]] + rest);
    lemma_digits_value_concat(seq![d[0]], rest);
    lemma_single_digit(d[0]);
    assert(all_digits(rest)) by {
        assert forall|i: int| 0 <= i < rest.len() implies 48 <= #[trigger] rest[i] <= 57 by {
            assert(rest[i] == d[i + 1]);
        }
    }
    lemma_digits_value_bounds(rest);
    let p = pow10(rest.len());
    let x = digit(d[0]);
    assert(x * p >= p) by (nonlinear_arith)
        requires
            x >= 1,
            p >= 0,
    ;
}

/// Lexicographic order of digit strings.
pub open spec fn digits_lt(a: Seq<u8>, b: Seq<u8>) -> bool
    decreases a.len(),
{
    if a.len() == 0 || b.len() == 0 {
        false
    } else if a[0] < b[0] {
        true
    } else if a[0] == b[0] {
        digits_lt(a.drop_first(), b.drop_first())
    } else {
        false
    }
}

/// On digit strings of one length, string order is numeric order.
pub proof fn lemma_digits_lt_value(a: Seq<u8>, b: Seq<u8>)
    requires
        all_digits(a),
        all_digits(b),
        a.len() == b.len(),
    ensures
        digits_lt(a, b) <==> digits_value(a) < digits_value(b),
    decreases a.len(),
{
    if a.len() > 0 {
        let ra = a.drop_first();
        let rb = b.drop_first();
        assert(a =~= seq![a[0]] + ra);
        assert(b =~= seq![b[0]] + rb);
        lemma_digits_value_concat(seq![a[0]], ra);
        lemma_digits_value_concat(seq![b[0]], rb);
        lemma_single_digit(a[0]);
        lemma_single_digit(b[0]);
        assert(all_digits(ra)) by {
            assert forall|i: int| 0 <= i < ra.len() implies 48 <= #[trigger] ra[i] <= 57 by {
                assert(ra[i] == a[i + 1]);
            }
        }
        assert(all_digits(rb)) by {
            assert forall|i: int| 0 <= i < rb.len() implies 48 <= #[trigger] rb[i] <= 57 by {
                assert(rb[i] == b[i + 1]);
            }
        }
        lemma_digits_value_bounds(ra);
        lemma_digits_value_bounds(rb);
        lemma_digits_lt_value(ra, rb);
        let p = pow10(ra.len());
        let x = digit(a[0]);
        let y = digit(b[0]);
        let va = digits_value(ra);
        let vb = digits_value(rb);
        assert(x * p + va < y * p + vb <==> (x < y || (x == y && va < vb))) by (nonlinear_arith)
            requires
                0 <= va < p,
                0 <= vb < p,
        ;
    } else {
        assert(a =~= b);
    }
}

/// The first 309 digits, padded with zeros.
pub open spec fn leading_309(d: Seq<u8>) -> Seq<u8> {
    if d.len() >= 309 {
        d.take(309)
    } else {
        d + zeros((309 - d.len()) as nat)
    }
}

pub proof fn lemma_threshold_digits()
    ensures
        all_digits(threshold_digits()),
        threshold_digits().len() == 309,
        threshold_digits()[0] == 49,
{
    reveal_strlit(
        "179769313486231580793728971405303415079934132710037826936173778980444968292764750946649017977587207096330286416692887910946555547851940402630657488671505820681908902000708383676273854845817711531764475730270069855571366959622842914819860834936475292719074168444365510704342711559699508093042880177904174497792",
    );
    let t = threshold_digits();
    assert forall|i: int| 0 <= i < t.len() implies 48 <= #[trigger] t[i] <= 57 by {
        assert(t[i] == threshold_text()[i] as u8);
    }
}

/// The threshold lies in `[10^308, 10^309)`.
pub proof fn lemma_threshold_bounds()
    ensures
        pow10(308) <= overflow_threshold() < pow10(309),
{
    lemma_threshold_digits();
    lemma_leading_digit(threshold_digits());
    lemma_digits_value_bounds(threshold_digits());
}

/// The decision for a significand `d` (no leading zero) and a scale: below
/// `10^308` always, above `10^309` never, otherwise by its first 309 digits.
pub proof fn lemma_classification(d: Seq<u8>, scale: int)
    requires
        all_digits(d),
        d.len() > 0,
        d[0] != 48,
    ensures
        d.len() + scale <= 308 ==> scaled_below_threshold(d, scale),
        d.len() + scale >= 310 ==> !scaled_below_threshold(d, scale),
        d.len() + scale == 309 ==> (scaled_below_threshold(d, scale) <==> digits_lt(
            leading_309(d),
            threshold_digits(),
        )),
{
    let len = d.len();
    let v = digits_value(d);
    let t = overflow_threshold();
    lemma_leading_digit(d);
    lemma_digits_value_bounds(d);
    lemma_threshold_bounds();
    lemma_threshold_digits();
    let k = len + scale;
    if k <= 308 {
        if scale >= 0 {
            let s = scale as nat;
            lemma_pow10_add(len, s);
            lemma_pow10_le((len + s) as nat, 308);
            lemma_pow10_positive(s);
            let ps = pow10(s);
            let pl = pow10(len);
            assert(v * ps < pl * ps) by (nonlinear_arith)
                requires
                    v < pl,
                    ps >= 1,
            ;
        } else {
            let s = (-scale) as nat;
            let kk = (len - s) as nat;
            if len >= s {
                lemma_pow10_add(kk, s);
                lemma_pow10_le(kk, 308);
            } else {
                lemma_pow10_le(len, s);
                lemma_pow10_positive(308);
            }
            lemma_pow10_positive(s);
            let ps = pow10(s);
            assert(pow10(308) * ps <= t * ps) by (nonlinear_arith)
                requires
                    pow10(308) <= t,
                    ps >= 1,
            ;
            if len >= s {
                assert(pow10(kk) * ps <= pow10(308) * ps) by (nonlinear_arith)
                    requires
                        pow10(kk) <= pow10(308),
                        ps >= 1,
                ;
            } else {
                assert(ps <= pow10(308) * ps) by (nonlinear_arith)
                    requires
                        pow10(308) >= 1,
                        ps >= 1,
                ;
            }
        }
    }
    if k >= 310 {
        if scale >= 0 {
            let s = scale as nat;
            lemma_pow10_add((len - 1) as nat, s);
            lemma_pow10_le(309, (len - 1 + s) as nat);
            lemma_pow10_positive(s);
            let ps = pow10(s);
            let pl = pow10((len - 1) as nat);
            assert(v * ps >= pl * ps) by (nonlinear_arith)
                requires
                    v >= pl,
                    ps >= 1,
            ;
        } else {
            let s = (-scale) as nat;
            let kk = (len - 1 - s) as nat;
            lemma_pow10_add(kk, s);
            lemma_pow10_le(309, kk);
            lemma_pow10_positive(s);
            let ps = pow10(s);
            assert(t * ps < pow10(309) * ps) by (nonlinear_arith)
                requires
                    t < pow10(309),
                    ps >= 1,
            ;
            assert(pow10(309) * ps <= pow10(kk) * ps) by (nonlinear_arith)
                requires
                    pow10(309) <= pow10(kk),
                    ps >= 1,
            ;
        }
    }
    if k == 309 {
        let p = leading_309(d);
        assert(all_digits(p)) by {
            assert forall|i: int| 0 <= i < p.len() implies 48 <= #[trigger] p[i] <= 57 by {
                if len >= 309 {
                    assert(p[i] == d[i]);
                } else if i < len {
                    assert(p[i] == d[i]);
                } else {
                    assert(p[i] == 48);
                }
            }
        }
        lemma_digits_lt_value(p, threshold_digits());
        if len <= 309 {
            let s = (309 - len) as nat;
            assert(scale == s);
            if len == 309 {
                assert(p =~= d + zeros(0));
            }
            lemma_digits_value_concat(d, zeros(s));
            lemma_zeros_value(s);
        } else {
            let r = d.skip(309);
            assert(d =~= p + r);
            lemma_digits_value_concat(p, r);
            assert(all_digits(r)) by {
                assert forall|i: int| 0 <= i < r.len() implies 48 <= #[trigger] r[i] <= 57 by {
                    assert(r[i] == d[i + 309]);
                }
            }
            lemma_digits_value_bounds(r);
            let pr = pow10(r.len());
            let vp = digits_value(p);
            let vr = digits_value(r);
            assert(r.len() == -scale);
            assert(vp * pr + vr < t * pr <==> vp < t) by (nonlinear_arith)
                requires
                    0 <= vr < pr,
            ;
        }
    }
}

// ---------------------------------------------------------------------------
// Decision
// ---------------------------------------------------------------------------

/// Exponents at or beyond this bound cannot change the decision for literals
/// of at most `MAX_SIGNIFICAND` digits, so larger ones are saturated.
pub const EXPONENT_CAP: u64 = 1_000_000;

pub const MAX_SIGNIFICAND: usize = 100_000;

/// The value of an exponent's digits, saturated at `EXPONENT_CAP`.
pub fn saturated_value(d: &[u8]) -> (v: u64)
    requires
        all_digits(d@),
    ensures
        v <= EXPONENT_CAP,
        v < EXPONENT_CAP ==> v == digits_value(d@),
        v == EXPONENT_CAP ==> digits_value(d@) >= EXPONENT_CAP,
{
    let mut v: u64 = 0;
    let mut i: usize = 0;
    while i < d.len()
        invariant
            i <= d@.len(),
            all_digits(d@),
            v <= EXPONENT_CAP,
            v < EXPONENT_CAP ==> v == digits_value(d@.take(i as int)),
            v == EXPONENT_CAP ==> digits_value(d@.take(i as int)) >= EXPONENT_CAP,
        decreases d@.len() - i,
    {
        let x = (d[i] - 48) as u64;
        proof {
            let t = d@.take(i + 1);
            assert(t.drop_last() =~= d@.take(i as int));
            assert(t.last() == d@[i as int]);
            lemma_digits_value_bounds(d@.take(i as int));
        }
        if v >= EXPONENT_CAP || v * 10 + x >= EXPONENT_CAP {
            v = EXPONENT_CAP;
        } else {
            v = v * 10 + x;
        }
        i += 1;
    }
    proof {
        assert(d@.take(d@.len() as int) =~= d@);
    }
    v
}

/// Decides `scaled_below_threshold(mantissa, sign * exponent - fraction_len)`.
pub fn decide_below_threshold(
    mantissa: &Vec<u8>,
    exponent: &[u8],
    exponent_negative: bool,
    fraction_len: usize,
) -> (below: bool)
    requires
        all_digits(mantissa@),
        all_digits(exponent@),
        mantissa@.len() <= MAX_SIGNIFICAND,
        fraction_len <= mantissa@.len(),
    ensures
        below == scaled_below_threshold(
            mantissa@,
            (if exponent_negative {
                -digits_value(exponent@)
            } else {
                digits_value(exponent@)
            }) - fraction_len,
        ),
{
    let ghost scale = (if exponent_negative {
        -digits_value(exponent@)
    } else {
        digits_value(exponent@)
    }) - fraction_len;
    let len = mantissa.len();
    let mut z: usize = 0;
    while z < len && mantissa[z] == 48
        invariant
            z <= len == mantissa@.len(),
            forall|j: int| 0 <= j < z ==> mantissa@[j] == 48,
        decreases len - z,
    {
        z += 1;
    }
    let ghost d = mantissa@.skip(z as int);
    proof {
        assert(mantissa@ =~= zeros(z as nat) + d);
        lemma_digits_value_concat(zeros(z as nat), d);
        lemma_zeros_value(z as nat);
        assert(all_digits(d)) by {
            assert forall|i: int| 0 <= i < d.len() implies 48 <= #[trigger] d[i] <= 57 by {
                assert(d[i] == mantissa@[i + z]);
            }
        }
        lemma_digits_value_bounds(d);
        lemma_pow10_positive((-scale) as nat);
        lemma_threshold_bounds();
        lemma_pow10_positive(308);
    }
    if z == len {
        proof {
            assert(d.len() == 0);
            assert(digits_value(mantissa@) == 0);
            if scale >= 0 {
                assert(0 * pow10(scale as nat) == 0);
            } else {
                let ps = pow10((-scale) as nat);
                assert(overflow_threshold() * ps > 0) by (nonlinear_arith)
                    requires
                        overflow_threshold() >= 1,
                        ps >= 1,
                ;
            }
        }
        return true;
    }
    proof {
        assert(d[0] == mantissa@[z as int]);
        assert(digits_value(mantissa@) == digits_value(d));
        lemma_classification(d, scale);
    }
    let significant = (len - z) as i64;
    let e = saturated_value(exponent) as i64;
    let k: i64 = if exponent_negative {
        significant - e - fraction_len as i64
    } else {
        significant + e - fraction_len as i64
    };
    if k <= 308 {
        return true;
    }
    if k >= 310 {
        return false;
    }
    proof {
        assert(e < EXPONENT_CAP as i64);
        assert(d.len() + scale == 309);
    }
    let threshold = str_chars(
        "179769313486231580793728971405303415079934132710037826936173778980444968292764750946649017977587207096330286416692887910946555547851940402630657488671505820681908902000708383676273854845817711531764475730270069855571366959622842914819860834936475292719074168444365510704342711559699508093042880177904174497792",
    );
    proof {
        lemma_threshold_digits();
        reveal_strlit(
            "179769313486231580793728971405303415079934132710037826936173778980444968292764750946649017977587207096330286416692887910946555547851940402630657488671505820681908902000708383676273854845817711531764475730270069855571366959622842914819860834936475292719074168444365510704342711559699508093042880177904174497792",
        );
        assert(threshold@ == threshold_text());
    }
    let ghost p = leading_309(d);
    proof {
        assert(d.len() + scale == 309);
        assert(p.skip(0) =~= p);
        assert(threshold_digits().skip(0) =~= threshold_digits());
        assert(p.take(0) =~= threshold_digits().take(0));
    }
    let mut i: usize = 0;
    while i < 309
        invariant
            i <= 309,
            z < len == mantissa@.len(),
            len <= MAX_SIGNIFICAND,
            threshold@.len() == 309,
            scaled_below_threshold(mantissa@, scale) == digits_lt(p, threshold_digits()),
            scale == (if exponent_negative {
                -digits_value(exponent@)
            } else {
                digits_value(exponent@)
            }) - fraction_len,
            d == mantissa@.skip(z as int),
            p == leading_309(d),
            threshold@ == threshold_text(),
            threshold_digits().len() == 309,
            p.len() == 309,
            p.take(i as int) == threshold_digits().take(i as int),
            digits_lt(p, threshold_digits()) == digits_lt(p.skip(i as int), threshold_digits().skip(i as int)),
        decreases 309 - i,
    {
        let a: u8 = if z + i < len {
            mantissa[z + i]
        } else {
            48
        };
        let b: u8 = threshold[i] as u8;
        proof {
            assert(p[i as int] == a);
            assert(threshold_digits()[i as int] == b);
            let ps = p.skip(i as int);
            let ts = threshold_digits().skip(i as int);
            assert(ps[0] == a);
            assert(ts[0] == b);
            assert(ps.drop_first() =~= p.skip(i + 1));
            assert(ts.drop_first() =~= threshold_digits().skip(i + 1));
        }
        if a < b {
            return true;
        }
        if a > b {
            return false;
        }
        proof {
            assert(p.take(i + 1) =~= p.take(i as int).push(a));
            assert(threshold_digits().take(i + 1) =~= threshold_digits().take(i as int).push(b));
        }
        i += 1;
    }
    proof {
        assert(p.skip(309).len() == 0);
    }
    false
}

} // verus!
