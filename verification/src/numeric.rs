//! Exact decimal numbers for the interpreter: a bounded mantissa with a
//! decimal shift. Sums, differences and products are exact while they fit;
//! quotients carry up to eighteen fractional digits; excess precision is
//! dropped from the low end and a value too large to store is refused.

use vstd::prelude::*;
use crate::digits::pow10;
use crate::digits::lemma_pow10_pos;
use crate::digits::lemma_pow10_mono;
use crate::digits::lemma_pow10_adds;
use crate::digits::nat_text;
use crate::digits::digits_val;
use crate::digits::all_digits;
use crate::digits::is_digit;
use crate::digits::c2d;
use crate::digits::lemma_nat_text_digits;
use crate::digits::lemma_nat_text_val;
use crate::digits::lemma_digits_val_head;
use crate::digits::u128_string;

verus! {

/// The value `(if neg then -1 else 1) * m / 10^e`.
#[derive(Clone, Copy, PartialEq, Eq, Structural, Debug)]
pub struct Dec {
    pub neg: bool,
    pub m: u128,
    pub e: u32,
}

/// One more than the largest mantissa kept: nineteen digits.
pub open spec fn mant_limit() -> nat {
    10000000000000000000nat
}

/// A stored decimal: mantissa below the limit, shift at most eighteen, no
/// trailing zero under a positive shift, and zero stored as `+0 / 10^0`.
pub open spec fn dec_ok(d: Dec) -> bool {
    &&& (d.m as nat) < mant_limit()
    &&& d.e <= 18
    &&& (d.e > 0 ==> d.m % 10 != 0)
    &&& (d.m == 0 ==> !d.neg && d.e == 0)
}

/// Concrete values of the powers of ten this module leans on.
pub proof fn lemma_pow10_values()
    ensures
        pow10(18) == 1000000000000000000nat,
        pow10(19) == mant_limit(),
        pow10(37) == pow10(19) * pow10(18),
        pow10(37) < u128::MAX / 10,
        pow10(38) == pow10(19) * pow10(19),
        pow10(38) < u128::MAX,
{
    reveal_with_fuel(pow10, 20);
    assert(pow10(18) == 1000000000000000000nat);
    assert(pow10(19) == 10000000000000000000nat);
    lemma_pow10_adds(19, 18);
    lemma_pow10_adds(19, 19);
    assert(pow10(37) == pow10(19) * pow10(18));
    assert(pow10(38) == pow10(19) * pow10(19));
    assert(pow10(19) * pow10(18) == 10000000000000000000000000000000000000nat)
        by (nonlinear_arith)
        requires
            pow10(19) == 10000000000000000000nat,
            pow10(18) == 1000000000000000000nat,
    ;
    assert(pow10(19) * pow10(19) == 100000000000000000000000000000000000000nat)
        by (nonlinear_arith)
        requires
            pow10(19) == 10000000000000000000nat,
    ;
}

/// Ten to a small power, as a machine word.
pub fn ten_to(k: u32) -> (p: u128)
    requires
        k <= 18,
    ensures
        p as nat == pow10(k as nat),
        p >= 1,
    decreases k,
{
    proof {
        lemma_pow10_pos(k as nat);
        lemma_pow10_mono(k as nat, 18);
        lemma_pow10_values();
    }
    if k == 0 {
        1
    } else {
        let rest = ten_to(k - 1);
        proof {
            lemma_pow10_mono((k - 1) as nat, 18);
        }
        10 * rest
    }
}

/// Drops trailing zeros, and whole digits while the mantissa is over the
/// limit or the shift over eighteen; gives zero its canonical form.
pub open spec fn fit_spec(neg: bool, m: nat, e: nat) -> Option<Dec>
    decreases e,
{
    if e > 0 && (m % 10 == 0 || m >= mant_limit() || e > 18) {
        fit_spec(neg, m / 10, (e - 1) as nat)
    } else if m >= mant_limit() {
        None
    } else {
        Some(
            Dec {
                neg: if m == 0 {
                    false
                } else {
                    neg
                },
                m: m as u128,
                e: e as u32,
            },
        )
    }
}

/// What `fit_spec` keeps is a stored decimal.
pub proof fn lemma_fit_ok(neg: bool, m: nat, e: nat)
    ensures
        fit_spec(neg, m, e) matches Some(d) ==> dec_ok(d),
    decreases e,
{
    if e > 0 && (m % 10 == 0 || m >= mant_limit() || e > 18) {
        lemma_fit_ok(neg, m / 10, (e - 1) as nat);
    }
}

fn fit(neg: bool, m: u128, e: u32) -> (r: Option<Dec>)
    ensures
        r == fit_spec(neg, m as nat, e as nat),
    decreases e,
{
    proof {
        lemma_pow10_values();
    }
    let limit: u128 = 10000000000000000000u128;
    if e > 0 && (m % 10 == 0 || m >= limit || e > 18) {
        fit(neg, m / 10, e - 1)
    } else if m >= limit {
        None
    } else {
        Some(
            Dec {
                neg: if m == 0 {
                    false
                } else {
                    neg
                },
                m,
                e,
            },
        )
    }
}

/// The sum of two stored decimals, `None` when it cannot be stored.
pub open spec fn dec_add_spec(a: Dec, b: Dec) -> Option<Dec> {
    let e: nat = if a.e >= b.e {
        a.e as nat
    } else {
        b.e as nat
    };
    let ma: nat = a.m as nat * pow10((e - a.e as nat) as nat);
    let mb: nat = b.m as nat * pow10((e - b.e as nat) as nat);
    if a.neg == b.neg {
        fit_spec(a.neg, ma + mb, e)
    } else if ma >= mb {
        fit_spec(a.neg, (ma - mb) as nat, e)
    } else {
        fit_spec(b.neg, (mb - ma) as nat, e)
    }
}

/// Bounds the aligned mantissas.
proof fn lemma_align(m: nat, k: nat)
    requires
        m < mant_limit(),
        k <= 18,
    ensures
        m * pow10(k) <= pow10(37),
        m * pow10(k) < u128::MAX / 10,
{
    lemma_pow10_values();
    lemma_pow10_mono(k, 18);
    lemma_pow10_pos(k);
    assert(m * pow10(k) <= pow10(19) * pow10(18)) by (nonlinear_arith)
        requires
            m < pow10(19),
            pow10(k) <= pow10(18),
            pow10(k) >= 1,
            pow10(19) >= 1,
    ;
}

pub fn dec_add(a: Dec, b: Dec) -> (r: Option<Dec>)
    requires
        dec_ok(a),
        dec_ok(b),
    ensures
        r == dec_add_spec(a, b),
        r matches Some(d) ==> dec_ok(d),
{
    let e: u32 = if a.e >= b.e {
        a.e
    } else {
        b.e
    };
    proof {
        lemma_align(a.m as nat, (e - a.e) as nat);
        lemma_align(b.m as nat, (e - b.e) as nat);
        lemma_pow10_values();
    }
    let ma: u128 = a.m * ten_to(e - a.e);
    let mb: u128 = b.m * ten_to(e - b.e);
    let r = if a.neg == b.neg {
        fit(a.neg, ma + mb, e)
    } else if ma >= mb {
        fit(a.neg, ma - mb, e)
    } else {
        fit(b.neg, mb - ma, e)
    };
    proof {
        if a.neg == b.neg {
            lemma_fit_ok(a.neg, ma as nat + mb as nat, e as nat);
        } else if ma >= mb {
            lemma_fit_ok(a.neg, (ma - mb) as nat, e as nat);
        } else {
            lemma_fit_ok(b.neg, (mb - ma) as nat, e as nat);
        }
    }
    r
}

/// The product of two stored decimals, `None` when it cannot be stored.
pub open spec fn dec_mul_spec(a: Dec, b: Dec) -> Option<Dec> {
    fit_spec(a.neg != b.neg, a.m as nat * b.m as nat, a.e as nat + b.e as nat)
}

pub fn dec_mul(a: Dec, b: Dec) -> (r: Option<Dec>)
    requires
        dec_ok(a),
        dec_ok(b),
    ensures
        r == dec_mul_spec(a, b),
        r matches Some(d) ==> dec_ok(d),
{
    proof {
        lemma_pow10_values();
        assert(a.m as nat * b.m as nat <= pow10(19) * pow10(19)) by (nonlinear_arith)
            requires
                (a.m as nat) < pow10(19),
                (b.m as nat) < pow10(19),
                pow10(19) >= 1,
        ;
        lemma_fit_ok(a.neg != b.neg, a.m as nat * b.m as nat, a.e as nat + b.e as nat);
    }
    fit(a.neg != b.neg, a.m * b.m, a.e + b.e)
}

/// Eighteen quotient digits taken one at a time from the remainder.
pub open spec fn div_digits_spec(acc: nat, r: nat, den: nat, k: nat) -> nat
    decreases k,
{
    if k == 0 || den == 0 {
        acc
    } else {
        div_digits_spec(acc * 10 + (r * 10) / den, (r * 10) % den, den, (k - 1) as nat)
    }
}

/// The quotient of two stored decimals: the integer part and eighteen
/// fractional digits, low precision dropped, `None` when it cannot be
/// stored.
pub open spec fn dec_div_spec(a: Dec, b: Dec) -> Option<Dec> {
    let n: nat = a.m as nat * pow10(b.e as nat);
    let d: nat = b.m as nat * pow10(a.e as nat);
    if d == 0 {
        None
    } else if n / d >= mant_limit() {
        None
    } else {
        fit_spec(a.neg != b.neg, div_digits_spec(n / d, n % d, d, 18), 18)
    }
}

proof fn lemma_div_digits_bound(acc: nat, r: nat, den: nat, k: nat)
    requires
        den >= 1,
        r < den,
    ensures
        div_digits_spec(acc, r, den, k) < (acc + 1) * pow10(k),
    decreases k,
{
    lemma_pow10_pos(k);
    if k == 0 {
        assert((acc + 1) * pow10(0) == acc + 1) by (nonlinear_arith)
            requires
                pow10(0) == 1,
        ;
    } else {
        let q = (r * 10) / den;
        let r2 = (r * 10) % den;
        assert(q <= 9 && r2 < den) by (nonlinear_arith)
            requires
                r < den,
                den >= 1,
                q == (r * 10) / den,
                r2 == (r * 10) % den,
        ;
        lemma_div_digits_bound(acc * 10 + q, r2, den, (k - 1) as nat);
        assert((acc * 10 + q + 1) * pow10((k - 1) as nat) <= (acc + 1) * pow10(k))
            by (nonlinear_arith)
            requires
                q <= 9,
                pow10(k) == 10 * pow10((k - 1) as nat),
                pow10((k - 1) as nat) >= 1,
        ;
        lemma_pow10_pos((k - 1) as nat);
    }
}

fn div_digits(acc: u128, r: u128, den: u128, k: u32) -> (res: u128)
    requires
        den >= 1,
        r < den,
        den as nat <= pow10(37),
        (acc as nat + 1) * pow10(k as nat) <= pow10(37),
        k <= 18,
    ensures
        res as nat == div_digits_spec(acc as nat, r as nat, den as nat, k as nat),
        (res as nat) < (acc as nat + 1) * pow10(k as nat),
    decreases k,
{
    proof {
        lemma_pow10_values();
        lemma_pow10_pos(k as nat);
        lemma_div_digits_bound(acc as nat, r as nat, den as nat, k as nat);
    }
    if k == 0 {
        proof {
            assert((acc as nat + 1) * pow10(0) == acc as nat + 1) by (nonlinear_arith)
                requires
                    pow10(0) == 1,
            ;
        }
        acc
    } else {
        proof {
            assert(acc as nat + 1 <= pow10(37)) by (nonlinear_arith)
                requires
                    (acc as nat + 1) * pow10(k as nat) <= pow10(37),
                    pow10(k as nat) >= 1,
            ;
            assert(r as int * 10 < den as int * 10) by (nonlinear_arith)
                requires
                    r < den,
            ;
            assert((r as int * 10) / (den as int) <= 9 && (r as int * 10) % (den as int)
                < den as int) by (nonlinear_arith)
                requires
                    r as int * 10 < den as int * 10,
                    den >= 1,
            ;
            assert(den as int * 10 <= pow10(37) * 10) by (nonlinear_arith)
                requires
                    den as nat <= pow10(37),
            ;
        }
        let q: u128 = (r * 10) / den;
        let r2: u128 = (r * 10) % den;
        proof {
            assert((acc as nat * 10 + q as nat + 1) * pow10((k - 1) as nat) <= (acc as nat
                + 1) * pow10(k as nat)) by (nonlinear_arith)
                requires
                    q <= 9,
                    pow10(k as nat) == 10 * pow10((k - 1) as nat),
                    pow10((k - 1) as nat) >= 1,
            ;
            lemma_pow10_pos((k - 1) as nat);
        }
        div_digits(acc * 10 + q, r2, den, k - 1)
    }
}

pub fn dec_div(a: Dec, b: Dec) -> (r: Option<Dec>)
    requires
        dec_ok(a),
        dec_ok(b),
    ensures
        r == dec_div_spec(a, b),
        r matches Some(d) ==> dec_ok(d),
{
    proof {
        lemma_align(a.m as nat, b.e as nat);
        lemma_align(b.m as nat, a.e as nat);
        lemma_pow10_values();
    }
    let pa = ten_to(a.e);
    let n: u128 = a.m * ten_to(b.e);
    let d: u128 = b.m * pa;
    if d == 0 {
        proof {
            assert(b.m == 0) by (nonlinear_arith)
                requires
                    b.m as int * pa as int == 0,
                    pa >= 1,
            ;
        }
        None
    } else {
        let limit: u128 = 10000000000000000000u128;
        let q0: u128 = n / d;
        if q0 >= limit {
            None
        } else {
            proof {
                assert((q0 as nat + 1) * pow10(18) <= pow10(37)) by (nonlinear_arith)
                    requires
                        q0 as nat + 1 <= pow10(19),
                        pow10(37) == pow10(19) * pow10(18),
                ;
            }
            let acc = div_digits(q0, n % d, d, 18);
            proof {
                lemma_fit_ok(a.neg != b.neg, acc as nat, 18);
            }
            fit(a.neg != b.neg, acc, 18)
        }
    }
}

/// Whether the first stored decimal is below, at, or above the second.
pub open spec fn dec_cmp_spec(a: Dec, b: Dec) -> core::cmp::Ordering {
    let ma: nat = a.m as nat * pow10(b.e as nat);
    let mb: nat = b.m as nat * pow10(a.e as nat);
    let sa: int = if a.neg {
        -(ma as int)
    } else {
        ma as int
    };
    let sb: int = if b.neg {
        -(mb as int)
    } else {
        mb as int
    };
    if sa < sb {
        core::cmp::Ordering::Less
    } else if sa == sb {
        core::cmp::Ordering::Equal
    } else {
        core::cmp::Ordering::Greater
    }
}

pub fn dec_cmp(a: Dec, b: Dec) -> (r: core::cmp::Ordering)
    requires
        dec_ok(a),
        dec_ok(b),
    ensures
        r == dec_cmp_spec(a, b),
{
    proof {
        lemma_align(a.m as nat, b.e as nat);
        lemma_align(b.m as nat, a.e as nat);
        lemma_pow10_values();
    }
    let ma: u128 = a.m * ten_to(b.e);
    let mb: u128 = b.m * ten_to(a.e);
    if a.neg && b.neg {
        if ma > mb {
            core::cmp::Ordering::Less
        } else if ma == mb {
            core::cmp::Ordering::Equal
        } else {
            core::cmp::Ordering::Greater
        }
    } else if a.neg && !b.neg {
        if ma == 0 && mb == 0 {
            core::cmp::Ordering::Equal
        } else {
            core::cmp::Ordering::Less
        }
    } else if !a.neg && b.neg {
        if ma == 0 && mb == 0 {
            core::cmp::Ordering::Equal
        } else {
            core::cmp::Ordering::Greater
        }
    } else {
        if ma < mb {
            core::cmp::Ordering::Less
        } else if ma == mb {
            core::cmp::Ordering::Equal
        } else {
            core::cmp::Ordering::Greater
        }
    }
}

/// Reading a real literal, past the sign: before the decimal point.
pub open spec fn pr_int(t: Seq<char>, i: int, neg: bool, m: nat, seen: bool) -> Option<Dec>
    decreases t.len() - i, 1int,
{
    if i < 0 || i >= t.len() {
        None
    } else if t[i] == '.' {
        pr_frac(t, i + 1, neg, m, seen, 0, false)
    } else if crate::digits::is_digit(t[i]) {
        if m * 10 + crate::digits::c2d(t[i]) >= mant_limit() {
            None
        } else {
            pr_int(t, i + 1, neg, m * 10 + crate::digits::c2d(t[i]) as nat, true)
        }
    } else {
        None
    }
}

/// Reading a real literal: after the decimal point. Digits beyond the
/// stored precision are dropped; `any` records that a fractional digit
/// was seen.
pub open spec fn pr_frac(t: Seq<char>, i: int, neg: bool, m: nat, seen: bool, e: nat, any: bool)
    -> Option<Dec>
    decreases t.len() - i, 0int,
{
    if i < 0 {
        None
    } else if i >= t.len() {
        if seen || any {
            fit_spec(neg, m, e)
        } else {
            None
        }
    } else if crate::digits::is_digit(t[i]) {
        if e < 18 && m * 10 + crate::digits::c2d(t[i]) < mant_limit() {
            pr_frac(t, i + 1, neg, m * 10 + crate::digits::c2d(t[i]) as nat, seen, e + 1, true)
        } else {
            pr_frac(t, i + 1, neg, m, seen, e, true)
        }
    } else {
        None
    }
}

/// The stored decimal a real literal denotes: an optional sign, digits
/// around a required decimal point, at least one digit in all.
pub open spec fn parse_real_spec(t: Seq<char>) -> Option<Dec> {
    if t.len() > 0 && t[0] == '-' {
        pr_int(t, 1, true, 0, false)
    } else if t.len() > 0 && t[0] == '+' {
        pr_int(t, 1, false, 0, false)
    } else {
        pr_int(t, 0, false, 0, false)
    }
}

fn pr_int_run(s: &str, i: usize, neg: bool, m: u128, seen: bool) -> (r: Option<Dec>)
    requires
        i <= s@.len(),
        (m as nat) < mant_limit(),
    ensures
        r == pr_int(s@, i as int, neg, m as nat, seen),
        r matches Some(d) ==> dec_ok(d),
    decreases s@.len() - i, 1int,
{
    proof {
        lemma_pow10_values();
    }
    let n = s.unicode_len();
    if i >= n {
        None
    } else {
        let c = s.get_char(i);
        let u = c as u32;
        if c == '.' {
            pr_frac_run(s, i + 1, neg, m, seen, 0, false)
        } else if 48 <= u && u <= 57 {
            let m2: u128 = m * 10 + (u - 48) as u128;
            if m2 >= 10000000000000000000u128 {
                None
            } else {
                pr_int_run(s, i + 1, neg, m2, true)
            }
        } else {
            None
        }
    }
}

fn pr_frac_run(s: &str, i: usize, neg: bool, m: u128, seen: bool, e: u32, any: bool) -> (r:
    Option<Dec>)
    requires
        i <= s@.len(),
        (m as nat) < mant_limit(),
        e <= 18,
    ensures
        r == pr_frac(s@, i as int, neg, m as nat, seen, e as nat, any),
        r matches Some(d) ==> dec_ok(d),
    decreases s@.len() - i, 0int,
{
    proof {
        lemma_pow10_values();
    }
    let n = s.unicode_len();
    if i >= n {
        if seen || any {
            let out = fit(neg, m, e);
            proof {
                lemma_fit_ok(neg, m as nat, e as nat);
            }
            out
        } else {
            None
        }
    } else {
        let c = s.get_char(i);
        let u = c as u32;
        if 48 <= u && u <= 57 {
            let m2: u128 = m * 10 + (u - 48) as u128;
            if e < 18 && m2 < 10000000000000000000u128 {
                pr_frac_run(s, i + 1, neg, m2, seen, e + 1, true)
            } else {
                pr_frac_run(s, i + 1, neg, m, seen, e, true)
            }
        } else {
            None
        }
    }
}

/// Reads a real literal into a stored decimal.
pub fn parse_real(s: &str) -> (r: Option<Dec>)
    ensures
        r == parse_real_spec(s@),
        r matches Some(d) ==> dec_ok(d),
{
    let n = s.unicode_len();
    if n == 0 {
        return None;
    }
    let c = s.get_char(0);
    if c == '-' {
        pr_int_run(s, 1, true, 0, false)
    } else if c == '+' {
        pr_int_run(s, 1, false, 0, false)
    } else {
        pr_int_run(s, 0, false, 0, false)
    }
}

/// The stored decimal holding a machine integer exactly.
pub open spec fn dec_of_i64_spec(i: i64) -> Dec {
    Dec {
        neg: i < 0,
        m: (if i < 0 {
            (-(i as int)) as u128
        } else {
            i as u128
        }),
        e: 0,
    }
}

pub fn dec_of_i64(i: i64) -> (d: Dec)
    ensures
        d == dec_of_i64_spec(i),
        dec_ok(d),
{
    proof {
        lemma_pow10_values();
    }
    if i < 0 {
        Dec { neg: true, m: (-(i as i128)) as u128, e: 0 }
    } else {
        Dec { neg: false, m: i as u128, e: 0 }
    }
}


/// A run of zero characters.
pub open spec fn zeros(n: nat) -> Seq<char>
    decreases n,
{
    if n == 0 {
        Seq::empty()
    } else {
        zeros((n - 1) as nat) + seq!['0']
    }
}

/// A number below the k-th power of ten has at most k digits.
proof fn lemma_nat_text_len(n: nat, k: nat)
    requires
        n < pow10(k),
        k >= 1,
    ensures
        nat_text(n).len() <= k,
    decreases n,
{
    if n < 10 {
    } else {
        if k == 1 {
            assert(pow10(1) == 10 * pow10(0));
            assert(false);
        } else {
            assert(pow10(k) == 10 * pow10((k - 1) as nat));
            lemma_nat_text_len(n / 10, (k - 1) as nat);
        }
    }
}

/// The canonical text of a stored decimal: the sign, the whole part, and
/// under a positive shift a point and exactly that many fraction digits.
pub open spec fn render_dec_spec(d: Dec) -> Seq<char> {
    let sign: Seq<char> = if d.neg {
        seq!['-']
    } else {
        Seq::empty()
    };
    if d.e == 0 {
        sign + nat_text(d.m as nat)
    } else {
        let q = d.m as nat / pow10(d.e as nat);
        let r = d.m as nat % pow10(d.e as nat);
        sign + nat_text(q) + seq!['.'] + zeros((d.e as nat - nat_text(r).len()) as nat)
            + nat_text(r)
    }
}

pub fn render_dec(d: Dec) -> (res: String)
    requires
        dec_ok(d),
    ensures
        res@ == render_dec_spec(d),
{
    proof {
        reveal_strlit("-");
        reveal_strlit(".");
        reveal_strlit("0");
    }
    let mut out = String::new();
    if d.neg {
        out.append("-");
    }
    if d.e == 0 {
        let t = u128_string(d.m);
        out.append(t.as_str());
        proof {
            assert(out@ =~= render_dec_spec(d));
        }
        out
    } else {
        let p = ten_to(d.e);
        proof {
            lemma_pow10_pos(d.e as nat);
        }
        let q = d.m / p;
        let r = d.m % p;
        let qt = u128_string(q);
        out.append(qt.as_str());
        out.append(".");
        let rt = u128_string(r);
        let rl = rt.as_str().unicode_len();
        proof {
            lemma_nat_text_len(r as nat, d.e as nat);
        }
        let pad: usize = (d.e as usize) - rl;
        let mut j: usize = 0;
        let ghost mid = out@;
        while j < pad
            invariant
                j <= pad,
                out@ == mid + zeros(j as nat),
            decreases pad - j,
        {
            out.append("0");
            proof {
                reveal_strlit("0");
                assert(out@ =~= mid + zeros((j + 1) as nat));
            }
            j += 1;
        }
        out.append(rt.as_str());
        proof {
            assert(out@ =~= render_dec_spec(d));
        }
        out
    }
}

/// A real literal replaced by its canonical text; text that is no real
/// literal stays as it is.
pub open spec fn canon_real_spec(t: Seq<char>) -> Seq<char> {
    match parse_real_spec(t) {
        Some(d) => render_dec_spec(d),
        None => t,
    }
}

pub fn canon_real(s: &str) -> (res: String)
    ensures
        res@ == canon_real_spec(s@),
{
    match parse_real(s) {
        Some(d) => render_dec(d),
        None => String::from_str(s),
    }
}

/// Whether the stored decimal denotes a whole number.
pub open spec fn dec_whole_spec(d: Dec) -> bool {
    d.e == 0
}

/// The base raised to a small power, by repeated multiplication.
pub open spec fn dec_pow_spec(b: Dec, n: nat) -> Option<Dec>
    decreases n,
{
    if n == 0 {
        Some(Dec { neg: false, m: 1, e: 0 })
    } else {
        match dec_pow_spec(b, (n - 1) as nat) {
            Some(x) => dec_mul_spec(x, b),
            None => None,
        }
    }
}

pub fn dec_pow(b: Dec, n: u32) -> (r: Option<Dec>)
    requires
        dec_ok(b),
    ensures
        r == dec_pow_spec(b, n as nat),
        r matches Some(d) ==> dec_ok(d),
{
    let mut acc = Dec { neg: false, m: 1, e: 0 };
    let mut i: u32 = 0;
    while i < n
        invariant
            i <= n,
            dec_ok(b),
            dec_ok(acc),
            dec_pow_spec(b, i as nat) == Some(acc),
        decreases n - i,
    {
        match dec_mul(acc, b) {
            Some(next) => {
                acc = next;
            },
            None => {
                proof {
                    lemma_pow_none(b, i as nat + 1, n as nat);
                }
                return None;
            },
        }
        i += 1;
    }
    Some(acc)
}

/// Once a power cannot be stored, no higher power can.
proof fn lemma_pow_none(b: Dec, i: nat, n: nat)
    requires
        i <= n,
        dec_pow_spec(b, i) is None,
    ensures
        dec_pow_spec(b, n) is None,
    decreases n - i,
{
    if i < n {
        lemma_pow_none(b, i + 1, n);
    }
}


/// Every character of a zero run is the zero digit.
proof fn lemma_zeros_digits(n: nat)
    ensures
        zeros(n).len() == n,
        forall|k: int| 0 <= k < n ==> zeros(n)[k] == '0',
    decreases n,
{
    if n > 0 {
        lemma_zeros_digits((n - 1) as nat);
        assert(forall|k: int| 0 <= k < n - 1 ==> zeros(n)[k] == #[trigger] zeros(
            (n - 1) as nat,
        )[k]);
    }
}

/// Leading zero digits do not change a digit string's value.
proof fn lemma_digits_val_zeros(p: nat, u: Seq<char>)
    requires
        all_digits(u),
    ensures
        all_digits(zeros(p) + u),
        digits_val(zeros(p) + u) == digits_val(u),
    decreases p,
{
    lemma_zeros_digits(p);
    assert(is_digit('0'));
    if p == 0 {
        assert(zeros(0) + u =~= u);
    } else {
        lemma_digits_val_zeros((p - 1) as nat, u);
        let w = zeros(p) + u;
        let w1 = zeros((p - 1) as nat) + u;
        assert forall|k: int| 0 <= k < w.len() implies is_digit(#[trigger] w[k]) by {
            assert(zeros(p).len() == p);
            assert(w.len() == p + u.len());
            if k < p {
                assert(w[k] == zeros(p)[k]);
                assert(zeros(p)[k] == '0');
            } else {
                assert(w[k] == u[k - p]);
                assert(is_digit(u[k - p]));
            }
        }
        lemma_zeros_digits((p - 1) as nat);
        assert forall|k: int| 0 <= k < w.skip(1).len() implies #[trigger] w.skip(1)[k]
            == w1[k] by {
            assert(w.skip(1)[k] == w[k + 1]);
            if k + 1 < p {
                assert(w[k + 1] == zeros(p)[k + 1]);
                assert(w1[k] == zeros((p - 1) as nat)[k]);
            } else {
                assert(w[k + 1] == u[k + 1 - p]);
                assert(w1[k] == u[k - (p - 1)]);
            }
        }
        assert(w.skip(1) =~= w1);
        assert(w[0] == '0');
        if w.len() >= 1 {
            lemma_digits_val_head(w);
            assert(c2d('0') == 0);
            assert(0 * pow10((w.len() - 1) as nat) == 0) by (nonlinear_arith);
        }
    }
}

/// Reading digits before the decimal point accumulates their value.
proof fn lemma_pr_int_run(t: Seq<char>, i: int, j: int, neg: bool, m0: nat, seen: bool)
    requires
        0 <= i <= j < t.len(),
        forall|k: int| i <= k < j ==> is_digit(#[trigger] t[k]),
        m0 * pow10((j - i) as nat) + digits_val(t.subrange(i, j)) < mant_limit(),
    ensures
        pr_int(t, i, neg, m0, seen) == pr_int(
            t,
            j,
            neg,
            m0 * pow10((j - i) as nat) + digits_val(t.subrange(i, j)),
            seen || i < j,
        ),
    decreases j - i,
{
    if i == j {
        assert(t.subrange(i, j) =~= Seq::<char>::empty());
        assert(pow10(0) == 1);
        assert(m0 * 1 == m0) by (nonlinear_arith);
    } else {
        let u = t.subrange(i, j);
        assert(u[0] == t[i]);
        assert(forall|k: int| 0 <= k < u.len() ==> is_digit(#[trigger] u[k]));
        lemma_digits_val_head(u);
        assert(u.skip(1) =~= t.subrange(i + 1, j));
        assert(is_digit(t[i]));
        assert(t[i] != '.');
        let m1: nat = (m0 * 10 + c2d(t[i])) as nat;
        let w: nat = (j - i - 1) as nat;
        assert(m0 * pow10((j - i) as nat) + digits_val(u) == m1 * pow10(w) + digits_val(
            t.subrange(i + 1, j),
        )) by (nonlinear_arith)
            requires
                pow10((j - i) as nat) == 10 * pow10(w),
                digits_val(u) == c2d(u[0]) * pow10(w) + digits_val(u.skip(1)),
                u[0] == t[i],
                u.skip(1) == t.subrange(i + 1, j),
                m1 == m0 * 10 + c2d(t[i]),
                0 <= c2d(t[i]),
        ;
        lemma_pow10_pos(w);
        assert(m1 <= m1 * pow10(w)) by (nonlinear_arith)
            requires
                pow10(w) >= 1,
        ;
        assert(m1 < mant_limit());
        lemma_pr_int_run(t, i + 1, j, neg, m1, true);
    }
}

/// Reading digits after the decimal point accumulates their value and
/// counts the shift.
proof fn lemma_pr_frac_run(t: Seq<char>, i: int, neg: bool, m0: nat, e0: nat, any: bool)
    requires
        0 <= i <= t.len(),
        forall|k: int| i <= k < t.len() ==> is_digit(#[trigger] t[k]),
        m0 * pow10((t.len() - i) as nat) + digits_val(t.subrange(i, t.len() as int))
            < mant_limit(),
        e0 + (t.len() - i) <= 18,
    ensures
        pr_frac(t, i, neg, m0, true, e0, any) == fit_spec(
            neg,
            m0 * pow10((t.len() - i) as nat) + digits_val(t.subrange(i, t.len() as int)),
            (e0 + (t.len() - i)) as nat,
        ),
    decreases t.len() - i,
{
    let j = t.len() as int;
    if i == j {
        assert(t.subrange(i, j) =~= Seq::<char>::empty());
        assert(pow10(0) == 1);
        assert(m0 * 1 == m0) by (nonlinear_arith);
    } else {
        let u = t.subrange(i, j);
        assert(u[0] == t[i]);
        assert(forall|k: int| 0 <= k < u.len() ==> is_digit(#[trigger] u[k]));
        lemma_digits_val_head(u);
        assert(u.skip(1) =~= t.subrange(i + 1, j));
        let m1: nat = (m0 * 10 + c2d(t[i])) as nat;
        let w: nat = (j - i - 1) as nat;
        assert(m0 * pow10((j - i) as nat) + digits_val(u) == m1 * pow10(w) + digits_val(
            t.subrange(i + 1, j),
        )) by (nonlinear_arith)
            requires
                pow10((j - i) as nat) == 10 * pow10(w),
                digits_val(u) == c2d(u[0]) * pow10(w) + digits_val(u.skip(1)),
                u[0] == t[i],
                u.skip(1) == t.subrange(i + 1, j),
                m1 == m0 * 10 + c2d(t[i]),
                0 <= c2d(t[i]),
        ;
        lemma_pow10_pos(w);
        assert(m1 <= m1 * pow10(w)) by (nonlinear_arith)
            requires
                pow10(w) >= 1,
        ;
        assert(m1 < mant_limit());
        assert(e0 < 18);
        lemma_pr_frac_run(t, i + 1, neg, m1, e0 + 1, true);
    }
}

/// Reading back the canonical text of a fractional stored decimal gives
/// the same stored decimal.
pub proof fn lemma_parse_render_dec(d: Dec)
    requires
        dec_ok(d),
        d.e >= 1,
    ensures
        parse_real_spec(render_dec_spec(d)) == Some(d),
{
    lemma_pow10_values();
    let e = d.e as nat;
    let m = d.m as nat;
    let p = pow10(e);
    lemma_pow10_pos(e);
    lemma_pow10_mono(e, 18);
    let q = m / p;
    let r = m % p;
    assert(m == p * q + r && r < p) by (nonlinear_arith)
        requires
            p >= 1,
            q == m / p,
            r == m % p,
    ;
    assert(p * q == 10 * (pow10((e - 1) as nat) * q)) by (nonlinear_arith)
        requires
            p == 10 * pow10((e - 1) as nat),
    ;
    vstd::arithmetic::div_mod::lemma_mod_multiples_vanish(
        (pow10((e - 1) as nat) * q) as int,
        r as int,
        10,
    );
    assert(r % 10 == m % 10);
    assert(r >= 1);
    assert(q <= m) by (nonlinear_arith)
        requires
            p >= 1,
            q == m / p,
    ;
    lemma_nat_text_len(r, e);
    lemma_nat_text_digits(q);
    lemma_nat_text_digits(r);
    lemma_nat_text_val(q);
    lemma_nat_text_val(r);
    let sign_seq: Seq<char> = if d.neg {
        seq!['-']
    } else {
        Seq::empty()
    };
    let qd = nat_text(q);
    let rd = nat_text(r);
    let pad = (e - rd.len()) as nat;
    lemma_zeros_digits(pad);
    let s = render_dec_spec(d);
    assert(s =~= sign_seq + qd + seq!['.'] + zeros(pad) + rd);
    let sl: int = if d.neg {
        1
    } else {
        0
    };
    let dot: int = sl + qd.len();
    let fr: int = dot + 1;
    let len = s.len() as int;
    assert(len == fr + pad + rd.len());
    assert(forall|k: int| sl <= k < dot ==> s[k] == #[trigger] qd[k - sl]);
    assert(s[dot] == '.');
    assert(s.subrange(sl, dot) =~= qd);
    assert(s.subrange(fr, len) =~= zeros(pad) + rd);
    lemma_digits_val_zeros(pad, rd);
    assert(forall|k: int| sl <= k < dot ==> is_digit(#[trigger] s[k]));
    assert forall|k: int| fr <= k < len implies is_digit(#[trigger] s[k]) by {
        assert(s[k] == s.subrange(fr, len)[k - fr]);
        assert(s.subrange(fr, len)[k - fr] == (zeros(pad) + rd)[k - fr]);
        if k - fr < pad {
            assert((zeros(pad) + rd)[k - fr] == zeros(pad)[k - fr]);
        } else {
            assert((zeros(pad) + rd)[k - fr] == rd[k - fr - pad]);
        }
    }
    assert(digits_val(s.subrange(sl, dot)) == q);
    assert(0 * pow10((dot - sl) as nat) == 0) by (nonlinear_arith);
    lemma_pr_int_run(s, sl, dot, d.neg, 0, false);
    assert(pr_int(s, sl, d.neg, 0, false) == pr_int(s, dot, d.neg, q, true));
    assert(pr_int(s, dot, d.neg, q, true) == pr_frac(s, fr, d.neg, q, true, 0, false));
    assert(q * pow10((len - fr) as nat) + digits_val(s.subrange(fr, len)) == m)
        by (nonlinear_arith)
        requires
            pow10((len - fr) as nat) == p,
            digits_val(s.subrange(fr, len)) == r,
            m == p * q + r,
    ;
    lemma_pr_frac_run(s, fr, d.neg, q, 0, false);
    assert(pr_frac(s, fr, d.neg, q, true, 0, false) == fit_spec(d.neg, m, e));
    assert(fit_spec(d.neg, m, e) == Some(d));
    if d.neg {
        assert(s[0] == '-');
        assert(parse_real_spec(s) == pr_int(s, 1, true, 0, false));
    } else {
        assert(s[0] == qd[0]);
        assert(is_digit(s[0]));
        assert(s[0] != '-' && s[0] != '+');
        assert(parse_real_spec(s) == pr_int(s, 0, false, 0, false));
    }
}


/// Where the sign, digits and the decimal point sit in a rendered
/// fractional decimal.
pub proof fn lemma_render_dec_shape(d: Dec)
    requires
        dec_ok(d),
        d.e >= 1,
    ensures
        ({
            let s = render_dec_spec(d);
            let sl: int = if d.neg {
                1
            } else {
                0
            };
            let dot: int = sl + nat_text((d.m as nat) / pow10(d.e as nat)).len();
            &&& sl < dot < s.len() - 1
            &&& (d.neg ==> s[0] == '-')
            &&& s[dot] == '.'
            &&& (forall|k: int| sl <= k < dot ==> is_digit(#[trigger] s[k]))
            &&& (forall|k: int| dot < k < s.len() ==> is_digit(#[trigger] s[k]))
        }),
{
    let e = d.e as nat;
    let m = d.m as nat;
    let p = pow10(e);
    lemma_pow10_pos(e);
    let q = m / p;
    let r = m % p;
    lemma_nat_text_len(r, e);
    lemma_nat_text_digits(q);
    lemma_nat_text_digits(r);
    let sign_seq: Seq<char> = if d.neg {
        seq!['-']
    } else {
        Seq::empty()
    };
    let qd = nat_text(q);
    let rd = nat_text(r);
    let pad = (e - rd.len()) as nat;
    lemma_zeros_digits(pad);
    let s = render_dec_spec(d);
    assert(s =~= sign_seq + qd + seq!['.'] + zeros(pad) + rd);
    let sl: int = if d.neg {
        1
    } else {
        0
    };
    let dot: int = sl + qd.len();
    let fr: int = dot + 1;
    let len = s.len() as int;
    assert(len == fr + pad + rd.len());
    assert(forall|k: int| sl <= k < dot ==> s[k] == #[trigger] qd[k - sl]);
    assert(s[dot] == '.');
    assert(is_digit('0'));
    assert forall|k: int| dot < k < len implies is_digit(#[trigger] s[k]) by {
        if k - fr < pad {
            assert(s[k] == zeros(pad)[k - fr]);
            assert(zeros(pad)[k - fr] == '0');
        } else {
            assert(s[k] == rd[k - fr - pad]);
            assert(is_digit(rd[k - fr - pad]));
        }
    }
}

} // verus!
