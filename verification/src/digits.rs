//! Decimal text for machine integers: rendering and parsing, with the
//! sequence-level meaning of both directions stated as spec functions.

use vstd::prelude::*;

verus! {

/// Ten to the given power.
pub open spec fn pow10(n: nat) -> nat
    decreases n,
{
    if n == 0 {
        1
    } else {
        10 * pow10((n - 1) as nat)
    }
}

pub proof fn lemma_pow10_pos(n: nat)
    ensures
        pow10(n) >= 1,
    decreases n,
{
    if n > 0 {
        lemma_pow10_pos((n - 1) as nat);
    }
}

pub proof fn lemma_pow10_mono(m: nat, n: nat)
    requires
        m <= n,
    ensures
        pow10(m) <= pow10(n),
    decreases n,
{
    if m < n {
        lemma_pow10_mono(m, (n - 1) as nat);
        lemma_pow10_pos((n - 1) as nat);
    }
}

/// Powers multiply as exponents add.
pub proof fn lemma_pow10_adds(a: nat, b: nat)
    ensures
        pow10(a) * pow10(b) == pow10(a + b),
    decreases a,
{
    if a == 0 {
        assert(pow10(0) == 1);
    } else {
        lemma_pow10_adds((a - 1) as nat, b);
        assert(pow10(a) * pow10(b) == 10 * pow10((a - 1) as nat) * pow10(b));
        assert(10 * pow10((a - 1) as nat) * pow10(b) == 10 * (pow10((a - 1) as nat) * pow10(
            b,
        ))) by (nonlinear_arith);
    }
}

/// The character for a single decimal digit value.
pub open spec fn d2c(d: int) -> char {
    ((48 + d) as u8) as char
}

/// The digit value of a character, counting from `'0'`.
pub open spec fn c2d(c: char) -> int {
    c as u32 - 48
}

pub open spec fn is_digit(c: char) -> bool {
    48 <= c as u32 <= 57
}

/// Decimal text of a natural number, most significant digit first,
/// no leading zeros (`0` itself is rendered as `"0"`).
pub open spec fn nat_text(n: nat) -> Seq<char>
    decreases n,
{
    if n < 10 {
        seq![d2c(n as int)]
    } else {
        nat_text(n / 10).push(d2c((n % 10) as int))
    }
}

/// Decimal text of an integer: a `-` sign for negative values, then the digits.
pub open spec fn int_text(i: int) -> Seq<char> {
    if i < 0 {
        seq!['-'] + nat_text((-i) as nat)
    } else {
        nat_text(i as nat)
    }
}

/// The value of a sequence of decimal digit characters, read base 10.
pub open spec fn digits_val(s: Seq<char>) -> nat
    decreases s.len(),
{
    if s.len() == 0 {
        0
    } else {
        digits_val(s.drop_last()) * 10 + (if is_digit(s.last()) {
            c2d(s.last()) as nat
        } else {
            0
        })
    }
}

pub open spec fn all_digits(s: Seq<char>) -> bool {
    forall|i: int| 0 <= i < s.len() ==> is_digit(#[trigger] s[i])
}

/// An integer literal: an optional sign, then at least one digit.
pub open spec fn is_int_text(s: Seq<char>) -> bool {
    if s.len() > 0 && (s[0] == '-' || s[0] == '+') {
        s.len() > 1 && all_digits(s.skip(1))
    } else {
        s.len() > 0 && all_digits(s)
    }
}

/// The value of an integer literal (sign applied to the digit value).
pub open spec fn int_text_val(s: Seq<char>) -> int {
    if s.len() > 0 && s[0] == '-' {
        -(digits_val(s.skip(1)) as int)
    } else if s.len() > 0 && s[0] == '+' {
        digits_val(s.skip(1)) as int
    } else {
        digits_val(s) as int
    }
}

pub proof fn lemma_nat_text_digits(n: nat)
    ensures
        nat_text(n).len() >= 1,
        all_digits(nat_text(n)),
        n >= 10 ==> nat_text(n).len() >= 2,
        nat_text(n)[0] != '0' || n < 10,
    decreases n,
{
    if n < 10 {
        assert(is_digit(d2c(n as int)));
        assert(forall|i: int|
            0 <= i < nat_text(n).len() ==> is_digit(#[trigger] nat_text(n)[i]));
    } else {
        lemma_nat_text_digits(n / 10);
        let p = nat_text(n / 10);
        let w = nat_text(n);
        assert(w == p.push(d2c((n % 10) as int)));
        assert(is_digit(d2c((n % 10) as int)));
        assert(forall|i: int| 0 <= i < w.len() ==> is_digit(#[trigger] w[i])) by {
            assert(forall|i: int| 0 <= i < p.len() ==> w[i] == #[trigger] p[i]);
        }
        assert(w[0] == p[0]);
    }
}

/// Rendering then reading a natural number gives the number back.
pub proof fn lemma_nat_text_val(n: nat)
    ensures
        digits_val(nat_text(n)) == n,
    decreases n,
{
    if n < 10 {
        let s = nat_text(n);
        assert(s =~= seq![d2c(n as int)]);
        assert(s.len() == 1);
        assert(s.last() == d2c(n as int));
        assert(s.drop_last() =~= Seq::<char>::empty());
        assert(digits_val(s.drop_last()) == 0);
        assert(is_digit(d2c(n as int)) && c2d(d2c(n as int)) == n);
        assert(digits_val(s) == 0 * 10 + c2d(s.last()) as nat);
        assert(digits_val(s) == n);
    } else {
        lemma_nat_text_val(n / 10);
        let p = nat_text(n / 10);
        let s = nat_text(n);
        assert(s == p.push(d2c((n % 10) as int)));
        assert(s.drop_last() =~= p);
        assert(s.last() == d2c((n % 10) as int));
        assert(n % 10 < 10);
        assert(is_digit(d2c((n % 10) as int)) && c2d(d2c((n % 10) as int)) == n % 10);
        assert(digits_val(s) == digits_val(p) * 10 + c2d(s.last()) as nat);
        assert(digits_val(s) == (n / 10) * 10 + n % 10);
        assert(digits_val(s) == n);
    }
}

/// Rendering an integer gives a literal that reads back as that integer.
pub proof fn lemma_int_text_val(i: int)
    ensures
        is_int_text(int_text(i)),
        int_text_val(int_text(i)) == i,
        int_text(i).len() >= 1,
{
    if i < 0 {
        lemma_nat_text_digits((-i) as nat);
        lemma_nat_text_val((-i) as nat);
        let s = int_text(i);
        assert(s[0] == '-');
        assert(s.skip(1) =~= nat_text((-i) as nat));
        assert(forall|j: int| 0 <= j < s.skip(1).len() ==> is_digit(#[trigger] s.skip(1)[j]));
    } else {
        lemma_nat_text_digits(i as nat);
        lemma_nat_text_val(i as nat);
        let s = int_text(i);
        assert(is_digit(s[0]));
        assert(s[0] as u32 != 45 && s[0] as u32 != 43);
        assert(s[0] != '-' && s[0] != '+');
    }
}

/// The leading digit carries its power of ten.
pub proof fn lemma_digits_val_head(u: Seq<char>)
    requires
        u.len() >= 1,
        all_digits(u),
    ensures
        digits_val(u) == c2d(u[0]) * pow10((u.len() - 1) as nat) + digits_val(u.skip(1)),
    decreases u.len(),
{
    if u.len() == 1 {
        assert(u.drop_last() =~= Seq::<char>::empty());
        assert(u.skip(1) =~= Seq::<char>::empty());
        assert(pow10(0) == 1);
        assert(c2d(u[0]) * 1 == c2d(u[0])) by (nonlinear_arith);
    } else {
        let h = u.drop_last();
        assert(forall|k: int| 0 <= k < h.len() ==> h[k] == #[trigger] u[k]);
        lemma_digits_val_head(h);
        assert(u.skip(1).drop_last() =~= h.skip(1));
        assert(u.skip(1).last() == u.last());
        assert(digits_val(u.skip(1)) == digits_val(h.skip(1)) * 10 + c2d(u.last()));
        assert(digits_val(u) == digits_val(h) * 10 + c2d(u.last()));
        assert(digits_val(h) * 10 == (c2d(u[0]) * pow10((u.len() - 2) as nat) + digits_val(
            h.skip(1),
        )) * 10);
        assert((c2d(u[0]) * pow10((u.len() - 2) as nat) + digits_val(h.skip(1))) * 10 == c2d(
            u[0],
        ) * (10 * pow10((u.len() - 2) as nat)) + digits_val(h.skip(1)) * 10)
            by (nonlinear_arith);
        assert(pow10((u.len() - 1) as nat) == 10 * pow10((u.len() - 2) as nat));
    }
}

/// A digit string's value grows (weakly) as digits are appended.
pub proof fn lemma_digits_val_prefix(s: Seq<char>, i: int)
    requires
        0 <= i <= s.len(),
    ensures
        digits_val(s.subrange(0, i)) <= digits_val(s),
    decreases s.len() - i,
{
    if i < s.len() {
        lemma_digits_val_prefix(s, i + 1);
        let a = s.subrange(0, i);
        let b = s.subrange(0, i + 1);
        assert(b.drop_last() =~= a);
        assert(digits_val(b) == digits_val(a) * 10 + (if is_digit(b.last()) {
            c2d(b.last()) as nat
        } else {
            0
        }));
    } else {
        assert(s.subrange(0, i) =~= s);
    }
}

/// Reads an optionally signed decimal literal. `None` exactly when the text
/// is not such a literal or its value does not fit in an `i64`.
pub fn parse_i64(s: &str) -> (r: Option<i64>)
    ensures
        match r {
            Some(v) => is_int_text(s@) && v as int == int_text_val(s@),
            None => !is_int_text(s@) || int_text_val(s@) < i64::MIN || int_text_val(s@)
                > i64::MAX,
        },
{
    let n = s.unicode_len();
    if n == 0 {
        return None;
    }
    let first = s.get_char(0);
    let neg = first == '-';
    let signed = neg || first == '+';
    let start: usize = if signed {
        1
    } else {
        0
    };
    if n == start {
        return None;
    }
    let ghost body: Seq<char> = if signed {
        s@.skip(1)
    } else {
        s@
    };
    let bound: u128 = 9223372036854775808u128;
    let mut acc: u128 = 0;
    let mut i: usize = start;
    while i < n
        invariant
            start <= i <= n,
            n == s@.len(),
            start == if signed {
                1int
            } else {
                0int
            },
            signed ==> s@.len() > 1,
            neg == (s@[0] == '-'),
            signed == (neg || s@[0] == '+'),
            body == (if signed {
                s@.skip(1)
            } else {
                s@
            }),
            n - start == body.len(),
            forall|j: int| 0 <= j < i - start ==> is_digit(#[trigger] body[j]),
            acc == digits_val(body.subrange(0, i - start)),
            acc <= bound,
            bound == 9223372036854775808u128,
        decreases n - i,
    {
        let c = s.get_char(i);
        let u = c as u32;
        if !(48 <= u && u <= 57) {
            proof {
                assert(body[i - start] == c);
                assert(!is_digit(body[i - start]));
                assert(!all_digits(body));
                assert(!is_int_text(s@));
            }
            return None;
        }
        let d: u128 = (u - 48) as u128;
        proof {
            let k = i - start;
            assert(body.subrange(0, k + 1).drop_last() =~= body.subrange(0, k));
            assert(body.subrange(0, k + 1).last() == body[k] == c);
            assert(digits_val(body.subrange(0, k + 1)) == acc * 10 + c2d(c) as nat);
        }
        acc = acc * 10 + d;
        i += 1;
        if acc > bound {
            proof {
                lemma_digits_val_prefix(body, i - start);
                assert(digits_val(body.subrange(0, i - start)) == acc);
                assert(digits_val(body) >= acc);
                assert(digits_val(body) > 9223372036854775808);
                if neg {
                    assert(int_text_val(s@) == -(digits_val(body) as int));
                    assert(int_text_val(s@) < i64::MIN);
                } else {
                    assert(int_text_val(s@) == digits_val(body) as int);
                    assert(int_text_val(s@) > i64::MAX);
                }
            }
            return None;
        }
    }
    proof {
        assert(body.subrange(0, n - start) =~= body);
        assert(digits_val(body) == acc);
        assert(all_digits(body));
        assert(is_int_text(s@));
    }
    if neg {
        proof {
            assert(int_text_val(s@) == -(acc as int));
        }
        Some((-(acc as i128)) as i64)
    } else {
        if acc == bound {
            proof {
                assert(int_text_val(s@) > i64::MAX);
            }
            None
        } else {
            proof {
                assert(int_text_val(s@) == acc as int);
            }
            Some(acc as i64)
        }
    }
}

/// Reads an optionally signed decimal literal into an `i32`.
pub fn parse_i32(s: &str) -> (r: Option<i32>)
    ensures
        match r {
            Some(v) => is_int_text(s@) && v as int == int_text_val(s@),
            None => !is_int_text(s@) || int_text_val(s@) < i32::MIN || int_text_val(s@)
                > i32::MAX,
        },
{
    match parse_i64(s) {
        Some(v) => if -2147483648i64 <= v && v <= 2147483647i64 {
            Some(v as i32)
        } else {
            None
        },
        None => None,
    }
}

/// The `&str` holding one decimal digit.
pub fn digit_str(d: u8) -> (s: &'static str)
    requires
        d < 10,
    ensures
        s@ =~= seq![d2c(d as int)],
{
    proof {
        reveal_strlit("0");
        reveal_strlit("1");
        reveal_strlit("2");
        reveal_strlit("3");
        reveal_strlit("4");
        reveal_strlit("5");
        reveal_strlit("6");
        reveal_strlit("7");
        reveal_strlit("8");
        reveal_strlit("9");
    }
    match d {
        0 => "0",
        1 => "1",
        2 => "2",
        3 => "3",
        4 => "4",
        5 => "5",
        6 => "6",
        7 => "7",
        8 => "8",
        _ => "9",
    }
}

pub fn u64_string(n: u64) -> (s: String)
    ensures
        s@ == nat_text(n as nat),
    decreases n,
{
    if n < 10 {
        let mut s = String::new();
        s.append(digit_str(n as u8));
        proof {
            assert(s@ =~= nat_text(n as nat));
        }
        s
    } else {
        let mut s = u64_string(n / 10);
        s.append(digit_str((n % 10) as u8));
        proof {
            assert(s@ =~= nat_text(n as nat));
        }
        s
    }
}

pub fn u128_string(n: u128) -> (s: String)
    ensures
        s@ == nat_text(n as nat),
    decreases n,
{
    if n < 10 {
        let mut s = String::new();
        s.append(digit_str(n as u8));
        proof {
            assert(s@ =~= nat_text(n as nat));
        }
        s
    } else {
        let mut s = u128_string(n / 10);
        s.append(digit_str((n % 10) as u8));
        proof {
            assert(s@ =~= nat_text(n as nat));
        }
        s
    }
}

/// The decimal text of a machine size.
pub fn usize_string(n: usize) -> (s: String)
    ensures
        s@ == nat_text(n as nat),
{
    u64_string(n as u64)
}

pub fn i64_string(i: i64) -> (s: String)
    ensures
        s@ == int_text(i as int),
{
    if i >= 0 {
        u64_string(i as u64)
    } else {
        let m: u64 = (-(i as i128)) as u64;
        let mut s = String::from_str("-");
        let t = u64_string(m);
        s.append(t.as_str());
        proof {
            reveal_strlit("-");
            assert(s@ =~= int_text(i as int));
        }
        s
    }
}

pub fn i128_string(i: i128) -> (s: String)
    requires
        i > i128::MIN,
    ensures
        s@ == int_text(i as int),
{
    if i >= 0 {
        u128_string(i as u128)
    } else {
        let m: u128 = (-i) as u128;
        let mut s = String::from_str("-");
        let t = u128_string(m);
        s.append(t.as_str());
        proof {
            reveal_strlit("-");
            assert(s@ =~= int_text(i as int));
        }
        s
    }
}

} // verus!
