//! A sign-magnitude integer of unbounded size: parsing, ordering, addition
//! and subtraction, each specified against the number the digits denote.

use vstd::prelude::*;
use core::cmp::Ordering;
use crate::digits::c2d;
use crate::digits::digits_val;
use crate::digits::is_digit;
use crate::digits::pow10;
use crate::digits::lemma_pow10_pos;
use crate::digits::lemma_pow10_mono;

verus! {

#[derive(Debug, PartialEq, Eq, Clone)]
pub struct Bigint {
    sign: i8,
    digits: Vec<i8>,
}

#[derive(Debug)]
pub struct ParseError;

pub open spec fn digit_seq_ok(ds: Seq<i8>) -> bool {
    forall|i: int| 0 <= i < ds.len() ==> 0 <= #[trigger] ds[i] <= 9
}

/// The number denoted by the digits at positions `i` and above, least
/// significant digit first.
pub open spec fn tail_val(ds: Seq<i8>, i: int) -> nat
    decreases ds.len() - i,
{
    if i < 0 || i >= ds.len() {
        0
    } else {
        (ds[i] + 10 * tail_val(ds, i + 1)) as nat
    }
}

/// The magnitude a digit vector denotes, least significant digit first.
pub open spec fn mag_val(ds: Seq<i8>) -> nat {
    tail_val(ds, 0)
}

/// The number denoted by digits in reading order (most significant first).
pub open spec fn bval(ds: Seq<i8>) -> nat
    decreases ds.len(),
{
    if ds.len() == 0 {
        0
    } else {
        (bval(ds.drop_last()) * 10 + ds.last()) as nat
    }
}

pub open spec fn dig(ds: Seq<i8>, i: int) -> int {
    if 0 <= i < ds.len() {
        ds[i] as int
    } else {
        0
    }
}

/// A stored number: digit values only, at least one digit, no useless
/// leading zero, and zero itself held as `+0`.
pub closed spec fn wf(b: &Bigint) -> bool {
    &&& digit_seq_ok(b.digits@)
    &&& b.digits@.len() >= 1
    &&& (b.sign == 1 || b.sign == -1)
    &&& (b.digits@.len() == 1 || b.digits@.last() != 0)
    &&& (mag_val(b.digits@) == 0 ==> b.sign == 1 && b.digits@ =~= seq![0i8])
}

/// The integer a stored number denotes.
pub closed spec fn val(b: &Bigint) -> int {
    if b.sign == -1 {
        -(mag_val(b.digits@) as int)
    } else {
        mag_val(b.digits@) as int
    }
}

/// Every digit vector denotes less than one followed by that many zeros.
pub proof fn lemma_mag_bound(ds: Seq<i8>, i: int)
    requires
        digit_seq_ok(ds),
        0 <= i <= ds.len(),
    ensures
        tail_val(ds, i) < pow10((ds.len() - i) as nat),
    decreases ds.len() - i,
{
    if i < ds.len() {
        lemma_mag_bound(ds, i + 1);
        lemma_pow10_pos((ds.len() - i - 1) as nat);
    }
}

/// A digit vector whose top digit is not zero denotes at least one
/// followed by one fewer zeros.
pub proof fn lemma_mag_top(ds: Seq<i8>, i: int)
    requires
        digit_seq_ok(ds),
        0 <= i < ds.len(),
        ds.last() != 0,
    ensures
        tail_val(ds, i) >= pow10((ds.len() - i - 1) as nat),
    decreases ds.len() - i,
{
    if i + 1 < ds.len() {
        lemma_mag_top(ds, i + 1);
    }
}

proof fn lemma_tail_prepend(x: i8, r: Seq<i8>, j: int)
    requires
        j >= 0,
    ensures
        tail_val(seq![x] + r, j + 1) == tail_val(r, j),
    decreases r.len() - j,
{
    if j < r.len() {
        lemma_tail_prepend(x, r, j + 1);
        assert((seq![x] + r)[j + 1] == r[j]);
    }
}

proof fn lemma_tail_drop_last_zero(ds: Seq<i8>, j: int)
    requires
        digit_seq_ok(ds),
        ds.len() >= 1,
        ds.last() == 0,
        j >= 0,
    ensures
        tail_val(ds, j) == tail_val(ds.drop_last(), j),
    decreases ds.len() - j,
{
    reveal_with_fuel(tail_val, 2);
    if j < ds.len() - 1 {
        lemma_tail_drop_last_zero(ds, j + 1);
        assert(ds.drop_last()[j] == ds[j]);
        assert(tail_val(ds, j) == ds[j] + 10 * tail_val(ds, j + 1));
        assert(tail_val(ds.drop_last(), j) == ds[j] + 10 * tail_val(ds.drop_last(), j + 1));
    } else if j == ds.len() - 1 {
        assert(tail_val(ds, j + 1) == 0);
        assert(tail_val(ds, j) == 0);
        assert(tail_val(ds.drop_last(), j) == 0);
    }
}

/// The digits produced by adding two digit vectors from position `i` with
/// a carried unit.
pub open spec fn add_digits(a: Seq<i8>, b: Seq<i8>, i: int, carry: int) -> Seq<i8>
    decreases (if a.len() > b.len() {
        a.len()
    } else {
        b.len()
    }) - i,
{
    if i >= a.len() && i >= b.len() {
        if carry > 0 {
            seq![carry as i8]
        } else {
            Seq::empty()
        }
    } else if i < 0 {
        Seq::empty()
    } else {
        let s = dig(a, i) + dig(b, i) + carry;
        seq![(s % 10) as i8] + add_digits(a, b, i + 1, s / 10)
    }
}

pub proof fn lemma_add_digits(a: Seq<i8>, b: Seq<i8>, i: int, carry: int)
    requires
        digit_seq_ok(a),
        digit_seq_ok(b),
        0 <= carry <= 1,
        0 <= i,
    ensures
        digit_seq_ok(add_digits(a, b, i, carry)),
        tail_val(add_digits(a, b, i, carry), 0) == tail_val(a, i) + tail_val(b, i) + carry,
    decreases (if a.len() > b.len() {
        a.len()
    } else {
        b.len()
    }) - i,
{
    reveal_with_fuel(tail_val, 3);
    if i >= a.len() && i >= b.len() {
        if carry > 0 {
            assert(tail_val(seq![carry as i8], 0) == carry);
        }
    } else {
        let s = dig(a, i) + dig(b, i) + carry;
        assert(0 <= s <= 19);
        lemma_add_digits(a, b, i + 1, s / 10);
        let rest = add_digits(a, b, i + 1, s / 10);
        let whole = seq![(s % 10) as i8] + rest;
        lemma_tail_prepend((s % 10) as i8, rest, 0);
        assert(whole[0] == (s % 10) as i8);
        assert(tail_val(whole, 0) == s % 10 + 10 * tail_val(rest, 0));
        assert(tail_val(a, i) == dig(a, i) + 10 * tail_val(a, i + 1));
        assert(tail_val(b, i) == dig(b, i) + 10 * tail_val(b, i + 1));
        assert(s % 10 + 10 * (s / 10) == s);
        assert(forall|k: int| 0 <= k < whole.len() ==> 0 <= #[trigger] whole[k] <= 9) by {
            assert(forall|k: int| 1 <= k < whole.len() ==> whole[k] == #[trigger] rest[k - 1]);
        }
    }
}

/// The digits produced by subtracting one digit vector from a larger one,
/// from position `i` with a borrowed unit.
pub open spec fn sub_digits(a: Seq<i8>, b: Seq<i8>, i: int, borrow: int) -> Seq<i8>
    decreases a.len() - i,
{
    if i < 0 || i >= a.len() {
        Seq::empty()
    } else {
        let d = a[i] - dig(b, i) - borrow;
        if d < 0 {
            seq![(d + 10) as i8] + sub_digits(a, b, i + 1, 1)
        } else {
            seq![d as i8] + sub_digits(a, b, i + 1, 0)
        }
    }
}

pub proof fn lemma_sub_digits(a: Seq<i8>, b: Seq<i8>, i: int, borrow: int)
    requires
        digit_seq_ok(a),
        digit_seq_ok(b),
        0 <= borrow <= 1,
        0 <= i,
        tail_val(a, i) >= tail_val(b, i) + borrow,
    ensures
        digit_seq_ok(sub_digits(a, b, i, borrow)),
        tail_val(sub_digits(a, b, i, borrow), 0) == tail_val(a, i) - tail_val(b, i) - borrow,
    decreases a.len() - i,
{
    reveal_with_fuel(tail_val, 3);
    if i >= a.len() {
        assert(tail_val(b, i) == 0 && borrow == 0);
    } else {
        let d = a[i] - dig(b, i) - borrow;
        let av = tail_val(a, i + 1);
        let bv = tail_val(b, i + 1);
        assert(tail_val(a, i) == a[i] + 10 * av);
        assert(tail_val(b, i) == dig(b, i) + 10 * bv);
        if d < 0 {
            assert(av >= bv + 1);
            lemma_sub_digits(a, b, i + 1, 1);
            let rest = sub_digits(a, b, i + 1, 1);
            let whole = seq![(d + 10) as i8] + rest;
            lemma_tail_prepend((d + 10) as i8, rest, 0);
            assert(whole[0] == (d + 10) as i8);
            assert(tail_val(whole, 0) == d + 10 + 10 * tail_val(rest, 0));
            assert(forall|k: int| 0 <= k < whole.len() ==> 0 <= #[trigger] whole[k] <= 9) by {
                assert(forall|k: int|
                    1 <= k < whole.len() ==> whole[k] == #[trigger] rest[k - 1]);
            }
        } else {
            assert(av >= bv);
            lemma_sub_digits(a, b, i + 1, 0);
            let rest = sub_digits(a, b, i + 1, 0);
            let whole = seq![d as i8] + rest;
            lemma_tail_prepend(d as i8, rest, 0);
            assert(whole[0] == d as i8);
            assert(tail_val(whole, 0) == d + 10 * tail_val(rest, 0));
            assert(forall|k: int| 0 <= k < whole.len() ==> 0 <= #[trigger] whole[k] <= 9) by {
                assert(forall|k: int|
                    1 <= k < whole.len() ==> whole[k] == #[trigger] rest[k - 1]);
            }
        }
    }
}

fn mag_add(a: &Vec<i8>, b: &Vec<i8>, i: usize, carry: u8) -> (res: Vec<i8>)
    requires
        digit_seq_ok(a@),
        digit_seq_ok(b@),
        carry <= 1,
    ensures
        res@ == add_digits(a@, b@, i as int, carry as int),
    decreases (if a@.len() > b@.len() {
        a@.len()
    } else {
        b@.len()
    }) - i,
{
    if i >= a.len() && i >= b.len() {
        let mut v: Vec<i8> = Vec::new();
        if carry > 0 {
            v.push(carry as i8);
            proof {
                assert(v@ =~= seq![carry as i8]);
            }
        } else {
            proof {
                assert(v@ =~= Seq::<i8>::empty());
            }
        }
        v
    } else {
        let da: i32 = if i < a.len() {
            a[i] as i32
        } else {
            0
        };
        let db: i32 = if i < b.len() {
            b[i] as i32
        } else {
            0
        };
        let s: i32 = da + db + carry as i32;
        let mut rest = mag_add(a, b, i + 1, (s / 10) as u8);
        rest.insert(0, (s % 10) as i8);
        proof {
            assert(rest@ =~= seq![(s % 10) as i8] + add_digits(
                a@,
                b@,
                i + 1,
                (s / 10) as int,
            ));
        }
        rest
    }
}

fn mag_sub(a: &Vec<i8>, b: &Vec<i8>, i: usize, borrow: u8) -> (res: Vec<i8>)
    requires
        digit_seq_ok(a@),
        digit_seq_ok(b@),
        borrow <= 1,
        tail_val(a@, i as int) >= tail_val(b@, i as int) + borrow,
    ensures
        res@ == sub_digits(a@, b@, i as int, borrow as int),
    decreases a@.len() - i,
{
    if i >= a.len() {
        Vec::new()
    } else {
        let da: i32 = a[i] as i32;
        let db: i32 = if i < b.len() {
            b[i] as i32
        } else {
            0
        };
        let d: i32 = da - db - borrow as i32;
        proof {
            assert(tail_val(a@, i as int) == a@[i as int] + 10 * tail_val(a@, i + 1));
            assert(tail_val(b@, i as int) == dig(b@, i as int) + 10 * tail_val(b@, i + 1));
        }
        if d < 0 {
            proof {
                assert(tail_val(a@, i + 1) >= tail_val(b@, i + 1) + 1);
            }
            let mut rest = mag_sub(a, b, i + 1, 1);
            rest.insert(0, (d + 10) as i8);
            proof {
                assert(rest@ =~= seq![(d + 10) as i8] + sub_digits(a@, b@, i + 1, 1));
            }
            rest
        } else {
            proof {
                assert(tail_val(a@, i + 1) >= tail_val(b@, i + 1));
            }
            let mut rest = mag_sub(a, b, i + 1, 0);
            rest.insert(0, d as i8);
            proof {
                assert(rest@ =~= seq![d as i8] + sub_digits(a@, b@, i + 1, 0));
            }
            rest
        }
    }
}

/// Strips useless leading zeros (stored last) and gives the empty vector
/// one zero digit; the denoted number is unchanged.
fn normalize(v: Vec<i8>) -> (res: Vec<i8>)
    requires
        digit_seq_ok(v@),
    ensures
        digit_seq_ok(res@),
        res@.len() >= 1,
        res@.len() == 1 || res@.last() != 0,
        mag_val(res@) == mag_val(v@),
    decreases v@.len(),
{
    let mut v = v;
    if v.len() == 0 {
        v.push(0);
        proof {
            reveal_with_fuel(tail_val, 3);
            assert(v@ =~= seq![0i8]);
        }
        v
    } else if v.len() > 1 && v[v.len() - 1] == 0 {
        let ghost pre = v@;
        v.pop();
        proof {
            assert(v@ =~= pre.drop_last());
            lemma_tail_drop_last_zero(pre, 0);
        }
        normalize(v)
    } else {
        v
    }
}

/// Compares what the first `i` digits of each vector denote.
fn cmp_take(a: &Vec<i8>, b: &Vec<i8>, i: usize) -> (r: Ordering)
    requires
        i <= a@.len(),
        i <= b@.len(),
    ensures
        (digit_seq_ok(a@) && digit_seq_ok(b@)) ==> {
            let x = tail_val(a@.take(i as int), 0);
            let y = tail_val(b@.take(i as int), 0);
            r == (if x < y {
                Ordering::Less
            } else if x == y {
                Ordering::Equal
            } else {
                Ordering::Greater
            })
        },
    decreases i,
{
    if i == 0 {
        Ordering::Equal
    } else {
        let da = a[i - 1];
        let db = b[i - 1];
        proof {
            if digit_seq_ok(a@) && digit_seq_ok(b@) {
                lemma_take_top(a@, i as int);
                lemma_take_top(b@, i as int);
                lemma_mag_bound(a@.take(i - 1), 0);
                lemma_mag_bound(b@.take(i - 1), 0);
                lemma_pow10_pos((i - 1) as nat);
                let p = pow10((i - 1) as nat) as int;
                let x0 = tail_val(a@.take(i - 1), 0) as int;
                let y0 = tail_val(b@.take(i - 1), 0) as int;
                if da < db {
                    assert(x0 + da * p < y0 + db * p) by (nonlinear_arith)
                        requires
                            x0 < p,
                            y0 >= 0,
                            da + 1 <= db,
                            p >= 1,
                    ;
                }
                if da > db {
                    assert(y0 + db * p < x0 + da * p) by (nonlinear_arith)
                        requires
                            y0 < p,
                            x0 >= 0,
                            db + 1 <= da,
                            p >= 1,
                    ;
                }
            }
        }
        if da < db {
            Ordering::Less
        } else if da > db {
            Ordering::Greater
        } else {
            cmp_take(a, b, i - 1)
        }
    }
}

/// The first `i` digits denote what the first `i - 1` denote plus the top
/// digit at its weight.
proof fn lemma_take_top(ds: Seq<i8>, i: int)
    requires
        digit_seq_ok(ds),
        1 <= i <= ds.len(),
    ensures
        tail_val(ds.take(i), 0) == tail_val(ds.take(i - 1), 0) + ds[i - 1] * pow10(
            (i - 1) as nat,
        ),
{
    lemma_take_top_at(ds, i, 0);
}

proof fn lemma_take_top_at(ds: Seq<i8>, i: int, j: int)
    requires
        digit_seq_ok(ds),
        1 <= i <= ds.len(),
        0 <= j <= i - 1,
    ensures
        tail_val(ds.take(i), j) == tail_val(ds.take(i - 1), j) + ds[i - 1] * pow10(
            (i - 1 - j) as nat,
        ),
    decreases i - j,
{
    if j == i - 1 {
        assert(tail_val(ds.take(i), j) == ds.take(i)[j] + 10 * tail_val(ds.take(i), j + 1));
        assert(tail_val(ds.take(i), j + 1) == 0);
        assert(tail_val(ds.take(i - 1), j) == 0);
        assert(pow10(0) == 1);
        assert(ds[i - 1] * pow10((i - 1 - j) as nat) == ds[i - 1]) by (nonlinear_arith)
            requires
                pow10((i - 1 - j) as nat) == 1,
        ;
    } else {
        lemma_take_top_at(ds, i, j + 1);
        assert(ds.take(i)[j] == ds[j]);
        assert(ds.take(i - 1)[j] == ds[j]);
        assert(tail_val(ds.take(i), j) == ds[j] + 10 * tail_val(ds.take(i), j + 1));
        assert(tail_val(ds.take(i - 1), j) == ds[j] + 10 * tail_val(ds.take(i - 1), j + 1));
        assert(pow10((i - 1 - j) as nat) == 10 * pow10((i - 2 - j) as nat));
        assert(10 * (tail_val(ds.take(i - 1), j + 1) + ds[i - 1] * pow10((i - 2 - j) as nat))
            == 10 * tail_val(ds.take(i - 1), j + 1) + ds[i - 1] * (10 * pow10(
            (i - 2 - j) as nat,
        ))) by (nonlinear_arith);
    }
}

/// Compares the numbers two whole digit vectors denote.
fn cmp_mag(a: &Vec<i8>, b: &Vec<i8>) -> (r: Ordering)
    ensures
        (digit_seq_ok(a@) && digit_seq_ok(b@) && (a@.len() == 1 || a@.last() != 0) && (
        b@.len() == 1 || b@.last() != 0) && a@.len() >= 1 && b@.len() >= 1) ==> r == (if
        mag_val(a@) < mag_val(b@) {
            Ordering::Less
        } else if mag_val(a@) == mag_val(b@) {
            Ordering::Equal
        } else {
            Ordering::Greater
        }),
{
    proof {
        if digit_seq_ok(a@) && digit_seq_ok(b@) && (a@.len() == 1 || a@.last() != 0) && (
        b@.len() == 1 || b@.last() != 0) && a@.len() >= 1 && b@.len() >= 1 {
            lemma_mag_bound(a@, 0);
            lemma_mag_bound(b@, 0);
            if a@.len() < b@.len() {
                lemma_mag_top(b@, 0);
                lemma_pow10_mono(a@.len() as nat, (b@.len() - 1) as nat);
            }
            if b@.len() < a@.len() {
                lemma_mag_top(a@, 0);
                lemma_pow10_mono(b@.len() as nat, (a@.len() - 1) as nat);
            }
            assert(a@.take(a@.len() as int) =~= a@);
            assert(b@.take(b@.len() as int) =~= b@);
        }
    }
    if a.len() < b.len() {
        Ordering::Less
    } else if a.len() > b.len() {
        Ordering::Greater
    } else {
        cmp_take(a, b, a.len())
    }
}

/// Under well-formedness, denoting zero and storing the single digit zero
/// are the same thing.
proof fn lemma_wf_zero(b: &Bigint)
    requires
        wf(b),
    ensures
        (mag_val(b.digits@) == 0) <==> (b.digits@.len() == 1 && b.digits@[0] == 0),
        (mag_val(b.digits@) == 0) <==> (b.digits@ =~= seq![0i8]),
{
    reveal_with_fuel(tail_val, 3);
    if b.digits@.len() == 1 && b.digits@[0] == 0 {
        assert(b.digits@ =~= seq![0i8]);
        assert(mag_val(b.digits@) == 0);
    } else {
        if b.digits@.len() == 1 {
            assert(mag_val(b.digits@) == b.digits@[0]);
        } else {
            lemma_mag_top(b.digits@, 0);
            lemma_pow10_pos((b.digits@.len() - 1) as nat);
        }
    }
}

impl Bigint {
    /// The number zero.
    pub fn new() -> (res: Self)
        ensures
            wf(&res),
            val(&res) == 0,
    {
        let res = Bigint { sign: 1, digits: vec![0] };
        proof {
            reveal_with_fuel(tail_val, 3);
            assert(res.digits@ =~= seq![0i8]);
            assert(mag_val(res.digits@) == 0);
        }
        res
    }

    /// Whether the stored number is strictly above zero.
    pub fn is_positive(&self) -> (r: bool)
        ensures
            wf(self) ==> r == (val(self) > 0),
    {
        proof {
            if wf(self) {
                lemma_wf_zero(self);
            }
        }
        self.sign == 1 && !(self.digits.len() == 1 && self.digits[0] == 0)
    }

    /// Whether the stored number is strictly below zero.
    pub fn is_negative(&self) -> (r: bool)
        ensures
            wf(self) ==> r == (val(self) < 0),
    {
        proof {
            if wf(self) {
                lemma_wf_zero(self);
            }
        }
        self.sign == -1 && !(self.digits.len() == 1 && self.digits[0] == 0)
    }

    /// Reads an optionally signed run of digits; leading zeros are dropped
    /// and an empty run denotes zero.
    pub fn parse_text(s: &str) -> (res: Result<Self, ParseError>)
        ensures
            match res {
                Ok(b) => valid_bigint_text(s@) && wf(&b) && val(&b) == bigtext_val(s@),
                Err(_) => !valid_bigint_text(s@),
            },
    {
        let n = s.unicode_len();
        let mut sign: i8 = 1;
        let mut tmp: Vec<i8> = Vec::new();
        let mut i: usize = 0;
        while i < n
            invariant
                i <= n,
                n == s@.len(),
                forall|j: int| 0 <= j < i ==> is_digit(#[trigger] s@[j]) || (j == 0 && (
                s@[0] == '+' || s@[0] == '-')),
                i >= 1 ==> sign == (if s@[0] == '-' {
                    -1i8
                } else {
                    1i8
                }),
                i == 0 ==> sign == 1 && tmp@.len() == 0,
                digit_seq_ok(tmp@),
                tmp@.len() > 0 ==> tmp@[0] != 0,
                bval(tmp@) == digits_val(
                    s@.subrange(
                        if i >= 1 && (s@[0] == '+' || s@[0] == '-') {
                            1int
                        } else {
                            0int
                        },
                        i as int,
                    ),
                ),
            decreases n - i,
        {
            let ghost st: int = if i >= 1 && (s@[0] == '+' || s@[0] == '-') {
                1int
            } else {
                0int
            };
            let c = s.get_char(i);
            let u = c as u32;
            if 48 <= u && u <= 57 {
                proof {
                    let st2: int = if s@[0] == '+' || s@[0] == '-' {
                        1int
                    } else {
                        0int
                    };
                    assert(s@.subrange(st2, i + 1).drop_last() =~= s@.subrange(
                        st2,
                        i as int,
                    ));
                    if i == 0 {
                        assert(s@.subrange(0, 0) =~= s@.subrange(st, 0 as int));
                    }
                }
                if u == 48 && tmp.len() == 0 {
                    proof {
                        assert(c2d(c) == 0);
                        assert(bval(tmp@) == 0);
                    }
                } else {
                    let ghost pre = tmp@;
                    tmp.push((u - 48) as i8);
                    proof {
                        assert(tmp@.drop_last() =~= pre);
                        assert(bval(tmp@) == bval(pre) * 10 + c2d(c));
                    }
                }
            } else if i == 0 && c == '+' {
                proof {
                    assert(s@.subrange(1, 1) =~= Seq::<char>::empty());
                }
            } else if i == 0 && c == '-' {
                sign = -1;
                proof {
                    assert(s@.subrange(1, 1) =~= Seq::<char>::empty());
                }
            } else {
                proof {
                    assert(!(is_digit(s@[i as int]) || (i == 0 && (s@[0] == '+' || s@[0]
                        == '-'))));
                }
                return Err(ParseError);
            }
            i += 1;
        }
        proof {
            assert(bigtext_body(s@) =~= s@.subrange(
                if n >= 1 && (s@[0] == '+' || s@[0] == '-') {
                    1int
                } else {
                    0int
                },
                n as int,
            ));
        }
        if tmp.len() == 0 {
            Ok(Bigint::new())
        } else {
            let len = tmp.len();
            let mut digits: Vec<i8> = Vec::new();
            let mut j: usize = 0;
            while j < len
                invariant
                    j <= len,
                    len == tmp@.len(),
                    digits@.len() == j,
                    forall|k: int| 0 <= k < j ==> #[trigger] digits@[k] == tmp@[len - 1
                        - k],
                decreases len - j,
            {
                digits.push(tmp[len - 1 - j]);
                j += 1;
            }
            proof {
                assert(digits@ =~= tmp@.reverse());
                lemma_bval_reverse(tmp@);
                assert(digits@.last() == tmp@[0]);
                lemma_mag_top(digits@, 0);
                lemma_pow10_pos((digits@.len() - 1) as nat);
            }
            Ok(Bigint { sign, digits })
        }
    }

    /// The same magnitude under the opposite sign; zero stays zero.
    pub fn negate(self) -> (res: Self)
        requires
            wf(&self),
        ensures
            wf(&res),
            val(&res) == -val(&self),
    {
        proof {
            lemma_wf_zero(&self);
        }
        if self.digits.len() == 1 && self.digits[0] == 0 {
            self
        } else {
            Bigint { sign: -self.sign, digits: self.digits }
        }
    }
}


/// An optionally signed run of decimal digits (possibly empty).
pub open spec fn valid_bigint_text(s: Seq<char>) -> bool {
    forall|j: int| 0 <= j < s.len() ==> is_digit(#[trigger] s[j]) || (j == 0 && (s[0] == '+'
        || s[0] == '-'))
}

/// The digit part of such a text.
pub open spec fn bigtext_body(s: Seq<char>) -> Seq<char> {
    if s.len() > 0 && (s[0] == '+' || s[0] == '-') {
        s.skip(1)
    } else {
        s
    }
}

/// The integer such a text denotes.
pub open spec fn bigtext_val(s: Seq<char>) -> int {
    if s.len() > 0 && s[0] == '-' {
        -(digits_val(bigtext_body(s)) as int)
    } else {
        digits_val(bigtext_body(s)) as int
    }
}

/// Reversing reading-order digits gives the storage order with the same value.
proof fn lemma_bval_reverse(ds: Seq<i8>)
    requires
        digit_seq_ok(ds),
    ensures
        tail_val(ds.reverse(), 0) == bval(ds),
    decreases ds.len(),
{
    reveal_with_fuel(tail_val, 2);
    if ds.len() == 0 {
        assert(ds.reverse() =~= Seq::<i8>::empty());
    } else {
        let head = ds.drop_last();
        lemma_bval_reverse(head);
        assert(ds.reverse() =~= seq![ds.last()] + head.reverse());
        lemma_tail_prepend(ds.last(), head.reverse(), 0);
        assert(tail_val(ds.reverse(), 0) == ds.last() + 10 * tail_val(head.reverse(), 0));
    }
}

/// A canonical digit vector that denotes zero is the single digit zero.
proof fn lemma_canon_zero(ds: Seq<i8>)
    requires
        digit_seq_ok(ds),
        ds.len() >= 1,
        ds.len() == 1 || ds.last() != 0,
        mag_val(ds) == 0,
    ensures
        ds =~= seq![0i8],
{
    reveal_with_fuel(tail_val, 3);
    if ds.len() >= 2 {
        lemma_mag_top(ds, 0);
        lemma_pow10_pos((ds.len() - 1) as nat);
    } else {
        assert(tail_val(ds, 0) == (ds[0] + 10 * tail_val(ds, 1)) as nat);
    }
}

impl core::ops::Add for Bigint {
    type Output = Bigint;

    /// The sum of the two denoted numbers, canonically stored.
    fn add(self, other: Bigint) -> (res: Bigint)
        ensures
            wf(&res),
            val(&res) == val(&self) + val(&other),
    {
        proof {
            lemma_wf_zero(&self);
            lemma_wf_zero(&other);
        }
        if self.sign == other.sign {
            proof {
                lemma_add_digits(self.digits@, other.digits@, 0, 0);
            }
            let sum = mag_add(&self.digits, &other.digits, 0, 0);
            let digits = normalize(sum);
            let res = Bigint { sign: self.sign, digits };
            proof {
                if mag_val(res.digits@) == 0 {
                    lemma_canon_zero(res.digits@);
                }
            }
            res
        } else {
            match cmp_mag(&self.digits, &other.digits) {
                Ordering::Equal => Bigint::new(),
                Ordering::Less => {
                    proof {
                        lemma_sub_digits(other.digits@, self.digits@, 0, 0);
                    }
                    let d = mag_sub(&other.digits, &self.digits, 0, 0);
                    let digits = normalize(d);
                    let res = Bigint { sign: other.sign, digits };
                    proof {
                        assert(mag_val(res.digits@) > 0);
                    }
                    res
                },
                Ordering::Greater => {
                    proof {
                        lemma_sub_digits(self.digits@, other.digits@, 0, 0);
                    }
                    let d = mag_sub(&self.digits, &other.digits, 0, 0);
                    let digits = normalize(d);
                    let res = Bigint { sign: self.sign, digits };
                    proof {
                        assert(mag_val(res.digits@) > 0);
                    }
                    res
                },
            }
        }
    }
}

impl vstd::std_specs::ops::AddSpecImpl for Bigint {
    open spec fn obeys_add_spec() -> bool {
        false
    }

    open spec fn add_req(self, rhs: Bigint) -> bool {
        wf(&self) && wf(&rhs)
    }

    open spec fn add_spec(self, rhs: Bigint) -> Bigint {
        self
    }
}

impl core::ops::Sub for Bigint {
    type Output = Bigint;

    /// The difference of the two denoted numbers, canonically stored.
    fn sub(self, other: Bigint) -> (res: Bigint)
        ensures
            wf(&res),
            val(&res) == val(&self) - val(&other),
    {
        self + other.negate()
    }
}

impl vstd::std_specs::ops::SubSpecImpl for Bigint {
    open spec fn obeys_sub_spec() -> bool {
        false
    }

    open spec fn sub_req(self, rhs: Bigint) -> bool {
        wf(&self) && wf(&rhs)
    }

    open spec fn sub_spec(self, rhs: Bigint) -> Bigint {
        self
    }
}

impl core::ops::Neg for Bigint {
    type Output = Bigint;

    /// The opposite of the denoted number.
    fn neg(self) -> (res: Bigint)
        ensures
            wf(&res),
            val(&res) == -val(&self),
    {
        self.negate()
    }
}

impl vstd::std_specs::ops::NegSpecImpl for Bigint {
    open spec fn obeys_neg_spec() -> bool {
        false
    }

    open spec fn neg_req(self) -> bool {
        wf(&self)
    }

    open spec fn neg_spec(self) -> Bigint {
        self
    }
}

impl PartialOrd for Bigint {
    /// Orders two stored numbers as the numbers they denote.
    fn partial_cmp(&self, other: &Bigint) -> (r: Option<Ordering>)
        ensures
            (wf(self) && wf(other)) ==> r == Some(
                if val(self) < val(other) {
                    Ordering::Less
                } else if val(self) == val(other) {
                    Ordering::Equal
                } else {
                    Ordering::Greater
                },
            ),
    {
        proof {
            if wf(self) && wf(other) {
                lemma_wf_zero(self);
                lemma_wf_zero(other);
            }
        }
        if self.sign < other.sign {
            Some(Ordering::Less)
        } else if self.sign > other.sign {
            Some(Ordering::Greater)
        } else {
            let m = cmp_mag(&self.digits, &other.digits);
            proof {
                if wf(self) && wf(other) {
                    assert(self.digits@.take(self.digits@.len() as int) =~= self.digits@);
                    assert(other.digits@.take(other.digits@.len() as int)
                        =~= other.digits@);
                }
            }
            if self.sign == -1 {
                match m {
                    Ordering::Less => Some(Ordering::Greater),
                    Ordering::Greater => Some(Ordering::Less),
                    Ordering::Equal => Some(Ordering::Equal),
                }
            } else {
                Some(m)
            }
        }
    }
}

impl vstd::std_specs::cmp::PartialOrdSpecImpl for Bigint {
    open spec fn obeys_partial_cmp_spec() -> bool {
        false
    }

    open spec fn partial_cmp_spec(&self, other: &Bigint) -> Option<Ordering> {
        None
    }
}

impl core::str::FromStr for Bigint {
    type Err = ParseError;

    fn from_str(s: &str) -> Result<Bigint, ParseError> {
        Bigint::parse_text(s)
    }
}

} // verus!
