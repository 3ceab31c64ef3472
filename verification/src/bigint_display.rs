//! A digit-sequence number rendered plainly or with thousands separators.

use vstd::prelude::*;
use crate::digits::c2d;
use crate::digits::is_digit;
use crate::digits::nat_text;
use crate::digits::u64_string;

verus! {

#[derive(Debug, Clone, PartialEq, Eq)]
pub struct Bigint {
    pub digits: Vec<u8>,
}

/// The text of the first `i` digits, each rendered as its own decimal text.
pub open spec fn plain_text(ds: Seq<u8>, i: int) -> Seq<char>
    decreases i,
{
    if i <= 0 {
        Seq::empty()
    } else {
        plain_text(ds, i - 1) + nat_text(ds[i - 1] as nat)
    }
}

/// One digit of the delimited rendering: a comma follows wherever the
/// number of digits still to come is a positive multiple of three.
pub open spec fn delim_item(ds: Seq<u8>, j: int) -> Seq<char> {
    if (ds.len() - 1 - j) % 3 == 0 && j != ds.len() - 1 {
        nat_text(ds[j] as nat) + ","@
    } else {
        nat_text(ds[j] as nat)
    }
}

/// The delimited text of the first `i` digits.
pub open spec fn delim_text(ds: Seq<u8>, i: int) -> Seq<char>
    decreases i,
{
    if i <= 0 {
        Seq::empty()
    } else {
        delim_text(ds, i - 1) + delim_item(ds, i - 1)
    }
}

impl Bigint {
    /// The digits run together, in order.
    pub fn render(&self) -> (res: String)
        ensures
            res@ == plain_text(self.digits@, self.digits@.len() as int),
    {
        let mut res = String::new();
        let n = self.digits.len();
        let mut i: usize = 0;
        while i < n
            invariant
                i <= n,
                n == self.digits@.len(),
                res@ == plain_text(self.digits@, i as int),
            decreases n - i,
        {
            let t = u64_string(self.digits[i] as u64);
            res.append(t.as_str());
            i += 1;
        }
        res
    }

    /// A view of the same number that renders with thousands separators.
    pub fn delimited(&self) -> (res: Delimited<'_>)
        ensures
            res.bigint == self,
    {
        Delimited { bigint: self }
    }
}

pub struct Delimited<'a> {
    pub bigint: &'a Bigint,
}

impl<'a> Delimited<'a> {
    /// The digits in order with a comma before each remaining group of three.
    pub fn render(&self) -> (res: String)
        ensures
            res@ == delim_text(self.bigint.digits@, self.bigint.digits@.len() as int),
    {
        let mut res = String::new();
        let n = self.bigint.digits.len();
        let mut i: usize = 0;
        while i < n
            invariant
                i <= n,
                n == self.bigint.digits@.len(),
                res@ == delim_text(self.bigint.digits@, i as int),
            decreases n - i,
        {
            let t = u64_string(self.bigint.digits[i] as u64);
            res.append(t.as_str());
            let ind = n - 1 - i;
            if ind % 3 == 0 && i != n - 1 {
                res.append(",");
                proof {
                    reveal_strlit(",");
                }
            }
            i += 1;
        }
        res
    }
}

/// Reads a number as one decimal digit per character; any other character
/// refuses the whole text.
pub fn parse_digit_string(s: &str) -> (res: Result<Bigint, &'static str>)
    ensures
        match res {
            Ok(b) => {
                &&& b.digits@.len() == s@.len()
                &&& forall|j: int| 0 <= j < s@.len() ==> is_digit(#[trigger] s@[j])
                    && b.digits@[j] as int == c2d(s@[j])
            },
            Err(_) => exists|j: int| 0 <= j < s@.len() && !is_digit(#[trigger] s@[j]),
        },
{
    let n = s.unicode_len();
    let mut digits: Vec<u8> = Vec::new();
    let mut i: usize = 0;
    while i < n
        invariant
            i <= n,
            n == s@.len(),
            digits@.len() == i,
            forall|j: int| 0 <= j < i ==> is_digit(#[trigger] s@[j]) && digits@[j] as int
                == c2d(s@[j]),
        decreases n - i,
    {
        let c = s.get_char(i);
        let u = c as u32;
        if 48 <= u && u <= 57 {
            digits.push((u - 48) as u8);
        } else {
            return Err("Invalid input!");
        }
        i += 1;
    }
    Ok(Bigint { digits })
}

impl core::str::FromStr for Bigint {
    type Err = &'static str;

    fn from_str(s: &str) -> Result<Bigint, &'static str> {
        parse_digit_string(s)
    }
}

} // verus!
