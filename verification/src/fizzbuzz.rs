//! The counting game over two configurable divisors: each position gets one
//! of three labels, or its own decimal text when neither divisor hits.

use vstd::prelude::*;
use crate::digits::nat_text;
use crate::digits::u64_string;

verus! {

/// The text owed to position `i` (counting from 1) for divisors `k1`, `k2`.
pub open spec fn fb_text(i: nat, k1: nat, k2: nat, l0: Seq<char>, l1: Seq<char>, l2: Seq<char>)
    -> Seq<char> {
    if i % k1 == 0 && i % k2 == 0 {
        l2
    } else if i % k2 == 0 {
        l1
    } else if i % k1 == 0 {
        l0
    } else {
        nat_text(i)
    }
}

pub struct FizzBuzzer {
    pub k1: u8,
    pub k2: u8,
    pub labels: [String; 3],
}

impl FizzBuzzer {
    /// The first `n` lines of the game, in order.
    pub fn take(&self, n: usize) -> (res: Vec<String>)
        requires
            self.k1 >= 2,
            self.k2 >= 2,
        ensures
            res@.len() == n,
            forall|j: int| 0 <= j < n ==> (#[trigger] res@[j])@ == fb_text(
                (j + 1) as nat,
                self.k1 as nat,
                self.k2 as nat,
                self.labels[0]@,
                self.labels[1]@,
                self.labels[2]@,
            ),
    {
        let mut res: Vec<String> = Vec::new();
        let mut p: usize = 0;
        while p < n
            invariant
                self.k1 >= 2,
                self.k2 >= 2,
                p <= n,
                res@.len() == p,
                forall|j: int| 0 <= j < p ==> (#[trigger] res@[j])@ == fb_text(
                    (j + 1) as nat,
                    self.k1 as nat,
                    self.k2 as nat,
                    self.labels[0]@,
                    self.labels[1]@,
                    self.labels[2]@,
                ),
            decreases n - p,
        {
            let i: usize = p + 1;
            let div_by_k1 = i % (self.k1 as usize) == 0;
            let div_by_k2 = i % (self.k2 as usize) == 0;

            if div_by_k1 && div_by_k2 {
                res.push(self.labels[2].clone());
            } else if div_by_k2 {
                res.push(self.labels[1].clone());
            } else if div_by_k1 {
                res.push(self.labels[0].clone());
            } else {
                res.push(u64_string(i as u64));
            }
            p = i;
        }
        res
    }

    /// Replaces one of the three labels; the divisors stay as they are.
    pub fn change_label(&mut self, index: usize, value: &String)
        requires
            index <= 2,
        ensures
            final(self).k1 == old(self).k1,
            final(self).k2 == old(self).k2,
            final(self).labels[index as int]@ == value@,
            forall|j: int| 0 <= j < 3 && j != index ==> final(self).labels[j]@ == old(
                self,
            ).labels[j]@,
    {
        self.labels[index] = value.clone();
    }
}

/// The classic game: divisors 3 and 5 with the standard labels.
pub fn fizzbuzz(n: usize) -> (res: Vec<String>)
    ensures
        res@.len() == n,
        forall|j: int| 0 <= j < n ==> (#[trigger] res@[j])@ == fb_text(
            (j + 1) as nat,
            3,
            5,
            "Fizz"@,
            "Buzz"@,
            "Fizzbuzz"@,
        ),
{
    custom_buzz(n, 3, 5)
}

/// The game with caller-chosen divisors and the standard labels.
pub fn custom_buzz(n: usize, k1: u8, k2: u8) -> (res: Vec<String>)
    requires
        k1 >= 2,
        k2 >= 2,
    ensures
        res@.len() == n,
        forall|j: int| 0 <= j < n ==> (#[trigger] res@[j])@ == fb_text(
            (j + 1) as nat,
            k1 as nat,
            k2 as nat,
            "Fizz"@,
            "Buzz"@,
            "Fizzbuzz"@,
        ),
{
    let buzzer = FizzBuzzer {
        k1,
        k2,
        labels: [
            String::from_str("Fizz"),
            String::from_str("Buzz"),
            String::from_str("Fizzbuzz"),
        ],
    };
    buzzer.take(n)
}

} // verus!
