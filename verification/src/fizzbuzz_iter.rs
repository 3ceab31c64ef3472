//! The counting game with fixed divisors 3 and 5, handed out one line at a
//! time by a cursor over an endless sequence.

use vstd::prelude::*;
use crate::digits::nat_text;
use crate::digits::u64_string;

verus! {

/// The text owed to position `i` (counting from 1) with divisors 3 and 5.
pub open spec fn fb3_5_text(i: nat, l0: Seq<char>, l1: Seq<char>, l2: Seq<char>) -> Seq<char> {
    if i % 3 == 0 && i % 5 == 0 {
        l2
    } else if i % 5 == 0 {
        l1
    } else if i % 3 == 0 {
        l0
    } else {
        nat_text(i)
    }
}

pub struct FizzBuzzer {
    labels: [String; 3],
}

impl FizzBuzzer {
    pub closed spec fn label(&self, j: int) -> Seq<char> {
        self.labels[j]@
    }

    pub fn new(labels: [String; 3]) -> (res: Self)
        ensures
            forall|j: int| 0 <= j < 3 ==> res.label(j) == labels[j]@,
    {
        FizzBuzzer { labels }
    }

    /// A cursor starting before the first position.
    pub fn iter(&self) -> (it: FizzBuzzerIter<'_>)
        ensures
            it.num == 0,
            forall|j: int| 0 <= j < 3 ==> it.fizzbuzzer.label(j) == self.label(j),
    {
        FizzBuzzerIter { fizzbuzzer: self, num: 0 }
    }
}

pub struct FizzBuzzerIter<'a> {
    pub fizzbuzzer: &'a FizzBuzzer,
    pub num: usize,
}

impl<'a> FizzBuzzerIter<'a> {
    /// The next line of the game; the sequence never ends.
    pub fn next(&mut self) -> (res: Option<String>)
        requires
            old(self).num < usize::MAX,
        ensures
            final(self).num == old(self).num + 1,
            final(self).fizzbuzzer == old(self).fizzbuzzer,
            match res {
                Some(s) => s@ == fb3_5_text(
                    (old(self).num + 1) as nat,
                    old(self).fizzbuzzer.label(0),
                    old(self).fizzbuzzer.label(1),
                    old(self).fizzbuzzer.label(2),
                ),
                None => false,
            },
    {
        self.num += 1;

        let div_by_3 = self.num % 3 == 0;
        let div_by_5 = self.num % 5 == 0;

        if div_by_3 && div_by_5 {
            Some(self.fizzbuzzer.labels[2].clone())
        } else if div_by_5 {
            Some(self.fizzbuzzer.labels[1].clone())
        } else if div_by_3 {
            Some(self.fizzbuzzer.labels[0].clone())
        } else {
            Some(u64_string(self.num as u64))
        }
    }
}

} // verus!
