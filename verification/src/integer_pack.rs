//! A lazy reader of the digits packed in one integer.

use crate::radix::{digits_of, lemma_digits_shift};
use vstd::prelude::*;

verus! {

/// The digits of a number that have not been read yet.
#[derive(Debug)]
pub struct IntegerPack {
    // what is left of the packed value
    value: usize,
    // the base of the digits
    modulo: usize,
    // how many digits are packed
    length: usize,
    // how many digits have been read
    index: usize,
}

/// A reader of the `length` lowest digits of `value` in base `modulo`, least
/// significant first. With base zero there is nothing to read.
pub fn unpack(value: usize, modulo: usize, length: usize) -> (pack: IntegerPack)
    ensures
        pack.remaining() == digits_of(value as nat, modulo as nat, length as nat),
{
    IntegerPack { value, modulo, length, index: 0 }
}

impl IntegerPack {
    /// The digits that are still to come, the next one first.
    pub closed spec fn remaining(&self) -> Seq<nat> {
        digits_of(
            self.value as nat,
            self.modulo as nat,
            if self.index <= self.length {
                (self.length - self.index) as nat
            } else {
                0
            },
        )
    }

    /// Reads the next digit, or `None` once all of them have been read.
    pub fn next(&mut self) -> (item: Option<usize>)
        ensures
            old(self).remaining().len() == 0 ==> item is None && *final(self) == *old(self),
            old(self).remaining().len() > 0 ==> item is Some
                && item.unwrap() == old(self).remaining()[0]
                && final(self).remaining() == old(self).remaining().drop_first(),
    {
        if self.index < self.length && self.modulo != 0 {
            proof {
                lemma_digits_shift(
                    self.value as nat,
                    self.modulo as nat,
                    (self.length - self.index) as nat,
                );
            }
            let v = self.value % self.modulo;
            self.index += 1;
            self.value /= self.modulo;
            Some(v)
        } else {
            None
        }
    }
}

} // verus!
