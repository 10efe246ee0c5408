//! Arrangements with repetition: every way to fill `k` places from an
//! alphabet, numbered by the digits of the index in the base of the
//! alphabet's size.

use crate::radix::{
    as_nats, digits_of, encode, lemma_digit_below_base, lemma_digits_injective,
    lemma_digits_of_encode,
};
use crate::partition::{lemma_part_ends, lemma_part_order, part_bound};
use crate::vectors::copy_of;
use vstd::arithmetic::power::{
    lemma0_pow, lemma1_pow, lemma_pow0, lemma_pow_increases, lemma_pow_positive, pow,
};
use vstd::prelude::*;

verus! {

/// The arrangement of index `index`: place `i` holds the symbol whose number
/// is digit `i` of `index` in the base of the alphabet's size.
pub open spec fn arrangement<T>(alphabet: Seq<T>, k: nat, index: nat) -> Seq<T> {
    digits_of(index, alphabet.len(), k).map_values(|d: nat| alphabet[d as int])
}

/// The number of arrangements of `k` symbols from an alphabet of `size`
/// symbols: `size^k`.
pub open spec fn arrangement_total(size: nat, k: nat) -> nat {
    pow(size as int, k) as nat
}

/// The arrangements of the indices from `lo` up to, not including, `hi`, in
/// that order.
pub open spec fn arrangements<T>(alphabet: Seq<T>, k: nat, lo: nat, hi: nat) -> Seq<Seq<T>> {
    Seq::new(
        if lo <= hi {
            (hi - lo) as nat
        } else {
            0
        },
        |j: int| arrangement(alphabet, k, (lo + j) as nat),
    )
}

/// The digits of `value` in base `base`, through `intpackit::unpack`: the
/// iterator it returns yields `length` items, the remainder of the value by
/// the base and then the same of the quotient, which is digit after digit
/// from the lowest. With `length` zero it yields nothing and never divides.
#[verifier::external_body]
fn unpack_digits(value: usize, base: usize, length: usize) -> (digits: Vec<usize>)
    requires
        base > 0 || length == 0,
    ensures
        as_nats(digits@) == digits_of(value as nat, base as nat, length as nat),
{
    intpackit::unpack(value, base, length).collect()
}

/// The number of arrangements of `k` symbols from an alphabet of `size`
/// symbols, `size^k`, or `None` where it does not fit.
pub fn arrangement_count(size: usize, k: usize) -> (count: Option<usize>)
    ensures
        match count {
            Some(n) => n == arrangement_total(size as nat, k as nat),
            None => arrangement_total(size as nat, k as nat) > usize::MAX,
        },
{
    proof {
        lemma_power_of_size(size as nat, k as nat);
    }
    if k == 0 {
        proof {
            lemma_pow0(size as int);
        }
        return Some(1);
    }
    if size == 0 {
        proof {
            lemma0_pow(k as nat);
        }
        return Some(0);
    }
    if size == 1 {
        proof {
            lemma1_pow(k as nat);
        }
        return Some(1);
    }
    let mut acc: usize = 1;
    let mut n: usize = 0;
    proof {
        lemma_pow0(size as int);
    }
    while n < k
        invariant
            n <= k,
            size >= 2,
            acc == pow(size as int, n as nat),
        decreases k - n,
    {
        proof {
            reveal(pow);
            assert(pow(size as int, (n + 1) as nat) == size * pow(size as int, n as nat));
            assert(acc * size == size * acc) by (nonlinear_arith);
        }
        match acc.checked_mul(size) {
            Some(next) => {
                acc = next;
            },
            None => {
                proof {
                    lemma_pow_increases(size as nat, (n + 1) as nat, k as nat);
                }
                return None;
            },
        }
        n += 1;
    }
    Some(acc)
}

/// The arrangements of `length` symbols from `elems` whose indices lie in one
/// contiguous range, handed out one by one in the order of the indices.
#[derive(Debug)]
pub struct Dispositions<T: Copy> {
    elems: Vec<T>,
    length: usize,
    first_index: usize,
    last_index: usize,
    index: usize,
}

impl<T: Copy> Dispositions<T> {
    #[verifier::type_invariant]
    closed spec fn in_range(&self) -> bool {
        self.first_index <= self.index <= self.last_index <= arrangement_total(
            self.elems.len() as nat,
            self.length as nat,
        )
    }

    /// The symbols that the arrangements are made of.
    pub closed spec fn alphabet(&self) -> Seq<T> {
        self.elems@
    }

    /// The number of places of each arrangement.
    pub closed spec fn arity(&self) -> nat {
        self.length as nat
    }

    /// The index of the first arrangement of the range.
    pub closed spec fn first(&self) -> nat {
        self.first_index as nat
    }

    /// The index after the last arrangement of the range.
    pub closed spec fn last(&self) -> nat {
        self.last_index as nat
    }

    /// The index of the arrangement that comes next.
    pub closed spec fn cursor(&self) -> nat {
        self.index as nat
    }

    /// The arrangements that are still to come, the next one first.
    pub open spec fn remaining(&self) -> Seq<Seq<T>> {
        arrangements(self.alphabet(), self.arity(), self.cursor(), self.last())
    }

    /// The next arrangement, or `None` once the range is exhausted.
    pub fn next(&mut self) -> (item: Option<Vec<T>>)
        ensures
            final(self).alphabet() == old(self).alphabet(),
            final(self).arity() == old(self).arity(),
            final(self).first() == old(self).first(),
            final(self).last() == old(self).last(),
            old(self).remaining().len() == 0 ==> item is None
                && final(self).cursor() == old(self).cursor(),
            old(self).remaining().len() > 0 ==> item is Some
                && item.unwrap()@ == old(self).remaining()[0]
                && final(self).cursor() == old(self).cursor() + 1
                && final(self).remaining() == old(self).remaining().drop_first(),
    {
        proof {
            use_type_invariant(&*self);
        }
        if self.index < self.last_index {
            let size = self.elems.len();
            proof {
                lemma_power_of_size(size as nat, self.length as nat);
                if size == 0 && self.length > 0 {
                    lemma0_pow(self.length as nat);
                }
            }
            let digits = unpack_digits(self.index, size, self.length);
            let ghost wanted = arrangement(self.elems@, self.length as nat, self.index as nat);
            let ghost numbers = digits_of(self.index as nat, size as nat, self.length as nat);
            assert(digits@.len() == as_nats(digits@).len());
            let mut result: Vec<T> = Vec::with_capacity(digits.len());
            let mut j: usize = 0;
            while j < digits.len()
                invariant
                    j <= digits.len(),
                    size == self.elems.len(),
                    as_nats(digits@) == numbers,
                    numbers == digits_of(self.index as nat, size as nat, self.length as nat),
                    wanted == numbers.map_values(|d: nat| self.elems@[d as int]),
                    result@.len() == j,
                    forall|i: int| 0 <= i < j ==> result@[i] == wanted[i],
                decreases digits.len() - j,
            {
                let d = digits[j];
                proof {
                    assert(as_nats(digits@)[j as int] == d as nat);
                    assert(size > 0);
                    lemma_digit_below_base(self.index as nat, size as nat, j as nat);
                }
                result.push(self.elems[d]);
                j += 1;
            }
            assert(result@ =~= wanted);
            let ghost before = self.remaining();
            self.index += 1;
            assert(self.remaining() =~= before.drop_first());
            Some(result)
        } else {
            None
        }
    }

    /// The number of arrangements in the range, whether handed out or not.
    pub fn len(&self) -> (n: usize)
        ensures
            n == self.last() - self.first(),
    {
        proof {
            use_type_invariant(self);
        }
        self.last_index - self.first_index
    }

    /// Goes back to the first arrangement of the range.
    pub fn restart(&mut self)
        ensures
            final(self).alphabet() == old(self).alphabet(),
            final(self).arity() == old(self).arity(),
            final(self).first() == old(self).first(),
            final(self).last() == old(self).last(),
            final(self).cursor() == old(self).first(),
    {
        proof {
            use_type_invariant(&*self);
        }
        self.index = self.first_index;
    }
}

/// All arrangements of `k` symbols from `elems`, from index zero on.
pub fn dispositions<T: Copy>(elems: Vec<T>, k: usize) -> (all: Dispositions<T>)
    requires
        arrangement_total(elems.len() as nat, k as nat) <= usize::MAX,
    ensures
        all.alphabet() == elems@,
        all.arity() == k,
        all.first() == 0,
        all.cursor() == 0,
        all.last() == arrangement_total(elems.len() as nat, k as nat),
{
    proof {
        lemma_part_ends(arrangement_total(elems.len() as nat, k as nat), 1);
    }
    dispositions_part(elems, k, 0, 1)
}

/// Part `part` of the arrangements of `k` symbols from `elems`, where the
/// range of all indices is cut into `parts` parts of nearly the same size.
pub fn dispositions_part<T: Copy>(elems: Vec<T>, k: usize, part: u8, parts: u8) -> (some:
    Dispositions<T>)
    requires
        arrangement_total(elems.len() as nat, k as nat) <= usize::MAX,
        part < parts,
    ensures
        some.alphabet() == elems@,
        some.arity() == k,
        some.first() == part_bound(
            arrangement_total(elems.len() as nat, k as nat),
            part as nat,
            parts as nat,
        ),
        some.last() == part_bound(
            arrangement_total(elems.len() as nat, k as nat),
            (part + 1) as nat,
            parts as nat,
        ),
        some.cursor() == some.first(),
{
    let total = match arrangement_count(elems.len(), k) {
        Some(n) => n,
        None => 0,
    };
    proof {
        lemma_part_order(total as nat, part as nat, (part + 1) as nat, parts as nat);
        lemma_part_order(total as nat, (part + 1) as nat, parts as nat, parts as nat);
        lemma_part_ends(total as nat, parts as nat);
        assert((part + 1) * total <= 0x100 * 0xffff_ffff_ffff_ffff) by (nonlinear_arith)
            requires
                0 <= part < 0x100,
                0 <= total <= 0xffff_ffff_ffff_ffff,
        ;
        assert(part * total <= (part + 1) * total) by (nonlinear_arith)
            requires
                0 <= part,
                0 <= total,
        ;
    }
    let first = (part as u128 * total as u128) / parts as u128;
    let last = ((part as u128 + 1) * total as u128) / parts as u128;
    Dispositions {
        elems,
        length: k,
        first_index: first as usize,
        last_index: last as usize,
        index: first as usize,
    }
}

/// Collections of symbols that can be arranged.
pub trait DispositionsTrait<T: Copy>: Sized {
    /// The symbols, in the order in which they are numbered.
    spec fn symbols(&self) -> Seq<T>;

    /// All arrangements of `k` of the symbols.
    fn dispositions(self, k: usize) -> (all: Dispositions<T>)
        requires
            arrangement_total(self.symbols().len(), k as nat) <= usize::MAX,
        ensures
            all.alphabet() == self.symbols(),
            all.arity() == k,
            all.first() == 0,
            all.cursor() == 0,
            all.last() == arrangement_total(self.symbols().len(), k as nat),
    ;

    /// Part `part` of `parts` of the arrangements of `k` of the symbols.
    fn dispositions_part(self, k: usize, part: u8, parts: u8) -> (some: Dispositions<T>)
        requires
            arrangement_total(self.symbols().len(), k as nat) <= usize::MAX,
            part < parts,
        ensures
            some.alphabet() == self.symbols(),
            some.arity() == k,
            some.first() == part_bound(
                arrangement_total(self.symbols().len(), k as nat),
                part as nat,
                parts as nat,
            ),
            some.last() == part_bound(
                arrangement_total(self.symbols().len(), k as nat),
                (part + 1) as nat,
                parts as nat,
            ),
            some.cursor() == some.first(),
    ;
}

impl<T: Copy> DispositionsTrait<T> for Vec<T> {
    open spec fn symbols(&self) -> Seq<T> {
        self@
    }

    fn dispositions(self, k: usize) -> (all: Dispositions<T>) {
        dispositions(self, k)
    }

    fn dispositions_part(self, k: usize, part: u8, parts: u8) -> (some: Dispositions<T>) {
        dispositions_part(self, k, part, parts)
    }
}

/// The arrangement of any index fills every place with a symbol of the
/// alphabet.
pub proof fn lemma_arrangement_over_alphabet<T>(alphabet: Seq<T>, k: nat, index: nat)
    requires
        alphabet.len() > 0,
    ensures
        arrangement(alphabet, k, index).len() == k,
        forall|i: int|
            0 <= i < k ==> alphabet.contains(#[trigger] arrangement(alphabet, k, index)[i]),
{
    assert forall|i: int| 0 <= i < k implies alphabet.contains(
        #[trigger] arrangement(alphabet, k, index)[i],
    ) by {
        lemma_digit_below_base(index, alphabet.len(), i as nat);
        let d = digits_of(index, alphabet.len(), k)[i];
        assert(alphabet[d as int] == arrangement(alphabet, k, index)[i]);
    }
}

/// Every sequence of symbols of the alphabet is the arrangement of an index
/// below the number of arrangements.
pub proof fn lemma_arrangement_of<T>(alphabet: Seq<T>, symbols: Seq<T>) -> (index: nat)
    requires
        alphabet.len() > 0,
        forall|i: int| 0 <= i < symbols.len() ==> alphabet.contains(#[trigger] symbols[i]),
    ensures
        index < arrangement_total(alphabet.len(), symbols.len()),
        arrangement(alphabet, symbols.len(), index) == symbols,
{
    let digits = Seq::new(
        symbols.len(),
        |i: int| (choose|d: int| 0 <= d < alphabet.len() && alphabet[d] == symbols[i]) as nat,
    );
    assert forall|i: int| 0 <= i < digits.len() implies digits[i] < alphabet.len()
        && alphabet[digits[i] as int] == symbols[i] by {
        assert(alphabet.contains(symbols[i]));
    }
    lemma_digits_of_encode(digits, alphabet.len());
    let index = encode(digits, alphabet.len());
    assert(arrangement(alphabet, symbols.len(), index) =~= symbols);
    index
}

/// Over an alphabet without repeated symbols, two different indices below
/// the number of arrangements have different arrangements.
pub proof fn lemma_arrangements_differ<T>(alphabet: Seq<T>, k: nat, i: nat, j: nat)
    requires
        alphabet.no_duplicates(),
        i < arrangement_total(alphabet.len(), k),
        j < arrangement_total(alphabet.len(), k),
        i != j,
    ensures
        arrangement(alphabet, k, i) != arrangement(alphabet, k, j),
{
    lemma_power_of_size(alphabet.len(), k);
    let a = digits_of(i, alphabet.len(), k);
    let b = digits_of(j, alphabet.len(), k);
    lemma_digits_injective(i, j, alphabet.len(), k);
    if alphabet.len() > 0 {
        assert(!(a =~= b));
        let p = choose|p: int| 0 <= p < k && a[p] != b[p];
        lemma_digit_below_base(i, alphabet.len(), p as nat);
        lemma_digit_below_base(j, alphabet.len(), p as nat);
        assert(arrangement(alphabet, k, i)[p] == alphabet[a[p] as int]);
        assert(arrangement(alphabet, k, j)[p] == alphabet[b[p] as int]);
    }
}

/// The number of arrangements is the power itself, which is not negative.
pub proof fn lemma_power_of_size(size: nat, k: nat)
    ensures
        pow(size as int, k) >= 0,
        arrangement_total(size, k) == pow(size as int, k),
{
    if size > 0 {
        lemma_pow_positive(size as int, k);
    } else if k > 0 {
        lemma0_pow(k);
    } else {
        lemma_pow0(0);
    }
}

impl<T: Copy> Clone for Dispositions<T> {
    /// A second enumeration of the same range, at the same place in it.
    fn clone(&self) -> (copy: Self)
        ensures
            copy.alphabet() == self.alphabet(),
            copy.arity() == self.arity(),
            copy.first() == self.first(),
            copy.last() == self.last(),
            copy.cursor() == self.cursor(),
    {
        proof {
            use_type_invariant(self);
        }
        Dispositions {
            elems: copy_of(&self.elems),
            length: self.length,
            first_index: self.first_index,
            last_index: self.last_index,
            index: self.index,
        }
    }
}

} // verus!
