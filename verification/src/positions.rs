//! Where the operators of a formula can stand: the combinations of places
//! that leave every operator its two operands.

use crate::dictionary::{lemma_lex_before_one_way, lex_before};
use crate::formula::{feasible, Formula, FORMULA_NUM_OPERATORS, FORMULA_SIZE};
use crate::vectors::copy_of;
use itertools::Itertools;
use vstd::prelude::*;

verus! {

/// Whether `c` is a combination of `k` of the numbers below `n`, written in
/// increasing order.
pub open spec fn is_combination(c: Seq<u8>, n: nat, k: nat) -> bool {
    &&& c.len() == k
    &&& forall|i: int| 0 <= i < c.len() ==> c[i] < n
    &&& forall|i: int, j: int| 0 <= i < j < c.len() ==> c[i] < c[j]
}

/// The combinations of `k` of the numbers below `n`, through
/// `itertools::Itertools::combinations` on the range `0..n`. The adaptor
/// starts from the `k` lowest numbers and steps to the next combination in
/// the order of the dictionary until none is left, so it yields each
/// combination once, in increasing order within and between them.
#[verifier::external_body]
fn combinations(n: u8, k: usize) -> (all: Vec<Vec<u8>>)
    requires
        n <= FORMULA_SIZE,
    ensures
        forall|i: int|
            0 <= i < all.len() ==> is_combination(#[trigger] all[i]@, n as nat, k as nat),
        forall|c: Seq<u8>|
            is_combination(c, n as nat, k as nat) ==> exists|i: int|
                0 <= i < all.len() && #[trigger] all[i]@ == c,
        forall|i: int, j: int|
            0 <= i < j < all.len() ==> lex_before(#[trigger] all[i]@, #[trigger] all[j]@),
{
    (0..n).combinations(k).collect()
}

/// Whether `p` is a set of operator positions of a formula that leaves
/// every operator two operands.
pub open spec fn valid_position_set(p: Seq<u8>) -> bool {
    is_combination(p, FORMULA_SIZE as nat, FORMULA_NUM_OPERATORS as nat) && feasible(p)
}

/// What a list of position sets holds.
pub open spec fn position_sets_of(sets: Seq<Vec<u8>>) -> Seq<Seq<u8>> {
    sets.map_values(|positions: Vec<u8>| positions@)
}

/// Whether `sets` lists the valid position sets, all of them and nothing
/// else, in the order of the dictionary (and so each of them once).
pub open spec fn is_position_table(sets: Seq<Seq<u8>>) -> bool {
    &&& forall|i: int| 0 <= i < sets.len() ==> valid_position_set(#[trigger] sets[i])
    &&& forall|p: Seq<u8>|
        valid_position_set(p) ==> exists|i: int| 0 <= i < sets.len() && #[trigger] sets[i] == p
    &&& forall|i: int, j: int|
        0 <= i < j < sets.len() ==> lex_before(#[trigger] sets[i], #[trigger] sets[j])
}

/// There is one list of the valid position sets in the order of the
/// dictionary.
pub proof fn lemma_position_table_is_unique(a: Seq<Seq<u8>>, b: Seq<Seq<u8>>)
    requires
        is_position_table(a),
        is_position_table(b),
    ensures
        a == b,
{
    lemma_tables_agree(a, b, a.len() as int);
    lemma_tables_agree(b, a, b.len() as int);
    assert(a =~= b);
}

/// Two lists of the valid position sets in the order of the dictionary hold
/// the same in their first `n` places.
proof fn lemma_tables_agree(a: Seq<Seq<u8>>, b: Seq<Seq<u8>>, n: int)
    requires
        is_position_table(a),
        is_position_table(b),
        0 <= n <= a.len(),
    ensures
        n <= b.len(),
        forall|i: int| 0 <= i < n ==> a[i] == b[i],
    decreases n,
{
    if n > 0 {
        let i = n - 1;
        lemma_tables_agree(a, b, i);
        assert(valid_position_set(a[i]));
        let j = choose|j: int| 0 <= j < b.len() && #[trigger] b[j] == a[i];
        if j < i {
            assert(a[j] == b[j]);
            lemma_lex_before_one_way(a[j], a[i]);
        }
        if j > i {
            assert(valid_position_set(b[i]));
            let m = choose|m: int| 0 <= m < a.len() && #[trigger] a[m] == b[i];
            lemma_lex_before_one_way(b[i], b[j]);
            if m < i {
                assert(a[m] == b[m]);
                lemma_lex_before_one_way(b[m], b[i]);
            } else if m > i {
                lemma_lex_before_one_way(a[i], a[m]);
            }
        }
    }
}

/// Every valid set of operator positions, once, in the order of the
/// dictionary.
pub fn valid_positions() -> (valid: Vec<Vec<u8>>)
    ensures
        is_position_table(position_sets_of(valid@)),
{
    let all = combinations(FORMULA_SIZE, FORMULA_NUM_OPERATORS as usize);
    let mut valid: Vec<Vec<u8>> = Vec::new();
    let ghost mut source: Seq<int> = Seq::empty();
    let mut n: usize = 0;
    while n < all.len()
        invariant
            n <= all.len(),
            source.len() == valid.len(),
            forall|i: int|
                0 <= i < source.len() ==> 0 <= #[trigger] source[i] < n && valid[i]@
                    == all[source[i]]@ && feasible(valid[i]@),
            forall|i: int, j: int| 0 <= i < j < source.len() ==> source[i] < source[j],
            forall|m: int|
                0 <= m < n && feasible(#[trigger] all[m]@) ==> exists|i: int|
                    0 <= i < valid.len() && #[trigger] valid[i]@ == all[m]@,
        decreases all.len() - n,
    {
        if Formula::is_valid(&all[n]) {
            let ghost before = valid@;
            valid.push(copy_of(&all[n]));
            proof {
                source = source.push(n as int);
                assert forall|m: int|
                    0 <= m < n + 1 && feasible(#[trigger] all[m]@) implies exists|i: int|
                    0 <= i < valid.len() && #[trigger] valid[i]@ == all[m]@ by {
                    if m < n {
                        let i = choose|i: int|
                            0 <= i < before.len() && #[trigger] before[i]@ == all[m]@;
                        assert(valid[i]@ == all[m]@);
                    } else {
                        assert(valid[valid.len() - 1]@ == all[m]@);
                    }
                }
            }
        }
        n += 1;
    }
    proof {
        let sets = position_sets_of(valid@);
        assert forall|i: int| 0 <= i < sets.len() implies valid_position_set(
            #[trigger] sets[i],
        ) by {
            assert(sets[i] == valid[i]@);
            assert(is_combination(
                all[source[i]]@,
                FORMULA_SIZE as nat,
                FORMULA_NUM_OPERATORS as nat,
            ));
        }
        assert forall|p: Seq<u8>| valid_position_set(p) implies exists|i: int|
            0 <= i < sets.len() && #[trigger] sets[i] == p by {
            let m = choose|m: int| 0 <= m < all.len() && #[trigger] all[m]@ == p;
            assert(feasible(all[m]@));
            let i = choose|i: int| 0 <= i < valid.len() && #[trigger] valid[i]@ == all[m]@;
            assert(sets[i] == p);
        }
        assert forall|i: int, j: int| 0 <= i < j < sets.len() implies lex_before(
            #[trigger] sets[i],
            #[trigger] sets[j],
        ) by {
            assert(sets[i] == valid[i]@ && sets[j] == valid[j]@);
            assert(lex_before(all[source[i]]@, all[source[j]]@));
        }
    }
    valid
}

} // verus!
