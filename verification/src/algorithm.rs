//! The search: every candidate formula is evaluated, and those that give the
//! target are kept.

use crate::dispositions::{
    arrangement, arrangement_count, arrangement_total, dispositions_part, Dispositions,
};
use crate::formula::{Formula, FormulaView, FORMULA_NUM_OPERATORS, FORMULA_OPERATORS};
use crate::partition::{lemma_part_ends, lemma_part_order, part_bound};
use crate::positions::{is_position_table, position_sets_of, valid_positions};
use crate::solutions::lemma_solutions_are_exact;
use crate::vectors::copy_of;
use vstd::arithmetic::power::pow;
use vstd::prelude::*;

verus! {

/// Whether a formula evaluates to `target`.
pub open spec fn hits(target: i64) -> spec_fn(FormulaView) -> bool {
    |f: FormulaView| f.value() == Some(target)
}

/// The formula with operators at `positions` whose operators are the
/// arrangement of index `index`.
pub open spec fn candidate(positions: Seq<u8>, alphabet: Seq<char>, index: nat) -> FormulaView {
    FormulaView {
        positions,
        operators: arrangement(alphabet, FORMULA_NUM_OPERATORS as nat, index),
    }
}

/// The number of candidates for each position set: the number of
/// arrangements of the operators of `alphabet`.
pub open spec fn candidate_total(alphabet: Seq<char>) -> nat {
    arrangement_total(alphabet.len(), FORMULA_NUM_OPERATORS as nat)
}

/// The candidates with operators at `positions`, for the arrangements of
/// the indices from `lo` up to, not including, `hi`, in that order.
pub open spec fn candidates(positions: Seq<u8>, alphabet: Seq<char>, lo: nat, hi: nat) -> Seq<
    FormulaView,
> {
    Seq::new(
        if lo <= hi {
            (hi - lo) as nat
        } else {
            0
        },
        |j: int| candidate(positions, alphabet, (lo + j) as nat),
    )
}

/// Those of the candidates with operators at `positions` that evaluate to
/// `target`, in the order of the candidates.
pub open spec fn row_solutions(
    target: i64,
    positions: Seq<u8>,
    alphabet: Seq<char>,
    lo: nat,
    hi: nat,
) -> Seq<FormulaView> {
    candidates(positions, alphabet, lo, hi).filter(hits(target))
}

/// Those of the candidates that evaluate to `target`: position set after
/// position set, and for each of them arrangement after arrangement.
pub open spec fn solutions(
    target: i64,
    position_sets: Seq<Seq<u8>>,
    alphabet: Seq<char>,
    lo: nat,
    hi: nat,
) -> Seq<FormulaView> {
    position_sets.map_values(
        |positions: Seq<u8>| row_solutions(target, positions, alphabet, lo, hi),
    ).flatten()
}

/// What a list of formulas holds.
pub open spec fn formulas_of(formulas: Seq<Formula>) -> Seq<FormulaView> {
    formulas.map_values(|f: Formula| f@)
}

/// Searches one part of the candidates: for each of `position_sets`, the
/// arrangements of part `part` of `parts` of the operators in `alphabet`.
/// Returns the formulas that evaluate to `target`, in the order in which the
/// candidates come.
pub fn search(
    target: i64,
    position_sets: &Vec<Vec<u8>>,
    alphabet: &Vec<char>,
    part: u8,
    parts: u8,
) -> (found: Vec<Formula>)
    requires
        candidate_total(alphabet@) <= usize::MAX,
        part < parts,
    ensures
        formulas_of(found@) == solutions(
            target,
            position_sets_of(position_sets@),
            alphabet@,
            part_bound(
                candidate_total(alphabet@),
                part as nat,
                parts as nat,
            ),
            part_bound(
                candidate_total(alphabet@),
                (part + 1) as nat,
                parts as nat,
            ),
        ),
{
    let ghost sets = position_sets_of(position_sets@);
    let ghost total = candidate_total(alphabet@);
    let ghost lo = part_bound(total, part as nat, parts as nat);
    let ghost hi = part_bound(total, (part + 1) as nat, parts as nat);
    let mut row: Dispositions<char> = dispositions_part(
        copy_of(alphabet),
        FORMULA_NUM_OPERATORS as usize,
        part,
        parts,
    );
    let mut found: Vec<Formula> = Vec::new();
    let mut r: usize = 0;
    proof {
        lemma_part_order(total, part as nat, (part + 1) as nat, parts as nat);
    }
    assert(formulas_of(found@) =~= Seq::empty());
    assert(sets.take(0) =~= Seq::empty());
    while r < position_sets.len()
        invariant
            r <= position_sets.len(),
            sets == position_sets_of(position_sets@),
            row.alphabet() == alphabet@,
            row.arity() == FORMULA_NUM_OPERATORS,
            row.first() == lo,
            row.last() == hi,
            lo <= hi,
            formulas_of(found@) == solutions(target, sets.take(r as int), alphabet@, lo, hi),
        decreases position_sets.len() - r,
    {
        let ghost done = formulas_of(found@);
        let ghost positions = position_sets[r as int]@;
        row.restart();
        assert(candidates(positions, alphabet@, lo, lo) =~= Seq::empty());
        proof {
            reveal(Seq::filter);
        }
        loop
            invariant
                r < position_sets.len(),
                positions == position_sets[r as int]@,
                row.alphabet() == alphabet@,
                row.arity() == FORMULA_NUM_OPERATORS,
                row.first() == lo,
                row.last() == hi,
                lo <= row.cursor() <= hi,
                formulas_of(found@) == done + row_solutions(
                    target,
                    positions,
                    alphabet@,
                    lo,
                    row.cursor(),
                ),
            ensures
                row.cursor() == hi,
                formulas_of(found@) == done + row_solutions(target, positions, alphabet@, lo, hi),
            decreases hi - row.cursor(),
        {
            let ghost at = row.cursor();
            let ghost so_far = formulas_of(found@);
            match row.next() {
                None => {
                    break ;
                },
                Some(operators) => {
                    let hit = match Formula::value_of(&position_sets[r], &operators) {
                        Some(value) => value == target,
                        None => false,
                    };
                    let ghost formula = candidate(positions, alphabet@, at);
                    proof {
                        let before = candidates(positions, alphabet@, lo, at);
                        assert(candidates(positions, alphabet@, lo, at + 1) =~= before.push(
                            formula,
                        ));
                        before.lemma_filter_push(formula, hits(target));
                    }
                    if hit {
                        found.push(Formula::new(copy_of(&position_sets[r]), operators));
                        assert(formulas_of(found@) =~= so_far.push(formula));
                        assert(formulas_of(found@) =~= done + row_solutions(
                            target,
                            positions,
                            alphabet@,
                            lo,
                            at + 1,
                        ));
                    }
                },
            }
        }
        proof {
            let rows = |positions: Seq<u8>| row_solutions(target, positions, alphabet@, lo, hi);
            assert(sets.take(r + 1) =~= sets.take(r as int).push(positions));
            assert(sets.take(r + 1).map_values(rows) =~= sets.take(r as int).map_values(rows).push(
                rows(positions),
            ));
            sets.take(r as int).map_values(rows).lemma_flatten_push(rows(positions));
        }
        r += 1;
    }
    assert(sets.take(r as int) =~= sets);
    found
}

/// The solutions of part `part` of `parts` of a search over `total`
/// arrangements.
pub open spec fn part_solutions(
    target: i64,
    position_sets: Seq<Seq<u8>>,
    alphabet: Seq<char>,
    total: nat,
    part: nat,
    parts: nat,
) -> Seq<FormulaView> {
    solutions(
        target,
        position_sets,
        alphabet,
        part_bound(total, part, parts),
        part_bound(total, part + 1, parts),
    )
}

/// The operators that a search may use: `+ - *` alone, or all six.
pub open spec fn operators_of(simple_ops: bool) -> Seq<char> {
    if simple_ops {
        seq!['+', '-', '*']
    } else {
        FORMULA_OPERATORS@
    }
}

/// The operators that a search may use.
pub fn available_operators(simple_ops: bool) -> (alphabet: Vec<char>)
    ensures
        alphabet@ == operators_of(simple_ops),
{
    if simple_ops {
        let alphabet = vec!['+', '-', '*'];
        assert(alphabet@ =~= operators_of(simple_ops));
        alphabet
    } else {
        let mut alphabet: Vec<char> = Vec::new();
        let mut i: usize = 0;
        while i < 6
            invariant
                i <= 6,
                alphabet@ == FORMULA_OPERATORS@.take(i as int),
            decreases 6 - i,
        {
            alphabet.push(FORMULA_OPERATORS[i]);
            assert(alphabet@ =~= FORMULA_OPERATORS@.take(i + 1));
            i += 1;
        }
        assert(alphabet@ =~= FORMULA_OPERATORS@);
        alphabet
    }
}

/// Whether `f` is a well-formed formula with operators of `alphabet` that
/// evaluates to `target`.
pub open spec fn is_solution(f: FormulaView, target: i64, alphabet: Seq<char>) -> bool {
    &&& f.well_formed()
    &&& forall|k: int| 0 <= k < f.operators.len() ==> alphabet.contains(#[trigger] f.operators[k])
    &&& f.value() == Some(target)
}

/// The number of candidates of a search, one for each position set and each
/// arrangement of the operators, or `None` where it does not fit.
pub fn work_size(position_sets: &Vec<Vec<u8>>, alphabet: &Vec<char>) -> (size: Option<usize>)
    ensures
        match size {
            Some(n) => n == position_sets.len() * candidate_total(alphabet@),
            None => position_sets.len() * candidate_total(alphabet@) > usize::MAX,
        },
{
    let sets = position_sets.len();
    match arrangement_count(alphabet.len(), FORMULA_NUM_OPERATORS as usize) {
        Some(n) => sets.checked_mul(n),
        None => {
            if sets == 0 {
                assert(0 * candidate_total(alphabet@) == 0);
                Some(0)
            } else {
                assert(sets * candidate_total(alphabet@) >= candidate_total(alphabet@))
                    by (nonlinear_arith)
                    requires
                        sets >= 1,
                ;
                None
            }
        },
    }
}

/// The number of ways to choose eight operators from three and from six.
proof fn lemma_operator_arrangements()
    ensures
        candidate_total(operators_of(true)) == 6561,
        candidate_total(operators_of(false)) == 1679616,
{
    reveal_with_fuel(pow, 9);
    assert(operators_of(true).len() == 3);
    assert(operators_of(false).len() == 6);
}

/// Searches all candidates. Returns, each once, the well-formed formulas over
/// the operators `+ - *` (with `simple_ops`) or `+ - * / ^ &` (without) that
/// evaluate to `target`: position set after position set in the order of the
/// dictionary, and for each of them arrangement after arrangement.
pub fn compute(target: i64, simple_ops: bool) -> (found: Vec<Formula>)
    ensures
        forall|f: FormulaView|
            #[trigger] formulas_of(found@).contains(f) <==> is_solution(
                f,
                target,
                operators_of(simple_ops),
            ),
        formulas_of(found@).no_duplicates(),
        exists|table: Seq<Seq<u8>>|
            is_position_table(table) && formulas_of(found@) == #[trigger] solutions(
                target,
                table,
                operators_of(simple_ops),
                0,
                candidate_total(operators_of(simple_ops)),
            ),
{
    let position_sets = valid_positions();
    let alphabet = available_operators(simple_ops);
    proof {
        lemma_operator_arrangements();
    }
    let found = search(target, &position_sets, &alphabet, 0, 1);
    proof {
        let total = candidate_total(alphabet@);
        lemma_part_ends(total, 1);
        lemma_solutions_are_exact(target, position_sets_of(position_sets@), alphabet@);
    }
    found
}

} // verus!
