//! What the search finds: which formulas are among the solutions, that none
//! comes twice, and that a search in parts finds the same as a search in one
//! piece.

use crate::algorithm::{
    candidate, candidate_total, candidates, hits, is_solution, part_solutions, row_solutions,
    solutions,
};
use crate::dispositions::{
    lemma_arrangement_of, lemma_arrangement_over_alphabet, lemma_arrangements_differ,
    lemma_power_of_size,
};
use crate::formula::{feasible, lemma_infeasible_has_no_value, FormulaView, FORMULA_NUM_OPERATORS};
use crate::partition::{in_part, lemma_parts_cover, lemma_parts_disjoint, part_bound};
use crate::dictionary::lemma_lex_before_one_way;
use crate::positions::{is_position_table, valid_position_set};
use vstd::prelude::*;
use vstd::seq_lib::lemma_no_dup_in_concat;

verus! {

/// An item is in the concatenation of some sequences exactly if it is in one
/// of them.
pub proof fn lemma_flatten_contains<A>(rows: Seq<Seq<A>>, x: A)
    ensures
        rows.flatten().contains(x) <==> exists|r: int|
            0 <= r < rows.len() && (#[trigger] rows[r]).contains(x),
    decreases rows.len(),
{
    if rows.len() > 0 {
        let head = rows.first();
        let tail = rows.drop_first();
        lemma_flatten_contains(tail, x);
        assert(rows.flatten() == head + tail.flatten());
        if rows.flatten().contains(x) {
            let i = choose|i: int| 0 <= i < rows.flatten().len() && rows.flatten()[i] == x;
            if i < head.len() {
                assert(head[i] == x);
                assert(rows[0].contains(x));
            } else {
                assert(tail.flatten()[i - head.len()] == x);
                let r = choose|r: int| 0 <= r < tail.len() && (#[trigger] tail[r]).contains(x);
                assert(rows[r + 1].contains(x));
            }
        }
        if exists|r: int| 0 <= r < rows.len() && (#[trigger] rows[r]).contains(x) {
            let r = choose|r: int| 0 <= r < rows.len() && (#[trigger] rows[r]).contains(x);
            if r == 0 {
                let i = choose|i: int| 0 <= i < head.len() && head[i] == x;
                assert(rows.flatten()[i] == x);
            } else {
                assert(tail[r - 1].contains(x));
                let i = choose|i: int| 0 <= i < tail.flatten().len() && tail.flatten()[i] == x;
                assert(rows.flatten()[head.len() + i] == x);
            }
        }
    }
}

/// Among the solutions of one position set are exactly its candidates of the
/// range that evaluate to the target.
pub proof fn lemma_row_solutions_contain(
    target: i64,
    positions: Seq<u8>,
    alphabet: Seq<char>,
    lo: nat,
    hi: nat,
    f: FormulaView,
)
    ensures
        row_solutions(target, positions, alphabet, lo, hi).contains(f) <==> f.value() == Some(
            target,
        ) && exists|index: nat|
            lo <= index < hi && f == #[trigger] candidate(positions, alphabet, index),
{
    let all = candidates(positions, alphabet, lo, hi);
    let kept = all.filter(hits(target));
    if kept.contains(f) {
        all.lemma_filter_contains_rev(hits(target), f);
        let i = choose|i: int| 0 <= i < kept.len() && kept[i] == f;
        all.lemma_filter_pred(hits(target), i);
        let j = choose|j: int| 0 <= j < all.len() && all[j] == f;
        assert(f == candidate(positions, alphabet, (lo + j) as nat));
    }
    if f.value() == Some(target) && exists|index: nat|
        lo <= index < hi && f == #[trigger] candidate(positions, alphabet, index) {
        let index = choose|index: nat|
            lo <= index < hi && f == #[trigger] candidate(positions, alphabet, index);
        assert(all[index - lo] == f);
        all.lemma_filter_contains(hits(target), index - lo);
    }
}

/// Among the solutions are exactly the candidates of the range, for any of
/// the position sets, that evaluate to the target.
pub proof fn lemma_solutions_contain(
    target: i64,
    position_sets: Seq<Seq<u8>>,
    alphabet: Seq<char>,
    lo: nat,
    hi: nat,
    f: FormulaView,
)
    ensures
        solutions(target, position_sets, alphabet, lo, hi).contains(f) <==> f.value() == Some(
            target,
        ) && exists|r: int, index: nat|
            0 <= r < position_sets.len() && lo <= index < hi && f == #[trigger] candidate(
                position_sets[r],
                alphabet,
                index,
            ),
{
    let rows = position_sets.map_values(
        |positions: Seq<u8>| row_solutions(target, positions, alphabet, lo, hi),
    );
    lemma_flatten_contains(rows, f);
    if solutions(target, position_sets, alphabet, lo, hi).contains(f) {
        let r = choose|r: int| 0 <= r < rows.len() && (#[trigger] rows[r]).contains(f);
        lemma_row_solutions_contain(target, position_sets[r], alphabet, lo, hi, f);
        let index = choose|index: nat|
            lo <= index < hi && f == #[trigger] candidate(position_sets[r], alphabet, index);
        assert(0 <= r < position_sets.len() && lo <= index < hi && f == candidate(
            position_sets[r],
            alphabet,
            index,
        ));
    }
    if f.value() == Some(target) && exists|r: int, index: nat|
        0 <= r < position_sets.len() && lo <= index < hi && f == #[trigger] candidate(
            position_sets[r],
            alphabet,
            index,
        ) {
        let (r, index) = choose|r: int, index: nat|
            0 <= r < position_sets.len() && lo <= index < hi && f == #[trigger] candidate(
                position_sets[r],
                alphabet,
                index,
            );
        lemma_row_solutions_contain(target, position_sets[r], alphabet, lo, hi, f);
        assert(rows[r].contains(f));
    }
}

/// A search in parts finds what the search in one piece finds: a formula is
/// a solution of the whole range exactly if it is a solution of one of the
/// parts, into however many parts the range is cut.
pub proof fn lemma_parts_find_the_same(
    target: i64,
    position_sets: Seq<Seq<u8>>,
    alphabet: Seq<char>,
    total: nat,
    parts: nat,
    f: FormulaView,
)
    requires
        parts > 0,
    ensures
        solutions(target, position_sets, alphabet, 0, total).contains(f) <==> exists|p: nat|
            p < parts && #[trigger] part_solutions(
                target,
                position_sets,
                alphabet,
                total,
                p,
                parts,
            ).contains(f),
{
    lemma_solutions_contain(target, position_sets, alphabet, 0, total, f);
    if solutions(target, position_sets, alphabet, 0, total).contains(f) {
        let (r, index) = choose|r: int, index: nat|
            0 <= r < position_sets.len() && 0 <= index < total && f == #[trigger] candidate(
                position_sets[r],
                alphabet,
                index,
            );
        lemma_parts_cover(total, parts, index);
        let p = choose|p: nat| p < parts && in_part(total, p, parts, index);
        lemma_solutions_contain(
            target,
            position_sets,
            alphabet,
            part_bound(total, p, parts),
            part_bound(total, p + 1, parts),
            f,
        );
        assert(part_solutions(target, position_sets, alphabet, total, p, parts).contains(f));
    }
    if exists|p: nat|
        p < parts && #[trigger] part_solutions(
            target,
            position_sets,
            alphabet,
            total,
            p,
            parts,
        ).contains(f) {
        let p = choose|p: nat|
            p < parts && #[trigger] part_solutions(
                target,
                position_sets,
                alphabet,
                total,
                p,
                parts,
            ).contains(f);
        lemma_solutions_contain(
            target,
            position_sets,
            alphabet,
            part_bound(total, p, parts),
            part_bound(total, p + 1, parts),
            f,
        );
        let (r, index) = choose|r: int, index: nat|
            0 <= r < position_sets.len() && part_bound(total, p, parts) <= index < part_bound(
                total,
                p + 1,
                parts,
            ) && f == #[trigger] candidate(position_sets[r], alphabet, index);
        lemma_parts_disjoint(total, parts, index, p, p);
        assert(0 <= r < position_sets.len() && 0 <= index < total && f == candidate(
            position_sets[r],
            alphabet,
            index,
        ));
    }
}

/// A search in parts finds nothing twice: over an alphabet without repeated
/// symbols and position sets that are all different, no formula is a
/// solution of two different parts.
pub proof fn lemma_parts_share_nothing(
    target: i64,
    position_sets: Seq<Seq<u8>>,
    alphabet: Seq<char>,
    parts: nat,
    p: nat,
    q: nat,
    f: FormulaView,
)
    requires
        position_sets.no_duplicates(),
        alphabet.no_duplicates(),
        p < parts,
        q < parts,
        part_solutions(
            target,
            position_sets,
            alphabet,
            candidate_total(alphabet),
            p,
            parts,
        ).contains(f),
        part_solutions(
            target,
            position_sets,
            alphabet,
            candidate_total(alphabet),
            q,
            parts,
        ).contains(f),
    ensures
        p == q,
{
    let total = candidate_total(alphabet);
    lemma_power_of_size(alphabet.len(), FORMULA_NUM_OPERATORS as nat);
    lemma_solutions_contain(
        target,
        position_sets,
        alphabet,
        part_bound(total, p, parts),
        part_bound(total, p + 1, parts),
        f,
    );
    lemma_solutions_contain(
        target,
        position_sets,
        alphabet,
        part_bound(total, q, parts),
        part_bound(total, q + 1, parts),
        f,
    );
    let (r, i) = choose|r: int, i: nat|
        0 <= r < position_sets.len() && part_bound(total, p, parts) <= i < part_bound(
            total,
            p + 1,
            parts,
        ) && f == #[trigger] candidate(position_sets[r], alphabet, i);
    let (s, j) = choose|s: int, j: nat|
        0 <= s < position_sets.len() && part_bound(total, q, parts) <= j < part_bound(
            total,
            q + 1,
            parts,
        ) && f == #[trigger] candidate(position_sets[s], alphabet, j);
    lemma_parts_disjoint(total, parts, i, p, p);
    lemma_parts_disjoint(total, parts, j, q, q);
    if i != j {
        lemma_arrangements_differ(alphabet, FORMULA_NUM_OPERATORS as nat, i, j);
    }
    lemma_parts_disjoint(total, parts, i, p, q);
}

/// Over an alphabet without repeated symbols, no formula comes twice among
/// the solutions of one position set.
pub proof fn lemma_row_solutions_distinct(
    target: i64,
    positions: Seq<u8>,
    alphabet: Seq<char>,
    lo: nat,
    hi: nat,
)
    requires
        alphabet.no_duplicates(),
        hi <= candidate_total(alphabet),
    ensures
        row_solutions(target, positions, alphabet, lo, hi).no_duplicates(),
    decreases hi,
{
    reveal(Seq::filter);
    if lo < hi {
        let last = (hi - 1) as nat;
        let before = candidates(positions, alphabet, lo, last);
        let kept = row_solutions(target, positions, alphabet, lo, last);
        let c = candidate(positions, alphabet, last);
        lemma_row_solutions_distinct(target, positions, alphabet, lo, last);
        assert(candidates(positions, alphabet, lo, hi) =~= before.push(c));
        before.lemma_filter_push(c, hits(target));
        if hits(target)(c) {
            assert forall|i: int| 0 <= i < kept.len() implies kept[i] != c by {
                assert(kept.contains(kept[i]));
                lemma_row_solutions_contain(target, positions, alphabet, lo, last, kept[i]);
                let index = choose|index: nat|
                    lo <= index < last && kept[i] == #[trigger] candidate(
                        positions,
                        alphabet,
                        index,
                    );
                lemma_arrangements_differ(alphabet, FORMULA_NUM_OPERATORS as nat, index, last);
            }
        }
    }
}

/// Over an alphabet without repeated symbols and position sets that are all
/// different, no formula comes twice among the solutions.
pub proof fn lemma_solutions_distinct(
    target: i64,
    position_sets: Seq<Seq<u8>>,
    alphabet: Seq<char>,
    lo: nat,
    hi: nat,
)
    requires
        position_sets.no_duplicates(),
        alphabet.no_duplicates(),
        hi <= candidate_total(alphabet),
    ensures
        solutions(target, position_sets, alphabet, lo, hi).no_duplicates(),
    decreases position_sets.len(),
{
    let rows = |positions: Seq<u8>| row_solutions(target, positions, alphabet, lo, hi);
    if position_sets.len() > 0 {
        let init = position_sets.drop_last();
        let last = position_sets.last();
        let found = solutions(target, init, alphabet, lo, hi);
        let more = row_solutions(target, last, alphabet, lo, hi);
        lemma_solutions_distinct(target, init, alphabet, lo, hi);
        lemma_row_solutions_distinct(target, last, alphabet, lo, hi);
        assert(position_sets =~= init.push(last));
        assert(position_sets.map_values(rows) =~= init.map_values(rows).push(rows(last)));
        init.map_values(rows).lemma_flatten_push(rows(last));
        assert forall|i: int, j: int| 0 <= i < found.len() && 0 <= j < more.len() implies found[i]
            != more[j] by {
            assert(found.contains(found[i]));
            assert(more.contains(more[j]));
            lemma_solutions_contain(target, init, alphabet, lo, hi, found[i]);
            lemma_row_solutions_contain(target, last, alphabet, lo, hi, more[j]);
            let (r, index) = choose|r: int, index: nat|
                0 <= r < init.len() && lo <= index < hi && found[i] == #[trigger] candidate(
                    init[r],
                    alphabet,
                    index,
                );
            assert(position_sets[r] != position_sets[position_sets.len() - 1]);
        }
        lemma_no_dup_in_concat(found, more);
    }
}

/// Over an alphabet without repeated symbols, the search of all
/// arrangements for all valid position sets finds the well-formed formulas
/// over the alphabet that evaluate to the target, all of them and nothing
/// else, each of them once.
pub proof fn lemma_solutions_are_exact(target: i64, table: Seq<Seq<u8>>, alphabet: Seq<char>)
    requires
        is_position_table(table),
        alphabet.len() > 0,
        alphabet.no_duplicates(),
    ensures
        forall|f: FormulaView|
            #[trigger] solutions(
                target,
                table,
                alphabet,
                0,
                candidate_total(alphabet),
            ).contains(f) <==> is_solution(f, target, alphabet),
        solutions(
            target,
            table,
            alphabet,
            0,
            candidate_total(alphabet),
        ).no_duplicates(),
{
    let total = candidate_total(alphabet);
    let all = solutions(target, table, alphabet, 0, total);
    lemma_power_of_size(alphabet.len(), FORMULA_NUM_OPERATORS as nat);
    assert forall|f: FormulaView| #[trigger] all.contains(f) <==> is_solution(
        f,
        target,
        alphabet,
    ) by {
        lemma_solutions_contain(target, table, alphabet, 0, total, f);
        if all.contains(f) {
            let (r, index) = choose|r: int, index: nat|
                0 <= r < table.len() && 0 <= index < total && f == #[trigger] candidate(
                    table[r],
                    alphabet,
                    index,
                );
            lemma_arrangement_over_alphabet(alphabet, FORMULA_NUM_OPERATORS as nat, index);
        }
        if is_solution(f, target, alphabet) {
            if !feasible(f.positions) {
                lemma_infeasible_has_no_value(f);
            }
            assert(valid_position_set(f.positions));
            let r = choose|r: int| 0 <= r < table.len() && #[trigger] table[r] == f.positions;
            let index = lemma_arrangement_of(alphabet, f.operators);
            assert(f == candidate(table[r], alphabet, index));
        }
    }
    assert forall|i: int, j: int| 0 <= i < table.len() && 0 <= j < table.len() && i
        != j implies table[i] != table[j] by {
        if i < j {
            lemma_lex_before_one_way(table[i], table[j]);
        } else {
            lemma_lex_before_one_way(table[j], table[i]);
        }
    }
    lemma_solutions_distinct(target, table, alphabet, 0, total);
}

} // verus!
