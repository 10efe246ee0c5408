//! Cutting a range of indices into parts of nearly the same size, with
//! bounds in whole numbers.

use vstd::arithmetic::div_mod::{lemma_div_is_ordered, lemma_div_multiples_vanish};
use vstd::arithmetic::mul::lemma_mul_inequality;
use vstd::prelude::*;

verus! {

/// Where part `part` of `parts` begins in a range of `total` indices:
/// `floor(part * total / parts)`. It ends where the next part begins.
pub open spec fn part_bound(total: nat, part: nat, parts: nat) -> nat
    recommends
        parts > 0,
{
    (part * total) / parts
}

/// Whether `index` lies in part `part` of `parts` of a range of `total`
/// indices.
pub open spec fn in_part(total: nat, part: nat, parts: nat, index: nat) -> bool {
    part_bound(total, part, parts) <= index < part_bound(total, part + 1, parts)
}

/// The first part begins at zero and the last part ends at `total`.
pub proof fn lemma_part_ends(total: nat, parts: nat)
    requires
        parts > 0,
    ensures
        part_bound(total, 0, parts) == 0,
        part_bound(total, parts, parts) == total,
{
    assert(0 * total == 0) by (nonlinear_arith);
    lemma_div_multiples_vanish(total as int, parts as int);
}

/// A later part never begins before an earlier one.
pub proof fn lemma_part_order(total: nat, p: nat, q: nat, parts: nat)
    requires
        parts > 0,
        p <= q,
    ensures
        part_bound(total, p, parts) <= part_bound(total, q, parts),
{
    lemma_mul_inequality(p as int, q as int, total as int);
    lemma_div_is_ordered((p * total) as int, (q * total) as int, parts as int);
}

/// Every index below `total` lies in a part: the parts leave no gap,
/// whatever the remainder of `total` by `parts`.
pub proof fn lemma_parts_cover(total: nat, parts: nat, index: nat)
    requires
        parts > 0,
        index < total,
    ensures
        exists|p: nat| p < parts && in_part(total, p, parts, index),
{
    lemma_part_ends(total, parts);
    lemma_part_found(total, parts, index, parts);
}

/// An index below the bound of part `end` lies in one of the parts before
/// it.
proof fn lemma_part_found(total: nat, parts: nat, index: nat, end: nat)
    requires
        parts > 0,
        end <= parts,
        index < part_bound(total, end, parts),
    ensures
        exists|p: nat| p < parts && in_part(total, p, parts, index),
    decreases end,
{
    lemma_part_ends(total, parts);
    if end > 0 {
        let p = (end - 1) as nat;
        if part_bound(total, p, parts) <= index {
            assert(p < parts && in_part(total, p, parts, index));
        } else {
            lemma_part_found(total, parts, index, p);
        }
    }
}

/// No index lies in two parts, and no index of a part lies outside the
/// range: the parts do not overlap and add nothing.
pub proof fn lemma_parts_disjoint(total: nat, parts: nat, index: nat, p: nat, q: nat)
    requires
        parts > 0,
        p < parts,
        q < parts,
        in_part(total, p, parts, index),
        in_part(total, q, parts, index),
    ensures
        p == q,
        index < total,
{
    if p < q {
        lemma_part_order(total, p + 1, q, parts);
    }
    if q < p {
        lemma_part_order(total, q + 1, p, parts);
    }
    lemma_part_order(total, p + 1, parts, parts);
    lemma_part_ends(total, parts);
}

} // verus!
