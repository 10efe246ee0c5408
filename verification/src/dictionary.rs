//! The order of the dictionary on sequences of small numbers.

use vstd::prelude::*;

verus! {

/// Whether `a` comes before `b` in the order of the dictionary: at the first
/// place where they differ, `a` holds the lower number.
pub open spec fn lex_before(a: Seq<u8>, b: Seq<u8>) -> bool {
    exists|p: int|
        0 <= p < a.len() && p < b.len() && a.take(p) == b.take(p) && #[trigger] a[p] < b[p]
}

/// Of two sequences, at most one comes before the other, and none before
/// itself.
pub proof fn lemma_lex_before_one_way(a: Seq<u8>, b: Seq<u8>)
    requires
        lex_before(a, b),
    ensures
        !lex_before(b, a),
        a != b,
{
    let p = choose|p: int|
        0 <= p < a.len() && p < b.len() && a.take(p) == b.take(p) && #[trigger] a[p] < b[p];
    if lex_before(b, a) {
        let q = choose|q: int|
            0 <= q < b.len() && q < a.len() && b.take(q) == a.take(q) && #[trigger] b[q] < a[q];
        if p < q {
            assert(b.take(q)[p] == a.take(q)[p]);
        } else if q < p {
            assert(a.take(p)[q] == b.take(p)[q]);
        }
    }
}

/// What comes before a sequence comes before all that the sequence comes
/// before.
pub proof fn lemma_lex_before_chain(a: Seq<u8>, b: Seq<u8>, c: Seq<u8>)
    requires
        lex_before(a, b),
        lex_before(b, c),
    ensures
        lex_before(a, c),
{
    let p = choose|p: int|
        0 <= p < a.len() && p < b.len() && a.take(p) == b.take(p) && #[trigger] a[p] < b[p];
    let q = choose|q: int|
        0 <= q < b.len() && q < c.len() && b.take(q) == c.take(q) && #[trigger] b[q] < c[q];
    if p < q {
        assert(b.take(q)[p] == c.take(q)[p]);
        assert(a.take(p) =~= c.take(p)) by {
            assert(b.take(p) =~= b.take(q).take(p));
            assert(c.take(p) =~= c.take(q).take(p));
        }
        assert(p < c.len() && a[p] < c[p]);
    } else if q < p {
        assert(a.take(p)[q] == b.take(p)[q]);
        assert(a.take(q) =~= c.take(q)) by {
            assert(a.take(q) =~= a.take(p).take(q));
            assert(b.take(q) =~= b.take(p).take(q));
        }
        assert(q < a.len() && a[q] < c[q]);
    } else {
        assert(a[p] < c[p]);
    }
}

} // verus!
