//! What is shown of the solutions: each text once, the shorter ones first,
//! and if so wished only the shortest.

use crate::dictionary::{lemma_lex_before_chain, lemma_lex_before_one_way, lex_before};
use vstd::prelude::*;
use vstd::utf8::{encode_utf8, encode_utf8_decode_utf8};

verus! {

/// Whether a text of bytes `a` is shown before one of bytes `b`: it is
/// shorter, or as long and earlier in the order of the dictionary.
pub open spec fn shown_before(a: Seq<u8>, b: Seq<u8>) -> bool {
    a.len() < b.len() || (a.len() == b.len() && lex_before(a, b))
}

/// How one text stands to another in the order in which they are shown.
#[derive(Debug, Clone, Copy, PartialEq, Eq, Structural)]
pub enum Rank {
    /// The one is shown before the other.
    Before,
    /// The two are the same text.
    Same,
    /// The one is shown after the other.
    After,
}

/// How `a` stands to `b`.
pub fn rank(a: &[u8], b: &[u8]) -> (r: Rank)
    ensures
        match r {
            Rank::Before => shown_before(a@, b@),
            Rank::Same => a@ == b@,
            Rank::After => shown_before(b@, a@),
        },
{
    if a.len() < b.len() {
        return Rank::Before;
    }
    if a.len() > b.len() {
        return Rank::After;
    }
    let mut i: usize = 0;
    while i < a.len()
        invariant
            i <= a.len(),
            a.len() == b.len(),
            a@.take(i as int) == b@.take(i as int),
        decreases a.len() - i,
    {
        if a[i] < b[i] {
            return Rank::Before;
        }
        if a[i] > b[i] {
            return Rank::After;
        }
        assert(a@.take(i + 1) =~= a@.take(i as int).push(a@[i as int]));
        assert(b@.take(i + 1) =~= b@.take(i as int).push(b@[i as int]));
        i += 1;
    }
    assert(a@ =~= a@.take(i as int));
    assert(b@ =~= b@.take(i as int));
    Rank::Same
}

/// A text that is shown before another is not the same text, and the other
/// is not shown before it.
pub proof fn lemma_shown_before_one_way(a: Seq<u8>, b: Seq<u8>)
    requires
        shown_before(a, b),
    ensures
        a != b,
        !shown_before(b, a),
{
    if a.len() == b.len() {
        lemma_lex_before_one_way(a, b);
    }
}

/// What is shown before a text is shown before all that the text is shown
/// before.
pub proof fn lemma_shown_before_chain(a: Seq<u8>, b: Seq<u8>, c: Seq<u8>)
    requires
        shown_before(a, b),
        shown_before(b, c),
    ensures
        shown_before(a, c),
{
    if a.len() == b.len() && b.len() == c.len() {
        lemma_lex_before_chain(a, b, c);
    }
}

/// The bytes of a text.
pub open spec fn bytes_of(text: Seq<char>) -> Seq<u8> {
    encode_utf8(text)
}

/// What a list of strings holds.
pub open spec fn texts_of(strings: Seq<String>) -> Seq<Seq<char>> {
    strings.map_values(|s: String| s@)
}

/// Whether every text of the list is shown before those that follow it.
pub open spec fn in_order(texts: Seq<Seq<char>>) -> bool {
    forall|i: int, j: int|
        0 <= i < j < texts.len() ==> shown_before(
            bytes_of(#[trigger] texts[i]),
            bytes_of(#[trigger] texts[j]),
        )
}

/// Two ordered lists of the same texts are the same list.
pub proof fn lemma_order_is_unique(a: Seq<Seq<char>>, b: Seq<Seq<char>>)
    requires
        in_order(a),
        in_order(b),
        forall|t: Seq<char>| a.contains(t) <==> b.contains(t),
    ensures
        a == b,
{
    lemma_ordered_lists_agree(a, b, a.len() as int);
    lemma_ordered_lists_agree(b, a, b.len() as int);
    assert(a =~= b);
}

/// Two ordered lists of the same texts hold the same in their first `n`
/// places.
proof fn lemma_ordered_lists_agree(a: Seq<Seq<char>>, b: Seq<Seq<char>>, n: int)
    requires
        in_order(a),
        in_order(b),
        forall|t: Seq<char>| a.contains(t) <==> b.contains(t),
        0 <= n <= a.len(),
    ensures
        n <= b.len(),
        forall|i: int| 0 <= i < n ==> a[i] == b[i],
    decreases n,
{
    if n > 0 {
        let i = n - 1;
        lemma_ordered_lists_agree(a, b, i);
        assert(a.contains(a[i]));
        let j = choose|j: int| 0 <= j < b.len() && b[j] == a[i];
        if j < i {
            assert(a[j] == b[j]);
            lemma_shown_before_one_way(bytes_of(a[j]), bytes_of(a[i]));
        }
        if j > i {
            assert(b.contains(b[i]));
            let m = choose|m: int| 0 <= m < a.len() && a[m] == b[i];
            lemma_shown_before_one_way(bytes_of(b[i]), bytes_of(b[j]));
            if m < i {
                assert(a[m] == b[m]);
                lemma_shown_before_one_way(bytes_of(b[m]), bytes_of(b[i]));
            } else if m > i {
                lemma_shown_before_one_way(bytes_of(a[i]), bytes_of(a[m]));
            }
        }
    }
}

/// Puts `text` at its place in the ordered `list`, unless it is there.
fn insert_unique(list: &mut Vec<String>, text: String)
    requires
        in_order(texts_of(old(list)@)),
    ensures
        in_order(texts_of(final(list)@)),
        forall|t: Seq<char>|
            #[trigger] texts_of(final(list)@).contains(t) <==> texts_of(old(list)@).contains(t)
                || t == text@,
{
    let ghost before = texts_of(list@);
    let mut i: usize = 0;
    let mut placed = false;
    while i < list.len() && !placed
        invariant
            i <= list.len(),
            texts_of(list@) == before,
            in_order(before),
            forall|j: int|
                0 <= j < i ==> shown_before(bytes_of(#[trigger] before[j]), bytes_of(text@)),
            placed ==> i < list.len() && shown_before(bytes_of(text@), bytes_of(before[i as int])),
        decreases list.len() - i + if placed { 0int } else { 1int },
    {
        assert(before[i as int] == list[i as int]@);
        match rank(list[i].as_str().as_bytes(), text.as_str().as_bytes()) {
            Rank::Before => {
                i += 1;
            },
            Rank::Same => {
                proof {
                    encode_utf8_decode_utf8(before[i as int]);
                    encode_utf8_decode_utf8(text@);
                    assert(before[i as int] == text@);
                }
                return ;
            },
            Rank::After => {
                placed = true;
            },
        }
    }
    list.insert(i, text);
    proof {
        let after = texts_of(list@);
        assert(after =~= before.insert(i as int, text@));
        assert forall|a: int, b: int| 0 <= a < b < after.len() implies shown_before(
            bytes_of(#[trigger] after[a]),
            bytes_of(#[trigger] after[b]),
        ) by {
            if b < i {
                assert(after[a] == before[a] && after[b] == before[b]);
            } else if b == i {
                assert(after[a] == before[a]);
            } else if a < i {
                assert(after[a] == before[a] && after[b] == before[b - 1]);
            } else if a == i {
                assert(after[b] == before[b - 1]);
                if b - 1 > i {
                    lemma_shown_before_chain(
                        bytes_of(text@),
                        bytes_of(before[i as int]),
                        bytes_of(before[b - 1]),
                    );
                }
            } else {
                assert(after[a] == before[a - 1] && after[b] == before[b - 1]);
            }
        }
        assert forall|t: Seq<char>| #[trigger] after.contains(t) <==> before.contains(t) || t
            == text@ by {
            if after.contains(t) {
                let k = choose|k: int| 0 <= k < after.len() && after[k] == t;
                if k < i {
                    assert(before[k] == t);
                } else if k > i {
                    assert(before[k - 1] == t);
                }
            }
            if before.contains(t) {
                let k = choose|k: int| 0 <= k < before.len() && before[k] == t;
                if k < i {
                    assert(after[k] == t);
                } else {
                    assert(after[k + 1] == t);
                }
            }
            if t == text@ {
                assert(after[i as int] == t);
            }
        }
    }
}

/// The texts of `results`, each of them once, in the order in which they
/// are shown: the shorter first, and those of one length in the order of the
/// dictionary.
pub fn unique_by_length(results: Vec<String>) -> (shown: Vec<String>)
    ensures
        in_order(texts_of(shown@)),
        forall|t: Seq<char>|
            #[trigger] texts_of(shown@).contains(t) <==> texts_of(results@).contains(t),
{
    let ghost all = texts_of(results@);
    let mut rest = results;
    let mut shown: Vec<String> = Vec::new();
    assert(texts_of(shown@) =~= Seq::empty());
    while rest.len() > 0
        invariant
            in_order(texts_of(shown@)),
            forall|t: Seq<char>|
                texts_of(shown@).contains(t) || texts_of(rest@).contains(t) <==> all.contains(t),
        decreases rest.len(),
    {
        let ghost waiting = texts_of(rest@);
        let ghost done = texts_of(shown@);
        let text = rest.pop().unwrap();
        assert(texts_of(rest@) =~= waiting.drop_last());
        assert(waiting.last() == text@);
        insert_unique(&mut shown, text);
        assert forall|t: Seq<char>|
            texts_of(shown@).contains(t) || texts_of(rest@).contains(t) <==> all.contains(
                t,
            ) by {
            if waiting.contains(t) {
                let k = choose|k: int| 0 <= k < waiting.len() && waiting[k] == t;
                if k < waiting.len() - 1 {
                    assert(waiting.drop_last()[k] == t);
                }
            }
            if waiting.drop_last().contains(t) {
                let k = choose|k: int|
                    0 <= k < waiting.drop_last().len() && waiting.drop_last()[k] == t;
                assert(waiting[k] == t);
            }
            if t == text@ {
                assert(waiting[waiting.len() - 1] == t);
            }
            assert(done.contains(t) || waiting.contains(t) <==> all.contains(t));
        }
    }
    assert(texts_of(rest@) =~= Seq::empty());
    shown
}

/// Whether a text is no longer than any text of `all`.
pub open spec fn shortest_of(all: Seq<Seq<char>>) -> spec_fn(Seq<char>) -> bool {
    |t: Seq<char>|
        forall|j: int| 0 <= j < all.len() ==> bytes_of(t).len() <= bytes_of(#[trigger] all[j]).len()
}

/// The shortest of the texts of `results`: those that are no longer than any
/// other, in the order in which they stand.
pub fn shortest(results: &Vec<String>) -> (short: Vec<String>)
    ensures
        texts_of(short@) == texts_of(results@).filter(shortest_of(texts_of(results@))),
{
    let ghost all = texts_of(results@);
    let mut short: Vec<String> = Vec::new();
    proof {
        reveal(Seq::filter);
        assert(texts_of(short@) =~= Seq::empty());
        assert(all.take(0) =~= Seq::empty());
    }
    if results.len() == 0 {
        assert(all =~= Seq::empty());
        return short;
    }
    let mut least: usize = results[0].as_str().as_bytes().len();
    let ghost mut at: int = 0;
    let mut i: usize = 1;
    assert(all[0] == results[0]@);
    while i < results.len()
        invariant
            1 <= i <= results.len(),
            all == texts_of(results@),
            forall|j: int| 0 <= j < i ==> least <= bytes_of(#[trigger] all[j]).len(),
            0 <= at < i,
            least == bytes_of(all[at]).len(),
        decreases results.len() - i,
    {
        assert(all[i as int] == results[i as int]@);
        let n = results[i].as_str().as_bytes().len();
        if n < least {
            least = n;
            proof {
                at = i as int;
            }
        }
        i += 1;
    }
    let mut k: usize = 0;
    while k < results.len()
        invariant
            k <= results.len(),
            all == texts_of(results@),
            forall|j: int| 0 <= j < all.len() ==> least <= bytes_of(#[trigger] all[j]).len(),
            0 <= at < all.len(),
            least == bytes_of(all[at]).len(),
            texts_of(short@) == all.take(k as int).filter(shortest_of(all)),
        decreases results.len() - k,
    {
        let ghost kept = texts_of(short@);
        let ghost text = all[k as int];
        assert(text == results[k as int]@);
        proof {
            assert(all.take(k + 1) =~= all.take(k as int).push(text));
            all.take(k as int).lemma_filter_push(text, shortest_of(all));
            assert(shortest_of(all)(text) <==> bytes_of(text).len() == least);
        }
        if results[k].as_str().as_bytes().len() == least {
            short.push(results[k].clone());
            assert(texts_of(short@) =~= kept.push(text));
        }
        k += 1;
    }
    assert(all.take(k as int) =~= all);
    short
}

} // verus!
