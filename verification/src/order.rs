//! Alphabetical order on texts, by the code points of their characters, and
//! sorting by it.

use vstd::prelude::*;
use vstd::relations::{sorted_by, total_ordering};
use vstd::std_specs::iter::IteratorSpec;

verus! {

/// `a` comes before `b`, or equals it: at the first position where they
/// differ `a` has the smaller code point, or `a` ends there.
pub open spec fn lex_le(a: Seq<char>, b: Seq<char>) -> bool
    decreases a.len(),
{
    if a.len() == 0 {
        true
    } else if b.len() == 0 {
        false
    } else if a[0] == b[0] {
        lex_le(a.drop_first(), b.drop_first())
    } else {
        a[0] < b[0]
    }
}

/// Alphabetical order as a relation, for the sequence functions that take one.
pub open spec fn alphabetical() -> spec_fn(Seq<char>, Seq<char>) -> bool {
    |a: Seq<char>, b: Seq<char>| lex_le(a, b)
}

/// Every text is in order with itself.
pub proof fn lemma_lex_le_reflexive(a: Seq<char>)
    ensures
        lex_le(a, a),
    decreases a.len(),
{
    if a.len() > 0 {
        lemma_lex_le_reflexive(a.drop_first());
    }
}

/// Two texts that are in order both ways are the same text.
pub proof fn lemma_lex_le_antisymmetric(a: Seq<char>, b: Seq<char>)
    requires
        lex_le(a, b),
        lex_le(b, a),
    ensures
        a == b,
    decreases a.len(),
{
    if a.len() > 0 && b.len() > 0 {
        lemma_lex_le_antisymmetric(a.drop_first(), b.drop_first());
        assert(a =~= seq![a[0]] + a.drop_first());
    }
}

/// Order carries over a text in between.
pub proof fn lemma_lex_le_transitive(a: Seq<char>, b: Seq<char>, c: Seq<char>)
    requires
        lex_le(a, b),
        lex_le(b, c),
    ensures
        lex_le(a, c),
    decreases a.len(),
{
    if a.len() > 0 && a[0] == b[0] && b[0] == c[0] {
        lemma_lex_le_transitive(a.drop_first(), b.drop_first(), c.drop_first());
    }
}

/// Any two texts are in order one way or the other.
pub proof fn lemma_lex_le_total(a: Seq<char>, b: Seq<char>)
    ensures
        lex_le(a, b) || lex_le(b, a),
    decreases a.len(),
{
    if a.len() > 0 && b.len() > 0 && a[0] == b[0] {
        lemma_lex_le_total(a.drop_first(), b.drop_first());
    }
}

/// Alphabetical order is a total order.
pub proof fn lemma_alphabetical_total_ordering()
    ensures
        total_ordering(alphabetical()),
{
    let r = alphabetical();
    assert forall|a: Seq<char>| #[trigger] r(a, a) by {
        lemma_lex_le_reflexive(a);
    }
    assert forall|a: Seq<char>, b: Seq<char>| #[trigger] r(a, b) && #[trigger] r(b, a) implies a
        == b by {
        lemma_lex_le_antisymmetric(a, b);
    }
    assert forall|a: Seq<char>, b: Seq<char>, c: Seq<char>| #[trigger] r(a, b) && #[trigger] r(
        b,
        c,
    ) implies r(a, c) by {
        lemma_lex_le_transitive(a, b, c);
    }
    assert forall|a: Seq<char>, b: Seq<char>| #[trigger] r(a, b) || #[trigger] r(b, a) by {
        lemma_lex_le_total(a, b);
    }
}

/// Tells whether `a` comes before `b` in alphabetical order, or equals it.
pub fn precedes(a: &str, b: &str) -> (ordered: bool)
    ensures
        ordered == lex_le(a@, b@),
{
    let mut left = a.chars();
    let mut right = b.chars();
    loop
        invariant
            lex_le(left.remaining(), right.remaining()) == lex_le(a@, b@),
            left.decrease() is Some,
        decreases left.decrease()->0,
    {
        match left.next() {
            None => {
                return true;
            },
            Some(x) => match right.next() {
                None => {
                    return false;
                },
                Some(y) => {
                    if x != y {
                        return x < y;
                    }
                },
            },
        }
    }
}

/// A sorted sequence stays sorted when a text goes in behind everything that
/// precedes it and before everything that it precedes.
proof fn lemma_insert_keeps_sorted(s: Seq<Seq<char>>, p: int, x: Seq<char>)
    requires
        sorted_by(s, alphabetical()),
        0 <= p <= s.len(),
        forall|k: int| 0 <= k < p ==> lex_le(#[trigger] s[k], x),
        forall|k: int| p <= k < s.len() ==> lex_le(x, #[trigger] s[k]),
    ensures
        sorted_by(s.insert(p, x), alphabetical()),
{
    let t = s.insert(p, x);
    assert forall|i: int, j: int| 0 <= i < j < t.len() implies #[trigger] alphabetical()(
        t[i],
        t[j],
    ) by {
        // Each of the two is `x` or an element of `s`, shifted by one behind `p`.
        let from = |k: int| if k < p { k } else { k - 1 };
        if i != p && j != p {
            assert(alphabetical()(s[from(i)], s[from(j)]));
        }
    }
}

/// A copy of `items` in alphabetical order.
pub fn sort_alphabetically(items: &Vec<String>) -> (out: Vec<String>)
    ensures
        sorted_by(out.deep_view(), alphabetical()),
        out.deep_view().to_multiset() == items.deep_view().to_multiset(),
{
    let mut out: Vec<String> = Vec::new();
    let mut i: usize = 0;
    proof {
        assert(items.deep_view().take(0) =~= out.deep_view());
    }
    while i < items.len()
        invariant
            i <= items.len(),
            sorted_by(out.deep_view(), alphabetical()),
            out.deep_view().to_multiset() == items.deep_view().take(i as int).to_multiset(),
        decreases items.len() - i,
    {
        let item = items[i].clone();
        let mut p: usize = out.len();
        while p > 0 && !precedes(out[p - 1].as_str(), item.as_str())
            invariant
                p <= out.len(),
                forall|k: int| p <= k < out.len() ==> lex_le(item@, #[trigger] out.deep_view()[k]),
            decreases p,
        {
            proof {
                lemma_lex_le_total(out.deep_view()[p - 1], item@);
            }
            p -= 1;
        }
        let ghost before = out.deep_view();
        proof {
            assert forall|k: int| 0 <= k < p implies lex_le(#[trigger] before[k], item@) by {
                if k < p - 1 {
                    assert(alphabetical()(before[k], before[p - 1]));
                    lemma_lex_le_transitive(before[k], before[p - 1], item@);
                }
            }
            lemma_insert_keeps_sorted(before, p as int, item@);
            vstd::seq_lib::to_multiset_insert(before, p as int, item@);
            let seen = items.deep_view().take(i as int);
            assert(items.deep_view().take(i + 1) =~= seen.push(item@));
            vstd::seq_lib::to_multiset_build(seen, item@);
        }
        out.insert(p, item);
        proof {
            assert(out.deep_view() =~= before.insert(p as int, item@));
        }
        i += 1;
    }
    proof {
        assert(items.deep_view().take(i as int) =~= items.deep_view());
    }
    out
}

} // verus!
