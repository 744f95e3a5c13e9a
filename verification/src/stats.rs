//! Figures of a list of numbers: its sum, its mean, its median, and how often
//! its most frequent number occurs.

use std::collections::HashMap;
use vstd::prelude::*;
use vstd::relations::sorted_by;
use vstd::seq_lib::{lemma_sorted_unique, to_multiset_build, to_multiset_insert, to_multiset_len};

verus! {

/// The sum of `values`.
pub open spec fn total(values: Seq<usize>) -> nat
    decreases values.len(),
{
    if values.len() == 0 {
        0
    } else {
        total(values.drop_last()) + values.last() as nat
    }
}

/// The sum of the first numbers of a list is no more than the sum of all.
pub proof fn lemma_total_of_prefix(values: Seq<usize>, n: int)
    requires
        0 <= n <= values.len(),
    ensures
        total(values.take(n)) <= total(values),
    decreases values.len(),
{
    if n == values.len() {
        assert(values.take(n) =~= values);
    } else {
        lemma_total_of_prefix(values.drop_last(), n);
        assert(values.drop_last().take(n) =~= values.take(n));
    }
}

/// Adds up `values`. The sum has to fit the machine's word.
pub fn sum(values: &Vec<usize>) -> (result: usize)
    requires
        total(values@) <= usize::MAX,
    ensures
        result == total(values@),
{
    let mut result: usize = 0;
    let mut i: usize = 0;
    while i < values.len()
        invariant
            i <= values.len(),
            result == total(values@.take(i as int)),
            total(values@) <= usize::MAX,
        decreases values.len() - i,
    {
        proof {
            lemma_total_of_prefix(values@, i + 1);
            assert(values@.take(i + 1).drop_last() =~= values@.take(i as int));
        }
        result = result + values[i];
        i += 1;
    }
    proof {
        assert(values@.take(i as int) =~= values@);
    }
    result
}

/// The mean of `values`, rounded down. There has to be a number in
/// `values`, and their sum has to fit the machine's word.
pub fn mean(values: &Vec<usize>) -> (result: usize)
    requires
        values.len() > 0,
        total(values@) <= usize::MAX,
    ensures
        result == total(values@) / (values.len() as nat),
{
    sum(values) / values.len()
}

/// The order of numbers by size, as a relation.
pub open spec fn by_size() -> spec_fn(usize, usize) -> bool {
    |a: usize, b: usize| a <= b
}

/// A copy of `values` in ascending order.
pub fn sort_by_size(values: &Vec<usize>) -> (out: Vec<usize>)
    ensures
        out@ == values@.sort_by(by_size()),
        sorted_by(out@, by_size()),
        out@.to_multiset() == values@.to_multiset(),
{
    let mut out: Vec<usize> = Vec::new();
    let mut i: usize = 0;
    proof {
        assert(values@.take(0) =~= out@);
    }
    while i < values.len()
        invariant
            i <= values.len(),
            sorted_by(out@, by_size()),
            out@.to_multiset() == values@.take(i as int).to_multiset(),
        decreases values.len() - i,
    {
        let value = values[i];
        let mut p: usize = out.len();
        while p > 0 && out[p - 1] > value
            invariant
                p <= out.len(),
                forall|k: int| p <= k < out.len() ==> value <= #[trigger] out[k],
            decreases p,
        {
            p -= 1;
        }
        let ghost before = out@;
        proof {
            assert forall|k: int| 0 <= k < p implies #[trigger] before[k] <= value by {
                if k < p - 1 {
                    assert(by_size()(before[k], before[p - 1]));
                }
            }
            to_multiset_insert(before, p as int, value);
            assert(values@.take(i + 1) =~= values@.take(i as int).push(value));
            to_multiset_build(values@.take(i as int), value);
        }
        out.insert(p, value);
        proof {
            assert forall|a: int, b: int| 0 <= a < b < out.len() implies #[trigger] by_size()(
                out[a],
                out[b],
            ) by {
                // Each of the two is `value` or an element of `before`,
                // shifted by one behind `p`.
                let from = |k: int| if k < p { k } else { k - 1 };
                if a != p && b != p {
                    assert(by_size()(before[from(a)], before[from(b)]));
                }
            }
        }
        i += 1;
    }
    proof {
        assert(values@.take(i as int) =~= values@);
        values@.lemma_sort_by_ensures(by_size());
        lemma_sorted_unique(out@, values@.sort_by(by_size()), by_size());
    }
    out
}

/// The median of `values`: the number in the middle once they are put in
/// ascending order, and the upper one of the two in the middle where their
/// count is even. There has to be a number in `values`.
pub fn median(values: &Vec<usize>) -> (result: usize)
    requires
        values.len() > 0,
    ensures
        result == values@.sort_by(by_size())[values.len() as int / 2],
{
    let ordered = sort_by_size(values);
    proof {
        to_multiset_len(ordered@);
        to_multiset_len(values@);
    }
    ordered[values.len() / 2]
}

/// How often `value` occurs in `values`.
pub open spec fn occurrences(values: Seq<usize>, value: usize) -> nat {
    values.to_multiset().count(value)
}

/// How often the most frequent number of `values` occurs, or `None` where
/// `values` is empty.
pub fn highest_count(values: &Vec<usize>) -> (highest: Option<usize>)
    ensures
        highest is None <==> values.len() == 0,
        highest matches Some(count) ==> {
            &&& exists|value: usize| occurrences(values@, value) == count
            &&& forall|value: usize| occurrences(values@, value) <= count
        },
{
    broadcast use vstd::std_specs::hash::group_hash_axioms;

    let mut counts: HashMap<usize, usize> = HashMap::new();
    let mut best: usize = 0;
    let mut i: usize = 0;
    proof {
        assert forall|value: usize| occurrences(values@.take(0), value) == 0 by {
            to_multiset_len(values@.take(0));
        }
    }
    while i < values.len()
        invariant
            i <= values.len(),
            best <= i,
            forall|value: usize|
                counts@.contains_key(value) ==> #[trigger] counts@[value] == occurrences(
                    values@.take(i as int),
                    value,
                ),
            forall|value: usize|
                !counts@.contains_key(value) ==> #[trigger] occurrences(
                    values@.take(i as int),
                    value,
                ) == 0,
            forall|value: usize| #[trigger] occurrences(values@.take(i as int), value) <= best,
            i > 0 ==> exists|value: usize| occurrences(values@.take(i as int), value) == best,
        decreases values.len() - i,
    {
        let value = values[i];
        let seen = match counts.get(&value) {
            Some(count) => *count,
            None => 0,
        };
        let ghost earlier = values@.take(i as int);
        proof {
            let later = values@.take(i + 1);
            assert(later =~= earlier.push(value));
            to_multiset_build(earlier, value);
            assert forall|other: usize| #[trigger]
                occurrences(later, other) == occurrences(earlier, other) + if other == value {
                    1nat
                } else {
                    0nat
                } by {
                broadcast use vstd::multiset::group_multiset_axioms;

            }
        }
        let count = seen + 1;
        counts.insert(value, count);
        if count > best {
            best = count;
            proof {
                assert(occurrences(values@.take(i + 1), value) == best);
            }
        } else {
            proof {
                let most = choose|most: usize| occurrences(earlier, most) == best;
                assert(occurrences(values@.take(i + 1), most) == best);
            }
        }
        i += 1;
    }
    proof {
        assert(values@.take(i as int) =~= values@);
    }
    if values.len() == 0 {
        None
    } else {
        Some(best)
    }
}

} // verus!
