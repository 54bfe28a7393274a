//! The value-with-provenance record that every search works on, and what it
//! means for a selection of such records to answer a goal.

use vstd::prelude::*;
use vstd::seq_lib::*;

verus! {

/// A number together with the position it had in the caller's input.
#[derive(Clone, Debug)]
pub struct NumberEntry {
    pub value: u64,
    pub original_index: usize,
}

/// What a search is asked for: the sum to reach and the bounds on how many
/// entries a selection may use.
pub struct Goal {
    pub target: u64,
    pub min_count: usize,
    pub max_count: usize,
}

/// The sum of the values of `s`, as a mathematical integer.
pub open spec fn values_sum(s: Seq<NumberEntry>) -> int
    decreases s.len(),
{
    if s.len() == 0 {
        0
    } else {
        values_sum(s.drop_last()) + s.last().value
    }
}

/// `c` takes its entries from `pool`, none more often than `pool` holds it.
pub open spec fn drawn_from(c: Seq<NumberEntry>, pool: Seq<NumberEntry>) -> bool {
    c.to_multiset().subset_of(pool.to_multiset())
}

/// The entries of `c` stand in the order of their original positions.
pub open spec fn ordered_by_index(c: Seq<NumberEntry>) -> bool {
    forall|i: int, j: int|
        0 <= i <= j < c.len() ==> (#[trigger] c[i]).original_index <= (#[trigger] c[j]).original_index
}

/// No two places of `s` carry the same original position.
pub open spec fn distinct_indices(s: Seq<NumberEntry>) -> bool {
    forall|i: int, j: int|
        0 <= i < j < s.len() ==> (#[trigger] s[i]).original_index != (#[trigger] s[j]).original_index
}

/// `c` is a selection from `pool` that meets the goal: it sums to the target
/// and its length lies within the count bounds.
pub open spec fn is_combination(c: Seq<NumberEntry>, pool: Seq<NumberEntry>, g: Goal) -> bool {
    &&& drawn_from(c, pool)
    &&& values_sum(c) == g.target
    &&& g.min_count <= c.len() <= g.max_count
}

/// Some selection from `pool` meets the goal.
pub open spec fn solvable(pool: Seq<NumberEntry>, g: Goal) -> bool {
    exists|c: Seq<NumberEntry>| is_combination(c, pool, g)
}

/// Whether a raw number may take part in a search for `target`.
pub open spec fn admitted(v: u64, target: u64) -> bool {
    0 < v <= target
}

/// The entries that `numbers` gives rise to: the admitted numbers in their
/// order, each with the position it has in `numbers`.
pub open spec fn entries_of(numbers: Seq<u64>, target: u64) -> Seq<NumberEntry>
    decreases numbers.len(),
{
    if numbers.len() == 0 {
        Seq::empty()
    } else {
        let rest = entries_of(numbers.drop_last(), target);
        if admitted(numbers.last(), target) {
            rest.push(
                NumberEntry {
                    value: numbers.last(),
                    original_index: (numbers.len() - 1) as usize,
                },
            )
        } else {
            rest
        }
    }
}

/// Copies an entry field by field.
pub fn copy_entry(e: &NumberEntry) -> (r: NumberEntry)
    ensures
        r == *e,
{
    NumberEntry { value: e.value, original_index: e.original_index }
}

/// Copies a combination entry by entry.
pub fn copy_combination(v: &Vec<NumberEntry>) -> (r: Vec<NumberEntry>)
    ensures
        r@ == v@,
{
    let mut out: Vec<NumberEntry> = Vec::new();
    let n = v.len();
    let mut i: usize = 0;
    while i < n
        invariant
            i <= n,
            n == v@.len(),
            out@ == v@.take(i as int),
        decreases n - i,
    {
        out.push(copy_entry(&v[i]));
        proof {
            assert(v@.take(i + 1) =~= v@.take(i as int).push(v@[i as int]));
        }
        i = i + 1;
    }
    proof {
        assert(v@.take(n as int) =~= v@);
    }
    out
}

/// Turns raw numbers into entries, leaving out zeros and numbers above the
/// target and remembering for each kept number where it stood.
pub fn build_entries(numbers: &[u64], target: u64) -> (r: Vec<NumberEntry>)
    ensures
        r@ == entries_of(numbers@, target),
{
    let mut out: Vec<NumberEntry> = Vec::new();
    let n = numbers.len();
    let mut i: usize = 0;
    while i < n
        invariant
            i <= n,
            n == numbers@.len(),
            out@ == entries_of(numbers@.take(i as int), target),
        decreases n - i,
    {
        let v = numbers[i];
        proof {
            assert(numbers@.take(i + 1).drop_last() =~= numbers@.take(i as int));
        }
        if v > 0 && v <= target {
            out.push(NumberEntry { value: v, original_index: i });
        }
        i = i + 1;
    }
    proof {
        assert(numbers@.take(n as int) =~= numbers@);
    }
    out
}

/// A sum of values is never negative.
pub proof fn lemma_values_sum_nonneg(s: Seq<NumberEntry>)
    ensures
        values_sum(s) >= 0,
    decreases s.len(),
{
    if s.len() > 0 {
        lemma_values_sum_nonneg(s.drop_last());
    }
}

/// Taking one entry out lowers the sum by its value.
pub proof fn lemma_values_sum_remove(s: Seq<NumberEntry>, i: int)
    requires
        0 <= i < s.len(),
    ensures
        values_sum(s) == values_sum(s.remove(i)) + s[i].value,
    decreases s.len(),
{
    if i == s.len() - 1 {
        assert(s.remove(i) =~= s.drop_last());
    } else {
        lemma_values_sum_remove(s.drop_last(), i);
        assert(s.remove(i).drop_last() =~= s.drop_last().remove(i));
        assert(s.remove(i).last() == s.last());
    }
}

/// The sum of values does not depend on the order of the entries.
pub proof fn lemma_values_sum_permutation(a: Seq<NumberEntry>, b: Seq<NumberEntry>)
    requires
        a.to_multiset() == b.to_multiset(),
    ensures
        values_sum(a) == values_sum(b),
        a.len() == b.len(),
    decreases a.len(),
{
    a.to_multiset_ensures();
    b.to_multiset_ensures();
    if a.len() > 0 {
        let x = a.last();
        assert(a[a.len() - 1] == x);
        assert(a.contains(x));
        assert(a.to_multiset().count(x) > 0);
        assert(b.to_multiset().count(x) > 0);
        assert(b.contains(x));
        let j = choose|j: int| 0 <= j < b.len() && b[j] == x;
        assert(a.remove(a.len() - 1) =~= a.drop_last());
        assert(a.remove(a.len() - 1).to_multiset() == a.to_multiset().remove(x));
        assert(b.remove(j).to_multiset() == b.to_multiset().remove(x));
        lemma_values_sum_permutation(a.drop_last(), b.remove(j));
        lemma_values_sum_remove(b, j);
    }
}

} // verus!
