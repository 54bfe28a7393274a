//! What does not depend on how entries of equal value are ordered: two
//! arrangements of the same entries in rising order of value show the same
//! values place by place, so the searches walk the same paths over them.

use vstd::prelude::*;
use vstd::seq_lib::*;
use vstd::relations::{sorted_by, total_ordering};
use vstd::multiset::*;
use crate::entry::{NumberEntry, Goal, solvable, is_combination};
use crate::paths::{ascending, tail_sum, head_sum, below, path_sum, lemma_path_sum_push};
use crate::prepared::rules_out;

verus! {

/// The values of the entries, place by place.
pub open spec fn values_of(s: Seq<NumberEntry>) -> Seq<u64> {
    s.map_values(|e: NumberEntry| e.value)
}

/// `s` holds the entries of `pool` in rising order of value.
pub open spec fn is_arrangement(s: Seq<NumberEntry>, pool: Seq<NumberEntry>) -> bool {
    &&& s.to_multiset() == pool.to_multiset()
    &&& ascending(s)
}

/// The instance is ruled out before any search: no entry may be used, or
/// the quick test on the entries in rising order of value fails it.
pub open spec fn ruled_out(pool: Seq<NumberEntry>, g: Goal) -> bool {
    g.max_count < 1 || exists|s: Seq<NumberEntry>|
        is_arrangement(s, pool) && rules_out(s, g.target, g.min_count)
}

/// Entries that are the same up to their order have the same values up to
/// their order.
proof fn lemma_values_multiset(a: Seq<NumberEntry>, b: Seq<NumberEntry>)
    requires
        a.to_multiset() == b.to_multiset(),
    ensures
        values_of(a).to_multiset() == values_of(b).to_multiset(),
    decreases a.len(),
{
    broadcast use group_multiset_axioms;

    a.to_multiset_ensures();
    b.to_multiset_ensures();
    let va = values_of(a);
    let vb = values_of(b);
    if a.len() == 0 {
        assert(va =~= vb);
    } else {
        let x = a.last();
        assert(a[a.len() - 1] == x);
        assert(a.contains(x));
        assert(a.to_multiset().count(x) > 0);
        assert(b.to_multiset().count(x) > 0);
        assert(b.contains(x));
        let j = choose|j: int| 0 <= j < b.len() && b[j] == x;
        let a1 = a.drop_last();
        let b1 = b.remove(j);
        assert(a.remove(a.len() - 1) =~= a1);
        assert(a.remove(a.len() - 1).to_multiset() == a.to_multiset().remove(x));
        assert(b1.to_multiset() == b.to_multiset().remove(x));
        lemma_values_multiset(a1, b1);
        let va1 = values_of(a1);
        let vb1 = values_of(b1);
        va1.to_multiset_ensures();
        vb.to_multiset_ensures();
        assert(va =~= va1.push(x.value));
        assert(vb1 =~= vb.remove(j));
        assert(va.to_multiset() =~= va1.to_multiset().insert(x.value));
        assert(vb1.to_multiset() == vb.to_multiset().remove(vb[j]));
        assert(vb[j] == x.value);
        assert(vb.contains(x.value));
        assert(vb.to_multiset().count(x.value) > 0);
        assert(vb.to_multiset() =~= vb1.to_multiset().insert(x.value));
    }
}

/// Two arrangements of the same entries show the same values place by place.
pub proof fn lemma_arrangements_agree(
    s1: Seq<NumberEntry>,
    s2: Seq<NumberEntry>,
    pool: Seq<NumberEntry>,
)
    requires
        is_arrangement(s1, pool),
        is_arrangement(s2, pool),
    ensures
        values_of(s1) == values_of(s2),
        s1.len() == s2.len(),
{
    lemma_values_multiset(s1, s2);
    let leq = |a: u64, b: u64| a <= b;
    let v1 = values_of(s1);
    let v2 = values_of(s2);
    assert(sorted_by(v1, leq)) by {
        assert forall|i: int, j: int| 0 <= i < j < v1.len() implies #[trigger] leq(v1[i], v1[j]) by {
            assert(s1[i].value <= s1[j].value);
        }
    }
    assert(sorted_by(v2, leq)) by {
        assert forall|i: int, j: int| 0 <= i < j < v2.len() implies #[trigger] leq(v2[i], v2[j]) by {
            assert(s2[i].value <= s2[j].value);
        }
    }
    assert(total_ordering(leq));
    lemma_sorted_unique(v1, v2, leq);
    assert(v1.len() == s1.len());
    assert(v2.len() == s2.len());
}

/// Sequences with the same values have the same sums of heads and tails.
pub proof fn lemma_same_values_sums(s1: Seq<NumberEntry>, s2: Seq<NumberEntry>, i: int)
    requires
        values_of(s1) == values_of(s2),
        0 <= i <= s1.len(),
    ensures
        tail_sum(s1, i) == tail_sum(s2, i),
        head_sum(s1, i) == head_sum(s2, i),
    decreases s1.len() - i, i,
{
    assert(values_of(s1).len() == s1.len());
    assert(values_of(s2).len() == s2.len());
    lemma_same_tail(s1, s2, i);
    lemma_same_head(s1, s2, i);
}

/// Sequences with the same values have the same tail sums.
proof fn lemma_same_tail(s1: Seq<NumberEntry>, s2: Seq<NumberEntry>, i: int)
    requires
        values_of(s1) == values_of(s2),
        s1.len() == s2.len(),
        0 <= i <= s1.len(),
    ensures
        tail_sum(s1, i) == tail_sum(s2, i),
    decreases s1.len() - i,
{
    if i < s1.len() {
        assert(values_of(s1)[i] == s1[i].value);
        assert(values_of(s2)[i] == s2[i].value);
        lemma_same_tail(s1, s2, i + 1);
    }
}

/// Sequences with the same values have the same head sums.
proof fn lemma_same_head(s1: Seq<NumberEntry>, s2: Seq<NumberEntry>, m: int)
    requires
        values_of(s1) == values_of(s2),
        s1.len() == s2.len(),
        0 <= m <= s1.len(),
    ensures
        head_sum(s1, m) == head_sum(s2, m),
    decreases m,
{
    if m > 0 {
        assert(values_of(s1)[m - 1] == s1[m - 1].value);
        assert(values_of(s2)[m - 1] == s2[m - 1].value);
        lemma_same_head(s1, s2, m - 1);
    }
}

/// The quick test gives the same answer on sequences with the same values.
pub proof fn lemma_same_values_rules_out(
    s1: Seq<NumberEntry>,
    s2: Seq<NumberEntry>,
    target: u64,
    min_count: usize,
)
    requires
        values_of(s1) == values_of(s2),
    ensures
        rules_out(s1, target, min_count) == rules_out(s2, target, min_count),
{
    assert(values_of(s1).len() == s1.len());
    assert(values_of(s2).len() == s2.len());
    lemma_same_values_sums(s1, s2, 0);
    if min_count <= s1.len() {
        lemma_same_values_sums(s1, s2, min_count as int);
    }
}

/// The walk reports the same paths over sequences with the same values.
pub proof fn lemma_same_values_below(
    s1: Seq<NumberEntry>,
    s2: Seq<NumberEntry>,
    g: Goal,
    p: Seq<usize>,
    i: int,
)
    requires
        values_of(s1) == values_of(s2),
        s1.len() <= usize::MAX,
        path_sum(s1, p) == path_sum(s2, p),
    ensures
        below(s1, g, p, i) == below(s2, g, p, i),
    decreases s1.len() - i,
{
    assert(values_of(s1).len() == s1.len());
    assert(values_of(s2).len() == s2.len());
    if 0 <= i < s1.len() {
        let q = p.push(i as usize);
        assert(values_of(s1)[i] == s1[i].value);
        assert(values_of(s2)[i] == s2[i].value);
        lemma_path_sum_push(s1, p, i as usize);
        lemma_path_sum_push(s2, p, i as usize);
        lemma_same_values_below(s1, s2, g, q, i + 1);
        lemma_same_values_below(s1, s2, g, p, i + 1);
    }
}

/// Whether an instance is ruled out can be read off any one arrangement of
/// its entries.
pub proof fn lemma_ruled_out(s: Seq<NumberEntry>, pool: Seq<NumberEntry>, g: Goal)
    requires
        is_arrangement(s, pool),
    ensures
        ruled_out(pool, g) == (g.max_count < 1 || rules_out(s, g.target, g.min_count)),
{
    if ruled_out(pool, g) && g.max_count >= 1 {
        let s2 = choose|s2: Seq<NumberEntry>|
            is_arrangement(s2, pool) && rules_out(s2, g.target, g.min_count);
        lemma_arrangements_agree(s, s2, pool);
        lemma_same_values_rules_out(s, s2, g.target, g.min_count);
    }
}

/// Whether a goal can be met depends on the entries only, not on their order.
pub proof fn lemma_solvable_any_order(a: Seq<NumberEntry>, b: Seq<NumberEntry>, g: Goal)
    requires
        a.to_multiset() == b.to_multiset(),
    ensures
        solvable(a, g) == solvable(b, g),
{
    if solvable(a, g) {
        let c = choose|c: Seq<NumberEntry>| is_combination(c, a, g);
        assert(is_combination(c, b, g));
    }
    if solvable(b, g) {
        let c = choose|c: Seq<NumberEntry>| is_combination(c, b, g);
        assert(is_combination(c, a, g));
    }
}

} // verus!
