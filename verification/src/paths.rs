//! Selections written as index paths into a sequence of entries, the
//! depth-first enumeration of the paths that meet a goal, and the facts that
//! allow a search to skip parts of it.

use vstd::prelude::*;
use vstd::seq_lib::*;
use vstd::multiset::*;
use crate::entry::{NumberEntry, Goal, values_sum, drawn_from, is_combination, solvable};
use crate::entry::{lemma_values_sum_remove};

verus! {

/// `p` lists places of a sequence of length `n` in strictly rising order.
pub open spec fn is_path(p: Seq<usize>, n: nat) -> bool {
    &&& forall|k: int| 0 <= k < p.len() ==> (#[trigger] p[k]) < n
    &&& forall|j: int, k: int| 0 <= j < k < p.len() ==> (#[trigger] p[j]) < (#[trigger] p[k])
}

/// The sum of the values that `p` picks from `s`.
pub open spec fn path_sum(s: Seq<NumberEntry>, p: Seq<usize>) -> int
    decreases p.len(),
{
    if p.len() == 0 {
        0
    } else {
        path_sum(s, p.drop_last()) + s[p.last() as int].value
    }
}

/// The entries that `p` picks from `s`, in the order of `p`.
pub open spec fn select(s: Seq<NumberEntry>, p: Seq<usize>) -> Seq<NumberEntry> {
    Seq::new(p.len(), |k: int| s[p[k] as int])
}

/// `p` meets the goal: it sums to the target with an allowed number of places.
pub open spec fn hits(s: Seq<NumberEntry>, g: Goal, p: Seq<usize>) -> bool {
    &&& path_sum(s, p) == g.target
    &&& g.min_count <= p.len() <= g.max_count
}

/// The values of `s` never fall from one place to the next.
pub open spec fn ascending(s: Seq<NumberEntry>) -> bool {
    forall|i: int, j: int| 0 <= i <= j < s.len() ==> (#[trigger] s[i]).value <= (#[trigger] s[j]).value
}

/// Every value of `s` is above zero.
pub open spec fn all_positive(s: Seq<NumberEntry>) -> bool {
    forall|i: int| 0 <= i < s.len() ==> (#[trigger] s[i]).value > 0
}

/// The sum of the values from place `i` to the end.
pub open spec fn tail_sum(s: Seq<NumberEntry>, i: int) -> int
    decreases s.len() - i,
{
    if i < 0 || i >= s.len() {
        0
    } else {
        s[i].value + tail_sum(s, i + 1)
    }
}

/// The sum of the first `m` values.
pub open spec fn head_sum(s: Seq<NumberEntry>, m: int) -> int
    decreases m,
{
    if m <= 0 {
        0
    } else {
        head_sum(s, m - 1) + s[m - 1].value
    }
}

/// The paths that a depth-first walk reports when it stands at `p` and may
/// next pick any place from `i` on: for each such place in turn, the extended
/// path itself if it meets the goal, else what lies below it.
pub open spec fn below(s: Seq<NumberEntry>, g: Goal, p: Seq<usize>, i: int) -> Seq<Seq<usize>>
    decreases s.len() - i,
{
    if i < 0 || i >= s.len() {
        Seq::empty()
    } else {
        let q = p.push(i as usize);
        (if hits(s, g, q) {
            seq![q]
        } else {
            below(s, g, q, i + 1)
        }) + below(s, g, p, i + 1)
    }
}

/// What the walk reports from `p` on, `p` itself included if it meets the goal.
pub open spec fn from_node(s: Seq<NumberEntry>, g: Goal, p: Seq<usize>, i: int) -> Seq<Seq<usize>> {
    if hits(s, g, p) {
        seq![p]
    } else {
        below(s, g, p, i)
    }
}

/// No path into `s` meets the goal.
pub open spec fn no_hit(s: Seq<NumberEntry>, g: Goal) -> bool {
    forall|q: Seq<usize>| is_path(q, s.len()) ==> !hits(s, g, q)
}

/// Taking one more place adds its value to the sum.
pub proof fn lemma_path_sum_push(s: Seq<NumberEntry>, p: Seq<usize>, i: usize)
    ensures
        path_sum(s, p.push(i)) == path_sum(s, p) + s[i as int].value,
{
    assert(p.push(i).drop_last() =~= p);
}

/// The sum over a path is never negative.
pub proof fn lemma_path_sum_nonneg(s: Seq<NumberEntry>, p: Seq<usize>)
    ensures
        path_sum(s, p) >= 0,
    decreases p.len(),
{
    if p.len() > 0 {
        lemma_path_sum_nonneg(s, p.drop_last());
    }
}

/// A tail sum is never negative.
pub proof fn lemma_tail_sum_nonneg(s: Seq<NumberEntry>, i: int)
    ensures
        tail_sum(s, i) >= 0,
    decreases s.len() - i,
{
    if 0 <= i < s.len() {
        lemma_tail_sum_nonneg(s, i + 1);
    }
}

/// A path that rises strictly stays at or above its own positions.
pub proof fn lemma_path_rises(p: Seq<usize>, n: nat, k: int)
    requires
        is_path(p, n),
        0 <= k < p.len(),
    ensures
        p[k] >= k,
    decreases k,
{
    if k > 0 {
        lemma_path_rises(p, n, k - 1);
    }
}

/// The selected entries sum to the path's sum.
pub proof fn lemma_select_sum(s: Seq<NumberEntry>, p: Seq<usize>)
    ensures
        values_sum(select(s, p)) == path_sum(s, p),
    decreases p.len(),
{
    if p.len() > 0 {
        lemma_select_sum(s, p.drop_last());
        assert(select(s, p).drop_last() =~= select(s, p.drop_last()));
    }
}

/// A proper beginning of a path over positive values sums to less.
pub proof fn lemma_path_sum_prefix(s: Seq<NumberEntry>, p: Seq<usize>, k: int)
    requires
        all_positive(s),
        is_path(p, s.len()),
        0 <= k < p.len(),
    ensures
        path_sum(s, p.take(k)) < path_sum(s, p),
    decreases p.len(),
{
    lemma_path_sum_nonneg(s, p.drop_last());
    if k == p.len() - 1 {
        assert(p.take(k) =~= p.drop_last());
    } else {
        lemma_path_sum_prefix(s, p.drop_last(), k);
        assert(p.drop_last().take(k) =~= p.take(k));
    }
}

/// A path that avoids the last place sums the same without that place.
proof fn lemma_path_sum_shorter(s: Seq<NumberEntry>, p: Seq<usize>)
    requires
        s.len() > 0,
        is_path(p, (s.len() - 1) as nat),
    ensures
        path_sum(s.drop_last(), p) == path_sum(s, p),
    decreases p.len(),
{
    if p.len() > 0 {
        lemma_path_sum_shorter(s, p.drop_last());
    }
}

/// The entries picked by a path are drawn from the sequence.
pub proof fn lemma_select_drawn(s: Seq<NumberEntry>, p: Seq<usize>)
    requires
        is_path(p, s.len()),
    ensures
        drawn_from(select(s, p), s),
    decreases s.len(),
{
    broadcast use group_multiset_axioms;

    let c = select(s, p);
    c.to_multiset_ensures();
    s.to_multiset_ensures();
    if p.len() == 0 {
        assert forall|v: NumberEntry| c.to_multiset().count(v) <= s.to_multiset().count(v) by {
            if c.to_multiset().count(v) > 0 {
                assert(c.contains(v));
            }
        }
    } else {
        assert(p[0] < s.len());
        let n = s.len();
        let x = s.last();
        let s1 = s.drop_last();
        s1.to_multiset_ensures();
        assert(s1.push(x) =~= s);
        assert(s.to_multiset() =~= s1.to_multiset().insert(x));
        if p.last() == n - 1 {
            let shorter = p.drop_last();
            lemma_select_drawn(s1, shorter);
            let c1 = select(s1, shorter);
            c1.to_multiset_ensures();
            assert(c =~= c1.push(x));
            assert(c.to_multiset() =~= c1.to_multiset().insert(x));
        } else {
            assert(is_path(p, s1.len())) by {
                assert forall|k: int| 0 <= k < p.len() implies (#[trigger] p[k]) < s1.len() by {
                    assert(p[k] <= p[p.len() - 1]);
                }
            }
            lemma_select_drawn(s1, p);
            assert(c =~= select(s1, p));
        }
    }
}

/// Whatever is drawn from a sequence can be picked by a path of the same
/// length and the same sum.
pub proof fn lemma_drawn_has_path(c: Seq<NumberEntry>, s: Seq<NumberEntry>) -> (p: Seq<usize>)
    requires
        drawn_from(c, s),
        s.len() <= usize::MAX,
    ensures
        is_path(p, s.len()),
        p.len() == c.len(),
        path_sum(s, p) == values_sum(c),
    decreases s.len(),
{
    broadcast use group_multiset_axioms;

    c.to_multiset_ensures();
    s.to_multiset_ensures();
    if s.len() == 0 {
        if c.len() > 0 {
            assert(c.contains(c[0]));
            assert(c.to_multiset().count(c[0]) > 0);
            assert(s.to_multiset().count(c[0]) > 0);
            assert(s.contains(c[0]));
        }
        Seq::empty()
    } else {
        let n = s.len();
        let x = s.last();
        let s1 = s.drop_last();
        s1.to_multiset_ensures();
        assert(s1.push(x) =~= s);
        assert(s.to_multiset() =~= s1.to_multiset().insert(x));
        if c.to_multiset().count(x) <= s1.to_multiset().count(x) {
            assert(c.to_multiset().subset_of(s1.to_multiset())) by {
                assert forall|v: NumberEntry| c.to_multiset().count(v) <= s1.to_multiset().count(
                    v,
                ) by {
                    assert(c.to_multiset().count(v) <= s.to_multiset().count(v));
                }
            }
            let p = lemma_drawn_has_path(c, s1);
            lemma_path_sum_shorter(s, p);
            p
        } else {
            assert(c.to_multiset().count(x) > 0);
            assert(c.contains(x));
            let j = choose|j: int| 0 <= j < c.len() && c[j] == x;
            let c1 = c.remove(j);
            assert(c1.to_multiset() == c.to_multiset().remove(x));
            assert(c1.to_multiset().subset_of(s1.to_multiset())) by {
                assert forall|v: NumberEntry| c1.to_multiset().count(v) <= s1.to_multiset().count(
                    v,
                ) by {
                    assert(c.to_multiset().count(v) <= s.to_multiset().count(v));
                }
            }
            let shorter = lemma_drawn_has_path(c1, s1);
            lemma_path_sum_shorter(s, shorter);
            lemma_values_sum_remove(c, j);
            let last: usize = (n - 1) as usize;
            lemma_path_sum_push(s, shorter, last);
            shorter.push(last)
        }
    }
}

/// Once a path sums above the target nothing below it is reported.
pub proof fn lemma_below_overshoot(s: Seq<NumberEntry>, g: Goal, p: Seq<usize>, i: int)
    requires
        path_sum(s, p) > g.target,
    ensures
        below(s, g, p, i) =~= Seq::empty(),
    decreases s.len() - i,
{
    if 0 <= i < s.len() {
        let q = p.push(i as usize);
        lemma_path_sum_push(s, p, i as usize);
        lemma_below_overshoot(s, g, q, i + 1);
        lemma_below_overshoot(s, g, p, i + 1);
    }
}

/// Where the values rise and the value at `i` is more than is left to reach
/// the target, nothing is reported from `i` on.
pub proof fn lemma_prune_value(s: Seq<NumberEntry>, g: Goal, p: Seq<usize>, i: int)
    requires
        ascending(s),
        0 <= i < s.len() <= usize::MAX,
        path_sum(s, p) + s[i].value > g.target,
    ensures
        below(s, g, p, i) =~= Seq::empty(),
    decreases s.len() - i,
{
    let q = p.push(i as usize);
    lemma_path_sum_push(s, p, i as usize);
    lemma_below_overshoot(s, g, q, i + 1);
    if i + 1 < s.len() {
        lemma_prune_value(s, g, p, i + 1);
    } else {
        assert(below(s, g, p, i + 1) =~= Seq::empty());
    }
}

/// Where all the values from `i` on together cannot reach the target,
/// nothing is reported from `i` on.
pub proof fn lemma_prune_tail(s: Seq<NumberEntry>, g: Goal, p: Seq<usize>, i: int)
    requires
        0 <= i,
        s.len() <= usize::MAX,
        path_sum(s, p) + tail_sum(s, i) < g.target,
    ensures
        below(s, g, p, i) =~= Seq::empty(),
    decreases s.len() - i,
{
    if i < s.len() {
        let q = p.push(i as usize);
        lemma_path_sum_push(s, p, i as usize);
        lemma_tail_sum_nonneg(s, i + 1);
        lemma_prune_tail(s, g, q, i + 1);
        lemma_prune_tail(s, g, p, i + 1);
    }
}

/// Where too few places are left to reach the lower count bound, nothing is
/// reported from `i` on.
pub proof fn lemma_prune_count(s: Seq<NumberEntry>, g: Goal, p: Seq<usize>, i: int)
    requires
        0 <= i,
        p.len() + (s.len() - i) < g.min_count,
    ensures
        below(s, g, p, i) =~= Seq::empty(),
    decreases s.len() - i,
{
    if i < s.len() {
        let q = p.push(i as usize);
        lemma_prune_count(s, g, q, i + 1);
        lemma_prune_count(s, g, p, i + 1);
    }
}

/// A path that has used up the upper count bound has nothing below it.
pub proof fn lemma_prune_depth(s: Seq<NumberEntry>, g: Goal, p: Seq<usize>, i: int)
    requires
        p.len() >= g.max_count,
    ensures
        below(s, g, p, i) =~= Seq::empty(),
    decreases s.len() - i,
{
    if 0 <= i < s.len() {
        let q = p.push(i as usize);
        lemma_prune_depth(s, g, q, i + 1);
        lemma_prune_depth(s, g, p, i + 1);
    }
}

/// Every reported path meets the goal and extends the path the walk stood at
/// by a place from `i` on.
pub proof fn lemma_below_sound(s: Seq<NumberEntry>, g: Goal, p: Seq<usize>, i: int, k: int)
    requires
        is_path(p, s.len()),
        s.len() <= usize::MAX,
        0 <= i,
        p.len() > 0 ==> p.last() < i,
        0 <= k < below(s, g, p, i).len(),
    ensures
        is_path(below(s, g, p, i)[k], s.len()),
        hits(s, g, below(s, g, p, i)[k]),
        below(s, g, p, i)[k].len() > p.len(),
        below(s, g, p, i)[k].take(p.len() as int) == p,
        below(s, g, p, i)[k][p.len() as int] >= i,
    decreases s.len() - i,
{
    if i < s.len() {
        let q = p.push(i as usize);
        assert(is_path(q, s.len()));
        let first = if hits(s, g, q) {
            seq![q]
        } else {
            below(s, g, q, i + 1)
        };
        let r = below(s, g, p, i)[k];
        if k < first.len() {
            assert(r == first[k]);
            if hits(s, g, q) {
                assert(q.take(p.len() as int) =~= p);
            } else {
                lemma_below_sound(s, g, q, i + 1, k);
                assert(r.take(p.len() as int) =~= r.take(q.len() as int).take(p.len() as int));
                assert(q.take(p.len() as int) =~= p);
                assert(r[p.len() as int] == r.take(q.len() as int)[p.len() as int]);
            }
        } else {
            assert(r == below(s, g, p, i + 1)[k - first.len()]);
            lemma_below_sound(s, g, p, i + 1, k - first.len());
        }
    }
}

/// No path is reported twice.
pub proof fn lemma_below_distinct(
    s: Seq<NumberEntry>,
    g: Goal,
    p: Seq<usize>,
    i: int,
    a: int,
    b: int,
)
    requires
        is_path(p, s.len()),
        s.len() <= usize::MAX,
        0 <= i,
        p.len() > 0 ==> p.last() < i,
        0 <= a < b < below(s, g, p, i).len(),
    ensures
        below(s, g, p, i)[a] != below(s, g, p, i)[b],
    decreases s.len() - i,
{
    if i < s.len() {
        let q = p.push(i as usize);
        assert(is_path(q, s.len()));
        let first = if hits(s, g, q) {
            seq![q]
        } else {
            below(s, g, q, i + 1)
        };
        let second = below(s, g, p, i + 1);
        let all = below(s, g, p, i);
        assert(all == first + second);
        if b < first.len() {
            assert(all[a] == first[a]);
            assert(all[b] == first[b]);
            lemma_below_distinct(s, g, q, i + 1, a, b);
        } else if a >= first.len() {
            assert(all[a] == second[a - first.len()]);
            assert(all[b] == second[b - first.len()]);
            lemma_below_distinct(s, g, p, i + 1, a - first.len(), b - first.len());
        } else {
            assert(all[a] == first[a]);
            assert(all[b] == second[b - first.len()]);
            lemma_below_sound(s, g, p, i + 1, b - first.len());
            if hits(s, g, q) {
                assert(all[a] == q);
            } else {
                lemma_below_sound(s, g, q, i + 1, a);
                assert(all[a].take(q.len() as int)[p.len() as int] == q[p.len() as int]);
            }
            assert(all[a][p.len() as int] == i);
            assert(all[b][p.len() as int] >= i + 1);
        }
    }
}

/// Where some path that meets the goal extends `p` by a place from `i` on,
/// the walk reports at least one path.
pub proof fn lemma_below_complete(
    s: Seq<NumberEntry>,
    g: Goal,
    p: Seq<usize>,
    i: int,
    q: Seq<usize>,
)
    requires
        is_path(q, s.len()),
        hits(s, g, q),
        s.len() <= usize::MAX,
        q.len() > p.len(),
        q.take(p.len() as int) == p,
        0 <= i <= q[p.len() as int],
    ensures
        below(s, g, p, i).len() > 0,
    decreases s.len() - i,
{
    let j = q[p.len() as int];
    let q1 = p.push(i as usize);
    if j == i {
        assert(q.take(p.len() as int + 1) =~= q1) by {
            assert forall|k: int| 0 <= k < p.len() implies q[k] == p[k] by {
                assert(q.take(p.len() as int)[k] == q[k]);
            }
        }
        if !hits(s, g, q1) {
            if q.len() == p.len() + 1 {
                assert(q.take(p.len() as int + 1) =~= q);
            }
            lemma_below_complete(s, g, q1, i + 1, q);
        }
    } else {
        lemma_below_complete(s, g, p, i + 1, q);
    }
}

/// Over positive values the walk reports every path that meets the goal and
/// extends `p` by a place from `i` on.
pub proof fn lemma_below_lists(
    s: Seq<NumberEntry>,
    g: Goal,
    p: Seq<usize>,
    i: int,
    q: Seq<usize>,
)
    requires
        all_positive(s),
        is_path(q, s.len()),
        hits(s, g, q),
        s.len() <= usize::MAX,
        q.len() > p.len(),
        q.take(p.len() as int) == p,
        0 <= i <= q[p.len() as int],
    ensures
        below(s, g, p, i).contains(q),
    decreases s.len() - i,
{
    let j = q[p.len() as int];
    let q1 = p.push(i as usize);
    let first = if hits(s, g, q1) {
        seq![q1]
    } else {
        below(s, g, q1, i + 1)
    };
    let second = below(s, g, p, i + 1);
    assert(i < s.len());
    assert(below(s, g, p, i) == first + second);
    if j == i {
        assert(q.take(p.len() as int + 1) =~= q1) by {
            assert forall|k: int| 0 <= k < p.len() implies q[k] == p[k] by {
                assert(q.take(p.len() as int)[k] == q[k]);
            }
        }
        if q.len() == p.len() + 1 {
            assert(q.take(p.len() as int + 1) =~= q);
            assert(first[0] == q);
            assert((first + second)[0] == q);
        } else {
            lemma_path_sum_prefix(s, q, p.len() as int + 1);
            assert(!hits(s, g, q1));
            lemma_below_lists(s, g, q1, i + 1, q);
            let k = choose|k: int| 0 <= k < first.len() && first[k] == q;
            assert((first + second)[k] == q);
        }
    } else {
        lemma_below_lists(s, g, p, i + 1, q);
        let k = choose|k: int| 0 <= k < second.len() && second[k] == q;
        assert((first + second)[first.len() + k] == q);
    }
}

/// Over rising values a path of at least `m` places sums to no less than the
/// first `m` values do.
pub proof fn lemma_floor(s: Seq<NumberEntry>, q: Seq<usize>, m: int)
    requires
        ascending(s),
        is_path(q, s.len()),
        0 <= m <= q.len(),
    ensures
        path_sum(s, q) >= head_sum(s, m),
    decreases q.len(),
{
    if m > 0 {
        let q1 = q.drop_last();
        lemma_path_sum_nonneg(s, q1);
        if q.len() == m {
            lemma_floor(s, q1, m - 1);
            lemma_path_rises(q, s.len(), m - 1);
        } else {
            lemma_floor(s, q1, m);
        }
    } else {
        lemma_path_sum_nonneg(s, q);
    }
}

/// A walk from the empty path that reports nothing, where the empty path
/// does not meet the goal either, shows that no path does.
pub proof fn lemma_exhausted(s: Seq<NumberEntry>, g: Goal)
    requires
        s.len() <= usize::MAX,
        from_node(s, g, Seq::empty(), 0).len() == 0,
    ensures
        no_hit(s, g),
{
    let e = Seq::<usize>::empty();
    assert forall|q: Seq<usize>| is_path(q, s.len()) implies !hits(s, g, q) by {
        if hits(s, g, q) {
            if q.len() == 0 {
                assert(q =~= e);
            } else {
                assert(q.take(0) =~= e);
                lemma_below_complete(s, g, e, 0, q);
            }
        }
    }
}

/// Where no path meets the goal, no selection does.
pub proof fn lemma_no_hit_unsolvable(s: Seq<NumberEntry>, g: Goal)
    requires
        s.len() <= usize::MAX,
        no_hit(s, g),
    ensures
        !solvable(s, g),
{
    assert forall|c: Seq<NumberEntry>| !is_combination(c, s, g) by {
        if is_combination(c, s, g) {
            let p = lemma_drawn_has_path(c, s);
            assert(hits(s, g, p));
        }
    }
}

/// A path that meets the goal picks a selection that does.
pub proof fn lemma_hit_is_combination(s: Seq<NumberEntry>, g: Goal, p: Seq<usize>)
    requires
        is_path(p, s.len()),
        hits(s, g, p),
    ensures
        is_combination(select(s, p), s, g),
{
    lemma_select_drawn(s, p);
    lemma_select_sum(s, p);
}

} // verus!
