//! Preparation of the entries for a search: the entries in rising order of
//! value, the sums of their tails, and the quick test that rules an instance
//! out before any search starts.

use vstd::prelude::*;
use vstd::seq_lib::*;
use crate::entry::{NumberEntry, Goal, copy_entry, ordered_by_index, is_combination};
use crate::entry::lemma_values_sum_permutation;
use crate::paths::{ascending, tail_sum, head_sum, below, hits, is_path, no_hit, select};
use crate::paths::{lemma_tail_sum_nonneg, lemma_prune_tail, lemma_prune_count, lemma_below_sound,
    lemma_floor, lemma_exhausted, lemma_hit_is_combination};

verus! {

/// The field by which entries are put in order.
#[derive(Clone, Copy)]
enum SortKey {
    Value,
    OriginalIndex,
}

/// The key of an entry under the chosen order.
spec fn key_of(e: NumberEntry, k: SortKey) -> int {
    match k {
        SortKey::Value => e.value as int,
        SortKey::OriginalIndex => e.original_index as int,
    }
}

/// The keys of `s` never fall from one place to the next.
spec fn ordered_by(s: Seq<NumberEntry>, k: SortKey) -> bool {
    forall|i: int, j: int| 0 <= i <= j < s.len() ==> key_of(#[trigger] s[i], k) <= key_of(#[trigger] s[j], k)
}

/// Reads the key of an entry under the chosen order.
fn sort_key(e: &NumberEntry, k: SortKey) -> (r: u64)
    ensures
        r == key_of(*e, k),
{
    match k {
        SortKey::Value => e.value,
        SortKey::OriginalIndex => e.original_index as u64,
    }
}

/// Calls `sort_unstable_by_key` of the standard library's slices with the
/// chosen field as the key. Believed of it, not proved: afterwards the vector
/// holds the same entries as before, each as often as before, and their keys
/// never fall from one place to the next. Nothing is claimed of the order
/// among entries with equal keys.
#[verifier::external_body]
fn sort_entries(v: &mut Vec<NumberEntry>, k: SortKey)
    ensures
        final(v)@.to_multiset() == old(v)@.to_multiset(),
        ordered_by(final(v)@, k),
{
    v.sort_unstable_by_key(|e| sort_key(e, k));
}

/// Puts the entries in rising order of value.
pub(crate) fn sort_by_value(v: &mut Vec<NumberEntry>)
    ensures
        final(v)@.to_multiset() == old(v)@.to_multiset(),
        ascending(final(v)@),
{
    sort_entries(v, SortKey::Value);
    proof {
        let s = v@;
        assert forall|i: int, j: int| 0 <= i <= j < s.len() implies (#[trigger] s[i]).value <= (
        #[trigger] s[j]).value by {
            assert(key_of(s[i], SortKey::Value) <= key_of(s[j], SortKey::Value));
        }
    }
}

/// Puts the entries in the order of their original positions.
pub(crate) fn sort_by_index(v: &mut Vec<NumberEntry>)
    ensures
        final(v)@.to_multiset() == old(v)@.to_multiset(),
        ordered_by_index(final(v)@),
{
    sort_entries(v, SortKey::OriginalIndex);
    proof {
        let s = v@;
        assert forall|i: int, j: int| 0 <= i <= j < s.len() implies (#[trigger] s[i]).original_index
            <= (#[trigger] s[j]).original_index by {
            assert(key_of(s[i], SortKey::OriginalIndex) <= key_of(s[j], SortKey::OriginalIndex));
        }
    }
}

/// A sum as a 64-bit counter holds it: the sum itself, or the largest
/// 64-bit value where the sum is beyond it.
pub open spec fn capped(x: int) -> u64 {
    if x > u64::MAX {
        u64::MAX
    } else {
        x as u64
    }
}

/// The quick test that rules an instance out: there are no entries, all of
/// them together stay below the target, fewer entries exist than must be
/// used, or already the smallest `min_count` of them sum above the target.
pub open spec fn rules_out(s: Seq<NumberEntry>, target: u64, min_count: usize) -> bool {
    ||| s.len() == 0
    ||| tail_sum(s, 0) < target
    ||| min_count > s.len()
    ||| head_sum(s, min_count as int) > target
}

/// `c` reports the path `p`: it holds the entries that `p` picks from `s`,
/// put in the order of their original positions.
pub open spec fn reports(c: Seq<NumberEntry>, s: Seq<NumberEntry>, p: Seq<usize>) -> bool {
    &&& c.to_multiset() == select(s, p).to_multiset()
    &&& ordered_by_index(c)
}

/// The combinations in `found` report, one for one and in order, the first
/// paths of `expect`.
pub open spec fn lists(found: Seq<Vec<NumberEntry>>, s: Seq<NumberEntry>, expect: Seq<Seq<usize>>) -> bool {
    &&& found.len() <= expect.len()
    &&& forall|k: int| 0 <= k < found.len() ==> reports((#[trigger] found[k])@, s, expect[k])
}

/// The entries in rising order of value with, for each place, the capped
/// sum of the values from that place on.
pub struct PreparedData {
    sorted: Vec<NumberEntry>,
    suffix_sum: Vec<u64>,
}

impl PreparedData {
    /// The entries in the order in which the searches walk them.
    pub closed spec fn entries(&self) -> Seq<NumberEntry> {
        self.sorted@
    }

    /// The table of tail sums, one for each place and a final zero.
    pub closed spec fn suffix_sums(&self) -> Seq<u64> {
        self.suffix_sum@
    }

    /// The values rise, and the table holds the capped tail sums.
    pub open spec fn wf(&self) -> bool {
        &&& ascending(self.entries())
        &&& self.suffix_sums().len() == self.entries().len() + 1
        &&& forall|i: int|
            0 <= i <= self.entries().len() ==> #[trigger] self.suffix_sums()[i] == capped(
                tail_sum(self.entries(), i),
            )
    }

    /// Every value of the type is in order.
    #[verifier::type_invariant]
    closed spec fn inv(&self) -> bool {
        self.wf()
    }

    /// Sorts a copy of the entries by value and tabulates the tail sums.
    pub fn new(entries: &[NumberEntry]) -> (r: PreparedData)
        ensures
            r.wf(),
            r.entries().to_multiset() == entries@.to_multiset(),
    {
        let n = entries.len();
        let mut sorted: Vec<NumberEntry> = Vec::new();
        let mut k: usize = 0;
        while k < n
            invariant
                k <= n,
                n == entries@.len(),
                sorted@ == entries@.take(k as int),
            decreases n - k,
        {
            sorted.push(copy_entry(&entries[k]));
            proof {
                assert(entries@.take(k + 1) =~= entries@.take(k as int).push(entries@[k as int]));
            }
            k = k + 1;
        }
        proof {
            assert(entries@.take(n as int) =~= entries@);
        }
        sort_by_value(&mut sorted);
        proof {
            sorted@.to_multiset_ensures();
            entries@.to_multiset_ensures();
        }

        let mut suffix_sum: Vec<u64> = Vec::new();
        let mut k: usize = 0;
        while k < n
            invariant
                k <= n,
                suffix_sum@.len() == k,
            decreases n - k,
        {
            suffix_sum.push(0);
            k = k + 1;
        }
        suffix_sum.push(0);
        let mut i: usize = n;
        while i > 0
            invariant
                i <= n,
                n == sorted@.len(),
                suffix_sum@.len() == n + 1,
                forall|j: int| i <= j <= n ==> #[trigger] suffix_sum@[j] == capped(tail_sum(sorted@, j)),
            decreases i,
        {
            let v = suffix_sum[i].saturating_add(sorted[i - 1].value);
            proof {
                lemma_tail_sum_nonneg(sorted@, i as int);
            }
            suffix_sum.set(i - 1, v);
            i = i - 1;
        }
        PreparedData { sorted, suffix_sum }
    }

    /// The number of entries.
    pub fn len(&self) -> (n: usize)
        ensures
            n == self.entries().len(),
            self.wf(),
    {
        proof {
            use_type_invariant(self);
        }
        self.sorted.len()
    }

    /// The entries in rising order of value.
    pub fn sorted(&self) -> (r: &Vec<NumberEntry>)
        ensures
            r@ == self.entries(),
            self.wf(),
    {
        proof {
            use_type_invariant(self);
        }
        &self.sorted
    }

    /// The value at place `i`.
    pub fn value_at(&self, i: usize) -> (v: u64)
        requires
            i < self.entries().len(),
        ensures
            v == self.entries()[i as int].value,
    {
        self.sorted[i].value
    }

    /// A copy of the entry at place `i`.
    pub fn entry_at(&self, i: usize) -> (e: NumberEntry)
        requires
            i < self.entries().len(),
        ensures
            e == self.entries()[i as int],
    {
        copy_entry(&self.sorted[i])
    }

    /// The entries that `path` picks, in the order of their original
    /// positions.
    pub fn report(&self, path: &Vec<usize>) -> (c: Vec<NumberEntry>)
        requires
            forall|k: int| 0 <= k < path@.len() ==> (#[trigger] path@[k]) < self.entries().len(),
        ensures
            reports(c@, self.entries(), path@),
    {
        let mut out: Vec<NumberEntry> = Vec::new();
        let m = path.len();
        let mut k: usize = 0;
        while k < m
            invariant
                k <= m,
                m == path@.len(),
                forall|j: int| 0 <= j < path@.len() ==> (#[trigger] path@[j]) < self.entries().len(),
                out@ == select(self.entries(), path@.take(k as int)),
            decreases m - k,
        {
            out.push(self.entry_at(path[k]));
            proof {
                assert(select(self.entries(), path@.take(k + 1)) =~= select(
                    self.entries(),
                    path@.take(k as int),
                ).push(self.entries()[path@[k as int] as int]));
            }
            k = k + 1;
        }
        proof {
            assert(path@.take(m as int) =~= path@);
        }
        sort_by_index(&mut out);
        out
    }

    /// The capped sum of the values from place `i` on.
    pub fn suffix_at(&self, i: usize) -> (v: u64)
        requires
            i <= self.entries().len(),
        ensures
            v == capped(tail_sum(self.entries(), i as int)),
    {
        proof {
            use_type_invariant(self);
        }
        self.suffix_sum[i]
    }

    /// Whether the `count` smallest values sum above `target`.
    pub fn floor_exceeds(&self, count: usize, target: u64) -> (r: bool)
        requires
            count <= self.entries().len(),
        ensures
            r == (head_sum(self.entries(), count as int) > target),
    {
        let mut acc: u64 = 0;
        let mut k: usize = 0;
        while k < count
            invariant
                k <= count <= self.entries().len(),
                acc == head_sum(self.entries(), k as int),
                acc <= target,
            decreases count - k,
        {
            let v = self.value_at(k);
            if v > target - acc {
                proof {
                    lemma_head_sum_rises(self.entries(), k + 1, count as int);
                }
                return true;
            }
            acc = acc + v;
            k = k + 1;
        }
        false
    }

    /// The quick test that is made before any search starts.
    pub fn trivially_infeasible(&self, target: u64, min_count: usize) -> (r: bool)
        ensures
            r == rules_out(self.entries(), target, min_count),
    {
        let n = self.len();
        if n == 0 || self.suffix_at(0) < target || min_count > n {
            return true;
        }
        proof {
            lemma_tail_sum_nonneg(self.entries(), 0);
        }
        self.floor_exceeds(min_count, target)
    }
}

/// The sum of the first values grows with their number.
pub proof fn lemma_head_sum_rises(s: Seq<NumberEntry>, a: int, b: int)
    requires
        a <= b,
    ensures
        head_sum(s, a) <= head_sum(s, b),
        head_sum(s, a) >= 0,
    decreases b,
{
    if b <= 0 {
    } else if a == b {
        lemma_head_sum_rises(s, a - 1, a - 1);
    } else {
        lemma_head_sum_rises(s, a, b - 1);
    }
}

/// The report of a path that meets the goal is a selection that meets it.
pub proof fn lemma_report_is_combination(
    c: Seq<NumberEntry>,
    s: Seq<NumberEntry>,
    g: Goal,
    p: Seq<usize>,
)
    requires
        reports(c, s, p),
        is_path(p, s.len()),
        hits(s, g, p),
    ensures
        is_combination(c, s, g),
        ordered_by_index(c),
{
    lemma_hit_is_combination(s, g, p);
    lemma_values_sum_permutation(c, select(s, p));
}

/// Joins what a search had listed before it went below one node with what it
/// listed there: if the paths still due were those below the node followed by
/// `rest`, the whole is listed as far as it goes, and where the node was
/// listed in full, `rest` is what is still due.
pub proof fn lemma_lists_extend(
    before: Seq<Vec<NumberEntry>>,
    after: Seq<Vec<NumberEntry>>,
    s: Seq<NumberEntry>,
    all: Seq<Seq<usize>>,
    r0: int,
    node: Seq<Seq<usize>>,
    rest: Seq<Seq<usize>>,
)
    requires
        0 <= r0 <= before.len() <= after.len(),
        after.take(before.len() as int) == before,
        lists(before.skip(r0), s, all),
        all.skip(before.len() - r0) == node + rest,
        lists(after.skip(before.len() as int), s, node),
    ensures
        lists(after.skip(r0), s, all),
        after.len() - before.len() == node.len() ==> all.skip(after.len() - r0) =~= rest,
{
    let done = before.len() - r0;
    let tail = all.skip(done);
    assert(tail.len() == node.len() + rest.len());
    assert forall|k: int| 0 <= k < after.skip(r0).len() implies reports(
        (#[trigger] after.skip(r0)[k])@,
        s,
        all[k],
    ) by {
        if k < done {
            assert(after.skip(r0)[k] == after.take(before.len() as int)[r0 + k]);
            assert(before.skip(r0)[k] == before[r0 + k]);
        } else {
            assert(after.skip(r0)[k] == after.skip(before.len() as int)[k - done]);
            assert(tail[k - done] == all[k]);
            assert(tail[k - done] == node[k - done]);
        }
    }
    if after.len() - before.len() == node.len() {
        assert forall|k: int| 0 <= k < rest.len() implies all.skip(after.len() - r0)[k] == rest[k] by {
            assert(tail[node.len() + k] == rest[k]);
        }
    }
}

/// An instance that the quick test rules out has nothing to report, and but
/// for the instance without entries no path meets its goal.
pub proof fn lemma_rules_out(s: Seq<NumberEntry>, g: Goal)
    requires
        ascending(s),
        s.len() <= usize::MAX,
        rules_out(s, g.target, g.min_count),
    ensures
        below(s, g, Seq::empty(), 0) =~= Seq::empty(),
        s.len() > 0 ==> no_hit(s, g),
{
    let e = Seq::<usize>::empty();
    let b = below(s, g, e, 0);
    if s.len() == 0 {
    } else if tail_sum(s, 0) < g.target {
        lemma_prune_tail(s, g, e, 0);
    } else if g.min_count > s.len() {
        lemma_prune_count(s, g, e, 0);
    } else {
        if b.len() > 0 {
            lemma_below_sound(s, g, e, 0, 0);
            lemma_floor(s, b[0], g.min_count as int);
        }
    }
    if s.len() > 0 {
        assert(!hits(s, g, e)) by {
            lemma_head_sum_rises(s, 0, g.min_count as int);
            lemma_tail_sum_nonneg(s, 0);
        }
        lemma_exhausted(s, g);
    }
}

} // verus!
