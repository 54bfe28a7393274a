//! The search for one selection by meeting in the middle: every subset of
//! the first half of the entries is filed under its sum, and every subset of
//! the second half is matched against the subsets filed under what it lacks.

use vstd::prelude::*;
use std::collections::HashMap;
use crate::entry::{NumberEntry, Goal, is_combination, ordered_by_index};
use crate::paths::{lemma_no_hit_unsolvable};
use crate::prepared::{PreparedData, reports, lemma_report_is_combination};
use crate::solver::{SolverConfig, SolverResult, exact_answer};
use crate::cancel::{cancel_requested, mask_poll_due};
use crate::masks::{subsets, mask_sum, mask_count, mask_path, joined, pair_hits, has_bit,
    subset_count, lemma_mask_sum_rises, lemma_joined, lemma_no_pair_no_hit};

verus! {

/// Sums the values that `mask` selects among the `len` places from `offset`
/// on and counts them, giving up as soon as the sum is above `target`.
fn masked_sum(data: &PreparedData, offset: usize, len: usize, mask: u64, target: u64) -> (r:
    Option<(u64, usize)>)
    requires
        offset + len <= data.entries().len(),
        len < 64,
    ensures
        match r {
            Some((sum, count)) => sum == mask_sum(data.entries(), offset as int, len as int, mask)
                && sum <= target && count == mask_count(len as int, mask),
            None => mask_sum(data.entries(), offset as int, len as int, mask) > target,
        },
{
    let ghost s = data.entries();
    let n = data.len();
    let mut sum: u64 = 0;
    let mut count: usize = 0;
    let mut bit: usize = 0;
    while bit < len
        invariant
            bit <= len < 64,
            offset + len <= data.entries().len() == n,
            s == data.entries(),
            sum == mask_sum(s, offset as int, bit as int, mask),
            sum <= target,
            count == mask_count(bit as int, mask),
            count <= bit,
        decreases len - bit,
    {
        if has_bit(mask, bit) {
            let v = data.value_at(offset + bit);
            if v > target - sum {
                proof {
                    lemma_mask_sum_rises(s, offset as int, bit + 1, len as int, mask);
                }
                return None;
            }
            sum = sum + v;
            count = count + 1;
        }
        bit = bit + 1;
    }
    Some((sum, count))
}

/// Appends the places that `mask` selects among the `len` places from
/// `offset` on.
fn push_mask_path(path: &mut Vec<usize>, offset: usize, len: usize, mask: u64)
    requires
        len < 64,
        offset + len <= usize::MAX,
    ensures
        final(path)@ == old(path)@ + mask_path(offset as int, len as int, mask),
{
    let mut bit: usize = 0;
    proof {
        assert(path@ =~= old(path)@ + mask_path(offset as int, 0, mask));
    }
    while bit < len
        invariant
            bit <= len < 64,
            offset + len <= usize::MAX,
            path@ == old(path)@ + mask_path(offset as int, bit as int, mask),
        decreases len - bit,
    {
        if has_bit(mask, bit) {
            path.push(offset + bit);
            proof {
                assert(path@ =~= old(path)@ + mask_path(offset as int, bit + 1, mask));
            }
        }
        bit = bit + 1;
    }
}

/// What is filed for one subset: the number of its places and its mask.
spec fn entry_ok(s: Seq<NumberEntry>, mid: int, key: u64, upto: u64, e: (usize, u64)) -> bool {
    &&& e.1 < upto
    &&& mask_sum(s, 0, mid, e.1) == key
    &&& mask_count(mid, e.1) == e.0
}

/// Everything in the file is a subset of the first half below `upto`, filed
/// under its sum.
spec fn file_sound(
    file: Map<u64, Vec<(usize, u64)>>,
    s: Seq<NumberEntry>,
    mid: int,
    upto: u64,
) -> bool {
    forall|key: u64, idx: int|
        file.contains_key(key) && 0 <= idx < file[key]@.len() ==> entry_ok(
            s,
            mid,
            key,
            upto,
            #[trigger] file[key]@[idx],
        )
}

/// Under each sum the subsets are filed in rising order of their masks.
spec fn file_rising(file: Map<u64, Vec<(usize, u64)>>) -> bool {
    forall|key: u64, a: int, b: int|
        file.contains_key(key) && 0 <= a < b < file[key]@.len() ==> (#[trigger] file[key]@[a]).1 < (
        #[trigger] file[key]@[b]).1
}

/// The masks `lmask` and `rmask` are the first pair that selects a path
/// meeting the goal: no mask for the second half below `rmask` has a partner,
/// and no mask for the first half below `lmask` is a partner of `rmask`.
pub open spec fn first_pair(s: Seq<NumberEntry>, g: Goal, mid: int, lmask: u64, rmask: u64) -> bool {
    &&& lmask < subsets(mid)
    &&& rmask < subsets(s.len() - mid)
    &&& pair_hits(s, g, mid, lmask, rmask)
    &&& forall|lm: u64, rm: u64|
        lm < subsets(mid) && rm < rmask ==> !#[trigger] pair_hits(s, g, mid, lm, rm)
    &&& forall|lm: u64| lm < lmask ==> !#[trigger] pair_hits(s, g, mid, lm, rmask)
}

/// The place at which the entries are split in two halves.
pub open spec fn middle(s: Seq<NumberEntry>) -> int {
    s.len() as int / 2
}

/// `c` reports the path that the first pair of masks selects, the entries
/// being split in the middle.
pub open spec fn first_by_halves(c: Seq<NumberEntry>, s: Seq<NumberEntry>, g: Goal) -> bool {
    exists|lmask: u64, rmask: u64|
        #[trigger] first_pair(s, g, middle(s), lmask, rmask) && reports(
            c,
            s,
            joined(middle(s), s.len() as int, lmask, rmask),
        )
}

/// The subset `m` of the first half is filed under its sum.
spec fn filed(file: Map<u64, Vec<(usize, u64)>>, s: Seq<NumberEntry>, mid: int, m: u64) -> bool {
    let key = mask_sum(s, 0, mid, m) as u64;
    file.contains_key(key) && file[key]@.contains((mask_count(mid, m) as usize, m))
}

/// Every subset of the first half below `upto` that stays within the target
/// and the count bound is filed.
spec fn file_complete(
    file: Map<u64, Vec<(usize, u64)>>,
    s: Seq<NumberEntry>,
    g: Goal,
    mid: int,
    upto: u64,
) -> bool {
    forall|m: u64|
        m < upto && mask_sum(s, 0, mid, m) <= g.target && mask_count(mid, m) <= g.max_count
            ==> #[trigger] filed(file, s, mid, m)
}

/// Looks for one selection that meets the goal by enumerating the subsets
/// of both halves of the entries. The answer is exact: a selection is named
/// only if it meets the goal, and none is denied unless none exists.
pub fn meet_in_the_middle(data: &PreparedData, config: &SolverConfig) -> (r: SolverResult)
    requires
        data.entries().len() <= 40,
    ensures
        exact_answer(r, data.entries(), config.goal()),
        r matches SolverResult::Found(c) ==> first_by_halves(c@, data.entries(), config.goal()),
{
    let mut search = HalvesSearch::new(data);
    loop
        invariant
            search.wf(data.entries(), config.goal()),
        decreases search.masks_left(data.entries()),
    {
        let cancelled = cancel_requested(config.cancelled);
        match search.resume(data, config, cancelled) {
            Some(r) => {
                return r;
            },
            None => {},
        }
    }
}

/// The file is in order as far as the subsets of the first half below `upto`
/// go.
spec fn file_ok(
    file: Map<u64, Vec<(usize, u64)>>,
    s: Seq<NumberEntry>,
    g: Goal,
    mid: int,
    upto: u64,
) -> bool {
    &&& file_sound(file, s, mid, upto)
    &&& file_rising(file)
    &&& file_complete(file, s, g, mid, upto)
}

/// `c` reports what `rmask` selects together with `lmask`, the first mask for
/// the first half that is a partner of `rmask`.
spec fn first_partner(
    c: Seq<NumberEntry>,
    s: Seq<NumberEntry>,
    g: Goal,
    lmask: u64,
    rmask: u64,
) -> bool {
    &&& lmask < subsets(middle(s))
    &&& pair_hits(s, g, middle(s), lmask, rmask)
    &&& forall|lm: u64| lm < lmask ==> !#[trigger] pair_hits(s, g, middle(s), lm, rmask)
    &&& reports(c, s, joined(middle(s), s.len() as int, lmask, rmask))
}

/// Files the subset `mask` of the first half under its sum, unless it sums
/// above the target or has more places than the count bound allows.
fn file_subset(
    data: &PreparedData,
    config: &SolverConfig,
    file: &mut HashMap<u64, Vec<(usize, u64)>>,
    mask: u64,
)
    requires
        data.entries().len() <= 40,
        mask < subsets(middle(data.entries())),
        file_ok(old(file)@, data.entries(), config.goal(), middle(data.entries()), mask),
    ensures
        file_ok(
            final(file)@,
            data.entries(),
            config.goal(),
            middle(data.entries()),
            (mask + 1) as u64,
        ),
{
    let ghost s = data.entries();
    let ghost g = config.goal();
    let n = data.len();
    let mid = n / 2;
    let ghost file0 = file@;
    match masked_sum(data, 0, mid, mask, config.target) {
        Some((sum, count)) => {
            if count <= config.max_count {
                let mut bucket = match file.remove(&sum) {
                    Some(b) => b,
                    None => Vec::new(),
                };
                let ghost bucket0 = bucket@;
                bucket.push((count, mask));
                file.insert(sum, bucket);
                proof {
                    let file1 = file@;
                    assert(file1[sum]@ == bucket0.push((count, mask)));
                    assert forall|key: u64, idx: int|
                        file1.contains_key(key) && 0 <= idx < file1[key]@.len() implies entry_ok(
                        s,
                        mid as int,
                        key,
                        (mask + 1) as u64,
                        #[trigger] file1[key]@[idx],
                    ) by {
                        if key == sum {
                            if idx < bucket0.len() {
                                assert(file0.contains_key(sum));
                                assert(file1[key]@[idx] == file0[key]@[idx]);
                                assert(entry_ok(s, mid as int, key, mask, file0[key]@[idx]));
                            }
                        } else {
                            assert(file0.contains_key(key));
                            assert(file1[key] == file0[key]);
                            assert(entry_ok(s, mid as int, key, mask, file0[key]@[idx]));
                        }
                    }
                    assert forall|key: u64, a: int, b: int|
                        file1.contains_key(key) && 0 <= a < b < file1[key]@.len() implies (
                    #[trigger] file1[key]@[a]).1 < (#[trigger] file1[key]@[b]).1 by {
                        if key == sum {
                            assert(file1[key]@[a] == bucket0[a]);
                            if b < bucket0.len() {
                                assert(file0.contains_key(sum));
                                assert(file0[key]@[a].1 < file0[key]@[b].1);
                            } else {
                                assert(file0.contains_key(sum));
                                assert(entry_ok(s, mid as int, key, mask, file0[key]@[a]));
                            }
                        } else {
                            assert(file0.contains_key(key));
                            assert(file1[key] == file0[key]);
                            assert(file0[key]@[a].1 < file0[key]@[b].1);
                        }
                    }
                    assert forall|m: u64|
                        m < mask + 1 && mask_sum(s, 0, mid as int, m) <= g.target && mask_count(
                            mid as int,
                            m,
                        ) <= g.max_count implies #[trigger] filed(file1, s, mid as int, m) by {
                        let key = mask_sum(s, 0, mid as int, m) as u64;
                        let e = (mask_count(mid as int, m) as usize, m);
                        if m == mask {
                            assert(file1[sum]@[bucket0.len() as int] == e);
                        } else {
                            assert(filed(file0, s, mid as int, m));
                            if key == sum {
                                let j = choose|j: int|
                                    0 <= j < file0[key]@.len() && file0[key]@[j] == e;
                                assert(file1[key]@[j] == e);
                            } else {
                                assert(file1[key] == file0[key]);
                            }
                        }
                    }
                }
            }
        },
        None => {},
    }
    proof {
        let file1 = file@;
        assert forall|key: u64, idx: int|
            file1.contains_key(key) && 0 <= idx < file1[key]@.len() implies entry_ok(
            s,
            mid as int,
            key,
            (mask + 1) as u64,
            #[trigger] file1[key]@[idx],
        ) by {
            if file1 == file0 {
                assert(entry_ok(s, mid as int, key, mask, file0[key]@[idx]));
            }
        }
        assert forall|m: u64|
            m < mask + 1 && mask_sum(s, 0, mid as int, m) <= g.target && mask_count(mid as int, m)
                <= g.max_count implies #[trigger] filed(file@, s, mid as int, m) by {
            if file1 == file0 {
                assert(filed(file0, s, mid as int, m));
            }
        }
    }
}

/// Matches the subset `rmask` of the second half against the file: the
/// subsets filed under what it lacks to the target are gone through in their
/// order, and the first that gives an allowed number of places together with
/// it is reported with it.
fn match_subset(
    data: &PreparedData,
    config: &SolverConfig,
    file: &HashMap<u64, Vec<(usize, u64)>>,
    rmask: u64,
) -> (r: Option<Vec<NumberEntry>>)
    requires
        data.entries().len() <= 40,
        rmask < subsets(data.entries().len() - middle(data.entries())),
        file_ok(
            file@,
            data.entries(),
            config.goal(),
            middle(data.entries()),
            subsets(middle(data.entries())),
        ),
    ensures
        match r {
            Some(c) => is_combination(c@, data.entries(), config.goal()) && ordered_by_index(c@)
                && exists|lmask: u64| #[trigger]
                    first_partner(c@, data.entries(), config.goal(), lmask, rmask),
            None => forall|lm: u64|
                lm < subsets(middle(data.entries())) ==> !#[trigger] pair_hits(
                    data.entries(),
                    config.goal(),
                    middle(data.entries()),
                    lm,
                    rmask,
                ),
        },
{
    let ghost s = data.entries();
    let ghost g = config.goal();
    let n = data.len();
    let mid = n / 2;
    let left_len = mid;
    let right_len = n - mid;
    let ghost left_count = subsets(mid as int);
    match masked_sum(data, mid, right_len, rmask, config.target) {
        Some((rsum, rcount)) => {
            let needed = config.target - rsum;
            proof {
                lemma_mask_sum_rises(s, mid as int, 0, n - mid, rmask);
            }
            match file.get(&needed) {
                Some(left_entries) => {
                    let m = left_entries.len();
                    let mut idx: usize = 0;
                    while idx < m
                        invariant
                            idx <= m,
                            m == left_entries@.len(),
                            file@.contains_key(needed),
                            *left_entries == file@[needed],
                            file_ok(file@, s, g, mid as int, left_count),
                            left_count == subsets(mid as int),
                            s == data.entries(),
                            g == config.goal(),
                            n == s.len(),
                            n <= 40,
                            mid == n / 2,
                            left_len == mid,
                            right_len == n - mid,
                            rcount == mask_count(n - mid, rmask),
                            rsum == mask_sum(s, mid as int, n - mid, rmask),
                            needed == config.target - rsum,
                            rcount <= n - mid,
                            forall|j: int|
                                0 <= j < idx ==> !(g.min_count <= (#[trigger] left_entries@[j]).0
                                    + rcount <= g.max_count),
                        decreases m - idx,
                    {
                        let lcount = left_entries[idx].0;
                        let lmask = left_entries[idx].1;
                        proof {
                            assert(entry_ok(
                                s,
                                mid as int,
                                needed,
                                left_count,
                                file@[needed]@[idx as int],
                            ));
                            lemma_mask_sum_rises(s, 0, 0, mid as int, lmask);
                        }
                        let total_count = lcount + rcount;
                        if total_count >= config.min_count && total_count <= config.max_count {
                            let mut path: Vec<usize> = Vec::new();
                            push_mask_path(&mut path, 0, left_len, lmask);
                            push_mask_path(&mut path, mid, right_len, rmask);
                            proof {
                                lemma_joined(s, mid as int, lmask, rmask);
                                assert(path@ =~= joined(mid as int, n as int, lmask, rmask));
                            }
                            let result = data.report(&path);
                            proof {
                                lemma_report_is_combination(result@, s, g, path@);
                                assert forall|lm: u64| lm < lmask implies !#[trigger] pair_hits(
                                    s,
                                    g,
                                    mid as int,
                                    lm,
                                    rmask,
                                ) by {
                                    lemma_mask_sum_rises(s, 0, 0, mid as int, lm);
                                    if pair_hits(s, g, mid as int, lm, rmask) {
                                        assert(filed(file@, s, mid as int, lm));
                                        let e = (mask_count(mid as int, lm) as usize, lm);
                                        let j = choose|j: int|
                                            0 <= j < left_entries@.len() && left_entries@[j] == e;
                                        if j > idx {
                                            assert(file@[needed]@[idx as int].1
                                                < file@[needed]@[j].1);
                                        }
                                        assert(!(g.min_count <= left_entries@[j].0 + rcount
                                            <= g.max_count));
                                    }
                                }
                                assert(middle(s) == mid);
                                assert(first_partner(result@, s, g, lmask, rmask));
                            }
                            return Some(result);
                        }
                        idx = idx + 1;
                    }
                    proof {
                        assert forall|lm: u64| lm < left_count implies !#[trigger] pair_hits(
                            s,
                            g,
                            mid as int,
                            lm,
                            rmask,
                        ) by {
                            lemma_mask_sum_rises(s, 0, 0, mid as int, lm);
                            if pair_hits(s, g, mid as int, lm, rmask) {
                                assert(filed(file@, s, mid as int, lm));
                                let e = (mask_count(mid as int, lm) as usize, lm);
                                let j = choose|j: int|
                                    0 <= j < left_entries@.len() && left_entries@[j] == e;
                                assert(!(g.min_count <= left_entries@[j].0 + rcount
                                    <= g.max_count));
                            }
                        }
                    }
                },
                None => {
                    proof {
                        assert forall|lm: u64| lm < left_count implies !#[trigger] pair_hits(
                            s,
                            g,
                            mid as int,
                            lm,
                            rmask,
                        ) by {
                            lemma_mask_sum_rises(s, 0, 0, mid as int, lm);
                            if pair_hits(s, g, mid as int, lm, rmask) {
                                assert(filed(file@, s, mid as int, lm));
                            }
                        }
                    }
                },
            }
        },
        None => {
            proof {
                assert forall|lm: u64| lm < left_count implies !#[trigger] pair_hits(
                    s,
                    g,
                    mid as int,
                    lm,
                    rmask,
                ) by {
                    lemma_mask_sum_rises(s, 0, 0, mid as int, lm);
                }
            }
        },
    }
    None
}

/// The subset at which a round of the enumeration that starts at subset
/// `from` ends: the next subset at which the flag is looked at, or `count`
/// where the subsets end before.
pub open spec fn round_end(from: u64, count: u64) -> int {
    let next = (from / 65536 + 1) * 65536;
    if next < count {
        next
    } else {
        count as int
    }
}

/// Some subset of the second half from `from` on and below `to` has a
/// partner in the first half.
pub open spec fn hit_in(s: Seq<NumberEntry>, g: Goal, from: u64, to: int) -> bool {
    exists|lm: u64, rm: u64|
        lm < subsets(middle(s)) && from <= rm < to && #[trigger] pair_hits(s, g, middle(s), lm, rm)
}

/// A search by halves between two looks at the cancellation flag: the file
/// of the subsets of the first half, how far it was filled, and how far the
/// subsets of the second half were matched against it.
pub struct HalvesSearch {
    file: HashMap<u64, Vec<(usize, u64)>>,
    left_done: u64,
    right_done: u64,
}

impl HalvesSearch {
    /// How many subsets of the first half were gone through.
    pub closed spec fn left_done(&self) -> u64 {
        self.left_done
    }

    /// How many subsets of the second half were gone through.
    pub closed spec fn right_done(&self) -> u64 {
        self.right_done
    }

    /// The search is in order: the file holds the subsets of the first half
    /// gone through, the second half is only begun when the first is through,
    /// and no subset of the second half gone through has a partner.
    pub closed spec fn wf(&self, s: Seq<NumberEntry>, g: Goal) -> bool {
        &&& s.len() <= 40
        &&& self.left_done <= subsets(middle(s))
        &&& self.right_done <= subsets(s.len() - middle(s))
        &&& self.right_done > 0 ==> self.left_done == subsets(middle(s))
        &&& file_ok(self.file@, s, g, middle(s), self.left_done)
        &&& forall|lm: u64, rm: u64|
            lm < subsets(middle(s)) && rm < self.right_done ==> !#[trigger] pair_hits(
                s,
                g,
                middle(s),
                lm,
                rm,
            )
    }

    /// How many subsets are still to be gone through.
    pub open spec fn masks_left(&self, s: Seq<NumberEntry>) -> int {
        (subsets(middle(s)) - self.left_done()) + (subsets(s.len() - middle(s))
            - self.right_done())
    }

    /// A search that has gone through nothing yet.
    pub fn new(data: &PreparedData) -> (r: Self)
        requires
            data.entries().len() <= 40,
        ensures
            r.left_done() == 0,
            r.right_done() == 0,
            forall|g: Goal| #[trigger] r.wf(data.entries(), g),
    {
        let n = data.len();
        let left_count = subset_count(n / 2);
        HalvesSearch {
            file: HashMap::with_capacity(left_count as usize),
            left_done: 0,
            right_done: 0,
        }
    }

    /// Makes one round of the search, given what the flag held at the look
    /// that goes before it. A set flag ends the search as called off and
    /// nothing is gone through. Else the subsets up to the next look are gone
    /// through: those of the first half are filed, and the round gives no
    /// answer; those of the second half are matched, and the round answers
    /// with the first match, denies that there is one when the subsets are
    /// through, and gives no answer otherwise.
    pub fn resume(&mut self, data: &PreparedData, config: &SolverConfig, cancelled: bool) -> (r:
        Option<SolverResult>)
        requires
            old(self).wf(data.entries(), config.goal()),
        ensures
            final(self).wf(data.entries(), config.goal()),
            r matches Some(a) ==> exact_answer(a, data.entries(), config.goal()),
            r matches Some(SolverResult::Found(c)) ==> first_by_halves(
                c@,
                data.entries(),
                config.goal(),
            ),
            r is None ==> final(self).masks_left(data.entries())
                < old(self).masks_left(data.entries()),
            cancelled ==> (r matches Some(SolverResult::Cancelled))
                && final(self).left_done() == old(self).left_done()
                && final(self).right_done() == old(self).right_done(),
            !cancelled && old(self).left_done() < subsets(middle(data.entries())) ==> r is None
                && final(self).right_done() == old(self).right_done()
                && final(self).left_done()
                    == round_end(old(self).left_done(), subsets(middle(data.entries()))),
            !cancelled && old(self).left_done() == subsets(middle(data.entries()))
                ==> final(self).left_done() == old(self).left_done() && ({
                let count = subsets(data.entries().len() - middle(data.entries()));
                let end = round_end(old(self).right_done(), count);
                if hit_in(data.entries(), config.goal(), old(self).right_done(), end) {
                    &&& r matches Some(SolverResult::Found(_))
                    &&& old(self).right_done() <= final(self).right_done() < end
                    &&& !hit_in(
                        data.entries(),
                        config.goal(),
                        old(self).right_done(),
                        final(self).right_done() as int,
                    )
                    &&& hit_in(
                        data.entries(),
                        config.goal(),
                        final(self).right_done(),
                        final(self).right_done() + 1,
                    )
                } else if end == count {
                    (r matches Some(SolverResult::NotFound)) && final(self).right_done() == end
                } else {
                    r is None && final(self).right_done() == end
                }
            }),
    {
        if cancelled {
            return Some(SolverResult::Cancelled);
        }
        let ghost s = data.entries();
        let ghost g = config.goal();
        let n = data.len();
        let mid = n / 2;
        let left_count = subset_count(mid);
        let right_count = subset_count(n - mid);
        if self.left_done < left_count {
            let from = self.left_done;
            let mut mask = from;
            let mut more = true;
            while more
                invariant
                    s == data.entries(),
                    g == config.goal(),
                    n == s.len(),
                    n <= 40,
                    mid == n / 2,
                    left_count == subsets(mid as int),
                    from < left_count,
                    from <= mask <= round_end(from, left_count),
                    more ==> mask < round_end(from, left_count),
                    !more ==> mask == round_end(from, left_count),
                    file_ok(self.file@, s, g, mid as int, mask),
                    self.left_done == from,
                    self.right_done == old(self).right_done,
                decreases round_end(from, left_count) - mask + (if more { 1int } else { 0int }),
            {
                file_subset(data, config, &mut self.file, mask);
                mask = mask + 1;
                more = mask < left_count && !mask_poll_due(mask);
            }
            self.left_done = mask;
            return None;
        }
        let from = self.right_done;
        let mut rmask = from;
        let mut more = rmask < right_count;
        while more
            invariant
                s == data.entries(),
                g == config.goal(),
                n == s.len(),
                n <= 40,
                mid == n / 2,
                left_count == subsets(mid as int),
                right_count == subsets(n - mid),
                from <= right_count,
                from <= rmask <= round_end(from, right_count),
                more ==> rmask < round_end(from, right_count),
                !more ==> rmask == round_end(from, right_count),
                file_ok(self.file@, s, g, mid as int, left_count),
                self.left_done == left_count,
                self.right_done == from,
                !cancelled,
                old(self).left_done == left_count,
                old(self).right_done == from,
                forall|lm: u64, rm: u64|
                    lm < left_count && rm < rmask ==> !#[trigger] pair_hits(s, g, mid as int, lm, rm),
            decreases round_end(from, right_count) - rmask + (if more { 1int } else { 0int }),
        {
            match match_subset(data, config, &self.file, rmask) {
                Some(c) => {
                    self.right_done = rmask;
                    proof {
                        let lmask = choose|lmask: u64| #[trigger] first_partner(c@, s, g, lmask, rmask);
                        assert(first_pair(s, g, middle(s), lmask, rmask));
                        assert(hit_in(s, g, from, round_end(from, right_count)));
                        assert(hit_in(s, g, rmask, rmask + 1));
                    }
                    return Some(SolverResult::Found(c));
                },
                None => {},
            }
            rmask = rmask + 1;
            more = rmask < right_count && !mask_poll_due(rmask);
        }
        self.right_done = rmask;
        if rmask >= right_count {
            proof {
                lemma_no_pair_no_hit(s, g, mid as int);
                lemma_no_hit_unsolvable(s, g);
            }
            Some(SolverResult::NotFound)
        } else {
            None
        }
    }
}

} // verus!
