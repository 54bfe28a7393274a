//! The searches that run to their end within one call: a depth-first search
//! with pruning that stops at the first selection meeting the goal, and one
//! that collects them all up to a cap.

use vstd::prelude::*;
use std::sync::atomic::AtomicBool;
use crate::entry::{NumberEntry, Goal, is_combination, solvable, ordered_by_index};
use crate::paths::{is_path, path_sum, hits, below, from_node};
use crate::paths::{lemma_path_sum_push, lemma_prune_value, lemma_prune_tail, lemma_prune_count,
    lemma_prune_depth, lemma_tail_sum_nonneg, lemma_exhausted, lemma_no_hit_unsolvable,
    lemma_below_sound};
use crate::prepared::{PreparedData, lists, reports, rules_out};
use crate::prepared::{lemma_report_is_combination, lemma_lists_extend, lemma_rules_out};
use crate::cancel::{cancel_requested, node_poll_due};
use crate::arrange::{is_arrangement, ruled_out, lemma_ruled_out, lemma_solvable_any_order};
use crate::mitm::{meet_in_the_middle, first_by_halves};
use crate::walk::{tree_size, branches_size, first_poll};

verus! {

/// What a one-call search is asked for, and the flag by which its caller may
/// call it off.
pub struct SolverConfig<'a> {
    pub target: u64,
    pub min_count: usize,
    pub max_count: usize,
    pub cancelled: &'a AtomicBool,
}

impl<'a> SolverConfig<'a> {
    /// The goal that the configuration states.
    pub open spec fn goal(&self) -> Goal {
        Goal { target: self.target, min_count: self.min_count, max_count: self.max_count }
    }
}

/// How a search for one selection ended.
pub enum SolverResult {
    /// A selection that meets the goal.
    Found(Vec<NumberEntry>),
    /// The search went through and there is none.
    NotFound,
    /// The search was called off before it knew.
    Cancelled,
}

/// `r` is a true answer for the goal over `pool`: a selection it names
/// meets the goal and stands in the order of the original positions, and it
/// denies one only where none exists.
pub open spec fn exact_answer(r: SolverResult, pool: Seq<NumberEntry>, g: Goal) -> bool {
    match r {
        SolverResult::Found(c) => is_combination(c@, pool, g) && ordered_by_index(c@),
        SolverResult::NotFound => !solvable(pool, g),
        SolverResult::Cancelled => true,
    }
}

/// `c` reports the first path that a depth-first walk over `s` comes upon.
pub open spec fn first_by_depth(c: Seq<NumberEntry>, s: Seq<NumberEntry>, g: Goal) -> bool {
    &&& from_node(s, g, Seq::empty(), 0).len() > 0
    &&& reports(c, s, from_node(s, g, Seq::empty(), 0)[0])
}

/// `r` is a true answer for the goal over `pool` as the dispatcher gives
/// it: as an exact answer, but that an instance without entries, or one that
/// allows no entry to be used, is denied whatever the target.
pub open spec fn answers(r: SolverResult, pool: Seq<NumberEntry>, g: Goal) -> bool {
    match r {
        SolverResult::Found(c) => is_combination(c@, pool, g) && ordered_by_index(c@),
        SolverResult::NotFound => pool.len() == 0 || g.max_count < 1 || !solvable(pool, g),
        SolverResult::Cancelled => true,
    }
}

/// How the depth-first search below one node ended.
enum BbResult {
    Found,
    NotFound,
    Cancelled,
}

/// Searches depth-first below the node that `path` names, trying the places
/// from `start` on, and stops at the first path that meets the goal.
fn bb_dfs_first(
    data: &PreparedData,
    config: &SolverConfig,
    start: usize,
    current_sum: u64,
    current_count: usize,
    path: &mut Vec<usize>,
    check_counter: &mut u64,
) -> (r: BbResult)
    requires
        is_path(old(path)@, data.entries().len()),
        start <= data.entries().len(),
        old(path)@.len() > 0 ==> old(path)@.last() < start,
        current_sum == path_sum(data.entries(), old(path)@),
        current_sum <= config.target,
        current_count == old(path)@.len(),
        current_count <= config.max_count,
    ensures
        match r {
            BbResult::Found => is_path(final(path)@, data.entries().len()) && hits(
                data.entries(),
                config.goal(),
                final(path)@,
            ) && from_node(data.entries(), config.goal(), old(path)@, start as int).len() > 0
                && final(path)@ == from_node(
                data.entries(),
                config.goal(),
                old(path)@,
                start as int,
            )[0],
            BbResult::NotFound => final(path)@ == old(path)@ && from_node(
                data.entries(),
                config.goal(),
                old(path)@,
                start as int,
            ) =~= Seq::empty(),
            BbResult::Cancelled => true,
        },
        *old(check_counter) + tree_size(data.entries(), config.goal(), old(path)@, start as int)
            < first_poll() ==> !(r is Cancelled) && *final(check_counter) <= *old(check_counter)
            + tree_size(data.entries(), config.goal(), old(path)@, start as int),
    decreases data.entries().len() - start,
{
    let ghost s = data.entries();
    let ghost g = config.goal();
    let ghost p = path@;
    let ghost bound = *check_counter + tree_size(s, g, p, start as int);
    *check_counter = check_counter.wrapping_add(1);
    if node_poll_due(*check_counter) && cancel_requested(config.cancelled) {
        return BbResult::Cancelled;
    }
    if current_sum == config.target && current_count >= config.min_count {
        return BbResult::Found;
    }
    if current_count >= config.max_count {
        proof {
            lemma_prune_depth(s, g, p, start as int);
        }
        return BbResult::NotFound;
    }
    let n = data.len();
    let remaining_needed = config.min_count.saturating_sub(current_count);
    if n - start < remaining_needed {
        proof {
            lemma_prune_count(s, g, p, start as int);
        }
        return BbResult::NotFound;
    }
    let remaining_budget = config.target - current_sum;
    let mut i = start;
    while i < n
        invariant
            start <= i <= n,
            n == s.len(),
            s == data.entries(),
            g == config.goal(),
            data.wf(),
            path@ == p,
            p == old(path)@,
            is_path(p, s.len()),
            p.len() > 0 ==> p.last() < start,
            !hits(s, g, p),
            current_sum == path_sum(s, p),
            remaining_budget == config.target - current_sum,
            current_count == p.len(),
            current_count < config.max_count,
            remaining_needed == (if config.min_count > current_count {
                config.min_count - current_count
            } else {
                0
            }),
            below(s, g, p, start as int) =~= below(s, g, p, i as int),
            bound == *old(check_counter) + tree_size(s, g, p, start as int),
            bound < first_poll() ==> *check_counter + branches_size(s, g, p, i as int) <= bound,
        decreases n - i,
    {
        let value = data.value_at(i);
        if value > remaining_budget {
            proof {
                lemma_prune_value(s, g, p, i as int);
            }
            return BbResult::NotFound;
        }
        if data.suffix_at(i) < remaining_budget {
            proof {
                lemma_tail_sum_nonneg(s, i as int);
                lemma_prune_tail(s, g, p, i as int);
            }
            return BbResult::NotFound;
        }
        if n - i < remaining_needed {
            proof {
                lemma_prune_count(s, g, p, i as int);
            }
            return BbResult::NotFound;
        }
        path.push(i);
        proof {
            lemma_path_sum_push(s, p, i);
            assert(is_path(p.push(i), s.len()));
        }
        let result = bb_dfs_first(
            data,
            config,
            i + 1,
            current_sum + value,
            current_count + 1,
            path,
            check_counter,
        );
        match result {
            BbResult::Found => {
                proof {
                    let node = from_node(s, g, p.push(i), i + 1);
                    assert(below(s, g, p, i as int) == node + below(s, g, p, i + 1));
                    assert(below(s, g, p, i as int)[0] == node[0]);
                }
                return BbResult::Found;
            },
            BbResult::Cancelled => {
                return BbResult::Cancelled;
            },
            BbResult::NotFound => {
                path.pop();
                proof {
                    assert(path@ =~= p);
                }
            },
        }
        i = i + 1;
    }
    BbResult::NotFound
}

/// Looks for one selection that meets the goal by depth-first search with
/// pruning. The answer is exact: a selection is named only if it meets the
/// goal, and none is denied unless none exists.
pub fn branch_and_bound_first(data: &PreparedData, config: &SolverConfig) -> (r: SolverResult)
    ensures
        exact_answer(r, data.entries(), config.goal()),
        r matches SolverResult::Found(c) ==> first_by_depth(c@, data.entries(), config.goal()),
        tree_size(data.entries(), config.goal(), Seq::empty(), 0) < first_poll() ==> !(r
            is Cancelled),
{
    let mut path: Vec<usize> = Vec::new();
    let mut check_counter: u64 = 0;
    let n = data.len();
    let ghost s = data.entries();
    let ghost g = config.goal();
    match bb_dfs_first(data, config, 0, 0, 0, &mut path, &mut check_counter) {
        BbResult::Found => {
            let entries = data.report(&path);
            proof {
                lemma_report_is_combination(entries@, s, g, path@);
            }
            SolverResult::Found(entries)
        },
        BbResult::Cancelled => SolverResult::Cancelled,
        BbResult::NotFound => {
            proof {
                lemma_exhausted(s, g);
                lemma_no_hit_unsolvable(s, g);
            }
            SolverResult::NotFound
        },
    }
}

/// Looks for one selection of `entries` that meets the goal. Instances that
/// the quick test rules out are denied at once. Up to 40 entries are searched
/// by meeting in the middle, more by depth-first search with pruning.
pub fn solve_subset_sum(entries: &[NumberEntry], config: &SolverConfig) -> (r: SolverResult)
    ensures
        answers(r, entries@, config.goal()),
        entries@.len() == 0 || ruled_out(entries@, config.goal()) ==> r is NotFound,
        exists|s: Seq<NumberEntry>|
            {
                &&& is_arrangement(s, entries@)
                &&& (entries@.len() > 40 || config.max_count < config.min_count) && tree_size(
                    s,
                    config.goal(),
                    Seq::empty(),
                    0,
                ) < first_poll() ==> !(r is Cancelled)
                &&& r matches SolverResult::Found(c) ==> (if entries@.len() <= 40
                    && config.max_count >= config.min_count {
                    first_by_halves(c@, s, config.goal())
                } else {
                    first_by_depth(c@, s, config.goal())
                })
            },
{
    let data = PreparedData::new(entries);
    let n = data.len();
    let ghost s = data.entries();
    let ghost g = config.goal();
    proof {
        s.to_multiset_ensures();
        entries@.to_multiset_ensures();
        lemma_ruled_out(s, entries@, g);
        lemma_solvable_any_order(s, entries@, g);
        assert(is_arrangement(s, entries@));
    }
    if data.trivially_infeasible(config.target, config.min_count) || config.max_count < 1 {
        proof {
            if n > 0 && config.max_count >= 1 {
                lemma_rules_out(s, g);
                lemma_no_hit_unsolvable(s, g);
            }
        }
        return SolverResult::NotFound;
    }
    if n <= 40 && config.max_count >= config.min_count {
        match meet_in_the_middle(&data, config) {
            SolverResult::Found(c) => SolverResult::Found(c),
            SolverResult::Cancelled => SolverResult::Cancelled,
            SolverResult::NotFound => {
                if cancel_requested(config.cancelled) {
                    SolverResult::Cancelled
                } else {
                    SolverResult::NotFound
                }
            },
        }
    } else {
        branch_and_bound_first(&data, config)
    }
}

/// Searches depth-first below the node that `path` names and appends the
/// report of every path that meets the goal, in the order of the walk, until
/// the walk is through, the cap is reached or the caller calls it off.
/// Returns whether the walk went through with room left under the cap.
fn branch_and_bound_all(
    data: &PreparedData,
    config: &SolverConfig,
    start: usize,
    current_sum: u64,
    path: &mut Vec<usize>,
    results: &mut Vec<Vec<NumberEntry>>,
    max_results: usize,
    check_counter: &mut u64,
) -> (go_on: bool)
    requires
        is_path(old(path)@, data.entries().len()),
        start <= data.entries().len(),
        old(path)@.len() > 0 ==> old(path)@.last() < start,
        current_sum == path_sum(data.entries(), old(path)@),
        current_sum <= config.target,
        old(path)@.len() <= config.max_count,
        old(results)@.len() < max_results,
    ensures
        final(path)@ == old(path)@,
        old(results)@.len() <= final(results)@.len() <= max_results,
        final(results)@.take(old(results)@.len() as int) == old(results)@,
        lists(
            final(results)@.skip(old(results)@.len() as int),
            data.entries(),
            from_node(data.entries(), config.goal(), old(path)@, start as int),
        ),
        go_on ==> final(results)@.len() < max_results
            && final(results)@.len() - old(results)@.len()
                == from_node(data.entries(), config.goal(), old(path)@, start as int).len(),
        *old(check_counter) + tree_size(data.entries(), config.goal(), old(path)@, start as int)
            < first_poll() ==> (go_on || final(results)@.len() >= max_results)
            && *final(check_counter) <= *old(check_counter)
                + tree_size(data.entries(), config.goal(), old(path)@, start as int),
    decreases data.entries().len() - start,
{
    let ghost s = data.entries();
    let ghost g = config.goal();
    let ghost p = path@;
    let ghost r0 = results@;
    let ghost bound = *check_counter + tree_size(s, g, p, start as int);
    let current_count = path.len();
    proof {
        assert(r0.take(r0.len() as int) =~= r0);
        assert(r0.skip(r0.len() as int) =~= Seq::empty());
    }
    *check_counter = check_counter.wrapping_add(1);
    if node_poll_due(*check_counter) && cancel_requested(config.cancelled) {
        return false;
    }
    if current_sum == config.target && current_count >= config.min_count {
        let entries = data.report(path);
        results.push(entries);
        proof {
            assert(results@.take(r0.len() as int) =~= r0);
            assert(results@.skip(r0.len() as int) =~= seq![entries]);
        }
        return results.len() < max_results;
    }
    if current_count >= config.max_count {
        proof {
            lemma_prune_depth(s, g, p, start as int);
        }
        return true;
    }
    let n = data.len();
    let remaining_needed = config.min_count.saturating_sub(current_count);
    if n - start < remaining_needed {
        proof {
            lemma_prune_count(s, g, p, start as int);
        }
        return true;
    }
    let remaining_budget = config.target - current_sum;
    let ghost all = below(s, g, p, start as int);
    proof {
        assert(all.skip(0) =~= all);
    }
    let mut i = start;
    while i < n
        invariant
            start <= i <= n,
            n == s.len(),
            s == data.entries(),
            g == config.goal(),
            data.wf(),
            path@ == p,
            p == old(path)@,
            is_path(p, s.len()),
            p.len() > 0 ==> p.last() < start,
            !hits(s, g, p),
            current_sum == path_sum(s, p),
            remaining_budget == config.target - current_sum,
            current_count == p.len(),
            current_count < config.max_count,
            remaining_needed == (if config.min_count > current_count {
                config.min_count - current_count
            } else {
                0
            }),
            all == below(s, g, p, start as int),
            r0 == old(results)@,
            r0.len() <= results@.len() < max_results,
            results@.take(r0.len() as int) == r0,
            lists(results@.skip(r0.len() as int), s, all),
            all.skip(results@.len() - r0.len()) =~= below(s, g, p, i as int),
            bound == *old(check_counter) + tree_size(s, g, p, start as int),
            bound < first_poll() ==> *check_counter + branches_size(s, g, p, i as int) <= bound,
        decreases n - i,
    {
        let value = data.value_at(i);
        if value > remaining_budget {
            proof {
                lemma_prune_value(s, g, p, i as int);
            }
            return true;
        }
        if data.suffix_at(i) < remaining_budget {
            proof {
                lemma_tail_sum_nonneg(s, i as int);
                lemma_prune_tail(s, g, p, i as int);
            }
            return true;
        }
        if n - i < remaining_needed {
            proof {
                lemma_prune_count(s, g, p, i as int);
            }
            return true;
        }
        path.push(i);
        proof {
            lemma_path_sum_push(s, p, i);
            assert(is_path(p.push(i), s.len()));
        }
        let ghost before = results@;
        let ghost q = p.push(i);
        let go_on = branch_and_bound_all(
            data,
            config,
            i + 1,
            current_sum + value,
            path,
            results,
            max_results,
            check_counter,
        );
        path.pop();
        proof {
            assert(path@ =~= p);
            let node = from_node(s, g, q, i + 1);
            let rest = below(s, g, p, i + 1);
            assert(below(s, g, p, i as int) == node + rest);
            lemma_lists_extend(before, results@, s, all, r0.len() as int, node, rest);
            assert(results@.take(r0.len() as int) =~= before.take(r0.len() as int)) by {
                assert forall|k: int| 0 <= k < r0.len() implies results@[k] == before[k] by {
                    assert(results@.take(before.len() as int)[k] == before[k]);
                }
            }
        }
        if !go_on {
            return false;
        }
        i = i + 1;
    }
    true
}

/// Collects the selections that meet the goal, up to `max_results` of them,
/// in the order in which a depth-first walk over the entries in rising order
/// of value comes upon them. Each is reported in the order of the original
/// positions. Where the caller calls the search off, what was collected until
/// then is returned.
pub fn solve_all_combinations(
    entries: &[NumberEntry],
    config: &SolverConfig,
    max_results: usize,
) -> (r: Vec<Vec<NumberEntry>>)
    ensures
        r@.len() <= max_results,
        forall|k: int|
            0 <= k < r@.len() ==> is_combination((#[trigger] r@[k])@, entries@, config.goal())
                && ordered_by_index(r@[k]@),
        exists|s: Seq<NumberEntry>|
            {
                &&& is_arrangement(s, entries@)
                &&& lists(r@, s, from_node(s, config.goal(), Seq::empty(), 0))
                &&& rules_out(s, config.target, config.min_count) ==> r@.len() == 0
                &&& !rules_out(s, config.target, config.min_count) && tree_size(
                    s,
                    config.goal(),
                    Seq::empty(),
                    0,
                ) < first_poll() ==> r@.len() == max_results || r@.len() == from_node(
                    s,
                    config.goal(),
                    Seq::empty(),
                    0,
                ).len()
            },
{
    let data = PreparedData::new(entries);
    let n = data.len();
    let ghost s = data.entries();
    let ghost g = config.goal();
    let mut results: Vec<Vec<NumberEntry>> = Vec::new();
    if max_results == 0 || data.trivially_infeasible(config.target, config.min_count) {
        proof {
            assert(is_arrangement(s, entries@));
            assert(lists(results@, s, from_node(s, g, Seq::empty(), 0)));
        }
        return results;
    }
    let mut path: Vec<usize> = Vec::new();
    let mut check_counter: u64 = 0;
    branch_and_bound_all(
        &data,
        config,
        0,
        0,
        &mut path,
        &mut results,
        max_results,
        &mut check_counter,
    );
    proof {
        let e = Seq::<usize>::empty();
        let all = from_node(s, g, e, 0);
        assert(results@.skip(0) =~= results@);
        assert(is_arrangement(s, entries@));
        assert forall|k: int| 0 <= k < results@.len() implies is_combination(
            (#[trigger] results@[k])@,
            entries@,
            g,
        ) && ordered_by_index(results@[k]@) by {
            if !hits(s, g, e) {
                lemma_below_sound(s, g, e, 0, k);
            }
            lemma_report_is_combination(results@[k]@, s, g, all[k]);
        }
    }
    results
}

} // verus!
