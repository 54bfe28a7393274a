//! What holds of every search, whatever the entries and the goal.

use vstd::prelude::*;
use vstd::seq_lib::*;
use vstd::multiset::*;
use crate::entry::{NumberEntry, Goal, values_sum, drawn_from, distinct_indices, is_combination,
    ordered_by_index, solvable, entries_of, admitted};
use crate::paths::{lemma_below_sound, lemma_below_lists, lemma_below_distinct, all_positive,
    is_path, hits};
use crate::prepared::{lists, reports, lemma_report_is_combination};
use crate::arrange::{is_arrangement, lemma_arrangements_agree, lemma_same_values_below};
use crate::solver::{SolverResult, exact_answer};
use crate::batch::BatchSearchState;

verus! {

/// How many of the entries carry the original position `index`.
pub open spec fn position_count(s: Seq<NumberEntry>, index: usize) -> nat
    decreases s.len(),
{
    if s.len() == 0 {
        0
    } else {
        position_count(s.drop_last(), index) + if s.last().original_index == index {
            1nat
        } else {
            0nat
        }
    }
}

/// Among entries with distinct original positions a position is carried
/// once if it is carried at all.
pub proof fn lemma_position_count(s: Seq<NumberEntry>, index: usize)
    requires
        distinct_indices(s),
    ensures
        position_count(s, index) == (if exists|j: int|
            0 <= j < s.len() && (#[trigger] s[j]).original_index == index {
            1nat
        } else {
            0nat
        }),
    decreases s.len(),
{
    if s.len() > 0 {
        let s1 = s.drop_last();
        assert(distinct_indices(s1)) by {
            assert forall|i: int, j: int| 0 <= i < j < s1.len() implies (#[trigger] s1[i]).original_index
                != (#[trigger] s1[j]).original_index by {
                assert(s[i].original_index != s[j].original_index);
            }
        }
        lemma_position_count(s1, index);
        if s.last().original_index == index {
            assert(s[s.len() - 1].original_index == index);
            if exists|j: int| 0 <= j < s1.len() && (#[trigger] s1[j]).original_index == index {
                let j = choose|j: int| 0 <= j < s1.len() && (#[trigger] s1[j]).original_index == index;
                assert(s[j].original_index != s[s.len() - 1].original_index);
            }
        } else {
            if exists|j: int| 0 <= j < s.len() && (#[trigger] s[j]).original_index == index {
                let j = choose|j: int| 0 <= j < s.len() && (#[trigger] s[j]).original_index == index;
                assert(s1[j].original_index == index);
            }
            if exists|j: int| 0 <= j < s1.len() && (#[trigger] s1[j]).original_index == index {
                let j = choose|j: int| 0 <= j < s1.len() && (#[trigger] s1[j]).original_index == index;
                assert(s[j].original_index == index);
            }
        }
    }
}

/// A selection drawn from entries with distinct original positions names no
/// position twice, and each position it names is carried by exactly one of
/// the entries it was drawn from.
pub proof fn lemma_positions_unique(c: Seq<NumberEntry>, pool: Seq<NumberEntry>)
    requires
        drawn_from(c, pool),
        distinct_indices(pool),
    ensures
        distinct_indices(c),
        forall|k: int|
            0 <= k < c.len() ==> pool.contains(#[trigger] c[k]) && position_count(
                pool,
                c[k].original_index,
            ) == 1 && position_count(c, c[k].original_index) == 1,
{
    broadcast use group_multiset_axioms;

    c.to_multiset_ensures();
    pool.to_multiset_ensures();
    assert forall|k: int| 0 <= k < c.len() implies pool.contains(#[trigger] c[k]) by {
        assert(c.contains(c[k]));
        assert(c.to_multiset().count(c[k]) > 0);
        assert(pool.to_multiset().count(c[k]) > 0);
    }
    assert(pool.no_duplicates()) by {
        assert forall|i: int, j: int| 0 <= i < pool.len() && 0 <= j < pool.len() && i != j implies pool[i]
            != pool[j] by {
            if i < j {
                assert(pool[i].original_index != pool[j].original_index);
            } else {
                assert(pool[j].original_index != pool[i].original_index);
            }
        }
    }
    pool.lemma_multiset_has_no_duplicates();
    assert forall|a: int, b: int| 0 <= a < b < c.len() implies (#[trigger] c[a]).original_index != (
    #[trigger] c[b]).original_index by {
        if c[a].original_index == c[b].original_index {
            assert(pool.contains(c[a]));
            assert(pool.contains(c[b]));
            let ja = choose|j: int| 0 <= j < pool.len() && pool[j] == c[a];
            let jb = choose|j: int| 0 <= j < pool.len() && pool[j] == c[b];
            if ja < jb {
                assert(pool[ja].original_index != pool[jb].original_index);
            } else if jb < ja {
                assert(pool[jb].original_index != pool[ja].original_index);
            }
            let e = c[a];
            assert(c[b] == e);
            let c1 = c.remove(b);
            c1.to_multiset_ensures();
            assert(c1[a] == e);
            assert(c1.contains(e));
            assert(c1.to_multiset().count(e) > 0);
            assert(c1.to_multiset() == c.to_multiset().remove(e));
            assert(c.to_multiset().count(e) >= 2);
            assert(pool.to_multiset().contains(e));
        }
    }
    assert forall|k: int| 0 <= k < c.len() implies position_count(pool, (#[trigger] c[k]).original_index)
        == 1 && position_count(c, c[k].original_index) == 1 by {
        let x = c[k].original_index;
        lemma_position_count(pool, x);
        lemma_position_count(c, x);
        assert(pool.contains(c[k]));
        let j = choose|j: int| 0 <= j < pool.len() && pool[j] == c[k];
        assert(pool[j].original_index == x);
    }
}

/// The entries made of raw numbers carry distinct original positions, in
/// rising order, and each carries the admitted number that stands at its
/// position.
pub proof fn lemma_entries_of(numbers: Seq<u64>, target: u64)
    requires
        numbers.len() <= usize::MAX,
    ensures
        distinct_indices(entries_of(numbers, target)),
        ordered_by_index(entries_of(numbers, target)),
        forall|k: int|
            0 <= k < entries_of(numbers, target).len() ==> {
                let e = #[trigger] entries_of(numbers, target)[k];
                &&& e.original_index < numbers.len()
                &&& e.value == numbers[e.original_index as int]
                &&& admitted(e.value, target)
            },
    decreases numbers.len(),
{
    if numbers.len() > 0 {
        let front = numbers.drop_last();
        lemma_entries_of(front, target);
        let rest = entries_of(front, target);
        let all = entries_of(numbers, target);
        assert forall|k: int| 0 <= k < rest.len() implies (#[trigger] rest[k]).original_index
            < numbers.len() - 1 && rest[k].value == numbers[rest[k].original_index as int]
            && admitted(rest[k].value, target) by {
            assert(front[rest[k].original_index as int] == numbers[rest[k].original_index as int]);
        }
        assert forall|k: int| 0 <= k < all.len() implies ({
            let e = #[trigger] all[k];
            &&& e.original_index < numbers.len()
            &&& e.value == numbers[e.original_index as int]
            &&& admitted(e.value, target)
        }) by {
            if k < rest.len() {
                assert(all[k] == rest[k]);
            }
        }
        assert forall|i: int, j: int| 0 <= i < j < all.len() implies (#[trigger] all[i]).original_index
            < (#[trigger] all[j]).original_index by {
            assert(all[i] == rest[i]);
            if j < rest.len() {
                assert(all[j] == rest[j]);
                assert(rest[i].original_index <= rest[j].original_index);
                assert(rest[i].original_index != rest[j].original_index);
            }
        }
    }
}

/// Two searches for one selection that both give an exact answer and are not
/// called off agree on whether there is a selection: both name one, or both
/// deny that there is any.
pub proof fn lemma_exact_answers_agree(
    r1: SolverResult,
    r2: SolverResult,
    pool: Seq<NumberEntry>,
    g: Goal,
)
    requires
        exact_answer(r1, pool, g),
        exact_answer(r2, pool, g),
        !(r1 is Cancelled),
        !(r2 is Cancelled),
    ensures
        r1 is Found <==> r2 is Found,
        r1 is Found <==> solvable(pool, g),
{
    if let SolverResult::Found(c) = r1 {
        assert(is_combination(c@, pool, g));
    }
    if let SolverResult::Found(c) = r2 {
        assert(is_combination(c@, pool, g));
    }
}

/// Every combination that a session holds is drawn from the entries it was
/// made for, sums to the target, has a number of entries within the count
/// bounds and stands in the order of the original positions.
pub proof fn lemma_session_results_meet_goal(
    state: BatchSearchState,
    pool: Seq<NumberEntry>,
    k: int,
)
    requires
        state.wf(),
        is_arrangement(state.entries(), pool),
        0 <= k < state.found().len(),
    ensures
        is_combination(state.found()[k]@, pool, state.goal()),
        values_sum(state.found()[k]@) == state.goal().target,
        state.goal().min_count <= state.found()[k]@.len() <= state.goal().max_count,
        ordered_by_index(state.found()[k]@),
{
    state.lemma_wf();
    let s = state.entries();
    let g = state.goal();
    lemma_below_sound(s, g, Seq::empty(), 0, k);
    lemma_report_is_combination(state.found()[k]@, s, g, state.expected()[k]);
}

/// The combinations that a session holds report different paths: none is
/// found twice.
pub proof fn lemma_session_results_differ(state: BatchSearchState, a: int, b: int)
    requires
        state.wf(),
        0 <= a < b < state.found().len(),
    ensures
        state.expected()[a] != state.expected()[b],
        reports(state.found()[a]@, state.entries(), state.expected()[a]),
        reports(state.found()[b]@, state.entries(), state.expected()[b]),
{
    state.lemma_wf();
    lemma_below_distinct(state.entries(), state.goal(), Seq::empty(), 0, a, b);
}

/// Over positive values a finished session that stayed under its cap holds
/// a report of every path that meets the goal.
pub proof fn lemma_finished_session_is_complete(state: BatchSearchState, q: Seq<usize>)
    requires
        state.wf(),
        state.is_finished(),
        state.found().len() < state.max_results(),
        all_positive(state.entries()),
        is_path(q, state.entries().len()),
        hits(state.entries(), state.goal(), q),
        q.len() > 0,
    ensures
        state.expected().contains(q),
        state.found().len() == state.expected().len(),
{
    state.lemma_wf();
    assert(q.take(0) =~= Seq::<usize>::empty());
    lemma_below_lists(state.entries(), state.goal(), Seq::empty(), 0, q);
}

/// How a session was driven to its end does not matter: two finished
/// sessions for the same entries, goal and cap hold equally many
/// combinations, and these report the same paths of the walk in the same
/// order.
pub proof fn lemma_chunking_is_immaterial(
    a: BatchSearchState,
    b: BatchSearchState,
    pool: Seq<NumberEntry>,
)
    requires
        a.wf(),
        b.wf(),
        is_arrangement(a.entries(), pool),
        is_arrangement(b.entries(), pool),
        a.goal() == b.goal(),
        a.max_results() == b.max_results(),
        a.is_finished(),
        b.is_finished(),
    ensures
        a.found().len() == b.found().len(),
        a.expected() == b.expected(),
        lists(a.found(), a.entries(), a.expected()),
        lists(b.found(), b.entries(), a.expected()),
{
    a.lemma_wf();
    b.lemma_wf();
    lemma_arrangements_agree(a.entries(), b.entries(), pool);
    lemma_same_values_below(a.entries(), b.entries(), a.goal(), Seq::empty(), 0);
}

} // verus!
