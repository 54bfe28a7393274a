//! The depth-first walk of a session, step by step: where it stands, what one
//! node visit does to that, and where a given number of visits leads.

use vstd::prelude::*;
use crate::entry::{NumberEntry, Goal};
use crate::paths::{path_sum, tail_sum, hits};
use crate::prepared::capped;

verus! {

/// Where a walk stands.
pub struct Walk {
    /// For each open level, the root first, the place that is tried next
    /// there. At each level but the last the walk has taken the place before.
    pub cursor: Seq<usize>,
    /// How many paths were reported.
    pub found: nat,
    /// How many top-level branches were taken up.
    pub done: usize,
    /// Whether the walk was declared over.
    pub finished: bool,
    /// How many nodes were visited, as a 64-bit counter holds it.
    pub nodes: u64,
}

/// The path at which the last open level stands: the places taken at the
/// levels before it.
pub open spec fn walk_path(cursor: Seq<usize>) -> Seq<usize> {
    if cursor.len() == 0 {
        Seq::empty()
    } else {
        Seq::new((cursor.len() - 1) as nat, |d: int| (cursor[d] - 1) as usize)
    }
}

/// Place `i` need not be tried after path `p`, nor any place after it: its
/// value is above what is left to the target, or all values from it on
/// together stay below what is left, or too few places are left to reach the
/// lower count bound.
pub open spec fn pruned(s: Seq<NumberEntry>, g: Goal, p: Seq<usize>, i: int) -> bool {
    let left = g.target - path_sum(s, p);
    ||| s[i].value > left
    ||| capped(tail_sum(s, i)) < left
    ||| s.len() - i < g.min_count - p.len()
}

/// The number of nodes that a depth-first search visits at most from the
/// node at path `p` on, where the places from `start` on may be tried: the
/// node itself and, unless the path meets the goal or cannot be extended,
/// what is visited for the places that are not pruned.
pub open spec fn tree_size(s: Seq<NumberEntry>, g: Goal, p: Seq<usize>, start: int) -> nat
    decreases s.len() - start, 1int,
{
    if hits(s, g, p) || p.len() >= g.max_count || s.len() - start < g.min_count - p.len() {
        1
    } else {
        1 + branches_size(s, g, p, start)
    }
}

/// The number of nodes that a depth-first search visits at most for the
/// places from `i` on after path `p`.
pub open spec fn branches_size(s: Seq<NumberEntry>, g: Goal, p: Seq<usize>, i: int) -> nat
    decreases s.len() - i, 0int,
{
    if i < 0 || i >= s.len() || pruned(s, g, p, i) {
        0
    } else {
        tree_size(s, g, p.push(i as usize), i + 1) + branches_size(s, g, p, i + 1)
    }
}

/// The number of node visits from which on a depth-first search looks at the
/// cancellation flag.
pub open spec fn first_poll() -> nat {
    4096
}

/// The walk where it begins: at the root with the first place to try, or with
/// nothing open where the instance was ruled out.
pub open spec fn start_walk(ruled_out: bool) -> Walk {
    Walk {
        cursor: if ruled_out {
            Seq::empty()
        } else {
            seq![0usize]
        },
        found: 0,
        done: 0,
        finished: ruled_out,
        nodes: 0,
    }
}

/// What the visit of the node at the last open level does, seen from the
/// moment in which place `i` is the next to try there. A place that is pruned
/// or beyond the end closes the level. A place that completes a path meeting
/// the goal is reported, and the visit goes on with the next place unless the
/// cap is reached, which ends the walk. Any other place is passed, and a new
/// level is opened behind it if the count bound allows a longer path.
pub open spec fn scan(s: Seq<NumberEntry>, g: Goal, cap: usize, w: Walk, i: int) -> Walk
    decreases s.len() - i,
{
    let d = w.cursor.len() - 1;
    let p = walk_path(w.cursor);
    if i < 0 || i >= s.len() || pruned(s, g, p, i) {
        Walk { cursor: w.cursor.drop_last(), ..w }
    } else {
        let q = p.push(i as usize);
        let next = (i + 1) as usize;
        let done = if d == 0 {
            next
        } else {
            w.done
        };
        if hits(s, g, q) {
            if w.found + 1 >= cap {
                Walk { cursor: Seq::empty(), found: w.found + 1, done, finished: true, nodes: w.nodes }
            } else {
                scan(
                    s,
                    g,
                    cap,
                    Walk { cursor: w.cursor.update(d, next), found: w.found + 1, done, ..w },
                    i + 1,
                )
            }
        } else if q.len() < g.max_count {
            Walk { cursor: w.cursor.update(d, next).push(next), done, ..w }
        } else {
            Walk { cursor: w.cursor.update(d, next), done, ..w }
        }
    }
}

/// What one node visit does to a walk with an open level.
pub open spec fn visit(s: Seq<NumberEntry>, g: Goal, cap: usize, w: Walk) -> Walk {
    scan(s, g, cap, w, w.cursor.last() as int)
}

/// Where up to `budget` node visits lead: visits are made, and counted,
/// as long as a level is open and the cap is not reached.
pub open spec fn advance(s: Seq<NumberEntry>, g: Goal, cap: usize, w: Walk, budget: nat) -> Walk
    decreases budget,
{
    if budget == 0 || w.cursor.len() == 0 || w.found >= cap {
        w
    } else {
        advance(
            s,
            g,
            cap,
            visit(s, g, cap, Walk { nodes: capped(w.nodes + 1), ..w }),
            (budget - 1) as nat,
        )
    }
}

/// A walk is over when no level is open or the cap is reached.
pub open spec fn settle(cap: usize, w: Walk) -> Walk {
    Walk { finished: w.finished || w.cursor.len() == 0 || w.found >= cap, ..w }
}

/// One step of a session: up to `budget` node visits, after which the walk
/// is declared over if it is.
pub open spec fn step(s: Seq<NumberEntry>, g: Goal, cap: usize, w: Walk, budget: nat) -> Walk {
    settle(cap, advance(s, g, cap, w, budget))
}

/// Visits made one after the other lead where as many visits made at once
/// lead.
pub proof fn lemma_advance_adds(
    s: Seq<NumberEntry>,
    g: Goal,
    cap: usize,
    w: Walk,
    a: nat,
    b: nat,
)
    ensures
        advance(s, g, cap, advance(s, g, cap, w, a), b) == advance(s, g, cap, w, a + b),
    decreases a,
{
    if a == 0 || w.cursor.len() == 0 || w.found >= cap {
        let w1 = advance(s, g, cap, w, a);
        assert(w1 == w);
        if a > 0 {
            assert(advance(s, g, cap, w, b) == w);
            assert(advance(s, g, cap, w, a + b) == w);
        }
    } else {
        let w1 = visit(s, g, cap, Walk { nodes: capped(w.nodes + 1), ..w });
        lemma_advance_adds(s, g, cap, w1, (a - 1) as nat, b);
        assert(((a - 1) as nat) + b == (a + b - 1) as nat);
    }
}

/// Declaring a walk over changes nothing in where further visits lead.
pub proof fn lemma_advance_settled(s: Seq<NumberEntry>, g: Goal, cap: usize, w: Walk, b: nat)
    ensures
        settle(cap, advance(s, g, cap, settle(cap, w), b)) == settle(cap, advance(s, g, cap, w, b)),
    decreases b,
{
    let ws = settle(cap, w);
    if b == 0 || w.cursor.len() == 0 || w.found >= cap {
    } else {
        let w1 = visit(s, g, cap, Walk { nodes: capped(w.nodes + 1), ..w });
        let w2 = visit(s, g, cap, Walk { nodes: capped(ws.nodes + 1), ..ws });
        assert(!w.finished ==> ws == w);
    }
}

/// Steps made one after the other lead where one step with the budgets
/// added up leads: cutting the work into steps changes nothing in its
/// outcome.
pub proof fn lemma_steps_add(s: Seq<NumberEntry>, g: Goal, cap: usize, w: Walk, a: nat, b: nat)
    ensures
        step(s, g, cap, step(s, g, cap, w, a), b) == step(s, g, cap, w, a + b),
{
    lemma_advance_settled(s, g, cap, advance(s, g, cap, w, a), b);
    lemma_advance_adds(s, g, cap, w, a, b);
}

} // verus!
