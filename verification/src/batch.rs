//! The search for all selections that meet a goal, as a session that is
//! driven in bounded steps. The depth-first walk keeps its place in an
//! explicit stack of frames, so that a step can stop after any number of
//! node visits and the next step goes on from there.

use vstd::prelude::*;
use crate::entry::{NumberEntry, Goal, copy_combination};
use crate::paths::{is_path, path_sum, hits, below};
use crate::paths::{lemma_path_sum_push, lemma_prune_value, lemma_prune_tail, lemma_prune_count,
    lemma_prune_depth, lemma_tail_sum_nonneg};
use crate::prepared::{PreparedData, lists, reports, capped, lemma_rules_out};
use crate::arrange::{is_arrangement, ruled_out, lemma_ruled_out};
use crate::walk::{Walk, walk_path, pruned, start_walk, scan, visit, advance, step};

verus! {

/// One level of the walk: the path it stands at is the first `path_len`
/// places of the session's path, they sum to `current_sum`, and `start` is
/// the place that is tried next at this level.
struct Frame {
    start: usize,
    current_sum: u64,
    path_len: usize,
}

/// A fraction of the work done, as a ratio of two counts.
pub struct Progress {
    pub numerator: usize,
    pub denominator: usize,
}

impl Progress {
    /// The ratio is one.
    pub open spec fn is_complete(&self) -> bool {
        self.numerator == self.denominator
    }

    /// The ratio is at most that of `other`.
    pub open spec fn le(&self, other: &Progress) -> bool {
        self.numerator * other.denominator <= other.numerator * self.denominator
    }
}

/// The progress that a session reports: one exactly when it is finished,
/// else the share of top-level branches that were taken up, held at or below
/// 999 in 1000.
pub open spec fn progress_of(done: usize, total: usize, finished: bool) -> Progress {
    if finished {
        Progress { numerator: 1, denominator: 1 }
    } else if done * 1000 > total * 999 {
        Progress { numerator: 999, denominator: 1000 }
    } else {
        Progress { numerator: done, denominator: total }
    }
}

/// The share of top-level branches taken up, held at or below 999 in 1000.
fn clamp_progress(done: usize, total: usize) -> (r: Progress)
    ensures
        r == progress_of(done, total, false),
{
    if (done as u128) * 1000 > (total as u128) * 999 {
        Progress { numerator: 999, denominator: 1000 }
    } else {
        Progress { numerator: done, denominator: total }
    }
}

/// Progress never falls as more branches are taken up, and it is one
/// exactly for a finished session.
pub proof fn lemma_progress_rises(d1: usize, d2: usize, n: usize, f1: bool, f2: bool)
    requires
        d1 <= d2 <= n,
        f1 ==> f2,
        !f2 ==> n > 0,
    ensures
        progress_of(d1, n, f1).le(&progress_of(d2, n, f2)),
        progress_of(d2, n, f2).is_complete() <==> f2,
{
    let a = progress_of(d1, n, f1);
    let b = progress_of(d2, n, f2);
    if f2 {
        assert(a.numerator <= a.denominator);
    } else if d2 * 1000 > n * 999 {
        assert(b.numerator == 999 && b.denominator == 1000);
        if d1 * 1000 > n * 999 {
            assert(a.numerator == 999 && a.denominator == 1000);
        } else {
            assert(a.numerator == d1 && a.denominator == n);
        }
    } else {
        assert(b.numerator == d2 && b.denominator == n);
        assert(a.numerator == d1 && a.denominator == n);
        assert(d1 * n <= d2 * n) by (nonlinear_arith)
            requires
                d1 <= d2,
                n >= 0,
        ;
    }
}

/// What one step of a session hands back.
pub struct BatchResult {
    /// The combinations found in this step.
    pub new_results: Vec<Vec<NumberEntry>>,
    /// How many combinations the session has found so far.
    pub total_found: usize,
    /// How many nodes the session has visited so far.
    pub nodes_explored: u64,
    /// Whether the search is over.
    pub finished: bool,
    /// An estimate of the share of the work that is done.
    pub progress: Progress,
}

impl BatchResult {
    /// The result tells of `state` what a step has to tell: the combinations
    /// that `state` holds beyond the first `before`, and its counts.
    pub open spec fn tells(&self, state: &BatchSearchState, before: int) -> bool {
        &&& self.new_results@.len() == state.found().len() - before
        &&& forall|k: int|
            0 <= k < self.new_results@.len() ==> (#[trigger] self.new_results@[k])@
                == state.found()[before + k]@
        &&& self.total_found == state.found().len()
        &&& self.nodes_explored == state.nodes()
        &&& self.finished == state.is_finished()
        &&& self.progress == state.progress()
    }
}

/// A search for all selections that meet a goal, with its place in the walk.
pub struct BatchSearchState {
    data: PreparedData,
    target: u64,
    min_count: usize,
    max_count: usize,
    max_results: usize,
    stack: Vec<Frame>,
    path: Vec<usize>,
    results: Vec<Vec<NumberEntry>>,
    nodes_explored: u64,
    finished: bool,
    top_level_n: usize,
    top_level_done: usize,
}

/// The frame at depth `d` fits the path: it stands at the first `d` places of
/// it, holds their sum, which is within the target, tries places beyond the
/// last of them, and leaves room under the count bound for one more place.
spec fn frame_ok(s: Seq<NumberEntry>, g: Goal, f: Frame, d: int, path: Seq<usize>) -> bool {
    &&& f.path_len == d
    &&& f.start <= s.len()
    &&& d >= 1 ==> f.start > path[d - 1]
    &&& f.current_sum == path_sum(s, path.take(d))
    &&& f.current_sum <= g.target
    &&& d < g.max_count
}

/// The path reaches as far as the frames do, rises strictly up to the top
/// frame, and every frame fits it.
spec fn frames_ok(s: Seq<NumberEntry>, g: Goal, stack: Seq<Frame>, path: Seq<usize>) -> bool {
    &&& path.len() + 1 >= stack.len()
    &&& is_path(path.take(stack.len() - 1), s.len())
    &&& forall|d: int| 0 <= d < stack.len() ==> frame_ok(s, g, #[trigger] stack[d], d, path)
}

/// The next places of the frames, the root's first.
spec fn cursor_of(stack: Seq<Frame>) -> Seq<usize> {
    Seq::new(stack.len(), |d: int| stack[d].start)
}

/// At every frame but the top one the walk has taken the place before the
/// frame's next place.
spec fn links_ok(stack: Seq<Frame>, path: Seq<usize>) -> bool {
    forall|d: int| 0 <= d < stack.len() - 1 ==> path[d] + 1 == (#[trigger] stack[d]).start
}

/// The path that the cursor of well-linked frames spells is the path that
/// the top frame stands at.
proof fn lemma_walk_path(stack: Seq<Frame>, path: Seq<usize>)
    requires
        stack.len() > 0,
        path.len() >= stack.len() - 1,
        links_ok(stack, path),
    ensures
        walk_path(cursor_of(stack)) == path.take(stack.len() - 1),
{
    let c = cursor_of(stack);
    assert forall|d: int| 0 <= d < stack.len() - 1 implies walk_path(c)[d] == path.take(
        stack.len() - 1,
    )[d] by {
        assert(path[d] + 1 == stack[d].start);
    }
    assert(walk_path(c) =~= path.take(stack.len() - 1));
}

/// The paths that the walk has yet to report: for each frame from the top
/// one down, what lies below its path from its next place on.
spec fn pending(s: Seq<NumberEntry>, g: Goal, stack: Seq<Frame>, path: Seq<usize>) -> Seq<
    Seq<usize>,
>
    decreases stack.len(),
{
    if stack.len() == 0 {
        Seq::empty()
    } else {
        below(s, g, path.take(stack.len() - 1), stack.last().start as int) + pending(
            s,
            g,
            stack.drop_last(),
            path,
        )
    }
}

/// A bound on the node visits that are needed to go through all the paths
/// over `k` places: twice the bound for one place less, and one.
pub open spec fn visit_bound(k: nat) -> nat
    decreases k,
{
    if k == 0 {
        1
    } else {
        2 * visit_bound((k - 1) as nat) + 1
    }
}

/// The node visits that the frames can still give rise to, at most: for
/// each frame the bound for the places from its next place on.
spec fn stack_weight(n: int, stack: Seq<Frame>) -> int
    decreases stack.len(),
{
    if stack.len() == 0 {
        0
    } else {
        stack_weight(n, stack.drop_last()) + visit_bound((n - stack.last().start) as nat)
    }
}

/// Every frame weighs at least one, so dropping the top frame lowers the
/// weight.
proof fn lemma_weight_pos(n: int, stack: Seq<Frame>)
    ensures
        stack_weight(n, stack) >= stack.len(),
        stack.len() > 0 ==> stack_weight(n, stack.drop_last()) < stack_weight(n, stack),
    decreases stack.len(),
{
    if stack.len() > 0 {
        lemma_weight_pos(n, stack.drop_last());
        assert(visit_bound((n - stack.last().start) as nat) >= 1);
    }
}

/// Moving the top frame's next place on by one lowers the weight, and a new
/// frame for the place passed makes up for all but one of what was lost.
proof fn lemma_weight_advance(n: int, stack: Seq<Frame>, top: Frame, child: Frame)
    requires
        stack.len() > 0,
        stack.last().start < n,
        top.start == stack.last().start + 1,
        child.start == top.start,
    ensures
        stack_weight(n, stack.update(stack.len() - 1, top)) < stack_weight(n, stack),
        stack_weight(n, stack.update(stack.len() - 1, top).push(child)) < stack_weight(n, stack),
{
    let d = stack.len() - 1;
    let stack2 = stack.update(d, top);
    let stack3 = stack2.push(child);
    assert(stack2.drop_last() =~= stack.drop_last());
    assert(stack3.drop_last() =~= stack2);
    assert(visit_bound((n - stack.last().start) as nat) == 2 * visit_bound((n - top.start) as nat) + 1);
}

/// What is pending depends on the path only as far as the frames reach.
proof fn lemma_pending_same(
    s: Seq<NumberEntry>,
    g: Goal,
    stack: Seq<Frame>,
    path1: Seq<usize>,
    path2: Seq<usize>,
)
    requires
        stack.len() > 0 ==> path1.len() >= stack.len() - 1 && path2.len() >= stack.len() - 1
            && path1.take(stack.len() - 1) == path2.take(stack.len() - 1),
    ensures
        pending(s, g, stack, path1) == pending(s, g, stack, path2),
    decreases stack.len(),
{
    if stack.len() > 0 {
        let d = stack.len() - 1;
        if d > 0 {
            assert(path1.take(d - 1) =~= path1.take(d).take(d - 1));
            assert(path2.take(d - 1) =~= path2.take(d).take(d - 1));
        }
        lemma_pending_same(s, g, stack.drop_last(), path1, path2);
    }
}

/// The frames stay in order when the path changes beyond their reach.
proof fn lemma_frames_same(
    s: Seq<NumberEntry>,
    g: Goal,
    stack: Seq<Frame>,
    path1: Seq<usize>,
    path2: Seq<usize>,
)
    requires
        frames_ok(s, g, stack, path1),
        stack.len() > 0,
        path2.len() >= stack.len() - 1,
        path1.take(stack.len() - 1) == path2.take(stack.len() - 1),
    ensures
        frames_ok(s, g, stack, path2),
{
    let top = stack.len() - 1;
    assert forall|d: int| 0 <= d < stack.len() implies frame_ok(s, g, #[trigger] stack[d], d, path2) by {
        assert(frame_ok(s, g, stack[d], d, path1));
        assert(path1.take(d) =~= path1.take(top).take(d));
        assert(path2.take(d) =~= path2.take(top).take(d));
        if d >= 1 {
            assert(path1[d - 1] == path1.take(top)[d - 1]);
            assert(path2[d - 1] == path2.take(top)[d - 1]);
        }
    }
}

/// Dropping the top frame leaves the frames below in order.
proof fn lemma_frames_pop(s: Seq<NumberEntry>, g: Goal, stack: Seq<Frame>, path: Seq<usize>)
    requires
        frames_ok(s, g, stack, path),
        stack.len() > 1,
    ensures
        frames_ok(s, g, stack.drop_last(), path),
{
    let top = stack.len() - 1;
    assert(path.take(top - 1) =~= path.take(top).take(top - 1));
    assert forall|d: int| 0 <= d < stack.len() - 1 implies frame_ok(
        s,
        g,
        #[trigger] stack.drop_last()[d],
        d,
        path,
    ) by {
        assert(frame_ok(s, g, stack[d], d, path));
    }
}

/// Where the next paths due are `first` followed by `rest`, the next
/// `first.len()` of all paths are those of `first`, and `rest` is due after
/// them.
proof fn lemma_skip_split<T>(all: Seq<T>, r: int, first: Seq<T>, rest: Seq<T>)
    requires
        0 <= r <= all.len(),
        all.skip(r) == first + rest,
    ensures
        r + first.len() <= all.len(),
        forall|k: int| 0 <= k < first.len() ==> all[r + k] == first[k],
        first.len() > 0 ==> all[r] == first[0],
        all.skip(r + first.len()) =~= rest,
{
    let tail = all.skip(r);
    assert(tail.len() == first.len() + rest.len());
    assert forall|k: int| 0 <= k < first.len() implies all[r + k] == first[k] by {
        assert(tail[k] == first[k]);
    }
    assert forall|k: int| 0 <= k < rest.len() implies all.skip(r + first.len())[k] == rest[k] by {
        assert(tail[first.len() + k] == rest[k]);
    }
    if first.len() > 0 {
        assert(tail[0] == first[0]);
    }
}

/// Taking up place `i` at the top frame: the frame's next place moves past
/// `i`, the path ends in `i`, and what was pending is what the extended path
/// gives rise to, followed by what is pending then.
proof fn lemma_advance(
    s: Seq<NumberEntry>,
    g: Goal,
    stack: Seq<Frame>,
    path: Seq<usize>,
    i: usize,
)
    requires
        frames_ok(s, g, stack, path),
        stack.len() > 0,
        stack.last().start == i,
        i < s.len() <= usize::MAX,
    ensures
        ({
            let d = stack.len() - 1;
            let q = path.take(d).push(i);
            let f = stack.last();
            let stack2 = stack.update(
                d,
                Frame { start: (i + 1) as usize, current_sum: f.current_sum, path_len: f.path_len },
            );
            &&& is_path(q, s.len())
            &&& path_sum(s, q) == f.current_sum + s[i as int].value
            &&& frames_ok(s, g, stack2, q)
            &&& pending(s, g, stack, path) == (if hits(s, g, q) {
                seq![q]
            } else {
                below(s, g, q, i + 1)
            }) + pending(s, g, stack2, q)
        }),
{
    let d = stack.len() - 1;
    let p = path.take(d);
    let q = p.push(i);
    let f = stack.last();
    let stack2 = stack.update(
        d,
        Frame { start: (i + 1) as usize, current_sum: f.current_sum, path_len: f.path_len },
    );
    assert(frame_ok(s, g, stack[d], d, path));
    assert(is_path(q, s.len())) by {
        if d >= 1 {
            assert(p[d - 1] == path[d - 1]);
        }
    }
    lemma_path_sum_push(s, p, i);
    assert(q.take(d) =~= p);
    assert forall|k: int| 0 <= k < stack2.len() implies frame_ok(s, g, #[trigger] stack2[k], k, q) by {
        assert(frame_ok(s, g, stack[k], k, path));
        assert(q.take(k) =~= path.take(k));
        if k >= 1 {
            assert(q[k - 1] == path[k - 1]);
        }
    }
    assert(stack2.drop_last() =~= stack.drop_last());
    if d > 0 {
        assert(path.take(d - 1) =~= q.take(d - 1));
    }
    lemma_pending_same(s, g, stack.drop_last(), path, q);
    let rest = pending(s, g, stack.drop_last(), path);
    let first = if hits(s, g, q) {
        seq![q]
    } else {
        below(s, g, q, i + 1)
    };
    assert(below(s, g, p, i as int) == first + below(s, g, p, i + 1));
    assert(pending(s, g, stack2, q) == below(s, g, p, i + 1) + rest);
    assert(pending(s, g, stack, path) == below(s, g, p, i as int) + rest);
    assert((first + below(s, g, p, i + 1)) + rest =~= first + (below(s, g, p, i + 1) + rest));
}

/// Going one level down: with a new frame for the path on top, what lies
/// below that path is pending before all the rest.
proof fn lemma_descend(
    s: Seq<NumberEntry>,
    g: Goal,
    stack: Seq<Frame>,
    q: Seq<usize>,
    i: usize,
    sum: u64,
)
    requires
        frames_ok(s, g, stack, q),
        stack.len() > 0,
        q.len() == stack.len(),
        q.last() == i,
        i < s.len() <= usize::MAX,
        is_path(q, s.len()),
        sum == path_sum(s, q),
        sum <= g.target,
        q.len() < g.max_count,
    ensures
        ({
            let stack3 = stack.push(
                Frame { start: (i + 1) as usize, current_sum: sum, path_len: q.len() as usize },
            );
            &&& frames_ok(s, g, stack3, q)
            &&& pending(s, g, stack3, q) == below(s, g, q, i + 1) + pending(s, g, stack, q)
        }),
{
    let stack3 = stack.push(
        Frame { start: (i + 1) as usize, current_sum: sum, path_len: q.len() as usize },
    );
    assert(q.take(q.len() as int) =~= q);
    assert(stack3.drop_last() =~= stack);
    assert forall|k: int| 0 <= k < stack3.len() implies frame_ok(s, g, #[trigger] stack3[k], k, q) by {
        if k < stack.len() {
            assert(frame_ok(s, g, stack[k], k, q));
        }
    }
}

impl BatchSearchState {
    /// The entries in the order in which the session walks them: rising by
    /// value.
    pub closed spec fn entries(&self) -> Seq<NumberEntry> {
        self.data.entries()
    }

    /// The goal of the session.
    pub closed spec fn goal(&self) -> Goal {
        Goal { target: self.target, min_count: self.min_count, max_count: self.max_count }
    }

    /// The cap on the number of combinations.
    pub closed spec fn max_results(&self) -> usize {
        self.max_results
    }

    /// The combinations found so far, in the order in which they were found.
    pub closed spec fn found(&self) -> Seq<Vec<NumberEntry>> {
        self.results@
    }

    /// The number of nodes visited so far.
    pub closed spec fn nodes(&self) -> u64 {
        self.nodes_explored
    }

    /// Whether the search is over.
    pub closed spec fn is_finished(&self) -> bool {
        self.finished
    }

    /// The number of top-level branches that were taken up.
    pub closed spec fn top_level_done(&self) -> usize {
        self.top_level_done
    }

    /// The number of top-level branches there are.
    pub closed spec fn top_level_total(&self) -> usize {
        self.top_level_n
    }

    /// Where the walk of the session stands.
    pub closed spec fn walk(&self) -> Walk {
        Walk {
            cursor: cursor_of(self.stack@),
            found: self.results@.len(),
            done: self.top_level_done,
            finished: self.finished,
            nodes: self.nodes_explored,
        }
    }

    /// A bound on the node visits that the session still needs to finish.
    pub closed spec fn work_left(&self) -> nat {
        stack_weight(self.data.entries().len() as int, self.stack@) as nat
    }

    /// All the paths that the walk reports, in its order.
    pub open spec fn expected(&self) -> Seq<Seq<usize>> {
        below(self.entries(), self.goal(), Seq::empty(), 0)
    }

    /// The progress that the session reports in its present state.
    pub open spec fn progress(&self) -> Progress {
        progress_of(self.top_level_done(), self.top_level_total(), self.is_finished())
    }

    /// What holds of a session between node visits: what it has found are the
    /// reports of the first paths of the walk, and what its frames leave
    /// pending is the rest of them.
    spec fn inv(&self) -> bool {
        let s = self.data.entries();
        let g = self.goal();
        let all = below(s, g, Seq::empty(), 0);
        &&& self.data.wf()
        &&& self.top_level_n == s.len()
        &&& self.top_level_done <= s.len()
        &&& (self.finished || s.len() > 0)
        &&& self.results@.len() <= self.max_results
        &&& lists(self.results@, s, all)
        &&& (self.finished ==> self.stack@.len() == 0 || self.results@.len() >= self.max_results)
        &&& if self.stack@.len() > 0 {
            &&& frames_ok(s, g, self.stack@, self.path@)
            &&& links_ok(self.stack@, self.path@)
            &&& self.top_level_done == self.stack@[0].start
            &&& all.skip(self.results@.len() as int) == pending(s, g, self.stack@, self.path@)
        } else {
            self.results@.len() == self.max_results || all.len() == self.results@.len()
        }
    }

    /// The session is in order: what it has found are the reports of the
    /// first paths of the walk, and its frames hold the place from which the
    /// rest of the walk goes on.
    pub closed spec fn wf(&self) -> bool {
        &&& self.inv()
        &&& self.stack@.len() == 0 ==> self.finished
    }

    /// The two sessions work on the same instance.
    pub open spec fn same_problem(&self, other: &Self) -> bool {
        &&& self.entries() == other.entries()
        &&& self.goal() == other.goal()
        &&& self.max_results() == other.max_results()
        &&& self.top_level_total() == other.top_level_total()
    }

    /// The session is `earlier` after some more work: the instance is the
    /// same, what was found is still there with more behind it, and no count
    /// went back.
    pub open spec fn extends(&self, earlier: &Self) -> bool {
        &&& self.same_problem(earlier)
        &&& earlier.found().len() <= self.found().len()
        &&& self.found().take(earlier.found().len() as int) == earlier.found()
        &&& earlier.top_level_done() <= self.top_level_done()
        &&& earlier.nodes() <= self.nodes()
        &&& earlier.is_finished() ==> self.is_finished()
    }

    /// Prepares the entries, makes the quick test and, unless it rules the
    /// instance out, sets the walk at its root.
    pub fn new(
        entries: &[NumberEntry],
        target: u64,
        min_count: usize,
        max_count: usize,
        max_results: usize,
    ) -> (r: Self)
        ensures
            r.wf(),
            is_arrangement(r.entries(), entries@),
            r.goal() == (Goal { target, min_count, max_count }),
            r.max_results() == max_results,
            r.found().len() == 0,
            r.nodes() == 0,
            r.top_level_done() == 0,
            r.top_level_total() == entries@.len(),
            r.is_finished() == ruled_out(entries@, r.goal()),
            entries@.len() == 0 || min_count > entries@.len() ==> r.is_finished(),
            r.work_left() <= visit_bound(entries@.len()),
            r.walk() == start_walk(r.is_finished()),
    {
        let data = PreparedData::new(entries);
        let n = data.len();
        let finished = data.trivially_infeasible(target, min_count) || max_count < 1;
        let mut stack: Vec<Frame> = Vec::new();
        if !finished {
            stack.push(Frame { start: 0, current_sum: 0, path_len: 0 });
        }
        let ghost s = data.entries();
        let ghost g = Goal { target, min_count, max_count };
        proof {
            s.to_multiset_ensures();
            entries@.to_multiset_ensures();
            lemma_ruled_out(s, entries@, g);
            assert(cursor_of(stack@) =~= start_walk(finished).cursor);
            if !finished {
                assert(stack@.drop_last() =~= Seq::empty());
                assert(stack_weight(n as int, Seq::<Frame>::empty()) == 0);
                assert(stack_weight(n as int, stack@) == visit_bound(n as nat));
            }
            let e = Seq::<usize>::empty();
            let all = below(s, g, e, 0);
            if finished {
                if max_count < 1 {
                    lemma_prune_depth(s, g, e, 0);
                } else {
                    lemma_rules_out(s, g);
                }
            } else {
                assert(e.take(0) =~= e);
                assert(pending(s, g, stack@.drop_last(), e) =~= Seq::empty());
                assert(all.skip(0) =~= all);
                assert(pending(s, g, stack@, e) =~= all);
            }
        }
        BatchSearchState {
            top_level_n: n,
            top_level_done: 0,
            data,
            target,
            min_count,
            max_count,
            max_results,
            stack,
            path: Vec::new(),
            results: Vec::new(),
            nodes_explored: 0,
            finished,
        }
    }

    /// Visits the node on top of the stack: tries its next places in turn,
    /// records each that completes a path meeting the goal, and stops at the
    /// first that has to be looked into further, for which it opens a frame
    /// unless the count bound forbids going deeper. Where no place is left to
    /// try, the frame is dropped.
    fn visit_top(&mut self)
        requires
            old(self).inv(),
            old(self).stack@.len() > 0,
            old(self).results@.len() < old(self).max_results,
        ensures
            final(self).inv(),
            final(self).extends(old(self)),
            final(self).nodes() == old(self).nodes(),
            final(self).work_left() < old(self).work_left(),
            final(self).walk() == visit(
                old(self).entries(),
                old(self).goal(),
                old(self).max_results(),
                old(self).walk(),
            ),
    {
        let ghost s = self.data.entries();
        let ghost cap = self.max_results;
        let ghost wstart = self.walk();
        let ghost w0 = stack_weight(self.data.entries().len() as int, self.stack@);
        let ghost g = self.goal();
        let ghost all = below(s, g, Seq::<usize>::empty(), 0);
        let ghost path0 = self.path@;
        let ghost stack0 = self.stack@;
        let top = self.stack.len() - 1;
        let current_sum = self.stack[top].current_sum;
        let path_len = self.stack[top].path_len;
        let start = self.stack[top].start;
        let n = self.data.len();
        proof {
            assert(frame_ok(s, g, stack0[top as int], top as int, path0));
            assert(self.results@.take(self.results@.len() as int) =~= self.results@);
        }
        self.path.truncate(path_len);
        let ghost p = self.path@;
        proof {
            assert(p =~= path0.take(top as int));
            assert(p.take(top as int) =~= path0.take(top as int));
            lemma_frames_same(s, g, stack0, path0, p);
            lemma_pending_same(s, g, stack0, path0, p);
            assert(links_ok(stack0, p)) by {
                assert forall|d: int| 0 <= d < stack0.len() - 1 implies p[d] + 1 == (
                #[trigger] stack0[d]).start by {
                    assert(path0[d] + 1 == stack0[d].start);
                }
            }
            assert(cursor_of(stack0).last() == start);
        }
        let remaining = self.target - current_sum;
        let remaining_needed = self.min_count.saturating_sub(path_len);
        let mut found_child = false;
        let mut i = start;
        while i < n
            invariant_except_break
                !found_child,
                !self.finished,
                i <= n,
                stack_weight(n as int, self.stack@) <= w0,
                self.stack@.len() == top + 1,
                self.stack@[top as int].start == i,
                self.stack@[top as int].current_sum == current_sum,
                self.stack@[top as int].path_len == path_len,
                self.path@.len() >= path_len,
                self.path@.take(path_len as int) == p,
                self.results@.len() < self.max_results,
                visit(s, g, cap, wstart) == scan(s, g, cap, self.walk(), i as int),
            invariant
                cap == self.max_results,
                self.inv(),
                self.extends(old(self)),
                self.nodes_explored == old(self).nodes_explored,
                s == self.data.entries(),
                g == self.goal(),
                all == below(s, g, Seq::<usize>::empty(), 0),
                n == s.len(),
                top == path_len,
                p.len() == path_len,
                remaining == g.target - current_sum,
                remaining_needed == (if g.min_count > path_len {
                    g.min_count - path_len
                } else {
                    0
                }),
                current_sum == path_sum(s, p),
                is_path(p, s.len()),
            ensures
                found_child || self.stack@.len() == 0 ==> self.walk() == visit(s, g, cap, wstart),
                !(found_child || self.stack@.len() == 0) ==> visit(s, g, cap, wstart) == (Walk {
                    cursor: self.walk().cursor.drop_last(),
                    ..self.walk()
                }),
                found_child || self.stack@.len() == 0 ==> stack_weight(n as int, self.stack@) < w0,
                stack_weight(n as int, self.stack@) <= w0,
                found_child || self.stack@.len() == 0 || (self.stack@.len() == top + 1
                    && !self.finished && below(
                    s,
                    g,
                    self.path@.take(top as int),
                    self.stack@[top as int].start as int,
                ) =~= Seq::empty()),
            decreases n - i,
        {
            proof {
                lemma_walk_path(self.stack@, self.path@);
                assert(walk_path(self.walk().cursor) == p);
            }
            let value = self.data.value_at(i);
            if value > remaining {
                proof {
                    lemma_prune_value(s, g, p, i as int);
                }
                break;
            }
            if self.data.suffix_at(i) < remaining {
                proof {
                    lemma_tail_sum_nonneg(s, i as int);
                    lemma_prune_tail(s, g, p, i as int);
                }
                break;
            }
            if n - i < remaining_needed {
                proof {
                    lemma_prune_count(s, g, p, i as int);
                }
                break;
            }
            let new_sum = current_sum + value;
            let new_path_len = path_len + 1;
            let ghost q = p.push(i);
            let ghost stack1 = self.stack@;
            let ghost path1 = self.path@;
            let ghost results1 = self.results@;
            let ghost old_done = self.top_level_done;
            proof {
                lemma_advance(s, g, stack1, path1, i);
                lemma_weight_pos(n as int, stack1);
                lemma_weight_advance(
                    n as int,
                    stack1,
                    Frame { start: (i + 1) as usize, current_sum, path_len },
                    Frame {
                        start: (i + 1) as usize,
                        current_sum: new_sum,
                        path_len: new_path_len,
                    },
                );
            }
            self.stack.set(top, Frame { start: i + 1, current_sum, path_len });
            self.path.truncate(path_len);
            self.path.push(i);
            if path_len == 0 {
                self.top_level_done = i + 1;
            }
            let ghost stack2 = self.stack@;
            let ghost walk1 = Walk {
                cursor: cursor_of(stack1),
                found: results1.len(),
                done: old_done,
                finished: false,
                nodes: self.nodes_explored,
            };
            proof {
                assert(self.path@ =~= q);
                assert(q.take(path_len as int) =~= p);
                assert(!pruned(s, g, p, i as int));
                assert(cursor_of(stack2) =~= cursor_of(stack1).update(top as int, (i + 1) as usize));
                assert(links_ok(stack2, q)) by {
                    assert forall|d: int| 0 <= d < stack2.len() - 1 implies q[d] + 1 == (
                    #[trigger] stack2[d]).start by {
                        assert(path1[d] + 1 == stack1[d].start);
                        assert(path1.take(path_len as int)[d] == path1[d]);
                    }
                }
            }
            if new_sum == self.target && new_path_len >= self.min_count {
                let combo = self.data.report(&self.path);
                self.results.push(combo);
                proof {
                    assert(hits(s, g, q));
                    lemma_skip_split(
                        all,
                        results1.len() as int,
                        seq![q],
                        pending(s, g, stack2, q),
                    );
                    assert(self.results@.take(old(self).results@.len() as int) =~= results1.take(
                        old(self).results@.len() as int,
                    ));
                    assert(all[results1.len() as int] == q);
                }
                if self.results.len() >= self.max_results {
                    self.stack.clear();
                    self.finished = true;
                    proof {
                        assert(cursor_of(self.stack@) =~= Seq::empty());
                    }
                    break;
                }
                i = i + 1;
            } else {
                proof {
                    assert(!hits(s, g, q));
                }
                if new_path_len < self.max_count {
                    proof {
                        lemma_descend(s, g, stack2, q, i, new_sum);
                    }
                    self.stack.push(
                        Frame { start: i + 1, current_sum: new_sum, path_len: new_path_len },
                    );
                    proof {
                        assert(cursor_of(self.stack@) =~= cursor_of(stack2).push((i + 1) as usize));
                        assert(links_ok(self.stack@, q)) by {
                            assert forall|d: int| 0 <= d < self.stack@.len() - 1 implies q[d] + 1
                                == (#[trigger] self.stack@[d]).start by {
                                if d < top {
                                    assert(self.stack@[d] == stack2[d]);
                                }
                            }
                        }
                    }
                } else {
                    proof {
                        lemma_prune_depth(s, g, q, i + 1);
                    }
                }
                found_child = true;
                break;
            }
        }
        if !found_child {
            let ghost stack4 = self.stack@;
            self.stack.pop();
            proof {
                lemma_weight_pos(n as int, stack4);
                if stack4.len() > 0 {
                    let r = self.results@.len() as int;
                    let rest = pending(s, g, stack4.drop_last(), self.path@);
                    assert(self.stack@ =~= stack4.drop_last());
                    assert(cursor_of(self.stack@) =~= cursor_of(stack4).drop_last());
                    assert(stack4.last() == stack4[top as int]);
                    assert(pending(s, g, stack4, self.path@) =~= rest);
                    assert(all.skip(r) == rest);
                    if stack4.len() > 1 {
                        lemma_frames_pop(s, g, stack4, self.path@);
                        assert(self.stack@[0] == stack4[0]);
                        assert(links_ok(self.stack@, self.path@)) by {
                            assert forall|d: int| 0 <= d < self.stack@.len() - 1 implies self.path@[d]
                                + 1 == (#[trigger] self.stack@[d]).start by {
                                assert(self.stack@[d] == stack4[d]);
                            }
                        }
                    } else {
                        assert(rest =~= Seq::empty());
                        assert(all.skip(r).len() == 0);
                    }
                }
            }
        }
        proof {
            lemma_weight_pos(n as int, self.stack@);
            lemma_weight_pos(n as int, old(self).stack@);
            assert(stack_weight(n as int, self.stack@) < w0);
        }
    }

    /// The walk of a session shows the counts that the session reports.
    pub proof fn lemma_walk(&self)
        ensures
            self.walk().found == self.found().len(),
            self.walk().done == self.top_level_done(),
            self.walk().finished == self.is_finished(),
            self.walk().nodes == self.nodes(),
    {
    }

    /// What a session in order holds: no more combinations than the cap
    /// allows; the combinations are the reports of the first paths of the
    /// walk, one for one and in its order; and once the session is finished
    /// they are as many as the cap allows or all there are.
    pub proof fn lemma_wf(&self)
        requires
            self.wf(),
        ensures
            self.found().len() <= self.max_results(),
            lists(self.found(), self.entries(), self.expected()),
            self.is_finished() ==> self.found().len() == self.max_results() || self.found().len()
                == self.expected().len(),
            self.top_level_done() <= self.top_level_total(),
            !self.is_finished() ==> self.top_level_total() > 0,
            self.entries().len() == self.top_level_total(),
            !self.is_finished() ==> self.work_left() > 0,
    {
        lemma_weight_pos(self.data.entries().len() as int, self.stack@);
        let s = self.data.entries();
        let g = self.goal();
        let all = below(s, g, Seq::<usize>::empty(), 0);
        if self.finished && self.stack@.len() > 0 {
            assert(self.results@.len() == self.max_results);
        }
    }

    /// Runs the walk for up to `node_budget` node visits and reports what
    /// this step found together with the running totals.
    pub fn search_batch(&mut self, node_budget: u64) -> (r: BatchResult)
        requires
            old(self).wf(),
        ensures
            final(self).wf(),
            final(self).extends(old(self)),
            final(self).walk() == step(
                old(self).entries(),
                old(self).goal(),
                old(self).max_results(),
                old(self).walk(),
                node_budget as nat,
            ),
            lists(final(self).found(), final(self).entries(), final(self).expected()),
            final(self).found().len() <= final(self).max_results(),
            final(self).is_finished() ==> final(self).found().len() == final(self).max_results()
                || final(self).found().len() == final(self).expected().len(),
            final(self).nodes() <= capped(old(self).nodes() + node_budget),
            !final(self).is_finished() ==> final(self).nodes() == capped(
                old(self).nodes() + node_budget,
            ),
            final(self).work_left() <= old(self).work_left(),
            !final(self).is_finished() ==> final(self).work_left() + node_budget
                <= old(self).work_left(),
            r.tells(final(self), old(self).found().len() as int),
            old(self).progress().le(&final(self).progress()),
            r.progress.is_complete() <==> r.finished,
            old(self).is_finished() ==> final(self).found() == old(self).found()
                && final(self).walk() == old(self).walk()
                && r.finished
                && r.new_results@.len() == 0,
    {
        let prev_found = self.results.len();
        let mut budget = node_budget;
        proof {
            assert(self.results@.take(self.results@.len() as int) =~= self.results@);
        }
        while budget > 0 && !self.stack.is_empty() && self.results.len() < self.max_results
            invariant
                self.nodes_explored >= old(self).nodes_explored,
                self.work_left() + (node_budget - budget) <= old(self).work_left(),
                advance(
                    old(self).entries(),
                    old(self).goal(),
                    old(self).max_results(),
                    old(self).walk(),
                    node_budget as nat,
                ) == advance(
                    old(self).entries(),
                    old(self).goal(),
                    old(self).max_results(),
                    self.walk(),
                    budget as nat,
                ),
                self.inv(),
                self.extends(old(self)),
                budget <= node_budget,
                self.nodes_explored == capped(old(self).nodes_explored + (node_budget - budget)),
                old(self).wf(),
                old(self).finished ==> self.results@ == old(self).results@ && self.top_level_done
                    == old(self).top_level_done && budget == node_budget,
            decreases budget,
        {
            budget = budget - 1;
            self.nodes_explored = self.nodes_explored.saturating_add(1);
            let ghost mid = *self;
            self.visit_top();
            proof {
                let k = old(self).results@.len() as int;
                assert(self.results@.take(k) =~= self.results@.take(mid.results@.len() as int).take(k));
            }
        }
        if self.stack.is_empty() || self.results.len() >= self.max_results {
            self.finished = true;
        }
        let mut new_results: Vec<Vec<NumberEntry>> = Vec::new();
        let total = self.results.len();
        let mut k: usize = prev_found;
        while k < total
            invariant
                prev_found <= k <= total,
                total == self.results@.len(),
                new_results@.len() == k - prev_found,
                forall|j: int|
                    0 <= j < new_results@.len() ==> (#[trigger] new_results@[j])@
                        == self.results@[prev_found + j]@,
            decreases total - k,
        {
            new_results.push(copy_combination(&self.results[k]));
            k = k + 1;
        }
        let progress = if self.finished {
            Progress { numerator: 1, denominator: 1 }
        } else {
            clamp_progress(self.top_level_done, self.top_level_n)
        };
        proof {
            self.lemma_wf();
            old(self).lemma_wf();
            lemma_progress_rises(
                old(self).top_level_done,
                self.top_level_done,
                self.top_level_n,
                old(self).finished,
                self.finished,
            );
        }
        BatchResult {
            new_results,
            total_found: self.results.len(),
            nodes_explored: self.nodes_explored,
            finished: self.finished,
            progress,
        }
    }

    /// All the combinations found so far.
    pub fn all_results(&self) -> (r: &[Vec<NumberEntry>])
        ensures
            r@ == self.found(),
    {
        self.results.as_slice()
    }
}

} // verus!
