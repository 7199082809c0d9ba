//! The search engine: a best-first search over the states that the move
//! generator produces and the feasibility analysis keeps, and a depth-first
//! variant of it.

use vstd::prelude::*;
use crate::frontier::{is_next, next_index, Frontier};
use crate::ids::{
    MAX_NEIGHBORS, REPORT_EVERY, SOLVABLE, UNSOLVABLE_DEAD_ENDS, UNSOLVABLE_NO_CHILDREN, UNSOLVABLE_PATH_BLOCKED,
    UNSOLVABLE_POOLS, UNSOLVABLE_REGION,
};
use crate::model::PuzzleView;
use crate::puzzle::Puzzle;

verus! {

/// Counters of one run of the search. Each stops at `u64::MAX`.
#[derive(Debug, Clone, Copy)]
pub struct SearchStats {
    /// States taken from the frontier.
    pub states_visited: u64,
    /// The largest number of states that waited at once.
    pub frontier_max: usize,
    /// States produced, the initial one included.
    pub states_created: u64,
    /// Successor states that the feasibility analysis ruled out.
    pub children_discarded: u64,
    /// Of those, the ones from which no move could be made.
    pub discarded_no_children: u64,
    /// Of those, the ones with a dead end.
    pub discarded_dead_end: u64,
    /// Of those, the ones with a pool.
    pub discarded_pools: u64,
    /// Of those, the ones with a blocked flow.
    pub discarded_blocked: u64,
    /// Of those, the ones with an orphaned region.
    pub discarded_region: u64,
    /// The greatest number of complete flows in a visited state since the
    /// last report.
    pub max_flows_completed: u64,
    /// The complete flows of the states visited since the last report,
    /// added up.
    pub flows_complete_sum: u64,
    /// The open cells of the states visited since the last report, added
    /// up.
    pub cells_open_sum: u64,
}

/// How a run of the search ended.
#[derive(Debug)]
pub struct SearchOutcome {
    /// The complete state that was found, if any.
    pub solution: Option<Puzzle>,
    /// The state that was expanded last.
    pub latest: Option<Puzzle>,
    /// The number of states that still waited when the search ended.
    pub waiting: usize,
    /// The counters of the run.
    pub stats: SearchStats,
}

impl SearchStats {
    /// The discarded states add up: their number is the sum of the numbers
    /// by reason, as far as a `u64` can hold it.
    pub open spec fn adds_up(self) -> bool {
        let sum = self.discarded_no_children + self.discarded_dead_end + self.discarded_pools
            + self.discarded_blocked + self.discarded_region;
        self.children_discarded == if sum <= u64::MAX {
            sum
        } else {
            u64::MAX as int
        }
    }

    /// The counters before the search has begun.
    pub fn new() -> (res: SearchStats)
        ensures
            res == (SearchStats {
                states_visited: 0,
                frontier_max: 0,
                states_created: 0,
                children_discarded: 0,
                discarded_no_children: 0,
                discarded_dead_end: 0,
                discarded_pools: 0,
                discarded_blocked: 0,
                discarded_region: 0,
                max_flows_completed: 0,
                flows_complete_sum: 0,
                cells_open_sum: 0,
            }),
            res.adds_up(),
    {
        SearchStats {
            states_visited: 0,
            frontier_max: 0,
            states_created: 0,
            children_discarded: 0,
            discarded_no_children: 0,
            discarded_dead_end: 0,
            discarded_pools: 0,
            discarded_blocked: 0,
            discarded_region: 0,
            max_flows_completed: 0,
            flows_complete_sum: 0,
            cells_open_sum: 0,
        }
    }

    /// The counters with what is counted from report to report at zero.
    pub open spec fn afresh(self) -> SearchStats {
        SearchStats { max_flows_completed: 0, flows_complete_sum: 0, cells_open_sum: 0, ..self }
    }

    /// Begins to count afresh what is counted from report to report.
    pub fn start_afresh(&mut self)
        ensures
            *final(self) == old(self).afresh(),
    {
        self.max_flows_completed = 0;
        self.flows_complete_sum = 0;
        self.cells_open_sum = 0;
    }

    /// Counts a successor state that was ruled out with the verdict
    /// `status`.
    pub fn record_discard(&mut self, status: i16)
        requires
            status == UNSOLVABLE_NO_CHILDREN || status == UNSOLVABLE_DEAD_ENDS || status == UNSOLVABLE_POOLS
                || status == UNSOLVABLE_PATH_BLOCKED || status == UNSOLVABLE_REGION,
        ensures
            old(self).adds_up() ==> final(self).adds_up(),
            final(self).children_discarded == count_up(old(self).children_discarded, 1),
            final(self).discarded_no_children == count_up(
                old(self).discarded_no_children,
                if status == UNSOLVABLE_NO_CHILDREN {
                    1
                } else {
                    0
                },
            ),
            final(self).discarded_dead_end == count_up(
                old(self).discarded_dead_end,
                if status == UNSOLVABLE_DEAD_ENDS {
                    1
                } else {
                    0
                },
            ),
            final(self).discarded_pools == count_up(
                old(self).discarded_pools,
                if status == UNSOLVABLE_POOLS {
                    1
                } else {
                    0
                },
            ),
            final(self).discarded_blocked == count_up(
                old(self).discarded_blocked,
                if status == UNSOLVABLE_PATH_BLOCKED {
                    1
                } else {
                    0
                },
            ),
            final(self).discarded_region == count_up(
                old(self).discarded_region,
                if status == UNSOLVABLE_REGION {
                    1
                } else {
                    0
                },
            ),
            final(self).states_visited == old(self).states_visited,
            final(self).states_created == old(self).states_created,
            final(self).frontier_max == old(self).frontier_max,
            final(self).max_flows_completed == old(self).max_flows_completed,
            final(self).flows_complete_sum == old(self).flows_complete_sum,
            final(self).cells_open_sum == old(self).cells_open_sum,
    {
        self.children_discarded = add_capped(self.children_discarded, 1);
        if status == UNSOLVABLE_NO_CHILDREN {
            self.discarded_no_children = add_capped(self.discarded_no_children, 1);
        } else if status == UNSOLVABLE_DEAD_ENDS {
            self.discarded_dead_end = add_capped(self.discarded_dead_end, 1);
        } else if status == UNSOLVABLE_POOLS {
            self.discarded_pools = add_capped(self.discarded_pools, 1);
        } else if status == UNSOLVABLE_PATH_BLOCKED {
            self.discarded_blocked = add_capped(self.discarded_blocked, 1);
        } else {
            self.discarded_region = add_capped(self.discarded_region, 1);
        }
    }
}

/// `count + by`, or `u64::MAX` where the sum is larger.
pub open spec fn count_up(count: u64, by: int) -> u64 {
    if count + by <= u64::MAX {
        (count + by) as u64
    } else {
        u64::MAX
    }
}

/// Adds `by` to a counter that stops at `u64::MAX`.
fn add_capped(count: u64, by: u64) -> (res: u64)
    ensures
        res == count_up(count, by as int),
{
    if by <= u64::MAX - count {
        count + by
    } else {
        u64::MAX
    }
}

/// An upper bound on the number of states that the search can visit below a
/// state with the given number of open cells.
pub open spec fn budget(open_cells: nat) -> nat
    decreases open_cells,
{
    if open_cells == 0 {
        1
    } else {
        1 + MAX_NEIGHBORS as nat * budget((open_cells - 1) as nat)
    }
}

/// The sum of the budgets of the waiting states: what the search has left
/// to do at most.
pub open spec fn pending(entries: Seq<(u64, PuzzleView)>) -> nat
    decreases entries.len(),
{
    if entries.len() == 0 {
        0
    } else {
        pending(entries.drop_last()) + budget(entries.last().1.num_open_cells())
    }
}

/// One more waiting state adds its budget to what is left to do.
proof fn lemma_pending_push(entries: Seq<(u64, PuzzleView)>, entry: (u64, PuzzleView))
    ensures
        pending(entries.push(entry)) == pending(entries) + budget(entry.1.num_open_cells()),
{
    assert(entries.push(entry).drop_last() =~= entries);
}

/// What two lists of waiting states leave to do adds up.
proof fn lemma_pending_concat(first: Seq<(u64, PuzzleView)>, second: Seq<(u64, PuzzleView)>)
    ensures
        pending(first + second) == pending(first) + pending(second),
    decreases second.len(),
{
    if second.len() == 0 {
        assert(first + second =~= first);
    } else {
        assert((first + second).drop_last() =~= first + second.drop_last());
        lemma_pending_concat(first, second.drop_last());
    }
}

/// A waiting state that is taken out takes its budget with it.
proof fn lemma_pending_remove(entries: Seq<(u64, PuzzleView)>, i: int)
    requires
        0 <= i < entries.len(),
    ensures
        pending(entries.remove(i)) + budget(entries[i].1.num_open_cells()) == pending(entries),
    decreases entries.len(),
{
    if i == entries.len() - 1 {
        assert(entries.remove(i) =~= entries.drop_last());
    } else {
        assert(entries.remove(i).drop_last() =~= entries.drop_last().remove(i));
        lemma_pending_remove(entries.drop_last(), i);
    }
}

/// Where a run of the search stands.
pub enum Progress {
    /// These states wait to be expanded.
    Running(Seq<(u64, PuzzleView)>),
    /// This complete state was found.
    Solved(PuzzleView),
}

impl PuzzleView {
    /// The priority with which the state waits: its score.
    pub open spec fn rank(self) -> u64 {
        self.score() as u64
    }

    /// The greatest index below `n` of a successor that is complete.
    pub open spec fn last_complete_child(self, n: int) -> Option<int>
        decreases n,
    {
        if n <= 0 {
            None
        } else if self.children()[n - 1].is_complete() {
            Some(n - 1)
        } else {
            self.last_complete_child(n - 1)
        }
    }

    /// The index from which on the search looks at the successors of this
    /// state, the last first: behind the last complete one, or from the
    /// first on where none is complete.
    pub open spec fn looked_at_from(self) -> int {
        match self.last_complete_child(self.children().len() as int) {
            Some(j) => j + 1,
            None => 0,
        }
    }

    /// The successors from index `n` on that the feasibility analysis
    /// passes, each with its priority, the last successor first.
    pub open spec fn survivors(self, n: int) -> Seq<(u64, PuzzleView)>
        decreases self.children().len() - n,
    {
        if n < 0 || n >= self.children().len() {
            Seq::empty()
        } else if self.children()[n].solvability() == SOLVABLE {
            self.survivors(n + 1).push((self.children()[n].rank(), self.children()[n]))
        } else {
            self.survivors(n + 1)
        }
    }

    /// The number of successors from index `n` on that the feasibility
    /// analysis rules out with the verdict `status`.
    pub open spec fn ruled_out(self, n: int, status: i16) -> nat
        decreases self.children().len() - n,
    {
        if n < 0 || n >= self.children().len() {
            0
        } else if self.children()[n].solvability() == status {
            self.ruled_out(n + 1, status) + 1
        } else {
            self.ruled_out(n + 1, status)
        }
    }

    /// The number of successors from index `n` on that the feasibility
    /// analysis rules out.
    pub open spec fn ruled_out_in_all(self, n: int) -> nat
        decreases self.children().len() - n,
    {
        if n < 0 || n >= self.children().len() {
            0
        } else if self.children()[n].solvability() != SOLVABLE {
            self.ruled_out_in_all(n + 1) + 1
        } else {
            self.ruled_out_in_all(n + 1)
        }
    }
}

/// The states that wait after one step of the search: those that waited
/// before, without the one of highest priority, and then the successors of
/// that state that the search has looked at and the feasibility analysis
/// passes.
pub open spec fn waiting_after(entries: Seq<(u64, PuzzleView)>) -> Seq<(u64, PuzzleView)> {
    let state = entries[next_index(entries)].1;
    entries.remove(next_index(entries)) + state.survivors(state.looked_at_from())
}

/// One step of the search from the given waiting states, of which there is
/// one at least: the one of highest priority is taken out and expanded. If
/// one of its successors is complete, the last such successor is the
/// solution. Else the search goes on with the states that wait then.
pub open spec fn step(entries: Seq<(u64, PuzzleView)>) -> Progress {
    let state = entries[next_index(entries)].1;
    match state.last_complete_child(state.children().len() as int) {
        Some(j) => Progress::Solved(state.children()[j]),
        None => Progress::Running(waiting_after(entries)),
    }
}

/// What one step of the search from the given waiting states counts: one
/// more state visited, with its complete flows and its open cells, the
/// successors of the expanded state created, and those that the search has
/// looked at and the feasibility analysis rules out counted by the verdict.
pub open spec fn counted(stats: SearchStats, entries: Seq<(u64, PuzzleView)>) -> SearchStats {
    let state = entries[next_index(entries)].1;
    let from = state.looked_at_from();
    SearchStats {
        states_visited: count_up(stats.states_visited, 1),
        frontier_max: if entries.len() > stats.frontier_max {
            entries.len() as usize
        } else {
            stats.frontier_max
        },
        states_created: count_up(stats.states_created, state.children().len() as int),
        children_discarded: count_up(stats.children_discarded, state.ruled_out_in_all(from) as int),
        discarded_no_children: count_up(
            stats.discarded_no_children,
            state.ruled_out(from, UNSOLVABLE_NO_CHILDREN) as int,
        ),
        discarded_dead_end: count_up(
            stats.discarded_dead_end,
            state.ruled_out(from, UNSOLVABLE_DEAD_ENDS) as int,
        ),
        discarded_pools: count_up(stats.discarded_pools, state.ruled_out(from, UNSOLVABLE_POOLS) as int),
        discarded_blocked: count_up(
            stats.discarded_blocked,
            state.ruled_out(from, UNSOLVABLE_PATH_BLOCKED) as int,
        ),
        discarded_region: count_up(stats.discarded_region, state.ruled_out(from, UNSOLVABLE_REGION) as int),
        max_flows_completed: if state.num_complete() > stats.max_flows_completed {
            state.num_complete() as u64
        } else {
            stats.max_flows_completed
        },
        flows_complete_sum: count_up(stats.flows_complete_sum, state.num_complete() as int),
        cells_open_sum: count_up(stats.cells_open_sum, state.num_open_cells() as int),
    }
}

/// A report is due after the step from the given waiting states: the step
/// finds no solution, and the number of visited states has reached a
/// multiple of `REPORT_EVERY`.
pub open spec fn report_due(stats: SearchStats, entries: Seq<(u64, PuzzleView)>) -> bool {
    step(entries) is Running && counted(stats, entries).states_visited % REPORT_EVERY == 0
}

/// The counters after one step of the search from the given waiting
/// states: what the step counts, and where a report is due, what is counted
/// from report to report begins afresh.
pub open spec fn tally(stats: SearchStats, entries: Seq<(u64, PuzzleView)>) -> SearchStats {
    if report_due(stats, entries) {
        counted(stats, entries).afresh()
    } else {
        counted(stats, entries)
    }
}

/// A run of the search at some step.
pub struct Trace {
    /// Where the run stands.
    pub progress: Progress,
    /// The counters.
    pub stats: SearchStats,
    /// The state that was expanded last, if any was.
    pub latest: Option<PuzzleView>,
    /// The states that wait.
    pub waiting: Seq<(u64, PuzzleView)>,
}

/// The run of the search from the state `root` after `steps` steps. A run
/// that has found a solution, or in which no state waits any more, stays
/// as it is.
pub open spec fn trace(root: PuzzleView, steps: nat) -> Trace
    decreases steps,
{
    if steps == 0 {
        Trace {
            progress: Progress::Running(seq![(root.rank(), root)]),
            stats: SearchStats {
                states_visited: 0,
                frontier_max: 0,
                states_created: 1,
                children_discarded: 0,
                discarded_no_children: 0,
                discarded_dead_end: 0,
                discarded_pools: 0,
                discarded_blocked: 0,
                discarded_region: 0,
                max_flows_completed: 0,
                flows_complete_sum: 0,
                cells_open_sum: 0,
            },
            latest: None,
            waiting: seq![(root.rank(), root)],
        }
    } else {
        let before = trace(root, (steps - 1) as nat);
        match before.progress {
            Progress::Running(entries) => if entries.len() > 0 {
                Trace {
                    progress: step(entries),
                    stats: tally(before.stats, entries),
                    latest: Some(entries[next_index(entries)].1),
                    waiting: waiting_after(entries),
                }
            } else {
                before
            },
            Progress::Solved(_) => before,
        }
    }
}

/// `state` is where the search stands or has stood: the initial state, or a
/// kept state that follows from it.
pub open spec fn on_track(root: PuzzleView, state: PuzzleView) -> bool {
    state == root || (root.reaches(state) && state.kept())
}

/// Every state on track from a searchable state is searchable.
proof fn lemma_on_track_searchable(root: PuzzleView, state: PuzzleView)
    requires
        root.searchable(),
        on_track(root, state),
    ensures
        state.searchable(),
{
    if state != root {
        let steps = choose|steps: nat| root.leads_to(state, steps);
        root.lemma_leads_to_searchable(state, steps);
    }
}

/// The successors of a state on track follow from the initial state.
proof fn lemma_on_track_child(root: PuzzleView, state: PuzzleView, i: int)
    requires
        on_track(root, state),
        0 <= i < state.children().len(),
    ensures
        root.reaches(state.children()[i]),
{
    if state == root {
        root.lemma_reaches_child(i);
    } else {
        root.lemma_reaches_append(state, i);
    }
}

/// The last complete successor, where there is one, is a complete
/// successor, and none after it is complete; where there is none, no
/// successor is complete.
proof fn lemma_last_complete_child(state: PuzzleView, n: int)
    requires
        0 <= n <= state.children().len(),
    ensures
        match state.last_complete_child(n) {
            Some(j) => 0 <= j < n && state.children()[j].is_complete() && forall|k: int|
                j < k < n ==> !(#[trigger] state.children()[k]).is_complete(),
            None => forall|k: int| 0 <= k < n ==> !(#[trigger] state.children()[k]).is_complete(),
        },
    decreases n,
{
    if n > 0 {
        lemma_last_complete_child(state, n - 1);
    }
}

/// A complete successor after which none is complete is the last complete
/// one.
proof fn lemma_is_last_complete_child(state: PuzzleView, n: int, j: int)
    requires
        0 <= j < n <= state.children().len(),
        state.children()[j].is_complete(),
        forall|k: int| j < k < n ==> !(#[trigger] state.children()[k]).is_complete(),
    ensures
        state.last_complete_child(n) == Some(j),
    decreases n,
{
    if j < n - 1 {
        assert(!state.children()[n - 1].is_complete());
        lemma_is_last_complete_child(state, n - 1, j);
    }
}

/// `entry` is successor `j` of `state` with its priority, and the
/// feasibility analysis passes that successor.
pub open spec fn survives_as(state: PuzzleView, j: int, entry: (u64, PuzzleView)) -> bool {
    &&& 0 <= j < state.children().len()
    &&& entry == (state.children()[j].rank(), state.children()[j])
    &&& state.children()[j].solvability() == SOLVABLE
}

/// `entry` is a successor of `state` from index `n` on with its priority,
/// and the feasibility analysis passes that successor.
pub open spec fn survives_from(state: PuzzleView, n: int, entry: (u64, PuzzleView)) -> bool {
    exists|j: int| n <= j && #[trigger] survives_as(state, j, entry)
}

/// Every survivor is a successor that the feasibility analysis passes, with
/// its priority; and every such successor from index `n` on is among the
/// survivors.
proof fn lemma_survivors(state: PuzzleView, n: int)
    requires
        0 <= n <= state.children().len(),
    ensures
        forall|i: int|
            0 <= i < state.survivors(n).len() ==> survives_from(state, n, #[trigger] state.survivors(n)[i]),
        forall|j: int|
            n <= j < state.children().len() && (#[trigger] state.children()[j]).solvability() == SOLVABLE
                ==> exists|i: int|
                0 <= i < state.survivors(n).len() && (#[trigger] state.survivors(n)[i]).1
                    == state.children()[j],
    decreases state.children().len() - n,
{
    if n < state.children().len() {
        lemma_survivors(state, n + 1);
        let rest = state.survivors(n + 1);
        let all = state.survivors(n);
        let kid = state.children()[n];
        assert forall|i: int| 0 <= i < all.len() implies survives_from(state, n, #[trigger] all[i]) by {
            if i < rest.len() {
                assert(all[i] == rest[i]);
                assert(survives_from(state, n + 1, rest[i]));
                let j = choose|j: int| n + 1 <= j && #[trigger] survives_as(state, j, rest[i]);
                assert(n <= j && survives_as(state, j, all[i]));
            } else {
                assert(all[i] == (kid.rank(), kid));
                assert(survives_as(state, n, all[i]));
            }
        }
        assert forall|j: int|
            n <= j < state.children().len() && (#[trigger] state.children()[j]).solvability()
                == SOLVABLE implies exists|i: int|
            0 <= i < all.len() && (#[trigger] all[i]).1 == state.children()[j] by {
            if j == n {
                assert(all[rest.len() as int].1 == kid);
            } else {
                let i = choose|i: int| 0 <= i < rest.len() && (#[trigger] rest[i]).1 == state.children()[j];
                assert(all[i] == rest[i]);
            }
        }
    }
}

/// The survivors of a state need less than the state itself.
proof fn lemma_survivors_pending(state: PuzzleView, n: int)
    requires
        state.well_formed(),
        0 <= n <= state.children().len(),
        state.children().len() > 0,
    ensures
        pending(state.survivors(n)) <= (state.children().len() - n) * budget(
            (state.num_open_cells() - 1) as nat,
        ),
    decreases state.children().len() - n,
{
    let share = budget((state.num_open_cells() - 1) as nat);
    let m = state.children().len() as int;
    if n < m {
        lemma_survivors_pending(state, n + 1);
        state.lemma_children();
        let kid = state.children()[n];
        assert(kid.num_open_cells() + 1 == state.num_open_cells());
        lemma_pending_push(state.survivors(n + 1), (kid.rank(), kid));
        assert((m - n) * share == (m - (n + 1)) * share + share) by (nonlinear_arith);
    } else {
        assert((m - n) * share == 0) by (nonlinear_arith)
            requires
                m - n == 0,
        ;
    }
}

/// Every waiting state is on track.
pub open spec fn all_on_track(root: PuzzleView, entries: Seq<(u64, PuzzleView)>) -> bool {
    forall|i: int| 0 <= i < entries.len() ==> on_track(root, (#[trigger] entries[i]).1)
}

/// Some waiting state reaches `target`.
pub open spec fn waits_for(entries: Seq<(u64, PuzzleView)>, target: PuzzleView) -> bool {
    exists|i: int| 0 <= i < entries.len() && (#[trigger] entries[i]).1.reaches(target)
}

/// Every complete state that follows from `root` follows from a waiting
/// state.
pub open spec fn covers(root: PuzzleView, entries: Seq<(u64, PuzzleView)>) -> bool {
    forall|target: PuzzleView|
        root.reaches(target) && target.is_complete() ==> #[trigger] waits_for(entries, target)
}

/// A step that finds a solution finds a complete successor of the state
/// that it expands, and that successor follows from the initial state.
proof fn lemma_step_solved(root: PuzzleView, waiting: Seq<(u64, PuzzleView)>)
    requires
        all_on_track(root, waiting),
        is_next(waiting, next_index(waiting)),
        step(waiting) is Solved,
    ensures
        root.reaches(step(waiting)->Solved_0),
        step(waiting)->Solved_0.is_complete(),
        waiting[next_index(waiting)].1.children().contains(step(waiting)->Solved_0),
{
    let state = waiting[next_index(waiting)].1;
    let kids = state.children();
    lemma_last_complete_child(state, kids.len() as int);
    let j = state.last_complete_child(kids.len() as int)->0;
    assert(on_track(root, state));
    lemma_on_track_child(root, state, j);
    assert(kids[j] == step(waiting)->Solved_0);
}

/// A step that finds no solution leaves every waiting state on track.
proof fn lemma_step_keeps_track(root: PuzzleView, waiting: Seq<(u64, PuzzleView)>)
    requires
        all_on_track(root, waiting),
        is_next(waiting, next_index(waiting)),
        step(waiting) is Running,
    ensures
        all_on_track(root, step(waiting)->Running_0),
{
    let at = next_index(waiting);
    let state = waiting[at].1;
    let kids = state.children();
    let removed = waiting.remove(at);
    let added = state.survivors(0);
    let next = step(waiting)->Running_0;
    lemma_last_complete_child(state, kids.len() as int);
    lemma_survivors(state, 0);
    assert(next == removed + added);
    assert(on_track(root, state));
    assert forall|i: int| 0 <= i < next.len() implies on_track(root, (#[trigger] next[i]).1) by {
        if i < removed.len() {
            if i < at {
                assert(next[i] == waiting[i]);
            } else {
                assert(next[i] == waiting[i + 1]);
            }
        } else {
            let entry = added[i - removed.len()];
            assert(next[i] == entry);
            assert(survives_from(state, 0, entry));
            let j = choose|j: int| 0 <= j && #[trigger] survives_as(state, j, entry);
            assert(!kids[j].is_complete());
            lemma_on_track_child(root, state, j);
        }
    }
}

/// A step that finds no solution loses none: every complete state that
/// follows from the initial state still follows from a waiting state.
proof fn lemma_step_keeps_cover(root: PuzzleView, waiting: Seq<(u64, PuzzleView)>)
    requires
        covers(root, waiting),
        is_next(waiting, next_index(waiting)),
        step(waiting) is Running,
    ensures
        covers(root, step(waiting)->Running_0),
{
    let at = next_index(waiting);
    let state = waiting[at].1;
    let kids = state.children();
    let removed = waiting.remove(at);
    let added = state.survivors(0);
    let next = step(waiting)->Running_0;
    lemma_last_complete_child(state, kids.len() as int);
    lemma_survivors(state, 0);
    assert(next == removed + added);
    assert forall|target: PuzzleView| root.reaches(target) && target.is_complete() implies #[trigger] waits_for(
        next,
        target,
    ) by {
        assert(waits_for(waiting, target));
        let i = choose|i: int| 0 <= i < waiting.len() && (#[trigger] waiting[i]).1.reaches(target);
        if i < at {
            assert(next[i] == waiting[i]);
        } else if i > at {
            assert(next[i - 1] == waiting[i]);
        } else {
            state.lemma_reaches_unfold(target);
            let j = choose|j: int|
                0 <= j < kids.len() && (#[trigger] kids[j] == target || (kids[j].kept() && kids[j].reaches(
                    target,
                )));
            assert(!kids[j].is_complete());
            let k = choose|k: int| 0 <= k < added.len() && (#[trigger] added[k]).1 == kids[j];
            assert(next[removed.len() + k] == added[k]);
        }
    }
}

/// A step that finds no solution leaves less to do.
proof fn lemma_step_makes_progress(waiting: Seq<(u64, PuzzleView)>)
    requires
        is_next(waiting, next_index(waiting)),
        waiting[next_index(waiting)].1.well_formed(),
        step(waiting) is Running,
    ensures
        pending(step(waiting)->Running_0) < pending(waiting),
{
    let at = next_index(waiting);
    let state = waiting[at].1;
    let kids = state.children();
    let removed = waiting.remove(at);
    let added = state.survivors(0);
    state.lemma_children();
    lemma_pending_remove(waiting, at);
    lemma_pending_concat(removed, added);
    if kids.len() > 0 {
        lemma_survivors_pending(state, 0);
        let share = budget((state.num_open_cells() - 1) as nat);
        assert(kids[0].num_open_cells() + 1 == state.num_open_cells());
        assert(kids.len() * share <= MAX_NEIGHBORS * share) by (nonlinear_arith)
            requires
                kids.len() <= MAX_NEIGHBORS,
        ;
    }
}

/// What expanding one state gave.
#[derive(Debug)]
pub struct Expansion {
    /// The state that was expanded.
    pub expanded: Puzzle,
    /// Its first complete successor, the last successor first, if it has
    /// one.
    pub solution: Option<Puzzle>,
    /// The counters as they stood at the end of the step, where a report
    /// is due.
    pub report: Option<SearchStats>,
}

/// One step of the search: takes the waiting state of highest score out of
/// `frontier` and looks at its successors, the last first. Answers with the
/// first that is complete; until then, each successor that the feasibility
/// analysis passes is added to `frontier` with its score, and each other
/// one is counted in `stats` by the verdict.
pub fn expand_next(frontier: &mut Frontier, stats: &mut SearchStats) -> (res: Expansion)
    requires
        old(frontier)@.len() > 0,
        forall|i: int| 0 <= i < old(frontier)@.len() ==> (#[trigger] old(frontier)@[i]).1.searchable(),
    ensures
        is_next(old(frontier)@, next_index(old(frontier)@)),
        res.expanded@ == old(frontier)@[next_index(old(frontier)@)].1,
        match step(old(frontier)@) {
            Progress::Solved(state) => res.solution matches Some(solved) && solved@ == state,
            Progress::Running(_) => res.solution is None,
        },
        final(frontier)@ == waiting_after(old(frontier)@),
        *final(stats) == tally(*old(stats), old(frontier)@),
        res.report == if report_due(*old(stats), old(frontier)@) {
            Some(counted(*old(stats), old(frontier)@))
        } else {
            None
        },
        old(stats).adds_up() ==> final(stats).adds_up(),
{
    let ghost before = *stats;
    let ghost waiting = frontier@;
    let ghost at = next_index(waiting);
    stats.states_visited = add_capped(stats.states_visited, 1);
    if frontier.len() > stats.frontier_max {
        stats.frontier_max = frontier.len();
    }
    let curr_state = frontier.pop().unwrap();
    let ghost state = curr_state@;
    let ghost kids = state.children();
    let ghost removed = waiting.remove(at);
    proof {
        assert(waiting[at].1.searchable());
        state.lemma_children();
        state.lemma_well_formed_flows_placed();
        assert(frontier@ =~= removed + state.survivors(kids.len() as int));
    }
    let flows_complete = curr_state.num_complete();
    if flows_complete > stats.max_flows_completed {
        stats.max_flows_completed = flows_complete;
    }
    stats.flows_complete_sum = add_capped(stats.flows_complete_sum, flows_complete);
    stats.cells_open_sum = add_capped(stats.cells_open_sum, curr_state.num_open_cells());
    let mut children = curr_state.create_children();
    stats.states_created = add_capped(stats.states_created, children.len() as u64);

    while children.len() > 0
        invariant
            state == curr_state@,
            state.searchable(),
            kids == state.children(),
            children@.len() <= kids.len(),
            forall|j: int| 0 <= j < children@.len() ==> (#[trigger] children@[j])@ == kids[j],
            forall|j: int|
                0 <= j < kids.len() ==> (#[trigger] kids[j]).well_formed() && kids[j].num_open_cells() + 1
                    == state.num_open_cells(),
            forall|j: int| children@.len() <= j < kids.len() ==> !(#[trigger] kids[j]).is_complete(),
            frontier@ == removed + state.survivors(children@.len() as int),
            before.adds_up() ==> stats.adds_up(),
            stats.states_visited == count_up(before.states_visited, 1),
            stats.states_created == count_up(before.states_created, kids.len() as int),
            stats.frontier_max == (if waiting.len() > before.frontier_max {
                waiting.len() as usize
            } else {
                before.frontier_max
            }),
            stats.children_discarded == count_up(
                before.children_discarded,
                state.ruled_out_in_all(children@.len() as int) as int,
            ),
            stats.discarded_no_children == count_up(
                before.discarded_no_children,
                state.ruled_out(children@.len() as int, UNSOLVABLE_NO_CHILDREN) as int,
            ),
            stats.discarded_dead_end == count_up(
                before.discarded_dead_end,
                state.ruled_out(children@.len() as int, UNSOLVABLE_DEAD_ENDS) as int,
            ),
            stats.discarded_pools == count_up(
                before.discarded_pools,
                state.ruled_out(children@.len() as int, UNSOLVABLE_POOLS) as int,
            ),
            stats.discarded_blocked == count_up(
                before.discarded_blocked,
                state.ruled_out(children@.len() as int, UNSOLVABLE_PATH_BLOCKED) as int,
            ),
            stats.discarded_region == count_up(
                before.discarded_region,
                state.ruled_out(children@.len() as int, UNSOLVABLE_REGION) as int,
            ),
            stats.max_flows_completed == counted(before, waiting).max_flows_completed,
            stats.flows_complete_sum == counted(before, waiting).flows_complete_sum,
            stats.cells_open_sum == counted(before, waiting).cells_open_sum,
            waiting == old(frontier)@,
            before == *old(stats),
            at == next_index(waiting),
            is_next(waiting, at),
            removed == waiting.remove(at),
            state == waiting[at].1,
            waiting.len() > 0,
            waiting.len() <= usize::MAX,
        decreases children@.len(),
    {
        let ghost rest = children@.len() - 1;
        let child = children.pop().unwrap();
        proof {
            assert(child@ == kids[rest]);
            assert(kids[rest].well_formed());
            child@.lemma_well_formed_flows_placed();
        }
        // The first complete successor ends the search.
        if child.is_complete() {
            proof {
                lemma_is_last_complete_child(state, kids.len() as int, rest);
            }
            return Expansion { expanded: curr_state, solution: Some(child), report: None };
        }
        let solvable_status = child.is_solvable();
        if solvable_status == SOLVABLE {
            proof {
                assert(child@.searchable());
                child@.lemma_searchable_score();
            }
            let score = child.h();
            frontier.push(child, score);
            assert(frontier@ =~= removed + state.survivors(rest));
        } else {
            stats.record_discard(solvable_status);
        }
    }
    proof {
        lemma_last_complete_child(state, kids.len() as int);
        assert(*stats == counted(before, waiting));
    }
    let report = if stats.states_visited % REPORT_EVERY == 0 {
        let report = *stats;
        stats.start_afresh();
        Some(report)
    } else {
        None
    };
    Expansion { expanded: curr_state, solution: None, report }
}

/// Best-first search from `puzzle`: step by step, until a step finds a
/// complete state or no state waits any more. Ends with a solution exactly
/// when some complete state follows from `puzzle` through kept states.
pub fn greedy_best_first(puzzle: Puzzle) -> (outcome: SearchOutcome)
    requires
        puzzle@.searchable(),
    ensures
        exists|steps: nat|
            {
                let end = #[trigger] trace(puzzle@, steps);
                &&& steps >= 1
                &&& end.progress == (match outcome.solution {
                    Some(solved) => Progress::Solved(solved@),
                    None => Progress::Running(Seq::empty()),
                })
                &&& outcome.stats == end.stats
                &&& outcome.latest matches Some(state) && end.latest == Some(state@)
                &&& outcome.waiting == end.waiting.len()
            },
        outcome.solution is Some <==> puzzle@.has_solution(),
        outcome.solution matches Some(solved) ==> puzzle@.reaches(solved@) && solved@.is_complete(),
        outcome.latest matches Some(state) && on_track(puzzle@, state@),
        outcome.solution matches Some(solved) ==> outcome.latest->0@.children().contains(solved@),
        outcome.solution is None ==> outcome.waiting == 0,
        outcome.stats.adds_up(),
        outcome.stats.states_visited >= 1,
        outcome.stats.states_created >= 1,
        outcome.stats.frontier_max >= 1,
{
    let ghost root = puzzle@;
    let ghost start = seq![(root.rank(), root)];
    let mut frontier = Frontier::new();
    proof {
        root.lemma_searchable_score();
    }
    let score = puzzle.h();
    frontier.push(puzzle, score);
    proof {
        assert(frontier@ =~= start);
        assert forall|target: PuzzleView| root.reaches(target) && target.is_complete() implies #[trigger] waits_for(
            start,
            target,
        ) by {
            assert(start[0].1.reaches(target));
        }
    }
    let mut stats = SearchStats::new();
    stats.states_created = 1;
    let mut latest: Option<Puzzle> = None;
    let ghost mut steps: nat = 0;

    while !frontier.is_empty()
        invariant
            root == puzzle@,
            root.searchable(),
            trace(root, steps).progress == Progress::Running(frontier@),
            trace(root, steps).waiting == frontier@,
            trace(root, steps).stats == stats,
            match latest {
                Some(state) => trace(root, steps).latest == Some(state@) && on_track(root, state@),
                None => trace(root, steps).latest is None,
            },
            all_on_track(root, frontier@),
            covers(root, frontier@),
            latest is None ==> steps == 0 && frontier@.len() > 0,
            latest is Some ==> steps >= 1 && stats.states_visited >= 1 && stats.frontier_max >= 1,
            stats.adds_up(),
            stats.states_created >= 1,
        decreases pending(frontier@),
    {
        let ghost waiting = frontier@;
        proof {
            frontier.lemma_len_fits();
            assert forall|i: int| 0 <= i < waiting.len() implies (#[trigger] waiting[i]).1.searchable() by {
                lemma_on_track_searchable(root, waiting[i].1);
            }
        }
        let expansion = expand_next(&mut frontier, &mut stats);
        proof {
            steps = steps + 1;
            assert(on_track(root, waiting[next_index(waiting)].1));
            assert(trace(root, steps).progress == step(waiting));
        }
        match expansion.solution {
            Some(solved) => {
                proof {
                    lemma_step_solved(root, waiting);
                }
                return SearchOutcome {
                    solution: Some(solved),
                    latest: Some(expansion.expanded),
                    waiting: frontier.len(),
                    stats,
                };
            },
            None => {
                proof {
                    lemma_step_keeps_track(root, waiting);
                    lemma_step_keeps_cover(root, waiting);
                    lemma_step_makes_progress(waiting);
                }
                latest = Some(expansion.expanded);
            },
        }
    }
    proof {
        if root.has_solution() {
            let target = choose|target: PuzzleView| root.reaches(target) && target.is_complete();
            assert(waits_for(frontier@, target));
        }
        assert(frontier@ =~= Seq::empty());
    }
    SearchOutcome { solution: None, latest, waiting: frontier.len(), stats }
}

/// What one step of a run of the search gave.
#[derive(Debug)]
pub struct Advance {
    /// The complete state that the step found, if it found one.
    pub solution: Option<Puzzle>,
    /// The counters as they stood at the end of the step, where a report
    /// is due.
    pub report: Option<SearchStats>,
}

/// A run of the search that its owner drives step by step, to look at the
/// counters between the steps.
pub struct Search {
    frontier: Frontier,
    stats: SearchStats,
    latest: Option<Puzzle>,
    root: Ghost<PuzzleView>,
    steps: Ghost<nat>,
}

impl Search {
    /// The state from which the run began.
    pub closed spec fn root(&self) -> PuzzleView {
        self.root@
    }

    /// The number of steps made.
    pub closed spec fn steps(&self) -> nat {
        self.steps@
    }

    /// The states that wait, each with its priority.
    pub closed spec fn waiting(&self) -> Seq<(u64, PuzzleView)> {
        self.frontier@
    }

    /// The counters.
    pub closed spec fn counters(&self) -> SearchStats {
        self.stats
    }

    /// The state that was expanded last, if any was.
    pub closed spec fn last_expanded(&self) -> Option<PuzzleView> {
        match self.latest {
            Some(state) => Some(state@),
            None => None,
        }
    }

    /// The run stands where the search from its root stands after as many
    /// steps, and has not found a solution.
    pub open spec fn on_course(&self) -> bool {
        &&& self.root().searchable()
        &&& all_on_track(self.root(), self.waiting())
        &&& trace(self.root(), self.steps()).progress == Progress::Running(self.waiting())
        &&& trace(self.root(), self.steps()).waiting == self.waiting()
        &&& trace(self.root(), self.steps()).stats == self.counters()
        &&& trace(self.root(), self.steps()).latest == self.last_expanded()
    }

    /// A run from `puzzle`, before its first step.
    pub fn new(puzzle: Puzzle) -> (res: Search)
        requires
            puzzle@.searchable(),
        ensures
            res.on_course(),
            res.root() == puzzle@,
            res.steps() == 0,
    {
        let ghost root = puzzle@;
        let mut frontier = Frontier::new();
        proof {
            root.lemma_searchable_score();
        }
        let score = puzzle.h();
        frontier.push(puzzle, score);
        assert(frontier@ =~= seq![(root.rank(), root)]);
        let mut stats = SearchStats::new();
        stats.states_created = 1;
        Search { frontier, stats, latest: None, root: Ghost(root), steps: Ghost(0) }
    }

    /// Whether a state waits to be expanded.
    pub fn has_waiting(&self) -> (res: bool)
        ensures
            res == (self.waiting().len() > 0),
    {
        !self.frontier.is_empty()
    }

    /// The number of states that wait.
    pub fn num_waiting(&self) -> (res: usize)
        ensures
            res == self.waiting().len(),
    {
        self.frontier.len()
    }

    /// The counters.
    pub fn stats(&self) -> (res: SearchStats)
        ensures
            res == self.counters(),
    {
        self.stats
    }

    /// The state that was expanded last, if any was.
    pub fn latest(&self) -> (res: Option<&Puzzle>)
        ensures
            match res {
                Some(state) => self.last_expanded() == Some(state@),
                None => self.last_expanded() is None,
            },
    {
        match &self.latest {
            Some(state) => Some(state),
            None => None,
        }
    }

    /// One step of the run: the step of the search from the states that
    /// wait. The run stays on course unless the step finds a solution.
    pub fn step(&mut self) -> (res: Advance)
        requires
            old(self).on_course(),
            old(self).waiting().len() > 0,
        ensures
            final(self).root() == old(self).root(),
            final(self).steps() == old(self).steps() + 1,
            final(self).waiting() == waiting_after(old(self).waiting()),
            final(self).counters() == tally(old(self).counters(), old(self).waiting()),
            final(self).last_expanded() == Some(old(self).waiting()[next_index(old(self).waiting())].1),
            match step(old(self).waiting()) {
                Progress::Solved(state) => res.solution matches Some(solved) && solved@ == state,
                Progress::Running(_) => res.solution is None && final(self).on_course(),
            },
            res.report == if report_due(old(self).counters(), old(self).waiting()) {
                Some(counted(old(self).counters(), old(self).waiting()))
            } else {
                None
            },
    {
        let ghost root = self.root@;
        let ghost waiting = self.frontier@;
        proof {
            self.frontier.lemma_len_fits();
            assert forall|i: int| 0 <= i < waiting.len() implies (#[trigger] waiting[i]).1.searchable() by {
                lemma_on_track_searchable(root, waiting[i].1);
            }
        }
        let expansion = expand_next(&mut self.frontier, &mut self.stats);
        self.latest = Some(expansion.expanded);
        self.steps = Ghost((self.steps@ + 1) as nat);
        proof {
            assert(trace(root, self.steps@).progress == step(waiting));
            if step(waiting) is Running {
                lemma_step_keeps_track(root, waiting);
            }
        }
        Advance { solution: expansion.solution, report: expansion.report }
    }
}

impl PuzzleView {
    /// What the depth-first search finds from this state with `fuel` moves
    /// to spend: the state itself if it is complete, and else what it finds
    /// below the successors.
    pub open spec fn found(self, fuel: nat) -> Option<PuzzleView>
        decreases fuel, 0nat,
    {
        if self.is_complete() {
            Some(self)
        } else if fuel == 0 {
            None
        } else {
            self.found_below(0, (fuel - 1) as nat)
        }
    }

    /// What the depth-first search finds below the successors from index
    /// `n` on: what it finds from the first of them that is complete, or
    /// that the feasibility analysis passes, and from which it finds
    /// anything.
    pub open spec fn found_below(self, n: int, fuel: nat) -> Option<PuzzleView>
        decreases fuel, 1 + self.children().len() - n,
    {
        if n < 0 || n >= self.children().len() {
            None
        } else {
            let child = self.children()[n];
            if (child.solvability() == SOLVABLE || child.is_complete()) && child.found(fuel) is Some {
                child.found(fuel)
            } else {
                self.found_below(n + 1, fuel)
            }
        }
    }
}

/// Depth-first search from `puzzle`: answers with `puzzle` itself if it is
/// complete, and else with what the search finds below the first successor
/// that is complete or kept and below which it finds anything.
pub fn recursive(puzzle: &Puzzle) -> (res: Option<Puzzle>)
    requires
        puzzle@.well_formed(),
    ensures
        match res {
            Some(solved) => puzzle@.found(puzzle@.num_open_cells()) == Some(solved@),
            None => puzzle@.found(puzzle@.num_open_cells()) is None,
        },
        res is Some <==> puzzle@.is_complete() || puzzle@.has_solution(),
        res matches Some(solved) ==> solved@.is_complete() && (solved@ == puzzle@ || puzzle@.reaches(
            solved@,
        )),
    decreases puzzle@.num_open_cells(),
{
    proof {
        puzzle@.lemma_well_formed_flows_placed();
        puzzle@.lemma_children();
        puzzle@.lemma_has_solution_by_children();
    }
    if puzzle.is_complete() {
        return Some(puzzle.clone());
    }
    let children: Vec<Puzzle> = puzzle.create_children();
    let ghost kids = puzzle@.children();
    let ghost fuel = puzzle@.num_open_cells();
    proof {
        if kids.len() == 0 {
            assert(puzzle@.found(fuel) is None);
        } else {
            assert(kids[0].num_open_cells() + 1 == fuel);
        }
    }
    let mut c: usize = 0;
    while c < children.len()
        invariant
            c <= children@.len(),
            puzzle@.well_formed(),
            !puzzle@.is_complete(),
            kids == puzzle@.children(),
            fuel == puzzle@.num_open_cells(),
            children@.len() == kids.len(),
            kids.len() > 0 ==> fuel > 0,
            forall|j: int| 0 <= j < children@.len() ==> (#[trigger] children@[j])@ == kids[j],
            forall|j: int|
                0 <= j < kids.len() ==> (#[trigger] kids[j]).well_formed() && kids[j].num_open_cells() + 1
                    == puzzle@.num_open_cells(),
            forall|j: int|
                0 <= j < c ==> !((#[trigger] kids[j]).is_complete() || (kids[j].kept()
                    && kids[j].has_solution())),
            kids.len() > 0 ==> puzzle@.found(fuel) == puzzle@.found_below(c as int, (fuel - 1) as nat),
        decreases children@.len() - c,
    {
        let child: &Puzzle = &children[c];
        proof {
            assert(child@ == kids[c as int]);
            assert(kids[c as int].well_formed());
            child@.lemma_well_formed_flows_placed();
        }
        if child.is_solvable() == SOLVABLE || child.is_complete() {
            let res = recursive(child);
            if res.is_some() {
                proof {
                    let solved = res->0@;
                    if child@.is_complete() {
                        child@.lemma_complete_is_final();
                    }
                    if solved == child@ {
                        puzzle@.lemma_reaches_child(c as int);
                    } else {
                        puzzle@.lemma_reaches_through_child(c as int, solved);
                    }
                }
                return res;
            }
        }
        c += 1;
    }
    None
}

} // verus!
