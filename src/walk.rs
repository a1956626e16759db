use vstd::prelude::*;
use crate::grid::GridPosition;

verus! {

/// Total number of cells over a list of tracks.
pub open spec fn tracks_len(ts: Seq<Seq<GridPosition>>) -> nat
    decreases ts.len(),
{
    if ts.len() == 0 {
        0
    } else {
        tracks_len(ts.drop_last()) + ts.last().len()
    }
}

/// Each cell of `path` is one step away from the one before it.
pub open spec fn contiguous(path: Seq<GridPosition>) -> bool {
    forall|i: int| 0 < i < path.len() ==> #[trigger] path[i].manhattan(path[i - 1]) == 1
}

/// The state of a generation as plain values: the grid's size, the live path
/// from the origin to the head, every cell ever entered, the cells popped since
/// the last advance, the archived tracks, and whether the walk is over.
pub struct Walk {
    pub width: int,
    pub height: int,
    pub path: Seq<GridPosition>,
    pub visited: Seq<GridPosition>,
    pub backtrack: Seq<GridPosition>,
    pub tracks: Seq<Seq<GridPosition>>,
    pub finished: bool,
}

impl Walk {
    pub open spec fn area(self) -> int {
        self.width * self.height
    }

    /// The cell the walker stands on.
    pub open spec fn head(self) -> GridPosition {
        self.path.last()
    }

    /// A cell the walker may move to: on the grid and never entered.
    pub open spec fn eligible(self, p: GridPosition) -> bool {
        p.inside(self.width, self.height) && !self.visited.contains(p)
    }

    /// Some neighbour of the head is eligible.
    pub open spec fn can_advance(self) -> bool {
        exists|i: int| 0 <= i < 4 && #[trigger] self.eligible(self.head().neighbours_of()[i])
    }

    /// The first eligible cell among the candidates, in their order.
    pub open spec fn pick(self, cands: Seq<GridPosition>) -> Option<GridPosition>
        decreases cands.len(),
    {
        if cands.len() == 0 {
            None
        } else if self.eligible(cands[0]) {
            Some(cands[0])
        } else {
            self.pick(cands.drop_first())
        }
    }

    /// Move forward onto `n`; a pending dead end is archived as a track.
    pub open spec fn advance(self, n: GridPosition) -> Walk {
        Walk {
            path: self.path.push(n),
            visited: self.visited.push(n),
            backtrack: Seq::empty(),
            tracks: if self.backtrack.len() > 0 {
                self.tracks.push(self.backtrack)
            } else {
                self.tracks
            },
            ..self
        }
    }

    /// Pop the head onto the pending dead end; once the path is empty the walk
    /// is over and the dead end is archived as the final track.
    pub open spec fn retreat(self) -> Walk {
        let path = self.path.drop_last();
        let backtrack = self.backtrack.push(self.path.last());
        if path.len() == 0 {
            Walk {
                path,
                backtrack: Seq::empty(),
                tracks: self.tracks.push(backtrack),
                finished: true,
                ..self
            }
        } else {
            Walk { path, backtrack, ..self }
        }
    }

    /// One step, with the head's neighbours tried in the order `order`.
    pub open spec fn step_with(self, order: Seq<GridPosition>) -> Walk {
        if self.finished {
            self
        } else {
            match self.pick(order) {
                Some(n) => self.advance(n),
                None => self.retreat(),
            }
        }
    }

    /// `next` is a possible outcome of one step, whatever order the
    /// neighbours were tried in.
    pub open spec fn steps_to(self, next: Walk) -> bool {
        if self.finished {
            next == self
        } else if self.can_advance() {
            exists|n: GridPosition|
                #[trigger] self.head().neighbours_of().contains(n) && self.eligible(n) && next
                    == self.advance(n)
        } else {
            next == self.retreat()
        }
    }

    /// The walk is running and its next step moves forward.
    pub open spec fn advances(self) -> bool {
        !self.finished && self.can_advance()
    }

    /// The walk is consistent: a grid that fits `i32` coordinates, a path that
    /// is empty exactly when the walk is over, distinct visited cells on the
    /// grid, at least one, every cell of the path among them, no cell twice on
    /// the path, no pending cell on it, each cell of the path one step from
    /// the one before, and every visited cell off the path with no eligible
    /// neighbour left.
    pub open spec fn wf(self) -> bool {
        &&& 1 <= self.width <= i32::MAX
        &&& 1 <= self.height <= i32::MAX
        &&& self.finished == (self.path.len() == 0)
        &&& self.finished ==> self.backtrack.len() == 0
        &&& self.visited.no_duplicates()
        &&& forall|i: int|
            0 <= i < self.visited.len() ==> #[trigger] self.visited[i].inside(
                self.width,
                self.height,
            )
        &&& forall|i: int| 0 <= i < self.path.len() ==> self.visited.contains(#[trigger] self.path[i])
        &&& self.path.no_duplicates()
        &&& forall|i: int|
            0 <= i < self.backtrack.len() ==> !self.path.contains(#[trigger] self.backtrack[i])
        &&& self.visited.len() > 0
        &&& contiguous(self.path)
        &&& forall|i: int|
            0 <= i < self.visited.len() && !self.path.contains(self.visited[i]) ==> self.surrounded(
                #[trigger] self.visited[i],
            )
    }

    /// No neighbour of `p` is eligible: a cell the walker has left for good.
    pub open spec fn surrounded(self, p: GridPosition) -> bool {
        forall|j: int| 0 <= j < 4 ==> !self.eligible(#[trigger] p.neighbours_of()[j])
    }

    /// Every visited cell is on the path, pending, or in one archived track.
    pub open spec fn accounted(self) -> bool {
        self.path.len() + self.backtrack.len() + tracks_len(self.tracks) == self.visited.len()
    }

    /// An upper bound on the steps left before the walk is over.
    pub open spec fn remaining(self) -> int {
        2 * (self.area() - self.visited.len()) + self.path.len()
    }

    /// A walk that has just begun at a single cell.
    pub open spec fn is_fresh(self) -> bool {
        &&& self.wf()
        &&& self.path.len() == 1
        &&& self.visited == self.path
        &&& self.backtrack.len() == 0
        &&& self.tracks.len() == 0
    }
}

proof fn lemma_tracks_len_push(ts: Seq<Seq<GridPosition>>, t: Seq<GridPosition>)
    ensures
        tracks_len(ts.push(t)) == tracks_len(ts) + t.len(),
{
    assert(ts.push(t).drop_last() =~= ts);
}

/// The first pick among the candidates is one of them and eligible; no pick
/// means that none is eligible.
proof fn lemma_pick(w: Walk, cands: Seq<GridPosition>)
    ensures
        w.pick(cands) matches Some(n) ==> cands.contains(n) && w.eligible(n),
        w.pick(cands) is None ==> forall|i: int| 0 <= i < cands.len() ==> !w.eligible(#[trigger] cands[i]),
    decreases cands.len(),
{
    if cands.len() > 0 {
        lemma_pick(w, cands.drop_first());
        if w.pick(cands) is None {
            assert forall|i: int| 0 <= i < cands.len() implies !w.eligible(#[trigger] cands[i]) by {
                if i > 0 {
                    assert(cands[i] == cands.drop_first()[i - 1]);
                }
            }
        }
        if let Some(n) = w.pick(cands.drop_first()) {
            if !w.eligible(cands[0]) {
                assert(cands.drop_first().contains(n));
                let j = choose|j: int| 0 <= j < cands.drop_first().len() && cands.drop_first()[j] == n;
                assert(cands[j + 1] == n);
            }
        }
    }
}

/// Trying the head's neighbours in any order yields one of the possible
/// outcomes of a step.
pub proof fn lemma_step_with_is_step(w: Walk, order: Seq<GridPosition>)
    requires
        w.wf(),
        !w.finished ==> order.to_multiset() == w.head().neighbours_of().to_multiset(),
    ensures
        w.steps_to(w.step_with(order)),
{
    broadcast use vstd::seq_lib::to_multiset_contains;

    if !w.finished {
        let ns = w.head().neighbours_of();
        lemma_pick(w, order);
        match w.pick(order) {
            Some(n) => {
                assert(order.to_multiset().count(n) > 0);
                assert(ns.contains(n));
                let i = choose|i: int| 0 <= i < ns.len() && ns[i] == n;
                assert(w.eligible(ns[i]));
                assert(w.can_advance());
            },
            None => {
                assert forall|i: int| 0 <= i < 4 implies !#[trigger] w.eligible(ns[i]) by {
                    assert(ns.contains(ns[i]));
                    assert(ns.to_multiset().count(ns[i]) > 0);
                    assert(order.contains(ns[i]));
                    let j = choose|j: int| 0 <= j < order.len() && order[j] == ns[i];
                    assert(!w.eligible(order[j]));
                }
            },
        }
    }
}

/// A step keeps the walk consistent and its cells accounted for, and every
/// step taken before the end brings the bound on the steps left down by one.
pub proof fn lemma_step_preserves(a: Walk, b: Walk)
    requires
        a.wf(),
        a.steps_to(b),
    ensures
        b.wf(),
        b.width == a.width,
        b.height == a.height,
        a.accounted() ==> b.accounted(),
        !a.finished ==> b.remaining() == a.remaining() - 1,
        b.visited.len() >= a.visited.len(),
{
    if !a.finished {
        if a.can_advance() {
            let n = choose|n: GridPosition|
                #[trigger] a.head().neighbours_of().contains(n) && a.eligible(n) && b == a.advance(n);
            assert(b.visited.no_duplicates()) by {
                assert forall|i: int, j: int|
                    0 <= i < b.visited.len() && 0 <= j < b.visited.len() && i != j implies b.visited[i]
                    != b.visited[j] by {
                    if i == a.visited.len() as int {
                        assert(a.visited.contains(b.visited[j]));
                    } else if j == a.visited.len() as int {
                        assert(a.visited.contains(b.visited[i]));
                    }
                }
            }
            assert forall|i: int| 0 <= i < b.visited.len() implies #[trigger] b.visited[i].inside(
                b.width,
                b.height,
            ) by {
                if i < a.visited.len() {
                    assert(b.visited[i] == a.visited[i]);
                }
            }
            assert forall|i: int| 0 <= i < b.path.len() implies b.visited.contains(
                #[trigger] b.path[i],
            ) by {
                if i < a.path.len() {
                    assert(b.path[i] == a.path[i]);
                    assert(a.visited.contains(a.path[i]));
                    let j = choose|j: int| 0 <= j < a.visited.len() && a.visited[j] == a.path[i];
                    assert(b.visited[j] == a.path[i]);
                } else {
                    assert(b.visited[a.visited.len() as int] == n);
                }
            }
            if a.backtrack.len() > 0 {
                lemma_tracks_len_push(a.tracks, a.backtrack);
            }
            let h = a.head();
            assert(a.visited.contains(a.path[a.path.len() - 1]));
            let hv = choose|j: int| 0 <= j < a.visited.len() && a.visited[j] == h;
            assert(a.visited[hv].inside(a.width, a.height));
            crate::grid::lemma_neighbours_adjacent(h);
            let ns = h.neighbours_of();
            let jn = choose|j: int| 0 <= j < ns.len() && ns[j] == n;
            assert(ns[jn].manhattan(h) == 1);
            assert forall|i: int| 0 < i < b.path.len() implies #[trigger] b.path[i].manhattan(
                b.path[i - 1],
            ) == 1 by {
                if i < a.path.len() {
                    assert(b.path[i] == a.path[i]);
                    assert(b.path[i - 1] == a.path[i - 1]);
                    assert(a.path[i].manhattan(a.path[i - 1]) == 1);
                } else {
                    assert(b.path[i] == n);
                    assert(b.path[i - 1] == h);
                }
            }
            assert forall|i: int|
                0 <= i < b.visited.len() && !b.path.contains(b.visited[i]) implies b.surrounded(
                #[trigger] b.visited[i],
            ) by {
                let v = b.visited[i];
                if i == a.visited.len() as int {
                    assert(b.path[b.path.len() - 1] == n);
                } else {
                    assert(a.visited[i] == v);
                    if a.path.contains(v) {
                        let k = choose|k: int| 0 <= k < a.path.len() && a.path[k] == v;
                        assert(b.path[k] == v);
                    }
                    assert(a.surrounded(v));
                    assert forall|j: int| 0 <= j < 4 implies !b.eligible(
                        #[trigger] v.neighbours_of()[j],
                    ) by {
                        let q = v.neighbours_of()[j];
                        assert(!a.eligible(q));
                        if a.visited.contains(q) {
                            let k = choose|k: int| 0 <= k < a.visited.len() && a.visited[k] == q;
                            assert(b.visited[k] == q);
                        }
                    }
                }
            }
        } else {
            let path = a.path.drop_last();
            assert forall|i: int| 0 <= i < b.path.len() implies b.visited.contains(
                #[trigger] b.path[i],
            ) by {
                assert(b.path[i] == a.path[i]);
            }
            if path.len() == 0 {
                lemma_tracks_len_push(a.tracks, a.backtrack.push(a.path.last()));
            }
            assert forall|i: int| 0 < i < b.path.len() implies #[trigger] b.path[i].manhattan(
                b.path[i - 1],
            ) == 1 by {
                assert(b.path[i] == a.path[i]);
                assert(b.path[i - 1] == a.path[i - 1]);
                assert(a.path[i].manhattan(a.path[i - 1]) == 1);
            }
            assert forall|i: int|
                0 <= i < b.visited.len() && !b.path.contains(b.visited[i]) implies b.surrounded(
                #[trigger] b.visited[i],
            ) by {
                let v = b.visited[i];
                if a.path.contains(v) {
                    let k = choose|k: int| 0 <= k < a.path.len() && a.path[k] == v;
                    if k < a.path.len() - 1 {
                        assert(b.path[k] == v);
                    }
                    assert(v == a.head());
                    assert forall|j: int| 0 <= j < 4 implies !b.eligible(
                        #[trigger] v.neighbours_of()[j],
                    ) by {
                        assert(!a.eligible(a.head().neighbours_of()[j]));
                    }
                } else {
                    assert(a.surrounded(v));
                }
            }
        }
    }
}

/// The cell's index in row-major order.
pub open spec fn cell_index(p: GridPosition, width: int) -> int {
    p.y * width + p.x
}

proof fn lemma_cell_index_bounds(p: GridPosition, width: int, height: int)
    requires
        p.inside(width, height),
    ensures
        0 <= cell_index(p, width) < width * height,
{
    let (x, y) = (p.x as int, p.y as int);
    assert(0 <= y * width + x < width * height) by (nonlinear_arith)
        requires
            0 <= x < width,
            0 <= y < height,
    {
        assert(y * width <= (height - 1) * width);
    }
}

proof fn lemma_cell_index_injective(p: GridPosition, q: GridPosition, width: int)
    requires
        0 <= p.x < width,
        0 <= q.x < width,
        0 <= p.y,
        0 <= q.y,
        cell_index(p, width) == cell_index(q, width),
    ensures
        p == q,
{
    let (px, py, qx, qy) = (p.x as int, p.y as int, q.x as int, q.y as int);
    assert(py == qy) by (nonlinear_arith)
        requires
            0 <= px < width,
            0 <= qx < width,
            0 <= py,
            0 <= qy,
            py * width + px == qy * width + qx,
    {
        if py < qy {
            assert(py * width + width <= qy * width);
        } else if qy < py {
            assert(qy * width + width <= py * width);
        }
    }
}

/// A consistent walk has visited no more cells than the grid holds.
pub proof fn lemma_visited_within_area(w: Walk)
    requires
        w.wf(),
    ensures
        w.visited.len() <= w.area(),
{
    let f = |p: GridPosition| cell_index(p, w.width);
    let idx = w.visited.map_values(f);
    assert(idx.no_duplicates()) by {
        assert forall|i: int, j: int| 0 <= i < idx.len() && 0 <= j < idx.len() && i != j implies idx[i]
            != idx[j] by {
            assert(w.visited[i].inside(w.width, w.height));
            assert(w.visited[j].inside(w.width, w.height));
            if idx[i] == idx[j] {
                lemma_cell_index_injective(w.visited[i], w.visited[j], w.width);
            }
        }
    }
    idx.unique_seq_to_set();
    vstd::set_lib::lemma_int_range(0, w.area());
    assert(idx.to_set().subset_of(vstd::set_lib::set_int_range(0, w.area()))) by {
        assert forall|k: int| idx.to_set().contains(k) implies vstd::set_lib::set_int_range(
            0,
            w.area(),
        ).contains(k) by {
            assert(idx.contains(k));
            let i = choose|i: int| 0 <= i < idx.len() && idx[i] == k;
            assert(w.visited[i].inside(w.width, w.height));
            lemma_cell_index_bounds(w.visited[i], w.width, w.height);
        }
    }
    vstd::set_lib::lemma_len_subset(idx.to_set(), vstd::set_lib::set_int_range(0, w.area()));
}

/// Each walk of `trace` is a possible outcome of one step from the one before.
pub open spec fn is_run(trace: Seq<Walk>) -> bool {
    forall|k: int| 0 <= k < trace.len() - 1 ==> #[trigger] trace[k].steps_to(trace[k + 1])
}

/// Along a run from a consistent walk every walk is consistent on the same
/// grid, the accounting of cells is kept, and until the end the bound on the
/// steps left falls by one per step.
proof fn lemma_run_facts(trace: Seq<Walk>)
    requires
        trace.len() > 0,
        trace[0].wf(),
        is_run(trace),
    ensures
        forall|k: int|
            0 <= k < trace.len() ==> {
                &&& #[trigger] trace[k].wf()
                &&& trace[k].width == trace[0].width
                &&& trace[k].height == trace[0].height
                &&& trace[0].accounted() ==> trace[k].accounted()
                &&& trace[k].finished || trace[k].remaining() == trace[0].remaining() - k
            },
    decreases trace.len(),
{
    if trace.len() > 1 {
        let prev = trace.drop_last();
        assert(is_run(prev)) by {
            assert forall|k: int| 0 <= k < prev.len() - 1 implies #[trigger] prev[k].steps_to(
                prev[k + 1],
            ) by {
                assert(trace[k].steps_to(trace[k + 1]));
            }
        }
        lemma_run_facts(prev);
        let n = trace.len() - 1;
        assert(prev[n - 1] == trace[n - 1]);
        let m = n - 1;
        assert(trace[m].steps_to(trace[m + 1]));
        lemma_step_preserves(trace[n - 1], trace[n]);
        assert forall|k: int| 0 <= k < trace.len() implies {
            &&& #[trigger] trace[k].wf()
            &&& trace[k].width == trace[0].width
            &&& trace[k].height == trace[0].height
            &&& trace[0].accounted() ==> trace[k].accounted()
            &&& trace[k].finished || trace[k].remaining() == trace[0].remaining() - k
        } by {
            if k < n {
                assert(prev[k] == trace[k]);
            } else {
                assert(prev[m] == trace[m]);
                assert(prev[m].wf());
            }
        }
    }
}

/// After any number of steps every cell on the walker's path is among the
/// visited cells.
pub proof fn lemma_path_stays_visited(trace: Seq<Walk>)
    requires
        trace.len() > 0,
        trace[0].wf(),
        is_run(trace),
    ensures
        forall|k: int, i: int|
            0 <= k < trace.len() && 0 <= i < trace[k].path.len() ==> trace[k].visited.contains(
                #[trigger] trace[k].path[i],
            ),
{
    lemma_run_facts(trace);
    assert forall|k: int, i: int|
        0 <= k < trace.len() && 0 <= i < trace[k].path.len() implies trace[k].visited.contains(
        #[trigger] trace[k].path[i],
    ) by {
        assert(trace[k].wf());
    }
}

/// Along a run from a fresh walk, the cells on the path, pending and in the
/// archived tracks together number the visited cells; while every step
/// advances, that is the number of steps taken plus one.
pub proof fn lemma_cells_accounted(trace: Seq<Walk>)
    requires
        trace.len() > 0,
        trace[0].is_fresh(),
        is_run(trace),
    ensures
        forall|k: int|
            0 <= k < trace.len() ==> #[trigger] trace[k].path.len() + trace[k].backtrack.len()
                + tracks_len(trace[k].tracks) == trace[k].visited.len(),
        (forall|k: int| 0 <= k < trace.len() - 1 ==> #[trigger] trace[k].advances()) ==> trace.last().path.len() + trace.last().backtrack.len()
            + tracks_len(trace.last().tracks) == trace.len(),
    decreases trace.len(),
{
    assert(trace[0].accounted());
    lemma_run_facts(trace);
    assert forall|k: int| 0 <= k < trace.len() implies #[trigger] trace[k].path.len()
        + trace[k].backtrack.len() + tracks_len(trace[k].tracks) == trace[k].visited.len() by {
        assert(trace[k].wf());
        assert(trace[k].accounted());
    }
    if trace.len() > 1 && (forall|k: int| 0 <= k < trace.len() - 1 ==> #[trigger] trace[k].advances()) {
        let prev = trace.drop_last();
        assert(is_run(prev)) by {
            assert forall|k: int| 0 <= k < prev.len() - 1 implies #[trigger] prev[k].steps_to(
                prev[k + 1],
            ) by {
                assert(trace[k].steps_to(trace[k + 1]));
            }
        }
        assert forall|k: int| 0 <= k < prev.len() - 1 implies #[trigger] prev[k].advances() by {
            assert(trace[k].advances());
        }
        lemma_cells_accounted(prev);
        let n = trace.len() - 1;
        assert(trace[n - 1].advances());
        let m = n - 1;
        assert(trace[m].steps_to(trace[m + 1]));
        assert(trace[n].visited.len() == trace[n - 1].visited.len() + 1);
        assert(prev.last() == trace[n - 1]);
    }
}

/// Once the walk is over, a step changes nothing.
pub proof fn lemma_finished_is_fixed(a: Walk, b: Walk)
    requires
        a.finished,
        a.steps_to(b),
    ensures
        b == a,
        b.finished,
{
}

/// From a fresh walk on a grid of `A` cells, steps taken while the walk runs
/// number at most `2 * A - 1`, and after `2 * A - 1` steps the walk is over
/// and has visited every cell of the grid.
pub proof fn lemma_walk_terminates(trace: Seq<Walk>)
    requires
        trace.len() > 0,
        trace[0].is_fresh(),
        is_run(trace),
    ensures
        (forall|k: int| 0 <= k < trace.len() - 1 ==> !(#[trigger] trace[k].finished)) ==> trace.len()
            - 1 <= 2 * trace[0].area() - 1,
        trace.len() - 1 >= 2 * trace[0].area() - 1 ==> trace.last().finished
            && trace.last().visited.len() == trace[0].area() && forall|p: GridPosition|
            p.inside(trace[0].width, trace[0].height) ==> #[trigger] trace.last().visited.contains(p),
{
    lemma_run_facts(trace);
    let a = trace[0].area();
    assert(a >= 1) by (nonlinear_arith)
        requires
            a == trace[0].width * trace[0].height,
            trace[0].width >= 1,
            trace[0].height >= 1,
    ;
    assert(trace[0].remaining() == 2 * a - 1);
    if forall|k: int| 0 <= k < trace.len() - 1 ==> !(#[trigger] trace[k].finished) {
        if trace.len() > 1 {
            let k = trace.len() - 2;
            assert(!trace[k].finished);
            lemma_visited_within_area(trace[k]);
            assert(trace[k].wf());
            assert(trace[k].area() == a);
        }
    }
    let n = trace.len() - 1;
    if n >= 2 * a - 1 && !trace[n].finished {
        assert(trace[n].wf());
        lemma_visited_within_area(trace[n]);
        assert(trace[n].area() == a);
        assert(trace[n].remaining() == 2 * a - 1 - n);
    }
    if n >= 2 * a - 1 {
        assert(trace[n].wf());
        lemma_finished_visits_all(trace[n]);
        assert(trace[n].area() == a);
    }
}

/// How many of the tracks hold exactly `n` cells.
pub open spec fn count_of_length(ts: Seq<Seq<GridPosition>>, n: int) -> nat
    decreases ts.len(),
{
    if ts.len() == 0 {
        0
    } else {
        count_of_length(ts.drop_last(), n) + if ts.last().len() == n {
            1nat
        } else {
            0nat
        }
    }
}

pub(crate) proof fn lemma_count_prefix(ts: Seq<Seq<GridPosition>>, i: int)
    requires
        0 <= i < ts.len(),
    ensures
        forall|n: int|
            #[trigger] count_of_length(ts.subrange(0, i + 1), n) == count_of_length(
                ts.subrange(0, i),
                n,
            ) + if ts[i].len() == n {
                1nat
            } else {
                0nat
            },
        forall|n: int|
            count_of_length(ts.subrange(0, i), n) <= i ==> #[trigger] count_of_length(
                ts.subrange(0, i + 1),
                n,
            ) <= i + 1,
{
    assert(ts.subrange(0, i + 1).drop_last() =~= ts.subrange(0, i));
}

pub(crate) proof fn lemma_count_positive(ts: Seq<Seq<GridPosition>>, t: int)
    requires
        0 <= t < ts.len(),
    ensures
        count_of_length(ts, ts[t].len() as int) > 0,
    decreases ts.len(),
{
    if t < ts.len() - 1 {
        lemma_count_positive(ts.drop_last(), t);
    }
}

/// In a finished walk, the visited cells of a row reach along the whole row.
proof fn lemma_spread_row(w: Walk, y: int, a: int, b: int)
    requires
        w.wf(),
        w.finished,
        0 <= y < w.height,
        0 <= a < w.width,
        0 <= b < w.width,
        w.visited.contains(crate::grid::cell(a, y)),
    ensures
        w.visited.contains(crate::grid::cell(b, y)),
    decreases (if a < b { b - a } else { a - b }),
{
    if a != b {
        let p = crate::grid::cell(a, y);
        let i = choose|i: int| 0 <= i < w.visited.len() && w.visited[i] == p;
        assert(!w.path.contains(w.visited[i]));
        assert(w.surrounded(w.visited[i]));
        if a < b {
            assert(p.neighbours_of()[1] == crate::grid::cell(a + 1, y));
            assert(!w.eligible(p.neighbours_of()[1]));
            lemma_spread_row(w, y, a + 1, b);
        } else {
            assert(p.neighbours_of()[0] == crate::grid::cell(a - 1, y));
            assert(!w.eligible(p.neighbours_of()[0]));
            lemma_spread_row(w, y, a - 1, b);
        }
    }
}

/// In a finished walk, the visited cells of a column reach along the whole
/// column.
proof fn lemma_spread_column(w: Walk, x: int, a: int, b: int)
    requires
        w.wf(),
        w.finished,
        0 <= x < w.width,
        0 <= a < w.height,
        0 <= b < w.height,
        w.visited.contains(crate::grid::cell(x, a)),
    ensures
        w.visited.contains(crate::grid::cell(x, b)),
    decreases (if a < b { b - a } else { a - b }),
{
    if a != b {
        let p = crate::grid::cell(x, a);
        let i = choose|i: int| 0 <= i < w.visited.len() && w.visited[i] == p;
        assert(!w.path.contains(w.visited[i]));
        assert(w.surrounded(w.visited[i]));
        if a < b {
            assert(p.neighbours_of()[3] == crate::grid::cell(x, a + 1));
            assert(!w.eligible(p.neighbours_of()[3]));
            lemma_spread_column(w, x, a + 1, b);
        } else {
            assert(p.neighbours_of()[2] == crate::grid::cell(x, a - 1));
            assert(!w.eligible(p.neighbours_of()[2]));
            lemma_spread_column(w, x, a - 1, b);
        }
    }
}

/// A finished walk has visited every cell of the grid, each once.
pub proof fn lemma_finished_visits_all(w: Walk)
    requires
        w.wf(),
        w.finished,
    ensures
        forall|p: GridPosition| p.inside(w.width, w.height) ==> #[trigger] w.visited.contains(p),
        w.visited.len() == w.area(),
{
    let v0 = w.visited[0];
    assert(v0.inside(w.width, w.height));
    assert(w.visited.contains(v0));
    assert(v0 == crate::grid::cell(v0.x as int, v0.y as int));
    assert forall|p: GridPosition| p.inside(w.width, w.height) implies #[trigger] w.visited.contains(
        p,
    ) by {
        lemma_spread_row(w, v0.y as int, v0.x as int, p.x as int);
        lemma_spread_column(w, p.x as int, v0.y as int, p.y as int);
        assert(p == crate::grid::cell(p.x as int, p.y as int));
    }
    lemma_visited_within_area(w);
    let f = |p: GridPosition| cell_index(p, w.width);
    let idx = w.visited.map_values(f);
    let range = vstd::set_lib::set_int_range(0, w.area());
    assert(range.subset_of(idx.to_set())) by {
        assert forall|k: int| range.contains(k) implies idx.to_set().contains(k) by {
            let x = k % w.width;
            let y = k / w.width;
            vstd::arithmetic::div_mod::lemma_fundamental_div_mod(k, w.width);
            assert(0 <= x < w.width);
            assert(0 <= y < w.height) by (nonlinear_arith)
                requires
                    0 <= k < w.width * w.height,
                    y == k / w.width,
                    w.width > 0,
                    k == w.width * y + x,
                    0 <= x < w.width,
            {
                if y >= w.height {
                    assert(w.width * y >= w.width * w.height);
                }
                if y < 0 {
                    assert(w.width * y <= -w.width);
                }
            }
            let p = crate::grid::cell(x, y);
            assert(p.inside(w.width, w.height));
            assert(w.visited.contains(p));
            let i = choose|i: int| 0 <= i < w.visited.len() && w.visited[i] == p;
            assert(idx[i] == cell_index(p, w.width));
            assert(cell_index(p, w.width) == y * w.width + x);
            assert(y * w.width == w.width * y) by (nonlinear_arith);
            assert(idx.contains(k));
        }
    }
    idx.lemma_cardinality_of_set();
    vstd::set_lib::lemma_int_range(0, w.area());
    vstd::seq_lib::seq_to_set_is_finite(idx);
    vstd::set_lib::lemma_len_subset(range, idx.to_set());
}

} // verus!
