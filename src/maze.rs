use vstd::prelude::*;
use fastrand::Rng;
use crate::grid::{GridPosition, place_markers};
use crate::random::shuffle_cells;
use crate::counting::{
    count_entries,
    count_of,
    drain_counts,
    empty_counts,
    pair_le,
    set_count,
    sort_pairs,
};
use crate::walk::{
    Walk,
    count_of_length,
    lemma_count_positive,
    lemma_count_prefix,
    lemma_step_preserves,
    lemma_step_with_is_step,
};

verus! {

/// Whether the walk is still running.
#[derive(Clone, Copy, Debug, PartialEq, Eq, Structural)]
pub enum MazeState {
    Generating,
    Finished,
}

/// Why a maze could not be made.
#[derive(Clone, Copy, Debug, PartialEq, Eq, Structural)]
pub enum MazeError {
    /// The grid has no cell: its width or its height is zero.
    EmptyGrid,
}

/// The live path, from the origin of the walk to its head.
#[derive(Debug)]
pub struct Walker {
    pub path: Vec<GridPosition>,
}

impl Walker {
    /// A path that stands at its origin.
    pub fn new(starting_position: GridPosition) -> (r: Walker)
        ensures
            r.path@ == seq![starting_position],
    {
        Walker { path: vec![starting_position] }
    }
}

/// A maze being carved by a random walk that backtracks on dead ends.
pub struct Maze {
    pub width: usize,
    pub height: usize,
    /// Decorative markers, two distinct cells when the grid has two or more.
    pub start: GridPosition,
    pub finish: GridPosition,
    pub walker: Walker,
    pub visited_cells: Vec<GridPosition>,
    pub backtrack: Vec<GridPosition>,
    pub tracks: Vec<Vec<GridPosition>>,
    pub state: MazeState,
    pub rng: Rng,
}

impl Maze {
    /// The generation as plain values.
    pub open spec fn walk(&self) -> Walk {
        Walk {
            width: self.width as int,
            height: self.height as int,
            path: self.walker.path@,
            visited: self.visited_cells@,
            backtrack: self.backtrack@,
            tracks: self.tracks@.map_values(|t: Vec<GridPosition>| t@),
            finished: self.state == MazeState::Finished,
        }
    }

    /// The walk is consistent and both markers lie on the grid.
    pub open spec fn wf(&self) -> bool {
        &&& self.walk().wf()
        &&& self.start.inside(self.width as int, self.height as int)
        &&& self.finish.inside(self.width as int, self.height as int)
    }

    /// A maze on a `width` by `height` grid, drawing from a generator seeded
    /// by the thread-local one. Fails when the grid has no cell.
    pub fn new(width: usize, height: usize) -> (r: Result<Maze, MazeError>)
        requires
            width <= i32::MAX,
            height <= i32::MAX,
        ensures
            r is Err <==> (width == 0 || height == 0),
            r matches Err(e) ==> e == MazeError::EmptyGrid,
            r matches Ok(m) ==> m.wf() && m.walk().is_fresh() && m.walk().accounted()
                && m.width == width && m.height == height && m.state == MazeState::Generating
                && m.walker.path@ == seq![m.start]
                && (width * height > 1 ==> m.start != m.finish),
    {
        Maze::with_rng(width, height, Rng::new())
    }

    /// A maze on a `width` by `height` grid that draws from `rng`: the same
    /// seed gives the same maze. Fails when the grid has no cell.
    pub fn with_rng(width: usize, height: usize, rng: Rng) -> (r: Result<Maze, MazeError>)
        requires
            width <= i32::MAX,
            height <= i32::MAX,
        ensures
            r is Err <==> (width == 0 || height == 0),
            r matches Err(e) ==> e == MazeError::EmptyGrid,
            r matches Ok(m) ==> m.wf() && m.walk().is_fresh() && m.walk().accounted()
                && m.width == width && m.height == height && m.state == MazeState::Generating
                && m.walker.path@ == seq![m.start]
                && (width * height > 1 ==> m.start != m.finish),
    {
        if width == 0 || height == 0 {
            return Err(MazeError::EmptyGrid);
        }
        let mut rng = rng;
        let (start, finish) = place_markers(&mut rng, width, height);
        let walker = Walker::new(start);
        let visited_cells = vec![start];
        let m = Maze {
            width,
            height,
            start,
            finish,
            walker,
            visited_cells,
            backtrack: Vec::new(),
            tracks: Vec::new(),
            state: MazeState::Generating,
            rng,
        };
        assert(m.walk().tracks =~= Seq::<Seq<GridPosition>>::empty());
        assert(m.walk().visited == m.walk().path);
        assert(m.walker.path@[0] == start);
        Ok(m)
    }
    /// Whether `p` is one of the cells in `cells`.
    fn holds_cell(cells: &Vec<GridPosition>, p: GridPosition) -> (r: bool)
        ensures
            r == cells@.contains(p),
    {
        let mut i: usize = 0;
        while i < cells.len()
            invariant
                i <= cells.len(),
                forall|j: int| 0 <= j < i ==> cells@[j] != p,
            decreases cells.len() - i,
        {
            if cells[i] == p {
                return true;
            }
            i += 1;
        }
        false
    }

    /// Advances the walk by one move, with the head's neighbours tried in the
    /// order `order`: onto the first that is on the grid and never visited,
    /// or else back off the head. Does nothing once the walk is over.
    pub fn step_with(&mut self, order: [GridPosition; 4])
        requires
            old(self).wf(),
            old(self).state == MazeState::Generating ==> order@.to_multiset()
                == old(self).walk().head().neighbours_of().to_multiset(),
        ensures
            final(self).wf(),
            final(self).walk() == old(self).walk().step_with(order@),
            old(self).walk().steps_to(final(self).walk()),
            final(self).width == old(self).width,
            final(self).height == old(self).height,
            final(self).start == old(self).start,
            final(self).finish == old(self).finish,
            final(self).rng == old(self).rng,
    {
        proof {
            lemma_step_with_is_step(self.walk(), order@);
            lemma_step_preserves(self.walk(), self.walk().step_with(order@));
        }
        if self.state == MazeState::Finished {
            return;
        }
        let ghost w = self.walk();
        let mut i: usize = 0;
        let mut goto: Option<GridPosition> = None;
        assert(order@.subrange(0, 4) =~= order@);
        while i < 4
            invariant_except_break
                goto is None,
                w.pick(order@) == w.pick(order@.subrange(i as int, 4)),
            invariant
                self.walk() == w,
                w.wf(),
                0 <= i <= 4,
            ensures
                goto is Some ==> goto == w.pick(order@),
                goto is None ==> i == 4 && w.pick(order@) == w.pick(order@.subrange(4, 4)),
            decreases 4 - i,
        {
            let ghost rest = order@.subrange(i as int, 4);
            assert(rest.drop_first() =~= order@.subrange(i + 1, 4));
            let n = order[i];
            assert(rest[0] == n);
            if n.in_bounds(self.width, self.height) && !Self::holds_cell(&self.visited_cells, n) {
                assert(w.eligible(n));
                assert(w.pick(rest) == Some(n));
                assert(w.pick(order@) == Some(n));
                goto = Some(n);
                break;
            }
            assert(!w.eligible(n));
            i += 1;
        }
        assert(order@.subrange(4, 4) =~= Seq::<GridPosition>::empty());
        match goto {
            Some(next_pos) => {
                self.walker.path.push(next_pos);
                self.visited_cells.push(next_pos);
                if self.backtrack.len() > 0 {
                    let mut track: Vec<GridPosition> = Vec::new();
                    std::mem::swap(&mut track, &mut self.backtrack);
                    self.tracks.push(track);
                    assert(self.walk().tracks =~= w.tracks.push(w.backtrack));
                } else {
                    assert(self.walk().tracks =~= w.tracks);
                }
                assert(self.walk().backtrack =~= Seq::<GridPosition>::empty());
                assert(self.walk().path =~= w.path.push(next_pos));
                assert(self.walk().visited =~= w.visited.push(next_pos));
                assert(self.walk() == w.advance(next_pos));
            },
            None => {
                let last = self.walker.path.len() - 1;
                let head = self.walker.path[last];
                self.walker.path.pop();
                assert(self.walker.path@ =~= w.path.drop_last());
                self.backtrack.push(head);
                if self.walker.path.len() == 0 {
                    self.state = MazeState::Finished;
                    let mut track: Vec<GridPosition> = Vec::new();
                    std::mem::swap(&mut track, &mut self.backtrack);
                    self.tracks.push(track);
                    assert(self.walk().tracks =~= w.tracks.push(w.backtrack.push(w.path.last())));
                    assert(self.walk().backtrack =~= Seq::<GridPosition>::empty());
                } else {
                    assert(self.walk().tracks =~= w.tracks);
                }
                assert(self.walk() == w.retreat());
            },
        }
    }

    /// Advances the walk by one move in a random direction: onto a neighbour
    /// of the head that is on the grid and never visited, each such neighbour
    /// as likely as the others, or else back off the head. Does nothing once
    /// the walk is over.
    pub fn step(&mut self)
        requires
            old(self).wf(),
        ensures
            final(self).wf(),
            old(self).walk().steps_to(final(self).walk()),
            old(self).state == MazeState::Finished ==> final(self).walk() == old(self).walk(),
            forall|i: int|
                0 <= i < final(self).walker.path.len() ==> final(self).visited_cells@.contains(
                    #[trigger] final(self).walker.path@[i],
                ),
            old(self).walk().accounted() ==> final(self).walk().accounted(),
            old(self).state == MazeState::Generating ==> final(self).walk().remaining()
                == old(self).walk().remaining() - 1,
            final(self).width == old(self).width,
            final(self).height == old(self).height,
            final(self).start == old(self).start,
            final(self).finish == old(self).finish,
    {
        if self.state == MazeState::Finished {
            return;
        }
        let head = self.walker.path[self.walker.path.len() - 1];
        proof {
            assert(self.walk().visited.contains(head));
            let j = choose|j: int|
                0 <= j < self.walk().visited.len() && self.walk().visited[j] == head;
            assert(self.walk().visited[j].inside(self.width as int, self.height as int));
        }
        let mut order = head.get_neighbours();
        shuffle_cells(&mut self.rng, &mut order);
        let ghost before = self.walk();
        self.step_with(order);
        proof {
            lemma_step_preserves(before, self.walk());
        }
    }
    /// For each length that an archived track has, that length and how many
    /// tracks have it, by ascending length.
    pub fn paths_lengths(&self) -> (r: Vec<(u64, u64)>)
        ensures
            forall|i: int, j: int| 0 <= i < j < r@.len() ==> r@[i].0 < r@[j].0,
            forall|i: int|
                0 <= i < r@.len() ==> #[trigger] r@[i].1 == count_of_length(
                    self.walk().tracks,
                    r@[i].0 as int,
                ) && r@[i].1 > 0,
            forall|t: int|
                #![trigger self.walk().tracks[t]]
                0 <= t < self.tracks@.len() ==> exists|i: int|
                    #![trigger r@[i]]
                    0 <= i < r@.len() && r@[i].0 == self.walk().tracks[t].len(),
    {
        let ghost ts = self.walk().tracks;
        let mut counts = empty_counts();
        let mut i: usize = 0;
        assert(ts.subrange(0, 0).len() == 0);
        while i < self.tracks.len()
            invariant
                i <= self.tracks.len(),
                ts == self.walk().tracks,
                forall|k: u64|
                    #[trigger] count_entries(counts).dom().contains(k) <==> count_of_length(
                        ts.subrange(0, i as int),
                        k as int,
                    ) > 0,
                forall|k: u64|
                    #[trigger] count_entries(counts).dom().contains(k) ==> count_entries(counts)[k]
                        == count_of_length(ts.subrange(0, i as int), k as int),
                forall|n: int| #[trigger] count_of_length(ts.subrange(0, i as int), n) <= i,
                forall|t: int| 0 <= t < i ==> #[trigger] ts[t].len() <= u64::MAX,
            decreases self.tracks.len() - i,
        {
            proof {
                lemma_count_prefix(ts, i as int);
            }
            let length = self.tracks[i].len() as u64;
            assert(length == ts[i as int].len());
            assert(count_of_length(ts.subrange(0, i as int), length as int) <= i);
            match count_of(&counts, length) {
                Some(c) => set_count(&mut counts, length, c + 1),
                None => set_count(&mut counts, length, 1),
            }
            i += 1;
            assert forall|k: u64|
                #[trigger] count_entries(counts).dom().contains(k) <==> count_of_length(
                    ts.subrange(0, i as int),
                    k as int,
                ) > 0 by {
                assert(count_of_length(ts.subrange(0, i as int), k as int) == count_of_length(
                    ts.subrange(0, i - 1),
                    k as int,
                ) + if ts[i - 1].len() == k as int { 1nat } else { 0nat });
            }
            assert forall|n: int| #[trigger] count_of_length(ts.subrange(0, i as int), n) <= i by {
                assert(count_of_length(ts.subrange(0, i - 1), n) <= i - 1);
            }
        }
        assert(ts.subrange(0, i as int) =~= ts);
        let ghost full = count_entries(counts);
        let drained = drain_counts(&mut counts);
        let r = sort_pairs(drained);
        proof {
            broadcast use vstd::seq_lib::to_multiset_contains;

            assert(drained@.no_duplicates());
            drained@.lemma_multiset_has_no_duplicates();
            assert forall|x: (u64, u64)|
                r@.to_multiset().contains(x) implies r@.to_multiset().count(x) == 1 by {
                assert(drained@.to_multiset().contains(x));
            }
            r@.lemma_multiset_has_no_duplicates_conv();
            assert forall|i: int| 0 <= i < r@.len() implies full.contains_pair(r@[i].0, r@[i].1) by {
                assert(r@.to_multiset().count(r@[i]) > 0);
                assert(drained@.contains(r@[i]));
                let j = choose|j: int| 0 <= j < drained@.len() && drained@[j] == r@[i];
                assert(full.contains_pair(drained@[j].0, drained@[j].1));
            }
            assert forall|i: int, j: int| 0 <= i < j < r@.len() implies r@[i].0 < r@[j].0 by {
                assert(pair_le(r@[i], r@[j]));
                assert(r@[i] != r@[j]);
                assert(full.contains_pair(r@[i].0, r@[i].1));
                assert(full.contains_pair(r@[j].0, r@[j].1));
            }
            assert forall|i: int| 0 <= i < r@.len() implies #[trigger] r@[i].1 == count_of_length(
                ts,
                r@[i].0 as int,
            ) && r@[i].1 > 0 by {
                assert(full.contains_pair(r@[i].0, r@[i].1));
                assert(full.dom().contains(r@[i].0));
            }
            assert forall|t: int|
                #![trigger self.walk().tracks[t]]
                0 <= t < self.tracks@.len() implies exists|i: int|
                    #![trigger r@[i]]
                    0 <= i < r@.len() && r@[i].0 == self.walk().tracks[t].len() by {
                lemma_count_positive(ts, t);
                assert(ts[t].len() <= u64::MAX);
                let k = ts[t].len() as u64;
                assert(full.dom().contains(k));
                let j = choose|j: int| 0 <= j < drained@.len() && drained@[j].0 == k;
                assert(drained@.contains(drained@[j]));
                assert(r@.to_multiset().count(drained@[j]) > 0);
                let i = choose|i: int| 0 <= i < r@.len() && r@[i] == drained@[j];
                assert(r@[i].0 == k);
            }
        }
        r
    }
    /// Discards every archived track of `threshold` cells or fewer, keeping
    /// the order of the others; nothing else changes.
    pub fn filter_short_tracks(&mut self, threshold: usize)
        requires
            old(self).wf(),
        ensures
            final(self).wf(),
            final(self).walk().tracks == old(self).walk().tracks.filter(
                |t: Seq<GridPosition>| t.len() > threshold,
            ),
            final(self).walk() == (Walk { tracks: final(self).walk().tracks, ..old(self).walk() }),
            final(self).start == old(self).start,
            final(self).finish == old(self).finish,
    {
        let ghost pred = |t: Seq<GridPosition>| t.len() > threshold;
        let ghost ts = self.walk().tracks;
        let mut rest: Vec<Vec<GridPosition>> = Vec::new();
        std::mem::swap(&mut rest, &mut self.tracks);
        let mut kept: Vec<Vec<GridPosition>> = Vec::new();
        let ghost n = ts.len();
        assert(ts.subrange(0, 0).filter(pred) =~= Seq::<Seq<GridPosition>>::empty()) by {
            reveal(Seq::filter);
        }
        assert(rest@.map_values(|t: Vec<GridPosition>| t@) =~= ts.subrange(0, n as int));
        while rest.len() > 0
            invariant
                n == ts.len(),
                pred == (|t: Seq<GridPosition>| t.len() > threshold),
                rest@.len() <= n,
                rest@.map_values(|t: Vec<GridPosition>| t@) =~= ts.subrange(n - rest@.len(), n as int),
                kept@.map_values(|t: Vec<GridPosition>| t@) == ts.subrange(0, n - rest@.len()).filter(
                    pred,
                ),
            decreases rest.len(),
        {
            let ghost i = n - rest@.len();
            assert(rest@[0]@ == rest@.map_values(|t: Vec<GridPosition>| t@)[0]);
            assert(ts.subrange(i, n as int)[0] == ts[i]);
            let ghost before = rest@;
            let track = rest.remove(0);
            assert(track@ == ts[i]);
            assert(rest@ =~= before.subrange(1, before.len() as int));
            assert(ts.subrange(0, i + 1).drop_last() =~= ts.subrange(0, i));
            assert(ts.subrange(0, i + 1).last() == ts[i]);
            assert(ts.subrange(0, i + 1).filter(pred) == if pred(ts[i]) {
                ts.subrange(0, i).filter(pred).push(ts[i])
            } else {
                ts.subrange(0, i).filter(pred)
            }) by {
                reveal(Seq::filter);
            }
            if track.len() > threshold {
                kept.push(track);
                assert(kept@.map_values(|t: Vec<GridPosition>| t@) =~= ts.subrange(0, i).filter(
                    pred,
                ).push(ts[i]));
            }
            assert forall|j: int| 0 <= j < rest@.len() implies #[trigger] rest@[j]@ == ts[i + 1 + j] by {
                assert(rest@[j] == before[j + 1]);
                assert(before.map_values(|t: Vec<GridPosition>| t@)[j + 1] == ts.subrange(i, n as int)[j + 1]);
            }
            assert(rest@.map_values(|t: Vec<GridPosition>| t@) =~= ts.subrange(i + 1, n as int));
            assert(kept@.map_values(|t: Vec<GridPosition>| t@) == ts.subrange(0, i + 1).filter(pred));
        }
        assert(ts.subrange(0, n as int) =~= ts);
        self.tracks = kept;
    }

    /// Thins the archive for display: keeps only the tracks of more than ten
    /// cells.
    pub fn p(&mut self)
        requires
            old(self).wf(),
        ensures
            final(self).wf(),
            final(self).walk().tracks == old(self).walk().tracks.filter(
                |t: Seq<GridPosition>| t.len() > 10,
            ),
            final(self).walk() == (Walk { tracks: final(self).walk().tracks, ..old(self).walk() }),
            final(self).start == old(self).start,
            final(self).finish == old(self).finish,
    {
        self.filter_short_tracks(10);
    }
}

} // verus!
