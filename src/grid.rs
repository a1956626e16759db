use vstd::prelude::*;
use fastrand::Rng;
use crate::random::draw_below;
use crate::maze::MazeError;

verus! {

/// A cell of the grid, in column `x` and row `y`.
#[derive(Clone, Copy, Debug, PartialEq, Eq, Structural)]
pub struct GridPosition {
    pub x: i32,
    pub y: i32,
}

/// The cell at integer coordinates `(x, y)`, both of which must fit in `i32`.
pub open spec fn cell(x: int, y: int) -> GridPosition {
    GridPosition { x: x as i32, y: y as i32 }
}

impl GridPosition {
    /// The four cells around this one, left, right, above and below, in that order.
    pub open spec fn neighbours_of(self) -> Seq<GridPosition> {
        seq![
            cell(self.x - 1, self.y as int),
            cell(self.x + 1, self.y as int),
            cell(self.x as int, self.y - 1),
            cell(self.x as int, self.y + 1),
        ]
    }

    /// Every neighbour's coordinates fit in `i32`.
    pub open spec fn has_neighbours(self) -> bool {
        i32::MIN < self.x < i32::MAX && i32::MIN < self.y < i32::MAX
    }

    /// Whether the cell lies in a grid `width` columns wide and `height` rows high.
    pub open spec fn inside(self, width: int, height: int) -> bool {
        0 <= self.x < width && 0 <= self.y < height
    }

    /// The taxicab distance between two cells.
    pub open spec fn manhattan(self, other: GridPosition) -> int {
        let dx = self.x - other.x;
        let dy = self.y - other.y;
        (if dx < 0 { -dx } else { dx }) + (if dy < 0 { -dy } else { dy })
    }

    /// The cell in column `x` and row `y`.
    pub fn new(x: i32, y: i32) -> (r: GridPosition)
        ensures
            r.x == x,
            r.y == y,
    {
        GridPosition { x, y }
    }

    /// The four cells around this one, left, right, above and below.
    pub fn get_neighbours(&self) -> (r: [GridPosition; 4])
        requires
            self.has_neighbours(),
        ensures
            r@ == self.neighbours_of(),
    {
        let r = [
            GridPosition::new(self.x - 1, self.y),
            GridPosition::new(self.x + 1, self.y),
            GridPosition::new(self.x, self.y - 1),
            GridPosition::new(self.x, self.y + 1),
        ];
        assert(r@ =~= self.neighbours_of());
        r
    }

    /// Whether the cell lies in the grid: it is rejected as soon as one
    /// coordinate is negative or reaches its bound.
    pub fn in_bounds(&self, width: usize, height: usize) -> (r: bool)
        ensures
            r == self.inside(width as int, height as int),
            r == !(self.x < 0 || self.y < 0 || self.x >= width || self.y >= height),
    {
        !(self.x < 0 || self.y < 0 || (self.x as usize) >= width || (self.y as usize) >= height)
    }
}

/// The cell at row-major index `idx` of a grid `width` columns wide.
fn cell_at(idx: u64, width: usize, height: usize) -> (r: GridPosition)
    requires
        1 <= width <= i32::MAX,
        1 <= height <= i32::MAX,
        idx < width * height,
    ensures
        r.inside(width as int, height as int),
        r.y * width + r.x == idx,
{
    let w = width as u64;
    let x = idx % w;
    let y = idx / w;
    assert(y < height && idx == y * w + x) by (nonlinear_arith)
        requires
            x == idx % w,
            y == idx / w,
            w > 0,
            idx < w * height,
    {
        vstd::arithmetic::div_mod::lemma_fundamental_div_mod(idx as int, w as int);
        if y >= height {
            assert(y * w >= height * w) by (nonlinear_arith)
                requires
                    y >= height,
                    w > 0,
            ;
        }
    }
    GridPosition::new(x as i32, y as i32)
}

/// Two marker cells drawn uniformly at random: a start, and a finish that
/// differs from it whenever the grid has a second cell.
pub(crate) fn place_markers(rng: &mut Rng, width: usize, height: usize) -> (r: (
    GridPosition,
    GridPosition,
))
    requires
        1 <= width <= i32::MAX,
        1 <= height <= i32::MAX,
    ensures
        r.0.inside(width as int, height as int),
        r.1.inside(width as int, height as int),
        width * height > 1 ==> r.0 != r.1,
{
    assert(width * height <= i32::MAX * i32::MAX) by (nonlinear_arith)
        requires
            width <= i32::MAX,
            height <= i32::MAX,
    ;
    let area = (width as u64) * (height as u64);
    assert(area >= 1) by (nonlinear_arith)
        requires
            area == width * height,
            width >= 1,
            height >= 1,
    ;
    let s = draw_below(rng, area);
    let start = cell_at(s, width, height);
    let finish = if area > 1 {
        let k = draw_below(rng, area - 1);
        let f = if k < s {
            k
        } else {
            k + 1
        };
        cell_at(f, width, height)
    } else {
        start
    };
    (start, finish)
}

/// A grid with its two decorative markers.
pub struct Grid {
    pub width: usize,
    pub height: usize,
    pub start: GridPosition,
    pub finish: GridPosition,
}

impl Grid {
    /// A `width` by `height` grid with markers drawn from `rng`. Fails when
    /// the grid has no cell.
    pub fn new(width: usize, height: usize, rng: &mut Rng) -> (r: Result<Grid, MazeError>)
        requires
            width <= i32::MAX,
            height <= i32::MAX,
        ensures
            r is Err <==> (width == 0 || height == 0),
            r matches Ok(g) ==> g.width == width && g.height == height && g.start.inside(
                width as int,
                height as int,
            ) && g.finish.inside(width as int, height as int) && (width * height > 1 ==> g.start
                != g.finish),
    {
        if width == 0 || height == 0 {
            return Err(MazeError::EmptyGrid);
        }
        let (start, finish) = place_markers(rng, width, height);
        Ok(Grid { width, height, start, finish })
    }

    /// Whether `pos` lies off the grid: one coordinate negative or at least
    /// its bound is enough.
    pub fn is_outside(&self, pos: GridPosition) -> (r: bool)
        ensures
            r == !pos.inside(self.width as int, self.height as int),
    {
        !pos.in_bounds(self.width, self.height)
    }
}

/// The neighbours of a cell are four distinct cells, each one step away from it.
pub proof fn lemma_neighbours_adjacent(p: GridPosition)
    requires
        p.has_neighbours(),
    ensures
        p.neighbours_of().len() == 4,
        forall|i: int| 0 <= i < 4 ==> #[trigger] p.neighbours_of()[i].manhattan(p) == 1,
        p.neighbours_of().no_duplicates(),
{
    let ns = p.neighbours_of();
    assert(ns[0].manhattan(p) == 1);
    assert(ns[1].manhattan(p) == 1);
    assert(ns[2].manhattan(p) == 1);
    assert(ns[3].manhattan(p) == 1);
}

} // verus!
