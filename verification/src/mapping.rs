use crate::raster::{
    bresenham_algorithm, lemma_line_cells_distinct, lemma_line_ends, line_cell, line_cells,
    line_len, GridIndex,
};
use vstd::prelude::*;

verus! {

/// What one observation says of a cell.
#[derive(Debug, Clone, Copy, PartialEq, Eq, Structural)]
pub enum Evidence {
    /// A ray passed through the cell.
    Free,
    /// A ray ended in the cell.
    Occupied,
}

/// The belief held about one cell.
#[derive(Debug, Clone, Copy, PartialEq, Eq, Structural)]
pub struct MapElement {
    /// Log-odds of the probability of occupancy, counted in steps of the
    /// sensor model, `ln(p_occupied / p_free)`: the observations of an
    /// occupied cell less those of a free one.
    pub log_odds: i64,
}

impl MapElement {
    /// A cell is occupied when its probability of occupancy is above one
    /// half, which is when its log-odds are positive.
    pub fn is_occupied(&self) -> (occupied: bool)
        ensures
            occupied == (self.log_odds > 0),
    {
        self.log_odds > 0
    }
}

impl Default for MapElement {
    /// The neutral prior: even odds.
    fn default() -> (element: Self)
        ensures
            element.log_odds == 0,
    {
        Self { log_odds: 0 }
    }
}

/// The content of one cell of the grid.
#[derive(Debug, Clone, Copy, PartialEq, Eq, Structural)]
pub enum Cell {
    /// No ray has reached the cell yet.
    Uninitialized,
    /// The cell has been observed at least once.
    Value(MapElement),
}

/// The log-odds that a cell starts from when evidence arrives: its own, or
/// the neutral prior if it was never observed.
pub open spec fn prior(cell: Cell) -> int {
    match cell {
        Cell::Uninitialized => 0,
        Cell::Value(element) => element.log_odds as int,
    }
}

/// Log-odds after one more observation. They stop at the ends of `i64`.
pub open spec fn stepped(log_odds: int, evidence: Evidence) -> int {
    match evidence {
        Evidence::Free => if log_odds > i64::MIN {
            log_odds - 1
        } else {
            log_odds
        },
        Evidence::Occupied => if log_odds < i64::MAX {
            log_odds + 1
        } else {
            log_odds
        },
    }
}

/// A cell after one more observation: initialised if it was not, and its
/// log-odds moved one step.
pub open spec fn fused(cell: Cell, evidence: Evidence) -> Cell {
    Cell::Value(MapElement { log_odds: stepped(prior(cell), evidence) as i64 })
}

/// Whether `grid` is a cell of a grid of the given size.
pub open spec fn in_bounds(grid: GridIndex, width: nat, height: nat) -> bool {
    &&& 0 <= grid.x < width
    &&& 0 <= grid.y < height
}

/// A grid of the given size in which no cell has been observed.
pub open spec fn blank(width: nat, height: nat) -> Map<GridIndex, Cell> {
    Map::new(|grid: GridIndex| in_bounds(grid, width, height), |grid: GridIndex| Cell::Uninitialized)
}

/// The grid after one ray: the last cell of the ray is seen occupied, the
/// cells before it are seen free, and the rest stay as they are. Cells of
/// the ray outside the grid are passed over.
pub open spec fn ray_cast(grid: Map<GridIndex, Cell>, ray: Seq<GridIndex>) -> Map<GridIndex, Cell> {
    Map::new(
        |cell: GridIndex| grid.dom().contains(cell),
        |cell: GridIndex|
            if ray.len() > 0 && cell == ray.last() {
                fused(grid[cell], Evidence::Occupied)
            } else if ray.len() > 0 && ray.drop_last().contains(cell) {
                fused(grid[cell], Evidence::Free)
            } else {
                grid[cell]
            },
    )
}

/// The grid after one ray from `origin` to each of `points`, in order.
pub open spec fn rays_cast(
    grid: Map<GridIndex, Cell>,
    origin: GridIndex,
    points: Seq<GridIndex>,
) -> Map<GridIndex, Cell>
    decreases points.len(),
{
    if points.len() == 0 {
        grid
    } else {
        ray_cast(rays_cast(grid, origin, points.drop_last()), line_cells(origin, points.last()))
    }
}

/// The cells of a grid of the given size, row by row.
pub open spec fn row_major(width: nat, height: nat) -> Seq<GridIndex> {
    Seq::new(
        width * height,
        |i: int| GridIndex { x: (i % width as int) as i32, y: (i / width as int) as i32 },
    )
}

/// Whether a cell has been observed.
pub open spec fn is_explored(cell: Cell) -> bool {
    cell != Cell::Uninitialized
}

/// Whether a cell has been observed and is held to be occupied.
pub open spec fn is_occupied(cell: Cell) -> bool {
    match cell {
        Cell::Uninitialized => false,
        Cell::Value(element) => element.log_odds > 0,
    }
}

/// The grid after the cells of `passed` have each been seen free.
spec fn swept(grid: Map<GridIndex, Cell>, passed: Seq<GridIndex>) -> Map<GridIndex, Cell> {
    Map::new(
        |cell: GridIndex| grid.dom().contains(cell),
        |cell: GridIndex|
            if passed.contains(cell) {
                fused(grid[cell], Evidence::Free)
            } else {
                grid[cell]
            },
    )
}

/// Sweeping one more cell, not swept before, is observing that cell free.
proof fn lemma_swept_next(
    grid: Map<GridIndex, Cell>,
    ray: Seq<GridIndex>,
    i: int,
    before: Map<GridIndex, Cell>,
    after: Map<GridIndex, Cell>,
)
    requires
        0 <= i < ray.len(),
        forall|j: int| 0 <= j < i ==> ray[j] != ray[i],
        before == swept(grid, ray.take(i)),
        after == (if before.dom().contains(ray[i]) {
            before.insert(ray[i], fused(before[ray[i]], Evidence::Free))
        } else {
            before
        }),
    ensures
        after == swept(grid, ray.take(i + 1)),
{
    let shorter = ray.take(i);
    let longer = ray.take(i + 1);
    assert(!shorter.contains(ray[i]));
    assert forall|cell: GridIndex| longer.contains(cell) <==> (shorter.contains(cell) || cell
        == ray[i]) by {
        if shorter.contains(cell) {
            let j = choose|j: int| 0 <= j < shorter.len() && shorter[j] == cell;
            assert(longer[j] == cell);
        }
        if cell == ray[i] {
            assert(longer[i] == cell);
        }
        if longer.contains(cell) {
            let j = choose|j: int| 0 <= j < longer.len() && longer[j] == cell;
            if j < i {
                assert(shorter[j] == cell);
            }
        }
    }
    assert(after =~= swept(grid, longer));
}

/// Observing the end of a ray occupied, after the cells before it were
/// swept, completes the ray.
proof fn lemma_swept_end(
    grid: Map<GridIndex, Cell>,
    ray: Seq<GridIndex>,
    before: Map<GridIndex, Cell>,
    after: Map<GridIndex, Cell>,
)
    requires
        ray.len() > 0,
        forall|j: int| 0 <= j < ray.len() - 1 ==> ray[j] != ray.last(),
        before == swept(grid, ray.take(ray.len() - 1)),
        after == (if before.dom().contains(ray.last()) {
            before.insert(ray.last(), fused(before[ray.last()], Evidence::Occupied))
        } else {
            before
        }),
    ensures
        after == ray_cast(grid, ray),
{
    assert(ray.take(ray.len() - 1) =~= ray.drop_last());
    assert(!ray.drop_last().contains(ray.last()));
    assert(after =~= ray_cast(grid, ray));
}

/// One ray lowers the log-odds of every cell of the grid that it passes
/// through by one step and raises those of the cell in which it ends by one
/// step, wherever they are not yet at an end of `i64`; an unobserved cell
/// starts from zero. The cell in which the ray ends is the last of its
/// line, the others come before it.
pub proof fn lemma_fusion_direction(
    grid: Map<GridIndex, Cell>,
    origin: GridIndex,
    point: GridIndex,
    k: int,
)
    requires
        0 <= k < line_len(origin, point),
        grid.dom().contains(line_cell(origin, point, k)),
        i64::MIN < prior(grid[line_cell(origin, point, k)]) < i64::MAX,
    ensures
        line_cell(origin, point, line_len(origin, point) - 1) == point,
        ({
            let cell = line_cell(origin, point, k);
            let after = ray_cast(grid, line_cells(origin, point))[cell];
            &&& k < line_len(origin, point) - 1 ==> prior(after) == prior(grid[cell]) - 1
            &&& k == line_len(origin, point) - 1 ==> prior(after) == prior(grid[cell]) + 1
        }),
{
    let ray = line_cells(origin, point);
    let cell = line_cell(origin, point, k);
    lemma_line_ends(origin, point);
    if k < line_len(origin, point) - 1 {
        lemma_line_cells_distinct(origin, point, k, line_len(origin, point) - 1);
        assert(ray.drop_last()[k] == cell);
    }
}

/// A ray leaves every cell of the grid that lies on it observed.
pub proof fn lemma_ray_explores(grid: Map<GridIndex, Cell>, ray: Seq<GridIndex>, cell: GridIndex)
    requires
        grid.dom().contains(cell),
        ray.contains(cell),
    ensures
        is_explored(ray_cast(grid, ray)[cell]),
{
    let k = choose|k: int| 0 <= k < ray.len() && ray[k] == cell;
    if cell != ray.last() {
        assert(ray.drop_last()[k] == cell);
    }
}

/// Rays neither add cells to a grid nor take any away, and a cell that was
/// observed stays observed.
pub proof fn lemma_rays_keep_explored(
    grid: Map<GridIndex, Cell>,
    origin: GridIndex,
    points: Seq<GridIndex>,
    cell: GridIndex,
)
    ensures
        rays_cast(grid, origin, points).dom() == grid.dom(),
        grid.dom().contains(cell) && is_explored(grid[cell]) ==> is_explored(
            rays_cast(grid, origin, points)[cell],
        ),
    decreases points.len(),
{
    if points.len() > 0 {
        lemma_rays_keep_explored(grid, origin, points.drop_last(), cell);
        let before = rays_cast(grid, origin, points.drop_last());
        assert(rays_cast(grid, origin, points).dom() =~= before.dom());
    }
}

/// What one ray says of a cell, in steps of log-odds: one up where the ray
/// ends, one down where it passes through, nothing elsewhere.
pub open spec fn ray_evidence(ray: Seq<GridIndex>, cell: GridIndex) -> int {
    if ray.len() > 0 && cell == ray.last() {
        1
    } else if ray.len() > 0 && ray.drop_last().contains(cell) {
        -1
    } else {
        0
    }
}

/// What the rays from `origin` to each of `points` say of a cell, taken
/// together: those that end in it less those that pass through it.
pub open spec fn net_evidence(origin: GridIndex, points: Seq<GridIndex>, cell: GridIndex) -> int
    decreases points.len(),
{
    if points.len() == 0 {
        0
    } else {
        net_evidence(origin, points.drop_last(), cell) + ray_evidence(
            line_cells(origin, points.last()),
            cell,
        )
    }
}

/// Evidence adds up: as long as the log-odds of a cell cannot reach an end
/// of `i64`, a scan moves them by the rays that end in the cell less the
/// rays that pass through it.
pub proof fn lemma_evidence_adds_up(
    grid: Map<GridIndex, Cell>,
    origin: GridIndex,
    points: Seq<GridIndex>,
    cell: GridIndex,
)
    requires
        grid.dom().contains(cell),
        i64::MIN + points.len() <= prior(grid[cell]) <= i64::MAX - points.len(),
    ensures
        -points.len() <= net_evidence(origin, points, cell) <= points.len(),
        prior(rays_cast(grid, origin, points)[cell]) == prior(grid[cell]) + net_evidence(
            origin,
            points,
            cell,
        ),
    decreases points.len(),
{
    if points.len() > 0 {
        lemma_evidence_adds_up(grid, origin, points.drop_last(), cell);
        lemma_rays_keep_explored(grid, origin, points.drop_last(), cell);
    }
}

/// A cell that a ray does not touch keeps its content.
pub proof fn lemma_ray_leaves_rest(grid: Map<GridIndex, Cell>, ray: Seq<GridIndex>, cell: GridIndex)
    requires
        grid.dom().contains(cell),
        !ray.contains(cell),
    ensures
        ray_cast(grid, ray)[cell] == grid[cell],
{
    if ray.len() > 0 {
        assert(ray[ray.len() - 1] == ray.last());
        if ray.drop_last().contains(cell) {
            let j = choose|j: int| 0 <= j < ray.drop_last().len() && ray.drop_last()[j] == cell;
            assert(ray[j] == cell);
        }
    }
}

/// Where in the row-by-row storage a cell lies.
spec fn slot(grid: GridIndex, width: nat) -> int {
    grid.y * width + grid.x
}

/// A cell of the grid has a place in the storage, within its own row.
proof fn lemma_slot_in_range(grid: GridIndex, width: nat, height: nat)
    requires
        in_bounds(grid, width, height),
    ensures
        0 <= grid.y * width,
        grid.y * width + width <= width * height,
        0 <= slot(grid, width) < width * height,
{
    assert(grid.y * width >= 0 && (grid.y + 1) * width <= height * width) by (nonlinear_arith)
        requires
            0 <= grid.y,
            grid.y + 1 <= height,
    ;
    assert((grid.y + 1) * width == grid.y * width + width) by (nonlinear_arith);
    assert(height * width == width * height) by (nonlinear_arith);
}

/// Each place in the storage holds the cell that stands at that place in
/// the row-by-row order.
proof fn lemma_slot_position(i: int, width: nat, height: nat)
    requires
        0 <= i < width * height,
        width <= i32::MAX,
        height <= i32::MAX,
    ensures
        width > 0,
        in_bounds(row_major(width, height)[i], width, height),
        slot(row_major(width, height)[i], width) == i,
        row_major(width, height)[i].x == i % (width as int),
        row_major(width, height)[i].y == i / (width as int),
{
    assert(width > 0) by (nonlinear_arith)
        requires
            0 <= i < width * height,
    ;
    let w = width as int;
    vstd::arithmetic::div_mod::lemma_fundamental_div_mod(i, w);
    vstd::arithmetic::div_mod::lemma_mod_bound(i, w);
    assert(0 <= i / w < height) by (nonlinear_arith)
        requires
            0 <= i < w * height,
            w > 0,
            i == w * (i / w) + i % w,
            0 <= i % w < w,
    ;
    assert(w * (i / w) == (i / w) * w) by (nonlinear_arith);
}

/// Two cells of the grid never share a place in the storage.
proof fn lemma_slot_injective(a: GridIndex, b: GridIndex, width: nat, height: nat)
    requires
        in_bounds(a, width, height),
        in_bounds(b, width, height),
        slot(a, width) == slot(b, width),
    ensures
        a == b,
{
    assert(a.y == b.y) by (nonlinear_arith)
        requires
            a.y * width + a.x == b.y * width + b.x,
            0 <= a.x < width,
            0 <= b.x < width,
    ;
}

/// Occupancy grid mapping
///
/// A bounded grid of cells, all of them unobserved at first, into which the
/// rays of each scan are fused. Its size never changes.
pub struct Mapping {
    width: usize,
    height: usize,
    /// The cells, row by row.
    cells: Vec<Cell>,
}

impl Mapping {
    /// What every grid keeps: a size that cell indices can reach, and one
    /// stored cell for each cell of that size.
    pub closed spec fn well_formed(&self) -> bool {
        &&& self.width <= i32::MAX
        &&& self.height <= i32::MAX
        &&& self.width * self.height <= usize::MAX
        &&& self.cells@.len() == self.width * self.height
    }

    /// The number of cells in a row.
    pub closed spec fn spec_width(&self) -> nat {
        self.width as nat
    }

    /// The number of rows.
    pub closed spec fn spec_height(&self) -> nat {
        self.height as nat
    }

    /// The content of a cell of the grid.
    pub closed spec fn spec_cell(&self, grid: GridIndex) -> Cell {
        self.cells@[slot(grid, self.width as nat)]
    }

    /// The grid as a map from each of its cells to the cell's content.
    pub open spec fn view(&self) -> Map<GridIndex, Cell> {
        Map::new(
            |grid: GridIndex| in_bounds(grid, self.spec_width(), self.spec_height()),
            |grid: GridIndex| self.spec_cell(grid),
        )
    }

    /// A grid of `width` by `height` cells, none of them observed.
    pub fn new(width: usize, height: usize) -> (mapping: Self)
        requires
            width <= i32::MAX,
            height <= i32::MAX,
            width * height <= usize::MAX,
        ensures
            mapping.well_formed(),
            mapping.spec_width() == width,
            mapping.spec_height() == height,
            mapping@ == blank(width as nat, height as nat),
    {
        let size: usize = width * height;
        let mut cells: Vec<Cell> = Vec::new();
        let mut i: usize = 0;
        while i < size
            invariant
                i <= size,
                cells@.len() == i,
                forall|k: int| 0 <= k < i ==> cells@[k] == Cell::Uninitialized,
            decreases size - i,
        {
            cells.push(Cell::Uninitialized);
            i += 1;
        }
        let mapping = Self { width, height, cells };
        proof {
            assert forall|grid: GridIndex| in_bounds(grid, width as nat, height as nat) implies mapping.spec_cell(
                grid,
            ) == Cell::Uninitialized by {
                lemma_slot_in_range(grid, width as nat, height as nat);
            }
            assert(mapping@ =~= blank(width as nat, height as nat));
        }
        mapping
    }

    /// Forgets every observation.
    pub fn init(&mut self)
        requires
            old(self).well_formed(),
        ensures
            final(self).well_formed(),
            final(self).spec_width() == old(self).spec_width(),
            final(self).spec_height() == old(self).spec_height(),
            final(self)@ == blank(old(self).spec_width(), old(self).spec_height()),
    {
        let size: usize = self.cells.len();
        let mut i: usize = 0;
        while i < size
            invariant
                i <= size,
                self.cells@.len() == size,
                self.width == old(self).width,
                self.height == old(self).height,
                size == self.width * self.height,
                self.width <= i32::MAX,
                self.height <= i32::MAX,
                forall|k: int| 0 <= k < i ==> self.cells@[k] == Cell::Uninitialized,
            decreases size - i,
        {
            self.cells.set(i, Cell::Uninitialized);
            i += 1;
        }
        proof {
            assert forall|grid: GridIndex|
                in_bounds(grid, self.width as nat, self.height as nat) implies self.spec_cell(grid)
                == Cell::Uninitialized by {
                lemma_slot_in_range(grid, self.width as nat, self.height as nat);
            }
            assert(self@ =~= blank(self.spec_width(), self.spec_height()));
        }
    }

    /// The numbers of cells in a row and of rows.
    pub fn map_size(&self) -> (size: (usize, usize))
        ensures
            size.0 == self.spec_width(),
            size.1 == self.spec_height(),
    {
        (self.width, self.height)
    }

    /// The content of the cell at `grid`, if the grid has such a cell.
    pub fn cell(&self, grid: &GridIndex) -> (cell: Option<Cell>)
        requires
            self.well_formed(),
        ensures
            cell == (if self@.dom().contains(*grid) {
                Some(self@[*grid])
            } else {
                None
            }),
    {
        if grid.x >= 0 && (grid.x as usize) < self.width && grid.y >= 0 && (grid.y as usize)
            < self.height {
            proof {
                lemma_slot_in_range(*grid, self.width as nat, self.height as nat);
            }
            Some(self.cells[(grid.y as usize) * self.width + (grid.x as usize)])
        } else {
            None
        }
    }

    /// Fuses one observation into the cell at `grid`. A cell outside the
    /// grid is passed over.
    pub fn observe(&mut self, grid: &GridIndex, evidence: Evidence)
        requires
            old(self).well_formed(),
        ensures
            final(self).well_formed(),
            final(self).spec_width() == old(self).spec_width(),
            final(self).spec_height() == old(self).spec_height(),
            final(self)@ == (if old(self)@.dom().contains(*grid) {
                old(self)@.insert(*grid, fused(old(self)@[*grid], evidence))
            } else {
                old(self)@
            }),
    {
        if grid.x >= 0 && (grid.x as usize) < self.width && grid.y >= 0 && (grid.y as usize)
            < self.height {
            proof {
                lemma_slot_in_range(*grid, self.width as nat, self.height as nat);
            }
            let at: usize = (grid.y as usize) * self.width + (grid.x as usize);
            let log_odds: i64 = match self.cells[at] {
                Cell::Uninitialized => 0,
                Cell::Value(element) => element.log_odds,
            };
            let log_odds: i64 = match evidence {
                Evidence::Free => if log_odds > i64::MIN {
                    log_odds - 1
                } else {
                    log_odds
                },
                Evidence::Occupied => if log_odds < i64::MAX {
                    log_odds + 1
                } else {
                    log_odds
                },
            };
            self.cells.set(at, Cell::Value(MapElement { log_odds }));
            proof {
                let after = old(self)@.insert(*grid, fused(old(self)@[*grid], evidence));
                assert forall|other: GridIndex|
                    in_bounds(other, self.width as nat, self.height as nat) implies self.spec_cell(
                    other,
                ) == after[other] by {
                    lemma_slot_in_range(other, self.width as nat, self.height as nat);
                    if other != *grid {
                        if slot(other, self.width as nat) == slot(*grid, self.width as nat) {
                            lemma_slot_injective(
                                other,
                                *grid,
                                self.width as nat,
                                self.height as nat,
                            );
                        }
                    }
                }
                assert(self@ =~= after);
            }
        }
    }
    /// Fuses one ray into the grid: the cells on the line from `origin` to
    /// `point` are seen free, but for the last, which is seen occupied.
    pub fn cast_ray(&mut self, origin: &GridIndex, point: &GridIndex)
        requires
            old(self).well_formed(),
        ensures
            final(self).well_formed(),
            final(self).spec_width() == old(self).spec_width(),
            final(self).spec_height() == old(self).spec_height(),
            final(self)@ == ray_cast(old(self)@, line_cells(*origin, *point)),
    {
        let grids = bresenham_algorithm(origin, point);
        let last: usize = grids.len() - 1;
        let ghost ray = grids@;
        proof {
            assert forall|i: int, j: int| 0 <= i < j < ray.len() implies ray[i] != ray[j] by {
                lemma_line_cells_distinct(*origin, *point, i, j);
            }
            assert(ray.take(0) =~= Seq::<GridIndex>::empty());
            assert(self@ =~= swept(old(self)@, ray.take(0)));
        }
        let mut i: usize = 0;
        while i < last
            invariant
                i <= last,
                last == ray.len() - 1,
                grids@ == ray,
                forall|i: int, j: int| 0 <= i < j < ray.len() ==> ray[i] != ray[j],
                self.well_formed(),
                self.spec_width() == old(self).spec_width(),
                self.spec_height() == old(self).spec_height(),
                self@ == swept(old(self)@, ray.take(i as int)),
            decreases last - i,
        {
            let ghost before = self@;
            self.observe(&grids[i], Evidence::Free);
            proof {
                lemma_swept_next(old(self)@, ray, i as int, before, self@);
            }
            i += 1;
        }
        let ghost before = self@;
        self.observe(&grids[last], Evidence::Occupied);
        proof {
            lemma_swept_end(old(self)@, ray, before, self@);
        }
    }

    /// Fuses a scan into the grid: one ray from `current_position`, the
    /// cell in which the sensor stands, to each cell of `points`, the cells
    /// in which the scan's points fall, in order.
    pub fn update(&mut self, current_position: &GridIndex, points: &Vec<GridIndex>)
        requires
            old(self).well_formed(),
        ensures
            final(self).well_formed(),
            final(self).spec_width() == old(self).spec_width(),
            final(self).spec_height() == old(self).spec_height(),
            final(self)@ == rays_cast(old(self)@, *current_position, points@),
    {
        let mut i: usize = 0;
        while i < points.len()
            invariant
                i <= points.len(),
                self.well_formed(),
                self.spec_width() == old(self).spec_width(),
                self.spec_height() == old(self).spec_height(),
                self@ == rays_cast(old(self)@, *current_position, points@.take(i as int)),
            decreases points.len() - i,
        {
            self.cast_ray(current_position, &points[i]);
            proof {
                assert(points@.take(i + 1).drop_last() =~= points@.take(i as int));
            }
            i += 1;
        }
        proof {
            assert(points@.take(points.len() as int) =~= points@);
        }
    }

    /// The test that picks the observed cells of this grid.
    pub open spec fn explored_here(&self) -> spec_fn(GridIndex) -> bool {
        |grid: GridIndex| is_explored(self.spec_cell(grid))
    }

    /// The test that picks the occupied cells of this grid.
    pub open spec fn occupied_here(&self) -> spec_fn(GridIndex) -> bool {
        |grid: GridIndex| is_occupied(self.spec_cell(grid))
    }

    /// The cells that a ray has reached at least once, row by row.
    pub fn get_explored_grids_positions(&self) -> (explored_grids: Vec<GridIndex>)
        requires
            self.well_formed(),
        ensures
            explored_grids@ == row_major(self.spec_width(), self.spec_height()).filter(
                self.explored_here(),
            ),
    {
        let ghost cells = row_major(self.spec_width(), self.spec_height());
        let ghost chosen = self.explored_here();
        let mut explored_grids: Vec<GridIndex> = Vec::new();
        let size: usize = self.cells.len();
        let mut i: usize = 0;
        proof {
            assert(cells.take(0) =~= Seq::<GridIndex>::empty());
        }
        while i < size
            invariant
                i <= size,
                self.well_formed(),
                size == self.cells@.len(),
                size == cells.len(),
                cells == row_major(self.spec_width(), self.spec_height()),
                chosen == self.explored_here(),
                explored_grids@ == cells.take(i as int).filter(chosen),
            decreases size - i,
        {
            proof {
                lemma_slot_position(i as int, self.width as nat, self.height as nat);
                assert(cells.take(i + 1) =~= cells.take(i as int).push(cells[i as int]));
                cells.take(i as int).lemma_filter_push(cells[i as int], chosen);
            }
            match self.cells[i] {
                Cell::Uninitialized => {},
                Cell::Value(_) => {
                    let x: i32 = (i % self.width) as i32;
                    let y: i32 = (i / self.width) as i32;
                    explored_grids.push(GridIndex { x, y });
                },
            }
            i += 1;
        }
        proof {
            assert(cells.take(size as int) =~= cells);
        }
        explored_grids
    }

    /// The cells whose probability of occupancy is above one half, row by
    /// row.
    pub fn get_occupied_grids_positions(&self) -> (occupied_grids: Vec<GridIndex>)
        requires
            self.well_formed(),
        ensures
            occupied_grids@ == row_major(self.spec_width(), self.spec_height()).filter(
                self.occupied_here(),
            ),
    {
        let ghost cells = row_major(self.spec_width(), self.spec_height());
        let ghost chosen = self.occupied_here();
        let mut occupied_grids: Vec<GridIndex> = Vec::new();
        let size: usize = self.cells.len();
        let mut i: usize = 0;
        proof {
            assert(cells.take(0) =~= Seq::<GridIndex>::empty());
        }
        while i < size
            invariant
                i <= size,
                self.well_formed(),
                size == self.cells@.len(),
                size == cells.len(),
                cells == row_major(self.spec_width(), self.spec_height()),
                chosen == self.occupied_here(),
                occupied_grids@ == cells.take(i as int).filter(chosen),
            decreases size - i,
        {
            proof {
                lemma_slot_position(i as int, self.width as nat, self.height as nat);
                assert(cells.take(i + 1) =~= cells.take(i as int).push(cells[i as int]));
                cells.take(i as int).lemma_filter_push(cells[i as int], chosen);
            }
            match self.cells[i] {
                Cell::Uninitialized => {},
                Cell::Value(element) => {
                    if element.is_occupied() {
                        let x: i32 = (i % self.width) as i32;
                        let y: i32 = (i / self.width) as i32;
                        occupied_grids.push(GridIndex { x, y });
                    }
                },
            }
            i += 1;
        }
        proof {
            assert(cells.take(size as int) =~= cells);
        }
        occupied_grids
    }
}

} // verus!
