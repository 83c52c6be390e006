//! The cellular-automaton simulator: the grid store, the sand rule engine,
//! the phased step orchestrator, the paint operator and the point query.

use vstd::prelude::*;

use crate::matter::{cell_kind, MatterId, MatterWithColor};

verus! {

/// An integer grid coordinate. Points may lie outside the grid: every
/// operation that takes one is bounds-checked and total.
#[derive(Copy, Clone, Debug, PartialEq, Eq, Structural)]
pub struct Point {
    pub x: i32,
    pub y: i32,
}

/// Whether (x, y) lies inside a `w` x `h` grid.
pub open spec fn in_grid(w: int, h: int, x: int, y: int) -> bool {
    0 <= x < w && 0 <= y < h
}

/// The packed cell at (x, y) of a row-major grid of width `w`.
pub open spec fn cell_at(g: Seq<u32>, w: int, x: int, y: int) -> u32 {
    g[y * w + x]
}

/// The matter kind at (x, y) of a row-major grid of width `w`.
pub open spec fn kind_at(g: Seq<u32>, w: int, x: int, y: int) -> MatterId {
    cell_kind(cell_at(g, w, x, y))
}

/// A row-major index stays inside the buffer, and distinct in-grid
/// coordinates give distinct indices.
pub proof fn lemma_row_major(w: int, h: int, x: int, y: int)
    requires
        in_grid(w, h, x, y),
    ensures
        0 <= y * w + x < w * h,
{
    assert(0 <= y * w + x < w * h) by (nonlinear_arith)
        requires
            0 <= x < w,
            0 <= y < h,
    ;
}

pub proof fn lemma_row_major_injective(w: int, h: int, x1: int, y1: int, x2: int, y2: int)
    requires
        in_grid(w, h, x1, y1),
        in_grid(w, h, x2, y2),
        y1 * w + x1 == y2 * w + x2,
    ensures
        x1 == x2 && y1 == y2,
{
    assert(x1 == x2 && y1 == y2) by (nonlinear_arith)
        requires
            0 <= x1 < w,
            0 <= x2 < w,
            0 <= y1 < h,
            0 <= y2 < h,
            y1 * w + x1 == y2 * w + x2,
    ;
}

/// The simulator: a `width` x `height` grid of packed cells, row-major,
/// origin at the bottom-left corner (sand falls toward row 0).
pub struct CaSimulator {
    width: usize,
    height: usize,
    cells: Vec<u32>,
}

impl CaSimulator {
    /// The grid's cells as a row-major sequence; cell (x, y) is entry y * width + x.
    pub closed spec fn grid(&self) -> Seq<u32> {
        self.cells@
    }

    /// The grid width, as a mathematical integer.
    pub closed spec fn w(&self) -> int {
        self.width as int
    }

    /// The grid height, as a mathematical integer.
    pub closed spec fn h(&self) -> int {
        self.height as int
    }

    /// Well-formedness: the cell buffer matches the grid dimensions, and the
    /// dimensions are positive and within the supported capacity.
    pub open spec fn wf(&self) -> bool {
        &&& self.grid().len() == self.w() * self.h()
        &&& 1 <= self.w() <= 0x100000
        &&& 1 <= self.h() <= 0x100000
        &&& self.w() * self.h() <= usize::MAX
    }

    /// Creates a simulator whose cells are all `Empty`, with the background
    /// (all-zero) color.
    pub fn new(width: usize, height: usize) -> (sim: CaSimulator)
        requires
            1 <= width <= 0x100000,
            1 <= height <= 0x100000,
            width * height <= usize::MAX,
        ensures
            sim.wf(),
            sim.w() == width,
            sim.h() == height,
            forall|j: int| 0 <= j < sim.grid().len() ==> sim.grid()[j] == 0u32,
    {
        let n = width * height;
        let mut cells: Vec<u32> = Vec::new();
        let mut i: usize = 0;
        while i < n
            invariant
                i <= n,
                cells@.len() == i,
                forall|j: int| 0 <= j < i ==> cells@[j] == 0u32,
            decreases n - i,
        {
            cells.push(0);
            i += 1;
        }
        CaSimulator { width, height, cells }
    }

    /// The grid width in cells.
    pub fn width(&self) -> (w: usize)
        ensures
            w == self.w(),
    {
        self.width
    }

    /// The grid height in cells.
    pub fn height(&self) -> (h: usize)
        ensures
            h == self.h(),
    {
        self.height
    }

    /// The row-major buffer index of in-grid coordinates.
    fn idx(&self, x: usize, y: usize) -> (i: usize)
        requires
            self.wf(),
            x < self.w(),
            y < self.h(),
        ensures
            i == y * self.w() + x,
            i < self.grid().len(),
    {
        proof {
            lemma_row_major(self.w(), self.h(), x as int, y as int);
        }
        y * self.width + x
    }

    /// Bounds-checked read: an out-of-grid position reads as the background
    /// `Empty` cell, so neighborhood lookups near edges are total.
    pub fn get(&self, p: Point) -> (cell: MatterWithColor)
        requires
            self.wf(),
        ensures
            in_grid(self.w(), self.h(), p.x as int, p.y as int) ==> cell.value == cell_at(
                self.grid(),
                self.w(),
                p.x as int,
                p.y as int,
            ),
            !in_grid(self.w(), self.h(), p.x as int, p.y as int) ==> cell.value == 0u32,
    {
        if p.x < 0 || p.y < 0 {
            return MatterWithColor { value: 0 };
        }
        let x = p.x as usize;
        let y = p.y as usize;
        if x >= self.width || y >= self.height {
            return MatterWithColor { value: 0 };
        }
        let i = self.idx(x, y);
        MatterWithColor { value: self.cells[i] }
    }

    /// Bounds-checked write: an out-of-grid position is silently ignored.
    pub fn set(&mut self, p: Point, cell: MatterWithColor)
        requires
            old(self).wf(),
        ensures
            final(self).wf(),
            final(self).w() == old(self).w(),
            final(self).h() == old(self).h(),
            in_grid(old(self).w(), old(self).h(), p.x as int, p.y as int) ==> final(self).grid()
                == old(self).grid().update(p.y as int * old(self).w() + p.x as int, cell.value),
            !in_grid(old(self).w(), old(self).h(), p.x as int, p.y as int) ==> final(self).grid()
                == old(self).grid(),
    {
        if p.x < 0 || p.y < 0 {
            return ;
        }
        let x = p.x as usize;
        let y = p.y as usize;
        if x >= self.width || y >= self.height {
            return ;
        }
        let i = self.idx(x, y);
        self.cells.set(i, cell.value);
    }

    /// The matter kind at a position, or nothing for an out-of-grid position.
    /// A pure read: the result depends only on the current grid, so repeated
    /// queries with no intervening step or paint agree.
    pub fn query_matter(&self, p: Point) -> (kind: Option<MatterId>)
        requires
            self.wf(),
        ensures
            kind == spec_query(self.grid(), self.w(), self.h(), p),
    {
        if p.x < 0 || p.y < 0 {
            return None;
        }
        let x = p.x as usize;
        let y = p.y as usize;
        if x >= self.width || y >= self.height {
            return None;
        }
        let i = self.idx(x, y);
        Some(MatterId::decode((self.cells[i] % 256) as u8))
    }

    /// The current buffer as a read-only image for the renderer: one packed
    /// RGB-plus-kind value per cell, row-major, exactly the state left by the
    /// most recent completed step or paint.
    pub fn current_image(&self) -> (image: &Vec<u32>)
        ensures
            image@ == self.grid(),
    {
        &self.cells
    }
}

/// The square of an integer.
pub open spec fn sq(a: int) -> int {
    a * a
}

/// Whether (x, y) lies within the circular brush of the given radius
/// centered at point `p`.
pub open spec fn in_disk(p: Point, radius: u32, x: int, y: int) -> bool {
    sq(x - p.x) + sq(y - p.y) <= sq(radius as int)
}

/// Whether (x, y) is covered by the brush at one of the first `k` points of
/// a stroke.
pub open spec fn covers_upto(points: Seq<Point>, k: int, radius: u32, x: int, y: int) -> bool {
    exists|i: int| 0 <= i < k && in_disk(points[i], radius, x, y)
}

/// Whether (x, y) is covered by the brush at some point of a stroke.
pub open spec fn covers(points: Seq<Point>, radius: u32, x: int, y: int) -> bool {
    covers_upto(points, points.len() as int, radius, x, y)
}

/// How one bounds-checked write changes the grid, seen through `cell_at`.
proof fn lemma_cell_at_update(g: Seq<u32>, w: int, h: int, x: int, y: int, x2: int, y2: int, v: u32)
    requires
        g.len() == w * h,
        in_grid(w, h, x, y),
        in_grid(w, h, x2, y2),
    ensures
        cell_at(g.update(y * w + x, v), w, x2, y2) == if x2 == x && y2 == y {
            v
        } else {
            cell_at(g, w, x2, y2)
        },
{
    lemma_row_major(w, h, x, y);
    lemma_row_major(w, h, x2, y2);
    if y2 * w + x2 == y * w + x {
        lemma_row_major_injective(w, h, x, y, x2, y2);
    }
}

impl CaSimulator {
    /// Whether the in-grid cell (x, y) lies within the brush at `p`.
    fn hits_disk(p: Point, radius: u32, x: usize, y: usize) -> (b: bool)
        requires
            x <= 0x100000,
            y <= 0x100000,
        ensures
            b == in_disk(p, radius, x as int, y as int),
    {
        let dx: i128 = x as i128 - p.x as i128;
        let dy: i128 = y as i128 - p.y as i128;
        proof {
            assert((radius as i128) * (radius as i128) < 0x10000000000000000) by (nonlinear_arith)
                requires
                    0 <= (radius as i128) < 0x100000000,
            ;
        }
        let r2: i128 = (radius as i128) * (radius as i128);
        proof {
            assert(-0x100000000 < dx < 0x100000000);
            assert(-0x100000000 < dy < 0x100000000);
            assert(dx * dx < 0x10000000000000000) by (nonlinear_arith)
                requires
                    -0x100000000 < dx < 0x100000000,
            ;
            assert(dy * dy < 0x10000000000000000) by (nonlinear_arith)
                requires
                    -0x100000000 < dy < 0x100000000,
            ;
            assert(0 <= dx * dx) by (nonlinear_arith);
            assert(0 <= dy * dy) by (nonlinear_arith);
        }
        dx * dx + dy * dy <= r2
    }

    /// Fills the brush disk centered at `p` with one packed cell value, via
    /// bounds-checked writes: the part of the disk outside the grid is
    /// ignored, and no in-grid cell outside the disk changes.
    fn paint_disk(&mut self, p: Point, radius: u32, value: u32)
        requires
            old(self).wf(),
        ensures
            final(self).wf(),
            final(self).w() == old(self).w(),
            final(self).h() == old(self).h(),
            forall|x: int, y: int|
                in_grid(old(self).w(), old(self).h(), x, y) && in_disk(p, radius, x, y)
                    ==> cell_at(final(self).grid(), old(self).w(), x, y) == value,
            forall|x: int, y: int|
                in_grid(old(self).w(), old(self).h(), x, y) && !in_disk(p, radius, x, y)
                    ==> cell_at(final(self).grid(), old(self).w(), x, y) == cell_at(
                    old(self).grid(),
                    old(self).w(),
                    x,
                    y,
                ),
    {
        let ghost g0 = self.grid();
        let ghost w = self.w();
        let ghost h = self.h();
        let mut y: usize = 0;
        while y < self.height
            invariant
                self.wf(),
                self.w() == w,
                self.h() == h,
                self.grid().len() == g0.len(),
                y <= h,
                forall|x2: int, y2: int|
                    in_grid(w, h, x2, y2) && in_disk(p, radius, x2, y2) && y2 < y ==> cell_at(
                        self.grid(),
                        w,
                        x2,
                        y2,
                    ) == value,
                forall|x2: int, y2: int|
                    in_grid(w, h, x2, y2) && !in_disk(p, radius, x2, y2) ==> cell_at(
                        self.grid(),
                        w,
                        x2,
                        y2,
                    ) == cell_at(g0, w, x2, y2),
            decreases h - y,
        {
            let mut x: usize = 0;
            while x < self.width
                invariant
                    self.wf(),
                    self.w() == w,
                    self.h() == h,
                    y < h,
                    x <= w,
                    forall|x2: int, y2: int|
                        in_grid(w, h, x2, y2) && in_disk(p, radius, x2, y2) && (y2 < y || (y2 == y
                            && x2 < x)) ==> cell_at(self.grid(), w, x2, y2) == value,
                    forall|x2: int, y2: int|
                        in_grid(w, h, x2, y2) && !in_disk(p, radius, x2, y2) ==> cell_at(
                            self.grid(),
                            w,
                            x2,
                            y2,
                        ) == cell_at(g0, w, x2, y2),
                decreases w - x,
            {
                if Self::hits_disk(p, radius, x, y) {
                    let ghost before = self.grid();
                    let j = self.idx(x, y);
                    self.cells.set(j, value);
                    proof {
                        assert forall|x2: int, y2: int| in_grid(w, h, x2, y2) implies cell_at(
                            self.grid(),
                            w,
                            x2,
                            y2,
                        ) == if x2 == x as int && y2 == y as int {
                            value
                        } else {
                            cell_at(before, w, x2, y2)
                        } by {
                            lemma_cell_at_update(before, w, h, x as int, y as int, x2, y2, value);
                        }
                    }
                }
                x += 1;
            }
            y += 1;
        }
    }

    /// Rasterizes a brush stroke: for every point of the already-sampled
    /// path, fills the disk of the given radius around it with `value`.
    fn paint_value(&mut self, points: &Vec<Point>, radius: u32, value: u32)
        requires
            old(self).wf(),
        ensures
            final(self).wf(),
            final(self).w() == old(self).w(),
            final(self).h() == old(self).h(),
            forall|x: int, y: int|
                in_grid(old(self).w(), old(self).h(), x, y) && covers(points@, radius, x, y)
                    ==> cell_at(final(self).grid(), old(self).w(), x, y) == value,
            forall|x: int, y: int|
                in_grid(old(self).w(), old(self).h(), x, y) && !covers(points@, radius, x, y)
                    ==> cell_at(final(self).grid(), old(self).w(), x, y) == cell_at(
                    old(self).grid(),
                    old(self).w(),
                    x,
                    y,
                ),
    {
        let ghost g0 = self.grid();
        let ghost w = self.w();
        let ghost h = self.h();
        let mut i: usize = 0;
        while i < points.len()
            invariant
                self.wf(),
                self.w() == w,
                self.h() == h,
                i <= points@.len(),
                forall|x: int, y: int|
                    in_grid(w, h, x, y) && covers_upto(points@, i as int, radius, x, y) ==> cell_at(
                        self.grid(),
                        w,
                        x,
                        y,
                    ) == value,
                forall|x: int, y: int|
                    in_grid(w, h, x, y) && !covers_upto(points@, i as int, radius, x, y)
                        ==> cell_at(self.grid(), w, x, y) == cell_at(g0, w, x, y),
            decreases points@.len() - i,
        {
            let p = points[i];
            let ghost pre = self.grid();
            self.paint_disk(p, radius, value);
            proof {
                assert forall|x: int, y: int|
                    in_grid(w, h, x, y) && covers_upto(
                        points@,
                        i + 1,
                        radius,
                        x,
                        y,
                    ) implies cell_at(self.grid(), w, x, y) == value by {
                    if in_disk(p, radius, x, y) {
                    } else {
                        let j = choose|j: int|
                            0 <= j < i + 1 && in_disk(points@[j], radius, x, y);
                        assert(j < i);
                        assert(covers_upto(points@, i as int, radius, x, y));
                        assert(cell_at(pre, w, x, y) == value);
                    }
                }
                assert forall|x: int, y: int|
                    in_grid(w, h, x, y) && !covers_upto(
                        points@,
                        i + 1,
                        radius,
                        x,
                        y,
                    ) implies cell_at(self.grid(), w, x, y) == cell_at(g0, w, x, y) by {
                    assert(!in_disk(p, radius, x, y)) by {
                        if in_disk(points@[i as int], radius, x, y) {
                            assert(covers_upto(points@, i + 1, radius, x, y));
                        }
                    }
                    assert(!covers_upto(points@, i as int, radius, x, y)) by {
                        if covers_upto(points@, i as int, radius, x, y) {
                            let j = choose|j: int|
                                0 <= j < i && in_disk(points@[j], radius, x, y);
                            assert(0 <= j < i + 1 && in_disk(points@[j], radius, x, y));
                            assert(covers_upto(points@, i + 1, radius, x, y));
                        }
                    }
                }
            }
            i += 1;
        }
    }

    /// Paints a brush stroke of the given matter kind: every in-grid cell
    /// covered by the brush at some point of the path receives one freshly
    /// built cell of that kind (all covered cells share its randomized
    /// color); no other cell changes. Painting `Empty` erases. The stroke
    /// may run partly or wholly outside the grid.
    pub fn draw_matter(&mut self, points: &Vec<Point>, radius: u32, kind: MatterId)
        requires
            old(self).wf(),
        ensures
            final(self).wf(),
            final(self).w() == old(self).w(),
            final(self).h() == old(self).h(),
            forall|x: int, y: int|
                in_grid(old(self).w(), old(self).h(), x, y) && covers(points@, radius, x, y)
                    ==> kind_at(final(self).grid(), old(self).w(), x, y) == kind,
            exists|jitter: u8|
                #![trigger crate::matter::spec_make_cell(kind, jitter)]
                forall|x: int, y: int|
                    in_grid(old(self).w(), old(self).h(), x, y) && covers(points@, radius, x, y)
                        ==> #[trigger] cell_at(final(self).grid(), old(self).w(), x, y)
                        == crate::matter::spec_make_cell(kind, jitter),
            forall|x: int, y: int|
                in_grid(old(self).w(), old(self).h(), x, y) && !covers(points@, radius, x, y)
                    ==> cell_at(final(self).grid(), old(self).w(), x, y) == cell_at(
                    old(self).grid(),
                    old(self).w(),
                    x,
                    y,
                ),
    {
        let cell = MatterWithColor::new(kind);
        self.paint_value(points, radius, cell.value);
        proof {
            let jitter = choose|j: u8| cell.value == crate::matter::spec_make_cell(kind, j);
            assert(cell.value == crate::matter::spec_make_cell(kind, jitter));
        }
    }
}

/// How many cells of a grid hold the given matter kind.
pub open spec fn kind_count(g: Seq<u32>, k: MatterId) -> nat
    decreases g.len(),
{
    if g.len() == 0 {
        0
    } else {
        kind_count(g.drop_last(), k) + if cell_kind(g.last()) == k {
            1nat
        } else {
            0nat
        }
    }
}

/// How one point write changes a kind's census.
pub proof fn lemma_kind_count_update(g: Seq<u32>, i: int, v: u32, k: MatterId)
    requires
        0 <= i < g.len(),
    ensures
        kind_count(g.update(i, v), k) + (if cell_kind(g[i]) == k {
            1nat
        } else {
            0nat
        }) == kind_count(g, k) + (if cell_kind(v) == k {
            1nat
        } else {
            0nat
        }),
    decreases g.len(),
{
    let gu = g.update(i, v);
    if i == g.len() - 1 {
        assert(gu.drop_last() =~= g.drop_last());
    } else {
        assert(gu.drop_last() =~= g.drop_last().update(i, v));
        lemma_kind_count_update(g.drop_last(), i, v, k);
    }
}

/// Exchanging the contents of two cells leaves every kind's census alone.
pub proof fn lemma_kind_count_swap(g: Seq<u32>, i: int, j: int, k: MatterId)
    requires
        0 <= i < g.len(),
        0 <= j < g.len(),
        i != j,
    ensures
        kind_count(g.update(i, g[j]).update(j, g[i]), k) == kind_count(g, k),
{
    lemma_kind_count_update(g, i, g[j], k);
    lemma_kind_count_update(g.update(i, g[j]), j, g[i], k);
}

/// A kind with a census of zero stands nowhere in the grid. Together with
/// the preserved census this says matter of a kind can only ever be found
/// where a paint once put it.
pub proof fn lemma_count_zero_no_cell(g: Seq<u32>, k: MatterId, i: int)
    requires
        kind_count(g, k) == 0,
        0 <= i < g.len(),
    ensures
        cell_kind(g[i]) != k,
    decreases g.len(),
{
    if i < g.len() - 1 {
        lemma_count_zero_no_cell(g.drop_last(), k, i);
    }
}

/// The rule engine's decision for the cell at (x, y), reading only the frozen
/// current grid `g` and, when both diagonals are free, the tie-break `coin`:
/// sand falls straight down if the cell below is empty, otherwise down-left
/// or down-right into an empty cell (the coin choosing when both are free,
/// `true` for left); anything else stays. The grid edge blocks, so matter
/// never leaves the grid.
pub open spec fn sand_dest(g: Seq<u32>, w: int, h: int, x: int, y: int, coin: bool) -> Option<
    (int, int),
> {
    if !in_grid(w, h, x, y) || kind_at(g, w, x, y) != MatterId::Sand {
        None
    } else if y < 1 {
        None
    } else if kind_at(g, w, x, y - 1) == MatterId::Empty {
        Some((x, y - 1))
    } else {
        let left_free = x >= 1 && kind_at(g, w, x - 1, y - 1) == MatterId::Empty;
        let right_free = x + 1 < w && kind_at(g, w, x + 1, y - 1) == MatterId::Empty;
        if left_free && right_free {
            if coin {
                Some((x - 1, y - 1))
            } else {
                Some((x + 1, y - 1))
            }
        } else if left_free {
            Some((x - 1, y - 1))
        } else if right_free {
            Some((x + 1, y - 1))
        } else {
            None
        }
    }
}

/// What a rule decision implies: only in-grid sand moves, one row down, at
/// most one column aside, and only into an empty cell.
pub proof fn lemma_sand_dest_props(g: Seq<u32>, w: int, h: int, x: int, y: int, coin: bool)
    requires
        sand_dest(g, w, h, x, y, coin) is Some,
    ensures
        in_grid(w, h, x, y),
        kind_at(g, w, x, y) == MatterId::Sand,
        ({
            let t = sand_dest(g, w, h, x, y, coin).unwrap();
            &&& in_grid(w, h, t.0, t.1)
            &&& t.1 == y - 1
            &&& x - 1 <= t.0 <= x + 1
            &&& kind_at(g, w, t.0, t.1) == MatterId::Empty
        }),
{
}

/// The phase partition: a cell is active in phase `phase` when its column is
/// congruent to it modulo three. Two active cells of one phase can never
/// write to the same cell.
pub open spec fn in_phase(phase: int, x: int) -> bool {
    x % 3 == phase
}

/// Within one phase, two sand cells never move to the same destination:
/// their columns would differ by at most two yet agree modulo three.
pub proof fn lemma_unique_source(
    g: Seq<u32>,
    w: int,
    h: int,
    phase: int,
    x1: int,
    y1: int,
    c1: bool,
    x2: int,
    y2: int,
    c2: bool,
)
    requires
        in_phase(phase, x1),
        in_phase(phase, x2),
        sand_dest(g, w, h, x1, y1, c1) is Some,
        sand_dest(g, w, h, x1, y1, c1) == sand_dest(g, w, h, x2, y2, c2),
    ensures
        x1 == x2 && y1 == y2,
{
    lemma_sand_dest_props(g, w, h, x1, y1, c1);
    lemma_sand_dest_props(g, w, h, x2, y2, c2);
    assert(x1 == x2) by (nonlinear_arith)
        requires
            x1 % 3 == x2 % 3,
            x1 - x2 <= 2,
            x2 - x1 <= 2,
    ;
}

/// Row-major scan order: whether (x, y) comes before the cursor (cx, cy).
pub open spec fn scanned(x: int, y: int, cx: int, cy: int) -> bool {
    y < cy || (y == cy && x < cx)
}

/// The rule decision for (x, y) with the stroke of coins laid out row-major.
pub open spec fn dest_of(g: Seq<u32>, w: int, h: int, coins: Seq<bool>, x: int, y: int) -> Option<
    (int, int),
> {
    sand_dest(g, w, h, x, y, coins[y * w + x])
}

/// Whether an already-scanned active sand cell of this phase moves into
/// (x, y).
pub open spec fn targeted(
    g: Seq<u32>,
    w: int,
    h: int,
    phase: int,
    coins: Seq<bool>,
    cx: int,
    cy: int,
    x: int,
    y: int,
) -> bool {
    exists|sx: int, sy: int|
        in_grid(w, h, sx, sy) && in_phase(phase, sx) && scanned(sx, sy, cx, cy) && #[trigger] dest_of(
            g,
            w,
            h,
            coins,
            sx,
            sy,
        ) == Some((x, y))
}

/// Every scanned active sand cell of this phase that the rule moves has been
/// moved: its value stands at its destination and its old cell holds the
/// empty cell its destination held — present at exactly one place, never
/// both, never neither.
pub open spec fn movers_applied(
    g0: Seq<u32>,
    g1: Seq<u32>,
    w: int,
    h: int,
    phase: int,
    coins: Seq<bool>,
    cx: int,
    cy: int,
) -> bool {
    forall|x: int, y: int|
        in_grid(w, h, x, y) && in_phase(phase, x) && scanned(x, y, cx, cy) && #[trigger] dest_of(
            g0,
            w,
            h,
            coins,
            x,
            y,
        ) is Some ==> {
            let t = dest_of(g0, w, h, coins, x, y).unwrap();
            cell_at(g1, w, t.0, t.1) == cell_at(g0, w, x, y) && cell_at(g1, w, x, y) == cell_at(
                g0,
                w,
                t.0,
                t.1,
            )
        }
}

/// Every cell that is neither a scanned mover of this phase nor the
/// destination of one is unchanged.
pub open spec fn untouched(
    g0: Seq<u32>,
    g1: Seq<u32>,
    w: int,
    h: int,
    phase: int,
    coins: Seq<bool>,
    cx: int,
    cy: int,
) -> bool {
    forall|x: int, y: int|
        in_grid(w, h, x, y) && !(in_phase(phase, x) && scanned(x, y, cx, cy) && dest_of(
            g0,
            w,
            h,
            coins,
            x,
            y,
        ) is Some) && !targeted(g0, w, h, phase, coins, cx, cy, x, y) ==> #[trigger] cell_at(
            g1,
            w,
            x,
            y,
        ) == cell_at(g0, w, x, y)
}

/// Every kind's census is the same in both grids: no matter was created or
/// destroyed, only relocated.
pub open spec fn counts_preserved(g0: Seq<u32>, g1: Seq<u32>) -> bool {
    forall|k: MatterId| #[trigger] kind_count(g1, k) == kind_count(g0, k)
}

/// Wood never moves: every cell that held wood is bit-for-bit unchanged.
pub open spec fn wood_fixed(g0: Seq<u32>, g1: Seq<u32>, w: int, h: int) -> bool {
    forall|x: int, y: int|
        in_grid(w, h, x, y) && kind_at(g0, w, x, y) == MatterId::Wood ==> #[trigger] cell_at(
            g1,
            w,
            x,
            y,
        ) == cell_at(g0, w, x, y)
}

/// Only sand flows: a changed cell held sand or emptiness before, and holds
/// sand or emptiness after.
pub open spec fn only_sand_flows(g0: Seq<u32>, g1: Seq<u32>, w: int, h: int) -> bool {
    forall|x: int, y: int|
        in_grid(w, h, x, y) && #[trigger] cell_at(g1, w, x, y) != cell_at(g0, w, x, y) ==> (kind_at(
            g0,
            w,
            x,
            y,
        ) == MatterId::Sand || kind_at(g0, w, x, y) == MatterId::Empty) && (kind_at(g1, w, x, y)
            == MatterId::Sand || kind_at(g1, w, x, y) == MatterId::Empty)
}

/// The cells a fresh move writes are still fresh: the mover's own cell is
/// nobody's destination (destinations are empty, the mover holds sand), and
/// its destination is no scanned mover's destination (one phase admits one
/// writer per cell) nor itself a mover (it is empty).
proof fn lemma_move_cells_fresh(
    g0: Seq<u32>,
    w: int,
    h: int,
    phase: int,
    coins: Seq<bool>,
    x: int,
    y: int,
    tx: int,
    ty: int,
)
    requires
        in_grid(w, h, x, y),
        in_phase(phase, x),
        dest_of(g0, w, h, coins, x, y) == Some((tx, ty)),
    ensures
        kind_at(g0, w, x, y) == MatterId::Sand,
        in_grid(w, h, tx, ty),
        ty == y - 1,
        x - 1 <= tx <= x + 1,
        kind_at(g0, w, tx, ty) == MatterId::Empty,
        !targeted(g0, w, h, phase, coins, x, y, x, y),
        !targeted(g0, w, h, phase, coins, x, y, tx, ty),
        dest_of(g0, w, h, coins, tx, ty) is None,
{
    lemma_sand_dest_props(g0, w, h, x, y, coins[y * w + x]);
    if targeted(g0, w, h, phase, coins, x, y, x, y) {
        let (sx, sy) = choose|sx: int, sy: int|
            in_grid(w, h, sx, sy) && in_phase(phase, sx) && scanned(sx, sy, x, y)
                && #[trigger] dest_of(g0, w, h, coins, sx, sy) == Some((x, y));
        lemma_sand_dest_props(g0, w, h, sx, sy, coins[sy * w + sx]);
    }
    if targeted(g0, w, h, phase, coins, x, y, tx, ty) {
        let (sx, sy) = choose|sx: int, sy: int|
            in_grid(w, h, sx, sy) && in_phase(phase, sx) && scanned(sx, sy, x, y)
                && #[trigger] dest_of(g0, w, h, coins, sx, sy) == Some((tx, ty));
        lemma_unique_source(
            g0,
            w,
            h,
            phase,
            sx,
            sy,
            coins[sy * w + sx],
            x,
            y,
            coins[y * w + x],
        );
    }
}

/// Advancing the scan cursor past a cell that writes nothing preserves the
/// pass's invariants.
proof fn lemma_advance_no_write(
    g0: Seq<u32>,
    g1: Seq<u32>,
    w: int,
    h: int,
    phase: int,
    coins: Seq<bool>,
    x: int,
    y: int,
)
    requires
        0 <= x < w,
        0 <= y < h,
        movers_applied(g0, g1, w, h, phase, coins, x, y),
        untouched(g0, g1, w, h, phase, coins, x, y),
        !(in_phase(phase, x) && dest_of(g0, w, h, coins, x, y) is Some),
    ensures
        movers_applied(g0, g1, w, h, phase, coins, x + 1, y),
        untouched(g0, g1, w, h, phase, coins, x + 1, y),
{
    assert forall|x2: int, y2: int|
        in_grid(w, h, x2, y2) && in_phase(phase, x2) && scanned(x2, y2, x + 1, y)
            && #[trigger] dest_of(g0, w, h, coins, x2, y2) is Some implies {
        let t = dest_of(g0, w, h, coins, x2, y2).unwrap();
        cell_at(g1, w, t.0, t.1) == cell_at(g0, w, x2, y2) && cell_at(g1, w, x2, y2) == cell_at(
            g0,
            w,
            t.0,
            t.1,
        )
    } by {
        assert(scanned(x2, y2, x, y));
    }
    assert forall|x2: int, y2: int|
        in_grid(w, h, x2, y2) && !(in_phase(phase, x2) && scanned(x2, y2, x + 1, y) && dest_of(
            g0,
            w,
            h,
            coins,
            x2,
            y2,
        ) is Some) && !targeted(g0, w, h, phase, coins, x + 1, y, x2, y2) implies #[trigger] cell_at(
        g1,
        w,
        x2,
        y2,
    ) == cell_at(g0, w, x2, y2) by {
        assert(!targeted(g0, w, h, phase, coins, x, y, x2, y2)) by {
            if targeted(g0, w, h, phase, coins, x, y, x2, y2) {
                let (sx, sy) = choose|sx: int, sy: int|
                    in_grid(w, h, sx, sy) && in_phase(phase, sx) && scanned(sx, sy, x, y)
                        && #[trigger] dest_of(g0, w, h, coins, sx, sy) == Some((x2, y2));
                assert(scanned(sx, sy, x + 1, y));
                assert(targeted(g0, w, h, phase, coins, x + 1, y, x2, y2));
            }
        }
        assert(!(in_phase(phase, x2) && scanned(x2, y2, x, y) && dest_of(g0, w, h, coins, x2, y2)
            is Some)) by {
            if scanned(x2, y2, x, y) {
                assert(scanned(x2, y2, x + 1, y));
            }
        }
    }
}

impl CaSimulator {
    /// The matter kind of an in-grid cell, read from the current buffer.
    fn kind_of_cell(&self, x: usize, y: usize) -> (kind: MatterId)
        requires
            self.wf(),
            x < self.w(),
            y < self.h(),
        ensures
            kind == kind_at(self.grid(), self.w(), x as int, y as int),
    {
        let i = self.idx(x, y);
        MatterId::decode((self.cells[i] % 256) as u8)
    }

    /// The rule engine: decides whether and where the cell at (x, y) moves
    /// this sub-step, reading only the frozen current buffer; it never
    /// applies the move. `coin` breaks the tie when a sand cell finds both
    /// diagonal cells below it free (`true` falls left).
    pub fn rule_decision(&self, x: usize, y: usize, coin: bool) -> (dest: Option<(usize, usize)>)
        requires
            self.wf(),
            x < self.w(),
            y < self.h(),
        ensures
            dest matches Some(t) ==> sand_dest(
                self.grid(),
                self.w(),
                self.h(),
                x as int,
                y as int,
                coin,
            ) == Some((t.0 as int, t.1 as int)),
            dest is None ==> sand_dest(
                self.grid(),
                self.w(),
                self.h(),
                x as int,
                y as int,
                coin,
            ) is None,
    {
        if self.kind_of_cell(x, y) != MatterId::Sand {
            return None;
        }
        if y == 0 {
            return None;
        }
        if self.kind_of_cell(x, y - 1) == MatterId::Empty {
            return Some((x, y - 1));
        }
        let left_free = x >= 1 && self.kind_of_cell(x - 1, y - 1) == MatterId::Empty;
        let right_free = x + 1 < self.width && self.kind_of_cell(x + 1, y - 1) == MatterId::Empty;
        if left_free && right_free {
            if coin {
                Some((x - 1, y - 1))
            } else {
                Some((x + 1, y - 1))
            }
        } else if left_free {
            Some((x - 1, y - 1))
        } else if right_free {
            Some((x + 1, y - 1))
        } else {
            None
        }
    }

    /// One phase of one sub-step: scans the grid in row-major order and, for
    /// every active cell of the phase (column congruent to `phase` modulo
    /// three), commits the rule engine's decision to a scratch buffer that
    /// starts as a copy of the current one, then installs the scratch buffer
    /// as the new current buffer. Within one phase no two active cells can
    /// write to the same cell, so matter is never duplicated or lost. The
    /// coins supply the rule's tie-breaks, one per cell, row-major.
    pub fn step_phase(&mut self, phase: usize, coins: &Vec<bool>)
        requires
            old(self).wf(),
            phase < 3,
            coins@.len() == old(self).grid().len(),
        ensures
            final(self).wf(),
            final(self).w() == old(self).w(),
            final(self).h() == old(self).h(),
            counts_preserved(old(self).grid(), final(self).grid()),
            movers_applied(
                old(self).grid(),
                final(self).grid(),
                old(self).w(),
                old(self).h(),
                phase as int,
                coins@,
                0,
                old(self).h(),
            ),
            untouched(
                old(self).grid(),
                final(self).grid(),
                old(self).w(),
                old(self).h(),
                phase as int,
                coins@,
                0,
                old(self).h(),
            ),
            wood_fixed(old(self).grid(), final(self).grid(), old(self).w(), old(self).h()),
            only_sand_flows(old(self).grid(), final(self).grid(), old(self).w(), old(self).h()),
    {
        let ghost g0 = self.grid();
        let ghost w = self.w();
        let ghost h = self.h();
        let ghost ph = phase as int;
        let ghost cs = coins@;
        let wd = self.width;
        let ht = self.height;
        let n = self.cells.len();
        let mut next: Vec<u32> = Vec::new();
        let mut i: usize = 0;
        while i < n
            invariant
                self.wf(),
                self.grid() == g0,
                n == g0.len(),
                i <= n,
                next@.len() == i,
                forall|j: int| 0 <= j < i ==> next@[j] == g0[j],
            decreases n - i,
        {
            next.push(self.cells[i]);
            i += 1;
        }
        proof {
            assert(next@ =~= g0);
        }
        let mut y: usize = 0;
        while y < ht
            invariant
                self.wf(),
                self.grid() == g0,
                self.w() == w,
                self.h() == h,
                wd == w,
                ht == h,
                phase < 3,
                ph == phase as int,
                cs == coins@,
                cs.len() == g0.len(),
                y <= h,
                next@.len() == g0.len(),
                counts_preserved(g0, next@),
                movers_applied(g0, next@, w, h, ph, cs, 0, y as int),
                untouched(g0, next@, w, h, ph, cs, 0, y as int),
                wood_fixed(g0, next@, w, h),
                only_sand_flows(g0, next@, w, h),
            decreases ht - y,
        {
            let mut x: usize = 0;
            while x < wd
                invariant
                    self.wf(),
                    self.grid() == g0,
                    self.w() == w,
                    self.h() == h,
                    wd == w,
                    ht == h,
                    phase < 3,
                    ph == phase as int,
                    cs == coins@,
                    cs.len() == g0.len(),
                    y < h,
                    x <= w,
                    next@.len() == g0.len(),
                    counts_preserved(g0, next@),
                    movers_applied(g0, next@, w, h, ph, cs, x as int, y as int),
                    untouched(g0, next@, w, h, ph, cs, x as int, y as int),
                    wood_fixed(g0, next@, w, h),
                    only_sand_flows(g0, next@, w, h),
                decreases wd - x,
            {
                let ghost xi = x as int;
                let ghost yi = y as int;
                if x % 3 == phase {
                    proof {
                        lemma_row_major(w, h, xi, yi);
                    }
                    let ci = y * wd + x;
                    let coin = coins[ci];
                    match self.rule_decision(x, y, coin) {
                        None => {
                            proof {
                                assert(dest_of(g0, w, h, cs, xi, yi) is None);
                                lemma_advance_no_write(g0, next@, w, h, ph, cs, xi, yi);
                            }
                        },
                        Some((tx, ty)) => {
                            let ghost txi = tx as int;
                            let ghost tyi = ty as int;
                            let ghost pre = next@;
                            proof {
                                assert(dest_of(g0, w, h, cs, xi, yi) == Some((txi, tyi)));
                                lemma_move_cells_fresh(g0, w, h, ph, cs, xi, yi, txi, tyi);
                                lemma_row_major(w, h, txi, tyi);
                            }
                            let si = ci;
                            let ti = ty * wd + tx;
                            proof {
                                // the scratch buffer still holds the frozen values at
                                // both cells this move writes
                                assert(cell_at(pre, w, txi, tyi) == cell_at(g0, w, txi, tyi));
                                assert(cell_at(pre, w, xi, yi) == cell_at(g0, w, xi, yi));
                                assert(pre[ti as int] == cell_at(g0, w, txi, tyi));
                                assert(pre[si as int] == cell_at(g0, w, xi, yi));
                                assert(si != ti) by {
                                    if si == ti {
                                        assert(yi * w + xi == tyi * w + txi);
                                        assert(w + xi - txi == 0) by (nonlinear_arith)
                                            requires
                                                yi * w + xi == (yi - 1) * w + txi,
                                                tyi == yi - 1,
                                        ;
                                    }
                                }
                            }
                            let moved = next[si];
                            let freed = next[ti];
                            if MatterId::decode((freed % 256) as u8) == MatterId::Empty {
                                next.set(ti, moved);
                                next.set(si, freed);
                            }
                            proof {
                                let sii = si as int;
                                let tii = ti as int;
                                assert(next@ == pre.update(tii, moved).update(sii, freed));
                                assert(moved == cell_at(g0, w, xi, yi));
                                assert(freed == cell_at(g0, w, txi, tyi));
                                assert(cell_kind(moved) == MatterId::Sand);
                                assert(cell_kind(freed) == MatterId::Empty);
                                assert forall|k: MatterId| #[trigger] kind_count(next@, k)
                                    == kind_count(g0, k) by {
                                    lemma_kind_count_swap(pre, tii, sii, k);
                                }
                                assert(targeted(g0, w, h, ph, cs, xi + 1, yi, txi, tyi)) by {
                                    assert(in_grid(w, h, xi, yi) && in_phase(ph, xi) && scanned(
                                        xi,
                                        yi,
                                        xi + 1,
                                        yi,
                                    ) && dest_of(g0, w, h, cs, xi, yi) == Some((txi, tyi)));
                                }
                                assert forall|x2: int, y2: int|
                                    in_grid(w, h, x2, y2) && in_phase(ph, x2) && scanned(
                                        x2,
                                        y2,
                                        xi + 1,
                                        yi,
                                    ) && #[trigger] dest_of(g0, w, h, cs, x2, y2) is Some implies {
                                    let t = dest_of(g0, w, h, cs, x2, y2).unwrap();
                                    cell_at(next@, w, t.0, t.1) == cell_at(g0, w, x2, y2)
                                        && cell_at(next@, w, x2, y2) == cell_at(g0, w, t.0, t.1)
                                } by {
                                    let t = dest_of(g0, w, h, cs, x2, y2).unwrap();
                                    lemma_sand_dest_props(g0, w, h, x2, y2, cs[y2 * w + x2]);
                                    lemma_row_major(w, h, x2, y2);
                                    lemma_row_major(w, h, t.0, t.1);
                                    if x2 == xi && y2 == yi {
                                        assert(t == (txi, tyi));
                                        assert(cell_at(next@, w, t.0, t.1) == next@[tii]);
                                        assert(cell_at(next@, w, x2, y2) == next@[sii]);
                                    } else {
                                        assert(scanned(x2, y2, xi, yi));
                                        let s2 = y2 * w + x2;
                                        let t2 = t.1 * w + t.0;
                                        assert(cell_at(pre, w, t.0, t.1) == cell_at(g0, w, x2, y2)
                                            && cell_at(pre, w, x2, y2) == cell_at(
                                            g0,
                                            w,
                                            t.0,
                                            t.1,
                                        ));
                                        assert(s2 != sii) by {
                                            if s2 == sii {
                                                lemma_row_major_injective(w, h, x2, y2, xi, yi);
                                            }
                                        }
                                        assert(s2 != tii) by {
                                            if s2 == tii {
                                                lemma_row_major_injective(w, h, x2, y2, txi, tyi);
                                            }
                                        }
                                        assert(t2 != sii) by {
                                            if t2 == sii {
                                                lemma_row_major_injective(w, h, t.0, t.1, xi, yi);
                                            }
                                        }
                                        assert(t2 != tii) by {
                                            if t2 == tii {
                                                lemma_row_major_injective(w, h, t.0, t.1, txi, tyi);
                                                lemma_unique_source(
                                                    g0,
                                                    w,
                                                    h,
                                                    ph,
                                                    x2,
                                                    y2,
                                                    cs[y2 * w + x2],
                                                    xi,
                                                    yi,
                                                    cs[yi * w + xi],
                                                );
                                            }
                                        }
                                        assert(cell_at(next@, w, t.0, t.1) == pre[t2]);
                                        assert(cell_at(next@, w, x2, y2) == pre[s2]);
                                    }
                                }
                                assert forall|x2: int, y2: int|
                                    in_grid(w, h, x2, y2) && !(in_phase(ph, x2) && scanned(
                                        x2,
                                        y2,
                                        xi + 1,
                                        yi,
                                    ) && dest_of(g0, w, h, cs, x2, y2) is Some) && !targeted(
                                        g0,
                                        w,
                                        h,
                                        ph,
                                        cs,
                                        xi + 1,
                                        yi,
                                        x2,
                                        y2,
                                    ) implies #[trigger] cell_at(next@, w, x2, y2) == cell_at(
                                    g0,
                                    w,
                                    x2,
                                    y2,
                                ) by {
                                    assert(!(x2 == xi && y2 == yi)) by {
                                        if x2 == xi && y2 == yi {
                                            assert(scanned(xi, yi, xi + 1, yi));
                                        }
                                    }
                                    assert(!(x2 == txi && y2 == tyi));
                                    assert(!targeted(g0, w, h, ph, cs, xi, yi, x2, y2)) by {
                                        if targeted(g0, w, h, ph, cs, xi, yi, x2, y2) {
                                            let (sx, sy) = choose|sx: int, sy: int|
                                                in_grid(w, h, sx, sy) && in_phase(ph, sx)
                                                    && scanned(sx, sy, xi, yi)
                                                    && #[trigger] dest_of(g0, w, h, cs, sx, sy)
                                                    == Some((x2, y2));
                                            assert(scanned(sx, sy, xi + 1, yi));
                                            assert(targeted(g0, w, h, ph, cs, xi + 1, yi, x2, y2));
                                        }
                                    }
                                    assert(!(in_phase(ph, x2) && scanned(x2, y2, xi, yi)
                                        && dest_of(g0, w, h, cs, x2, y2) is Some)) by {
                                        if scanned(x2, y2, xi, yi) {
                                            assert(scanned(x2, y2, xi + 1, yi));
                                        }
                                    }
                                    assert(cell_at(pre, w, x2, y2) == cell_at(g0, w, x2, y2));
                                    lemma_row_major(w, h, x2, y2);
                                    assert(y2 * w + x2 != sii) by {
                                        if y2 * w + x2 == sii {
                                            lemma_row_major_injective(w, h, x2, y2, xi, yi);
                                        }
                                    }
                                    assert(y2 * w + x2 != tii) by {
                                        if y2 * w + x2 == tii {
                                            lemma_row_major_injective(w, h, x2, y2, txi, tyi);
                                        }
                                    }
                                    assert(cell_at(next@, w, x2, y2) == pre[y2 * w + x2]);
                                }
                                assert forall|x2: int, y2: int|
                                    in_grid(w, h, x2, y2) && kind_at(g0, w, x2, y2)
                                        == MatterId::Wood implies #[trigger] cell_at(
                                    next@,
                                    w,
                                    x2,
                                    y2,
                                ) == cell_at(g0, w, x2, y2) by {
                                    lemma_row_major(w, h, x2, y2);
                                    assert(y2 * w + x2 != sii) by {
                                        if y2 * w + x2 == sii {
                                            lemma_row_major_injective(w, h, x2, y2, xi, yi);
                                        }
                                    }
                                    assert(y2 * w + x2 != tii) by {
                                        if y2 * w + x2 == tii {
                                            lemma_row_major_injective(w, h, x2, y2, txi, tyi);
                                        }
                                    }
                                    assert(cell_at(pre, w, x2, y2) == cell_at(g0, w, x2, y2));
                                    assert(cell_at(next@, w, x2, y2) == pre[y2 * w + x2]);
                                }
                                assert forall|x2: int, y2: int|
                                    in_grid(w, h, x2, y2) && #[trigger] cell_at(next@, w, x2, y2)
                                        != cell_at(g0, w, x2, y2) implies (kind_at(g0, w, x2, y2)
                                    == MatterId::Sand || kind_at(g0, w, x2, y2) == MatterId::Empty)
                                    && (kind_at(next@, w, x2, y2) == MatterId::Sand || kind_at(
                                    next@,
                                    w,
                                    x2,
                                    y2,
                                ) == MatterId::Empty) by {
                                    lemma_row_major(w, h, x2, y2);
                                    let f = y2 * w + x2;
                                    if f == sii {
                                        lemma_row_major_injective(w, h, x2, y2, xi, yi);
                                        assert(cell_at(next@, w, x2, y2) == freed);
                                    } else if f == tii {
                                        lemma_row_major_injective(w, h, x2, y2, txi, tyi);
                                        assert(cell_at(next@, w, x2, y2) == moved);
                                    } else {
                                        assert(cell_at(next@, w, x2, y2) == pre[f]);
                                        assert(cell_at(pre, w, x2, y2) != cell_at(g0, w, x2, y2));
                                    }
                                }
                            }
                        },
                    }
                } else {
                    proof {
                        assert(!in_phase(ph, xi));
                        lemma_advance_no_write(g0, next@, w, h, ph, cs, xi, yi);
                    }
                }
                x += 1;
            }
            proof {
                let yi = y as int;
                assert forall|x2: int, y2: int|
                    in_grid(w, h, x2, y2) && in_phase(ph, x2) && scanned(x2, y2, 0, yi + 1)
                        && #[trigger] dest_of(g0, w, h, cs, x2, y2) is Some implies {
                    let t = dest_of(g0, w, h, cs, x2, y2).unwrap();
                    cell_at(next@, w, t.0, t.1) == cell_at(g0, w, x2, y2) && cell_at(
                        next@,
                        w,
                        x2,
                        y2,
                    ) == cell_at(g0, w, t.0, t.1)
                } by {
                    assert(scanned(x2, y2, w, yi));
                }
                assert forall|x2: int, y2: int|
                    in_grid(w, h, x2, y2) && !(in_phase(ph, x2) && scanned(x2, y2, 0, yi + 1)
                        && dest_of(g0, w, h, cs, x2, y2) is Some) && !targeted(
                        g0,
                        w,
                        h,
                        ph,
                        cs,
                        0,
                        yi + 1,
                        x2,
                        y2,
                    ) implies #[trigger] cell_at(next@, w, x2, y2) == cell_at(g0, w, x2, y2) by {
                    assert(!targeted(g0, w, h, ph, cs, w, yi, x2, y2)) by {
                        if targeted(g0, w, h, ph, cs, w, yi, x2, y2) {
                            let (sx, sy) = choose|sx: int, sy: int|
                                in_grid(w, h, sx, sy) && in_phase(ph, sx) && scanned(sx, sy, w, yi)
                                    && #[trigger] dest_of(g0, w, h, cs, sx, sy) == Some((x2, y2));
                            assert(scanned(sx, sy, 0, yi + 1));
                            assert(targeted(g0, w, h, ph, cs, 0, yi + 1, x2, y2));
                        }
                    }
                    assert(!(in_phase(ph, x2) && scanned(x2, y2, w, yi) && dest_of(
                        g0,
                        w,
                        h,
                        cs,
                        x2,
                        y2,
                    ) is Some)) by {
                        if scanned(x2, y2, w, yi) {
                            assert(scanned(x2, y2, 0, yi + 1));
                        }
                    }
                }
            }
            y += 1;
        }
        self.cells = next;
    }
}

/// A pass's grid-wide guarantees compose: if each of two consecutive passes
/// preserves every kind's census, leaves wood bit-for-bit in place and
/// changes only sand and empty cells, then so does the two together — and by
/// induction any number of steps, however the tie-breaks fell.
pub proof fn lemma_compose_passes(g0: Seq<u32>, g1: Seq<u32>, g2: Seq<u32>, w: int, h: int)
    requires
        counts_preserved(g0, g1),
        counts_preserved(g1, g2),
        wood_fixed(g0, g1, w, h),
        wood_fixed(g1, g2, w, h),
        only_sand_flows(g0, g1, w, h),
        only_sand_flows(g1, g2, w, h),
    ensures
        counts_preserved(g0, g2),
        wood_fixed(g0, g2, w, h),
        only_sand_flows(g0, g2, w, h),
{
    assert forall|k: MatterId| #[trigger] kind_count(g2, k) == kind_count(g0, k) by {
        assert(kind_count(g1, k) == kind_count(g0, k));
    }
    assert forall|x: int, y: int|
        in_grid(w, h, x, y) && kind_at(g0, w, x, y) == MatterId::Wood implies #[trigger] cell_at(
        g2,
        w,
        x,
        y,
    ) == cell_at(g0, w, x, y) by {
        assert(cell_at(g1, w, x, y) == cell_at(g0, w, x, y));
    }
    assert forall|x: int, y: int|
        in_grid(w, h, x, y) && #[trigger] cell_at(g2, w, x, y) != cell_at(g0, w, x, y) implies (
    kind_at(g0, w, x, y) == MatterId::Sand || kind_at(g0, w, x, y) == MatterId::Empty) && (kind_at(
        g2,
        w,
        x,
        y,
    ) == MatterId::Sand || kind_at(g2, w, x, y) == MatterId::Empty) by {
        if cell_at(g1, w, x, y) == cell_at(g0, w, x, y) {
            assert(cell_at(g2, w, x, y) != cell_at(g1, w, x, y));
        } else {
            if cell_at(g2, w, x, y) != cell_at(g1, w, x, y) {
            }
        }
    }
}

/// One phase's complete outcome: `g1` is exactly what committing the rule
/// engine's decisions for this phase's active cells, with these tie-break
/// coins, makes of `g0`.
pub open spec fn phase_outcome(
    g0: Seq<u32>,
    g1: Seq<u32>,
    w: int,
    h: int,
    phase: int,
    coins: Seq<bool>,
) -> bool {
    &&& g1.len() == g0.len()
    &&& movers_applied(g0, g1, w, h, phase, coins, 0, h)
    &&& untouched(g0, g1, w, h, phase, coins, 0, h)
}

/// One sub-step's outcome: some tie-break coins carried the grid from `g0`
/// through the three phases, in order, to `g1`.
pub open spec fn sub_step_outcome(g0: Seq<u32>, g1: Seq<u32>, w: int, h: int) -> bool {
    exists|c0: Seq<bool>, c1: Seq<bool>, c2: Seq<bool>, m1: Seq<u32>, m2: Seq<u32>|
        #![trigger phase_outcome(g0, m1, w, h, 0, c0), phase_outcome(m1, m2, w, h, 1, c1), phase_outcome(m2, g1, w, h, 2, c2)]
        phase_outcome(g0, m1, w, h, 0, c0) && phase_outcome(m1, m2, w, h, 1, c1) && phase_outcome(
            m2,
            g1,
            w,
            h,
            2,
            c2,
        )
}

/// Whether `g1` is what some run of `n` sub-steps makes of `g0`.
pub open spec fn reachable(g0: Seq<u32>, g1: Seq<u32>, w: int, h: int, n: nat) -> bool
    decreases n,
{
    if n == 0 {
        g1 == g0
    } else {
        exists|mid: Seq<u32>|
            reachable(g0, mid, w, h, (n - 1) as nat) && #[trigger] sub_step_outcome(mid, g1, w, h)
    }
}

impl CaSimulator {
    /// One fresh tie-break coin per cell, drawn from the random source.
    fn flip_coins(n: usize) -> (coins: Vec<bool>)
        ensures
            coins@.len() == n,
    {
        let mut coins: Vec<bool> = Vec::new();
        let mut i: usize = 0;
        while i < n
            invariant
                i <= n,
                coins@.len() == i,
            decreases n - i,
        {
            coins.push(rand::random::<bool>());
            i += 1;
        }
        coins
    }

    /// One full sub-step: the rule engine's decisions are committed over the
    /// whole grid, as the three disjoint phases in order, each phase reading
    /// the consistent state the previous one left. Whatever the tie-break
    /// coins came out as: no matter is created or destroyed, wood never
    /// moves, and only sand and empty cells change.
    pub fn sub_step(&mut self)
        requires
            old(self).wf(),
        ensures
            final(self).wf(),
            final(self).w() == old(self).w(),
            final(self).h() == old(self).h(),
            sub_step_outcome(old(self).grid(), final(self).grid(), old(self).w(), old(self).h()),
            counts_preserved(old(self).grid(), final(self).grid()),
            wood_fixed(old(self).grid(), final(self).grid(), old(self).w(), old(self).h()),
            only_sand_flows(old(self).grid(), final(self).grid(), old(self).w(), old(self).h()),
    {
        let ghost g0 = self.grid();
        let ghost w = self.w();
        let ghost h = self.h();
        let n = self.cells.len();
        let coins0 = Self::flip_coins(n);
        self.step_phase(0, &coins0);
        let ghost g1 = self.grid();
        let coins1 = Self::flip_coins(n);
        self.step_phase(1, &coins1);
        let ghost g2 = self.grid();
        let coins2 = Self::flip_coins(n);
        self.step_phase(2, &coins2);
        let ghost g3 = self.grid();
        proof {
            lemma_compose_passes(g0, g1, g2, w, h);
            lemma_compose_passes(g0, g2, g3, w, h);
            assert(phase_outcome(g0, g1, w, h, 0, coins0@));
            assert(phase_outcome(g1, g2, w, h, 1, coins1@));
            assert(phase_outcome(g2, g3, w, h, 2, coins2@));
        }
    }

    /// Advances the simulation by `sub_steps` sub-steps, unless paused. With
    /// `is_paused` true or zero sub-steps this is a no-op that leaves every
    /// cell identical. Otherwise, for every outcome of the tie-break coins:
    /// every kind's census is preserved (matter is only relocated), wood
    /// cells are bit-for-bit unchanged, and only sand and empty cells change.
    pub fn step(&mut self, sub_steps: u32, is_paused: bool)
        requires
            old(self).wf(),
        ensures
            final(self).wf(),
            final(self).w() == old(self).w(),
            final(self).h() == old(self).h(),
            is_paused || sub_steps == 0 ==> final(self).grid() == old(self).grid(),
            !is_paused ==> reachable(
                old(self).grid(),
                final(self).grid(),
                old(self).w(),
                old(self).h(),
                sub_steps as nat,
            ),
            counts_preserved(old(self).grid(), final(self).grid()),
            wood_fixed(old(self).grid(), final(self).grid(), old(self).w(), old(self).h()),
            only_sand_flows(old(self).grid(), final(self).grid(), old(self).w(), old(self).h()),
    {
        if is_paused {
            return ;
        }
        let ghost g0 = self.grid();
        let ghost w = self.w();
        let ghost h = self.h();
        let mut s: u32 = 0;
        while s < sub_steps
            invariant
                self.wf(),
                self.w() == w,
                self.h() == h,
                s <= sub_steps,
                s == 0 ==> self.grid() == g0,
                reachable(g0, self.grid(), w, h, s as nat),
                counts_preserved(g0, self.grid()),
                wood_fixed(g0, self.grid(), w, h),
                only_sand_flows(g0, self.grid(), w, h),
            decreases sub_steps - s,
        {
            let ghost before = self.grid();
            self.sub_step();
            proof {
                lemma_compose_passes(g0, before, self.grid(), w, h);
                assert(reachable(g0, before, w, h, s as nat) && sub_step_outcome(
                    before,
                    self.grid(),
                    w,
                    h,
                ));
                assert(reachable(g0, self.grid(), w, h, (s + 1) as nat));
            }
            s += 1;
        }
    }
}

/// What `query_matter` returns: the decoded kind in the grid, nothing outside.
pub open spec fn spec_query(g: Seq<u32>, w: int, h: int, p: Point) -> Option<MatterId> {
    if in_grid(w, h, p.x as int, p.y as int) {
        Some(kind_at(g, w, p.x as int, p.y as int))
    } else {
        None
    }
}

/// Querying is idempotent: the result is a function of the grid state and the
/// position alone, so any two queries of equal states agree.
pub proof fn lemma_query_idempotent(s1: CaSimulator, s2: CaSimulator, p: Point)
    requires
        s1.grid() == s2.grid(),
        s1.w() == s2.w(),
        s1.h() == s2.h(),
    ensures
        spec_query(s1.grid(), s1.w(), s1.h(), p) == spec_query(s2.grid(), s2.w(), s2.h(), p),
{
}

} // verus!
