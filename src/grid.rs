//! A uniform grid over a rectangular domain that answers radius-bounded
//! neighbour queries exactly.
//!
//! Positions are fixed-point coordinates. The grid buckets each point into the
//! cell that holds it (points outside the domain go to the nearest border
//! cell), scans the cells that overlap a query's bounding box, and keeps the
//! points whose squared distance to the query point is below the squared
//! radius.
use vstd::prelude::*;
use vstd::arithmetic::div_mod::{lemma_div_is_ordered, lemma_div_plus_one, lemma_div_pos_is_pos, lemma_fundamental_div_mod};

verus! {

/// A point of the plane in fixed-point coordinates.
#[derive(Clone, Copy, Debug, PartialEq, Eq, Structural)]
pub struct Point {
    pub x: i32,
    pub y: i32,
}

impl Point {
    pub fn new(x: i32, y: i32) -> (p: Point)
        ensures
            p.x == x,
            p.y == y,
    {
        Point { x, y }
    }
}

pub open spec fn sq(v: int) -> int {
    v * v
}

/// Squared Euclidean distance between two points.
pub open spec fn dist2(a: Point, b: Point) -> int {
    sq(a.x - b.x) + sq(a.y - b.y)
}

/// `v` clamped into the closed range `[lo, hi]`.
pub open spec fn clamp_spec(v: int, lo: int, hi: int) -> int {
    if v < lo {
        lo
    } else if v > hi {
        hi
    } else {
        v
    }
}

/// How many cells of size `bin` it takes to cover `extent`.
pub open spec fn cells_along(extent: int, bin: int) -> int {
    (extent + bin - 1) / bin
}

/// The column (or row) of the cell that coordinate `v` is bucketed into;
/// coordinates outside `[0, extent)` go to the nearest border cell.
pub open spec fn cell_along(v: int, extent: int, bin: int) -> int {
    clamp_spec(v, 0, extent - 1) / bin
}

/// Whether segment `s` runs from `(x0, y0)` to `(x1, y1)`.
pub open spec fn is_segment(s: (Point, Point), x0: int, y0: int, x1: int, y1: int) -> bool {
    &&& s.0.x == x0
    &&& s.0.y == y0
    &&& s.1.x == x1
    &&& s.1.y == y1
}

/// Whether item `j` answers a query at `pos` with radius `r`: it is strictly
/// closer than `r` and is not the excluded item.
pub open spec fn is_neighbour(
    items: Seq<Point>,
    j: int,
    pos: Point,
    r: int,
    exclude: Option<usize>,
) -> bool {
    &&& 0 <= j < items.len()
    &&& dist2(items[j], pos) < r * r
    &&& exclude != Some(j as usize)
}

proof fn lemma_cell_along_bounds(v: int, extent: int, bin: int)
    requires
        extent > 0,
        bin > 0,
    ensures
        0 <= cell_along(v, extent, bin) < cells_along(extent, bin),
{
    let c = clamp_spec(v, 0, extent - 1);
    lemma_div_pos_is_pos(c, bin);
    lemma_div_is_ordered(c, extent - 1, bin);
    lemma_div_plus_one(extent - 1, bin);
    assert(bin + (extent - 1) == extent + bin - 1);
}

proof fn lemma_cell_along_monotone(u: int, v: int, extent: int, bin: int)
    requires
        u <= v,
        extent > 0,
        bin > 0,
    ensures
        cell_along(u, extent, bin) <= cell_along(v, extent, bin),
{
    lemma_div_is_ordered(clamp_spec(u, 0, extent - 1), clamp_spec(v, 0, extent - 1), bin);
}

proof fn lemma_sq_below(d: int, r: int)
    requires
        r >= 0,
        sq(d) < r * r,
    ensures
        -r < d < r,
{
    if d >= r {
        assert(d * d >= r * r) by (nonlinear_arith)
            requires
                d >= r,
                r >= 0,
        ;
    }
    if d <= -r {
        assert(d * d >= r * r) by (nonlinear_arith)
            requires
                d <= -r,
                r >= 0,
        ;
    }
}

proof fn lemma_sq_nonneg(d: int)
    ensures
        sq(d) >= 0,
{
    assert(d * d >= 0) by (nonlinear_arith);
}

/// Two cells of a grid with `cols` columns have the same index only if they
/// have the same column and row.
proof fn lemma_cell_index_injective(cx1: int, cy1: int, cx2: int, cy2: int, cols: int)
    requires
        0 <= cx1 < cols,
        0 <= cx2 < cols,
        0 <= cy1,
        0 <= cy2,
        cy1 * cols + cx1 == cy2 * cols + cx2,
    ensures
        cx1 == cx2,
        cy1 == cy2,
{
    if cy1 < cy2 {
        assert(cy1 * cols + cols <= cy2 * cols) by (nonlinear_arith)
            requires
                cy1 < cy2,
                cols > 0,
        ;
    }
    if cy2 < cy1 {
        assert(cy2 * cols + cols <= cy1 * cols) by (nonlinear_arith)
            requires
                cy2 < cy1,
                cols > 0,
        ;
    }
}

proof fn lemma_cell_index_bounds(cx: int, cy: int, cols: int, rows: int)
    requires
        0 <= cx < cols,
        0 <= cy < rows,
    ensures
        0 <= cy * cols + cx < cols * rows,
{
    assert(0 <= cy * cols) by (nonlinear_arith)
        requires
            0 <= cy,
            0 <= cols,
    ;
    assert(cy * cols + cols <= rows * cols) by (nonlinear_arith)
        requires
            cy < rows,
            0 <= cols,
    ;
    assert(rows * cols == cols * rows) by (nonlinear_arith);
}

/// Each cell of an axis starts inside the domain.
proof fn lemma_cell_start_in_domain(c: int, extent: int, bin: int)
    requires
        extent > 0,
        bin > 0,
        0 <= c < cells_along(extent, bin),
    ensures
        0 <= c <= c * bin < extent,
{
    let n = extent + bin - 1;
    let q = n / bin;
    lemma_fundamental_div_mod(n, bin);
    assert(0 <= n % bin < bin);
    assert(c * bin < extent) by (nonlinear_arith)
        requires
            n == bin * q + n % bin,
            n % bin >= 0,
            c + 1 <= q,
            n == extent + bin - 1,
            bin > 0,
    ;
    assert(0 <= c <= c * bin) by (nonlinear_arith)
        requires
            c >= 0,
            bin > 0,
    ;
}

/// `v` clamped into `[lo, hi]`.
fn clamp_i64(v: i64, lo: i64, hi: i64) -> (r: i64)
    requires
        lo <= hi,
    ensures
        r == clamp_spec(v as int, lo as int, hi as int),
{
    if v < lo {
        lo
    } else if v > hi {
        hi
    } else {
        v
    }
}

/// The cell column (or row) of coordinate `v` along an axis of length `extent`.
fn cell_along_exec(v: i64, extent: i32, bin: i32) -> (c: usize)
    requires
        extent > 0,
        bin > 0,
    ensures
        c == cell_along(v as int, extent as int, bin as int),
{
    let cl = clamp_i64(v, 0, extent as i64 - 1);
    proof {
        lemma_cell_along_bounds(v as int, extent as int, bin as int);
    }
    (cl as u64 / bin as u64) as usize
}

/// Cells of size `bin` needed to cover `extent`.
fn cells_along_exec(extent: i32, bin: i32) -> (n: u64)
    requires
        extent > 0,
        bin > 0,
    ensures
        n == cells_along(extent as int, bin as int),
{
    (extent as u64 + bin as u64 - 1) / bin as u64
}

/// Squared distance between two points, computed without overflow.
fn dist2_exec(a: Point, b: Point) -> (d: i128)
    ensures
        d == dist2(a, b),
{
    let dx: i64 = a.x as i64 - b.x as i64;
    let dy: i64 = a.y as i64 - b.y as i64;
    assert(dx * dx <= 0x1_0000_0000 * 0x1_0000_0000) by (nonlinear_arith)
        requires
            -0x1_0000_0000 <= dx <= 0x1_0000_0000,
    ;
    assert(dy * dy <= 0x1_0000_0000 * 0x1_0000_0000) by (nonlinear_arith)
        requires
            -0x1_0000_0000 <= dy <= 0x1_0000_0000,
    ;
    proof {
        lemma_sq_nonneg(dx as int);
        lemma_sq_nonneg(dy as int);
    }
    (dx as i128) * (dx as i128) + (dy as i128) * (dy as i128)
}

/// The cell index (row-major) that point `p` is bucketed into.
pub open spec fn cell_index(p: Point, width: int, height: int, bin: int) -> int {
    cell_along(p.y as int, height, bin) * cells_along(width, bin) + cell_along(p.x as int, width, bin)
}

proof fn lemma_cell_index_in_range(p: Point, width: int, height: int, bin: int)
    requires
        width > 0,
        height > 0,
        bin > 0,
    ensures
        0 <= cell_index(p, width, height, bin) < cells_along(width, bin) * cells_along(height, bin),
{
    lemma_cell_along_bounds(p.x as int, width, bin);
    lemma_cell_along_bounds(p.y as int, height, bin);
    lemma_cell_index_bounds(
        cell_along(p.x as int, width, bin),
        cell_along(p.y as int, height, bin),
        cells_along(width, bin),
        cells_along(height, bin),
    );
}

/// The cell contents that bucketing `items` gives: each cell lists, in
/// increasing order, exactly the items that fall in it.
pub open spec fn buckets_items(
    cells: Seq<Seq<usize>>,
    items: Seq<Point>,
    width: int,
    height: int,
    bin: int,
    upto: int,
) -> bool {
    &&& forall|k: int, t: int|
        0 <= k < cells.len() && 0 <= t < cells[k].len() ==> {
            &&& #[trigger] cells[k][t] < upto
            &&& cell_index(items[cells[k][t] as int], width, height, bin) == k
        }
    &&& forall|k: int, t1: int, t2: int|
        0 <= k < cells.len() && 0 <= t1 < t2 < cells[k].len() ==> #[trigger] cells[k][t1]
            < #[trigger] cells[k][t2]
    &&& forall|j: int|
        0 <= j < upto ==> (#[trigger] cells[cell_index(items[j], width, height, bin)]).contains(
            j as usize,
        )
}

/// A spatial index over a snapshot of item positions.
pub struct Grid {
    width: i32,
    height: i32,
    bin_size: i32,
    cols: usize,
    rows: usize,
    cells: Vec<Vec<usize>>,
    items: Vec<Point>,
}

impl Grid {
    /// The positions the index was built from, by item index.
    pub closed spec fn points(&self) -> Seq<Point> {
        self.items@
    }

    pub closed spec fn width_spec(&self) -> int {
        self.width as int
    }

    pub closed spec fn height_spec(&self) -> int {
        self.height as int
    }

    pub closed spec fn bin_size_spec(&self) -> int {
        self.bin_size as int
    }

    spec fn cells_view(&self) -> Seq<Seq<usize>> {
        self.cells@.map_values(|c: Vec<usize>| c@)
    }

    /// Well-formedness: the cells partition the items by position.
    pub closed spec fn wf(&self) -> bool {
        &&& self.width > 0
        &&& self.height > 0
        &&& self.bin_size > 0
        &&& self.cols == cells_along(self.width as int, self.bin_size as int)
        &&& self.rows == cells_along(self.height as int, self.bin_size as int)
        &&& self.cells.len() == self.cols * self.rows
        &&& buckets_items(
            self.cells_view(),
            self.items@,
            self.width as int,
            self.height as int,
            self.bin_size as int,
            self.items.len() as int,
        )
    }

    /// Builds the index over `items` in a `width` by `height` domain with
    /// square cells of side `bin_size`.
    pub fn new(width: i32, height: i32, bin_size: i32, items: &Vec<Point>) -> (g: Grid)
        requires
            width > 0,
            height > 0,
            bin_size > 0,
            cells_along(width as int, bin_size as int) * cells_along(height as int, bin_size as int)
                <= usize::MAX,
        ensures
            g.wf(),
            g.points() == items@,
            g.width_spec() == width,
            g.height_spec() == height,
            g.bin_size_spec() == bin_size,
    {
        let cols = cells_along_exec(width, bin_size) as usize;
        let rows = cells_along_exec(height, bin_size) as usize;
        let n_cells = cols * rows;
        let ghost w = width as int;
        let ghost h = height as int;
        let ghost b = bin_size as int;

        let mut cells: Vec<Vec<usize>> = Vec::new();
        let mut k: usize = 0;
        while k < n_cells
            invariant
                k <= n_cells,
                cells.len() == k,
                forall|c: int| 0 <= c < k ==> (#[trigger] cells[c]).len() == 0,
            decreases n_cells - k,
        {
            cells.push(Vec::new());
            k += 1;
        }

        let mut i: usize = 0;
        while i < items.len()
            invariant
                i <= items.len(),
                cells.len() == n_cells,
                n_cells == cols * rows,
                cols == cells_along(w, b),
                rows == cells_along(h, b),
                w == width,
                h == height,
                b == bin_size,
                w > 0,
                h > 0,
                b > 0,
                buckets_items(
                    cells@.map_values(|c: Vec<usize>| c@),
                    items@,
                    w,
                    h,
                    b,
                    i as int,
                ),
            decreases items.len() - i,
        {
            let p = items[i];
            let cx = cell_along_exec(p.x as i64, width, bin_size);
            let cy = cell_along_exec(p.y as i64, height, bin_size);
            proof {
                lemma_cell_index_in_range(p, w, h, b);
            }
            let idx = cy * cols + cx;
            let ghost before = cells@.map_values(|c: Vec<usize>| c@);
            cells[idx].push(i);
            let ghost after = cells@.map_values(|c: Vec<usize>| c@);
            assert(after == before.update(idx as int, before[idx as int].push(i)));
            assert forall|j: int| 0 <= j < i + 1 implies (#[trigger] after[cell_index(
                items@[j],
                w,
                h,
                b,
            )]).contains(j as usize) by {
                if j < i {
                    let c = cell_index(items@[j], w, h, b);
                    lemma_cell_index_in_range(items@[j], w, h, b);
                    assert(before[c].contains(j as usize));
                    let t = choose|t: int| 0 <= t < before[c].len() && before[c][t] == j as usize;
                    assert(after[c][t] == j as usize);
                } else {
                    assert(after[idx as int][before[idx as int].len() as int] == i);
                }
            }
            i += 1;
        }
        Grid { width, height, bin_size, cols, rows, cells, items: items.clone() }
    }

    spec fn col_of(&self, p: Point) -> int {
        cell_along(p.x as int, self.width as int, self.bin_size as int)
    }

    spec fn row_of(&self, p: Point) -> int {
        cell_along(p.y as int, self.height as int, self.bin_size as int)
    }

    /// Whether item `j` lies in a cell that a column-major scan of the box
    /// `[x0, ..] x [y0, y1]` has finished before reaching cell `(x, y)`.
    spec fn scanned(&self, j: int, x0: int, y0: int, y1: int, x: int, y: int) -> bool {
        let cx = self.col_of(self.items@[j]);
        let cy = self.row_of(self.items@[j]);
        (x0 <= cx < x && y0 <= cy <= y1) || (cx == x && y0 <= cy < y)
    }

    /// An item listed in the cell at column `x` and row `y` lies in that
    /// column and row.
    proof fn lemma_cell_of_member(&self, k: int, t: int, x: int, y: int)
        requires
            self.wf(),
            0 <= x < self.cols,
            0 <= y < self.rows,
            k == y * self.cols + x,
            0 <= t < self.cells@[k]@.len(),
        ensures
            self.cells@[k]@[t] < self.items.len(),
            self.col_of(self.items@[self.cells@[k]@[t] as int]) == x,
            self.row_of(self.items@[self.cells@[k]@[t] as int]) == y,
    {
        lemma_cell_index_bounds(x, y, self.cols as int, self.rows as int);
        let cv = self.cells_view();
        assert(cv[k][t] == self.cells@[k]@[t]);
        let p = self.items@[cv[k][t] as int];
        lemma_cell_along_bounds(p.x as int, self.width as int, self.bin_size as int);
        lemma_cell_along_bounds(p.y as int, self.height as int, self.bin_size as int);
        lemma_cell_index_injective(self.col_of(p), self.row_of(p), x, y, self.cols as int);
    }

    /// A neighbour of `pos` lies in a cell of the box that the query scans.
    proof fn lemma_neighbour_in_box(&self, j: int, pos: Point, r: int)
        requires
            self.wf(),
            r >= 0,
            0 <= j < self.items@.len(),
            dist2(self.items@[j], pos) < r * r,
        ensures
            cell_along(pos.x - r, self.width as int, self.bin_size as int) <= self.col_of(
                self.items@[j],
            ) <= cell_along(pos.x + r, self.width as int, self.bin_size as int),
            cell_along(pos.y - r, self.height as int, self.bin_size as int) <= self.row_of(
                self.items@[j],
            ) <= cell_along(pos.y + r, self.height as int, self.bin_size as int),
    {
        let p = self.items@[j];
        lemma_sq_nonneg(p.x - pos.x);
        lemma_sq_nonneg(p.y - pos.y);
        lemma_sq_below(p.x - pos.x, r);
        lemma_sq_below(p.y - pos.y, r);
        let (w, h, b) = (self.width as int, self.height as int, self.bin_size as int);
        lemma_cell_along_monotone(pos.x - r, p.x as int, w, b);
        lemma_cell_along_monotone(p.x as int, pos.x + r, w, b);
        lemma_cell_along_monotone(pos.y - r, p.y as int, h, b);
        lemma_cell_along_monotone(p.y as int, pos.y + r, h, b);
    }

    /// The items strictly closer than `r` to item `i`, leaving out `i` itself.
    pub fn nearest_by_idx(&self, i: usize, r: u32) -> (res: Vec<usize>)
        requires
            self.wf(),
            i < self.points().len(),
        ensures
            res@.no_duplicates(),
            !res@.contains(i),
            forall|j: usize|
                res@.contains(j) <==> {
                    &&& j < self.points().len()
                    &&& j != i
                    &&& dist2(self.points()[j as int], self.points()[i as int]) < r * r
                },
    {
        let pos = self.items[i];
        self.nearest(pos, r, Some(i))
    }

    /// The items strictly closer than `r` to `pos`.
    pub fn nearest_by_pos(&self, pos: Point, r: u32) -> (res: Vec<usize>)
        requires
            self.wf(),
        ensures
            res@.no_duplicates(),
            forall|j: usize|
                res@.contains(j) <==> {
                    &&& j < self.points().len()
                    &&& dist2(self.points()[j as int], pos) < r * r
                },
    {
        self.nearest(pos, r, None)
    }

    /// The lines between cells: first one vertical line for each column, at
    /// its left edge, then one horizontal line for each row, at its top edge.
    pub fn debug_get_splits(&self) -> (splits: Vec<(Point, Point)>)
        requires
            self.wf(),
        ensures
            splits@.len() == cells_along(self.width_spec(), self.bin_size_spec()) + cells_along(
                self.height_spec(),
                self.bin_size_spec(),
            ),
            forall|c: int|
                0 <= c < cells_along(self.width_spec(), self.bin_size_spec()) ==> is_segment(
                    #[trigger] splits@[c],
                    c * self.bin_size_spec(),
                    0,
                    c * self.bin_size_spec(),
                    self.height_spec(),
                ),
            forall|c: int|
                0 <= c < cells_along(self.height_spec(), self.bin_size_spec()) ==> is_segment(
                    #[trigger] splits@[c + cells_along(self.width_spec(), self.bin_size_spec())],
                    0,
                    c * self.bin_size_spec(),
                    self.width_spec(),
                    c * self.bin_size_spec(),
                ),
    {
        let mut splits: Vec<(Point, Point)> = Vec::new();
        let mut x: usize = 0;
        while x < self.cols
            invariant
                self.wf(),
                x <= self.cols,
                splits@.len() == x,
                forall|c: int|
                    0 <= c < x ==> is_segment(
                        #[trigger] splits@[c],
                        c * self.bin_size,
                        0,
                        c * self.bin_size,
                        self.height as int,
                    ),
            decreases self.cols - x,
        {
            proof {
                lemma_cell_start_in_domain(x as int, self.width as int, self.bin_size as int);
            }
            let at = x as i32 * self.bin_size;
            splits.push((Point { x: at, y: 0 }, Point { x: at, y: self.height }));
            x += 1;
        }
        let mut y: usize = 0;
        while y < self.rows
            invariant
                self.wf(),
                y <= self.rows,
                splits@.len() == self.cols + y,
                forall|c: int|
                    0 <= c < self.cols ==> is_segment(
                        #[trigger] splits@[c],
                        c * self.bin_size,
                        0,
                        c * self.bin_size,
                        self.height as int,
                    ),
                forall|c: int|
                    0 <= c < y ==> is_segment(
                        #[trigger] splits@[c + self.cols],
                        0,
                        c * self.bin_size,
                        self.width as int,
                        c * self.bin_size,
                    ),
            decreases self.rows - y,
        {
            proof {
                lemma_cell_start_in_domain(y as int, self.height as int, self.bin_size as int);
            }
            let at = y as i32 * self.bin_size;
            splits.push((Point { x: 0, y: at }, Point { x: self.width, y: at }));
            y += 1;
        }
        splits
    }

    /// The items strictly closer than `r` to `pos`, leaving out `filter_idx`.
    fn nearest(&self, pos: Point, r: u32, filter_idx: Option<usize>) -> (res: Vec<usize>)
        requires
            self.wf(),
        ensures
            res@.no_duplicates(),
            forall|j: usize|
                res@.contains(j) <==> is_neighbour(self.points(), j as int, pos, r as int, filter_idx),
    {
        let ghost ri = r as int;
        let x0 = cell_along_exec(pos.x as i64 - r as i64, self.width, self.bin_size);
        let x1 = cell_along_exec(pos.x as i64 + r as i64, self.width, self.bin_size);
        let y0 = cell_along_exec(pos.y as i64 - r as i64, self.height, self.bin_size);
        let y1 = cell_along_exec(pos.y as i64 + r as i64, self.height, self.bin_size);
        proof {
            let (w, h, b) = (self.width as int, self.height as int, self.bin_size as int);
            lemma_cell_along_bounds(pos.x + ri, w, b);
            lemma_cell_along_bounds(pos.y + ri, h, b);
            lemma_cell_along_monotone(pos.x - ri, pos.x + ri, w, b);
            lemma_cell_along_monotone(pos.y - ri, pos.y + ri, h, b);
        }
        assert(ri * ri <= 0x1_0000_0000 * 0x1_0000_0000) by (nonlinear_arith)
            requires
                0 <= ri <= 0x1_0000_0000,
        ;
        let rr: i128 = (r as i128) * (r as i128);
        let mut neighbours: Vec<usize> = Vec::new();
        let mut x = x0;
        while x <= x1
            invariant
                self.wf(),
                x0 <= x <= x1 + 1,
                x1 < self.cols,
                y0 <= y1 < self.rows,
                rr == ri * ri,
                neighbours@.no_duplicates(),
                forall|m: int|
                    0 <= m < neighbours.len() ==> {
                        &&& is_neighbour(self.items@, #[trigger] neighbours[m] as int, pos, ri, filter_idx)
                        &&& self.scanned(neighbours[m] as int, x0 as int, y0 as int, y1 as int, x as int, y0 as int)
                    },
                forall|j: int|
                    #[trigger] is_neighbour(self.items@, j, pos, ri, filter_idx) && self.scanned(
                        j,
                        x0 as int,
                        y0 as int,
                        y1 as int,
                        x as int,
                        y0 as int,
                    ) ==> neighbours@.contains(j as usize),
            decreases x1 + 1 - x,
        {
            let mut y = y0;
            while y <= y1
                invariant
                    self.wf(),
                    x0 <= x <= x1,
                    y0 <= y <= y1 + 1,
                    x1 < self.cols,
                    y1 < self.rows,
                    rr == ri * ri,
                    neighbours@.no_duplicates(),
                    forall|m: int|
                        0 <= m < neighbours.len() ==> {
                            &&& is_neighbour(self.items@, #[trigger] neighbours[m] as int, pos, ri, filter_idx)
                            &&& self.scanned(neighbours[m] as int, x0 as int, y0 as int, y1 as int, x as int, y as int)
                        },
                    forall|j: int|
                        #[trigger] is_neighbour(self.items@, j, pos, ri, filter_idx) && self.scanned(
                            j,
                            x0 as int,
                            y0 as int,
                            y1 as int,
                            x as int,
                            y as int,
                        ) ==> neighbours@.contains(j as usize),
                decreases y1 + 1 - y,
            {
                proof {
                    lemma_cell_index_bounds(x as int, y as int, self.cols as int, self.rows as int);
                }
                let idx = y * self.cols + x;
                let cell = &self.cells[idx];
                let mut t: usize = 0;
                while t < cell.len()
                    invariant
                        self.wf(),
                        x0 <= x <= x1,
                        y0 <= y <= y1,
                        x1 < self.cols,
                        y1 < self.rows,
                        idx == y * self.cols + x,
                        idx < self.cells.len(),
                        cell@ == self.cells@[idx as int]@,
                        t <= cell.len(),
                        rr == ri * ri,
                        neighbours@.no_duplicates(),
                        forall|m: int|
                            0 <= m < neighbours.len() ==> {
                                &&& is_neighbour(self.items@, #[trigger] neighbours[m] as int, pos, ri, filter_idx)
                                &&& (self.scanned(neighbours[m] as int, x0 as int, y0 as int, y1 as int, x as int, y as int)
                                    || cell@.take(t as int).contains(neighbours[m]))
                            },
                        forall|j: int|
                            #[trigger] is_neighbour(self.items@, j, pos, ri, filter_idx) && self.scanned(
                                j,
                                x0 as int,
                                y0 as int,
                                y1 as int,
                                x as int,
                                y as int,
                            ) ==> neighbours@.contains(j as usize),
                        forall|u: int|
                            0 <= u < t && is_neighbour(self.items@, #[trigger] cell@[u] as int, pos, ri, filter_idx)
                                ==> neighbours@.contains(cell@[u]),
                    decreases cell.len() - t,
                {
                    let j = cell[t];
                    proof {
                        self.lemma_cell_of_member(idx as int, t as int, x as int, y as int);
                        assert(cell@.take(t as int + 1) == cell@.take(t as int).push(j));
                    }
                    let keep = match filter_idx {
                        Some(i) => j != i,
                        None => true,
                    };
                    let ghost old_n = neighbours@;
                    if keep && dist2_exec(self.items[j], pos) < rr {
                        proof {
                            assert forall|m: int| 0 <= m < neighbours.len() implies neighbours[m] != j by {
                                let e = neighbours[m];
                                if cell@.take(t as int).contains(e) {
                                    let u = choose|u: int| 0 <= u < t && cell@.take(t as int)[u] == e;
                                    assert(cell@[u] == e);
                                    assert(self.cells_view()[idx as int] == cell@);
                                    assert(self.cells_view()[idx as int][u] < self.cells_view()[idx as int][t as int]);
                                } else {
                                    assert(self.scanned(e as int, x0 as int, y0 as int, y1 as int, x as int, y as int));
                                }
                            }
                        }
                        neighbours.push(j);
                    }
                    proof {
                        let tt = t as int;
                        assert(cell@.take(tt + 1)[tt] == j);
                        assert forall|m: int| 0 <= m < neighbours.len() implies {
                            &&& is_neighbour(self.items@, #[trigger] neighbours[m] as int, pos, ri, filter_idx)
                            &&& (self.scanned(neighbours[m] as int, x0 as int, y0 as int, y1 as int, x as int, y as int)
                                || cell@.take(tt + 1).contains(neighbours[m]))
                        } by {
                            if m < old_n.len() {
                                let e = old_n[m];
                                assert(neighbours[m] == e);
                                if cell@.take(tt).contains(e) {
                                    let u = choose|u: int| 0 <= u < tt && cell@.take(tt)[u] == e;
                                    assert(cell@.take(tt + 1)[u] == e);
                                }
                            }
                        }
                        assert forall|i: int|
                            #[trigger] is_neighbour(self.items@, i, pos, ri, filter_idx) && self.scanned(
                                i,
                                x0 as int,
                                y0 as int,
                                y1 as int,
                                x as int,
                                y as int,
                            ) implies neighbours@.contains(i as usize) by {
                            let m = choose|m: int| 0 <= m < old_n.len() && old_n[m] == i as usize;
                            assert(neighbours@[m] == i as usize);
                        }
                        assert forall|u: int|
                            0 <= u < tt + 1 && is_neighbour(self.items@, #[trigger] cell@[u] as int, pos, ri, filter_idx)
                                implies neighbours@.contains(cell@[u]) by {
                            if u < tt {
                                let m = choose|m: int| 0 <= m < old_n.len() && old_n[m] == cell@[u];
                                assert(neighbours@[m] == cell@[u]);
                            } else {
                                assert(neighbours@[neighbours.len() - 1] == j);
                            }
                        }
                    }
                    t += 1;
                }
                proof {
                    assert(cell@.take(cell.len() as int) == cell@);
                    assert forall|m: int| 0 <= m < neighbours.len() implies self.scanned(
                        #[trigger] neighbours[m] as int,
                        x0 as int,
                        y0 as int,
                        y1 as int,
                        x as int,
                        y + 1,
                    ) by {
                        let e = neighbours[m];
                        if cell@.contains(e) {
                            let u = choose|u: int| 0 <= u < cell.len() && cell@[u] == e;
                            self.lemma_cell_of_member(idx as int, u, x as int, y as int);
                        }
                    }
                    assert forall|j: int|
                        #[trigger] is_neighbour(self.items@, j, pos, ri, filter_idx) && self.scanned(
                            j,
                            x0 as int,
                            y0 as int,
                            y1 as int,
                            x as int,
                            y + 1,
                        ) implies neighbours@.contains(j as usize) by {
                        if !self.scanned(j, x0 as int, y0 as int, y1 as int, x as int, y as int) {
                            let p = self.items@[j];
                            lemma_cell_along_bounds(p.x as int, self.width as int, self.bin_size as int);
                            assert(cell_index(p, self.width as int, self.height as int, self.bin_size as int) == idx);
                            assert(self.cells_view()[idx as int].contains(j as usize));
                            let u = choose|u: int| 0 <= u < cell.len() && cell@[u] == j as usize;
                            assert(is_neighbour(self.items@, cell@[u] as int, pos, ri, filter_idx));
                        }
                    }
                }
                y += 1;
            }
            x += 1;
        }
        proof {
            assert forall|j: usize|
                is_neighbour(self.points(), j as int, pos, ri, filter_idx) implies neighbours@.contains(j) by {
                self.lemma_neighbour_in_box(j as int, pos, ri);
                assert(is_neighbour(self.items@, j as int, pos, ri, filter_idx));
            }
            assert forall|j: usize| neighbours@.contains(j) implies is_neighbour(
                self.points(),
                j as int,
                pos,
                ri,
                filter_idx,
            ) by {
                let m = choose|m: int| 0 <= m < neighbours.len() && neighbours[m] == j;
                assert(is_neighbour(self.items@, neighbours[m] as int, pos, ri, filter_idx));
            }
        }
        neighbours
    }
}

/// Whether `res` lists, once each, the items strictly closer than `r` to
/// item `i`, leaving out `i`.
pub open spec fn lists_neighbours_of_item(res: Seq<usize>, items: Seq<Point>, i: int, r: int) -> bool {
    &&& res.no_duplicates()
    &&& forall|j: usize|
        res.contains(j) <==> {
            &&& j < items.len()
            &&& j != i
            &&& dist2(items[j as int], items[i]) < r * r
        }
}

/// Whether `res` lists, once each, the items strictly closer than `r` to `pos`.
pub open spec fn lists_neighbours_of_pos(res: Seq<usize>, items: Seq<Point>, pos: Point, r: int) -> bool {
    &&& res.no_duplicates()
    &&& forall|j: usize| res.contains(j) <==> (j < items.len() && dist2(items[j as int], pos) < r * r)
}

/// The neighbour sets of one simulation step, from a grid with cells of side
/// `h`: for each item, the other items closer than `2h`; for each force,
/// given as a position and a radius, the items closer than its radius.
pub fn compute_neighbours(
    width: i32,
    height: i32,
    h: i32,
    items: &Vec<Point>,
    forces: &Vec<(Point, u32)>,
) -> (r: (Vec<Vec<usize>>, Vec<Vec<usize>>))
    requires
        width > 0,
        height > 0,
        h > 0,
        cells_along(width as int, h as int) * cells_along(height as int, h as int) <= usize::MAX,
    ensures
        r.0.len() == items.len(),
        forall|i: int| 0 <= i < items.len() ==> lists_neighbours_of_item(#[trigger] r.0[i]@, items@, i, 2 * h),
        r.1.len() == forces.len(),
        forall|f: int|
            0 <= f < forces.len() ==> lists_neighbours_of_pos(
                #[trigger] r.1[f]@,
                items@,
                forces[f].0,
                forces[f].1 as int,
            ),
{
    let accel = Grid::new(width, height, h, items);
    let support = 2 * h as u32;
    let mut neighbours: Vec<Vec<usize>> = Vec::new();
    let mut i: usize = 0;
    while i < items.len()
        invariant
            accel.wf(),
            accel.points() == items@,
            support == 2 * h,
            i <= items.len(),
            neighbours.len() == i,
            forall|k: int| 0 <= k < i ==> lists_neighbours_of_item(#[trigger] neighbours[k]@, items@, k, 2 * h),
        decreases items.len() - i,
    {
        neighbours.push(accel.nearest_by_idx(i, support));
        i += 1;
    }
    let mut force_neighbours: Vec<Vec<usize>> = Vec::new();
    let mut f: usize = 0;
    while f < forces.len()
        invariant
            accel.wf(),
            accel.points() == items@,
            f <= forces.len(),
            force_neighbours.len() == f,
            forall|k: int|
                0 <= k < f ==> lists_neighbours_of_pos(
                    #[trigger] force_neighbours[k]@,
                    items@,
                    forces[k].0,
                    forces[k].1 as int,
                ),
        decreases forces.len() - f,
    {
        let (pos, radius) = forces[f];
        force_neighbours.push(accel.nearest_by_pos(pos, radius));
        f += 1;
    }
    (neighbours, force_neighbours)
}

} // verus!
