//! Row-major `Vec<Vec<T>>` grid storage.

use vstd::prelude::*;

use crate::grid::{filter_in_bounds, has_room, in_rect, neighbors4, neighbors8, TilePos};

verus! {

/// A 2D grid stored as a vector of rows.
#[derive(Debug, Clone)]
pub struct Grid<T> {
    data: Vec<Vec<T>>,
    pub width: usize,
    pub height: usize,
}

/// The row-major position of column `x` in row `y`, as `i32` coordinates.
pub open spec fn grid_pos(x: int, y: int) -> TilePos {
    TilePos { x: x as i32, y: y as i32 }
}

/// The number of tiles in the rows before row `y`: where row `y` starts when
/// the rows are laid end to end.
pub open spec fn row_start<T>(rows: Seq<Seq<T>>, y: int) -> int
    decreases y,
{
    if y <= 0 {
        0
    } else {
        row_start(rows, y - 1) + rows[y - 1].len()
    }
}

/// Where tile `x` of row `y` sits when the rows are laid end to end.
pub open spec fn tile_index<T>(rows: Seq<Seq<T>>, y: int, x: int) -> int {
    row_start(rows, y) + x
}

proof fn lemma_row_start_monotone<T>(rows: Seq<Seq<T>>, a: int, b: int)
    requires
        0 <= a <= b <= rows.len(),
    ensures
        row_start(rows, a) <= row_start(rows, b),
    decreases b - a,
{
    if a < b {
        lemma_row_start_monotone(rows, a, b - 1);
    }
}

/// A tile of an earlier row comes before where row `y` starts.
proof fn lemma_row_start_within<T>(rows: Seq<Seq<T>>, yy: int, xx: int, y: int)
    requires
        0 <= yy < y <= rows.len(),
        0 <= xx < rows[yy].len(),
    ensures
        0 <= row_start(rows, yy) + xx < row_start(rows, y),
{
    lemma_row_start_monotone(rows, 0, yy);
    lemma_row_start_monotone(rows, yy + 1, y);
}

/// When every row has `w` tiles, row `y` starts at `y * w`.
proof fn lemma_row_start_uniform<T>(rows: Seq<Seq<T>>, w: int, y: int)
    requires
        0 <= y <= rows.len(),
        forall|k: int| 0 <= k < rows.len() ==> (#[trigger] rows[k]).len() == w,
    ensures
        row_start(rows, y) == y * w,
    decreases y,
{
    if y > 0 {
        lemma_row_start_uniform(rows, w, y - 1);
        assert(rows[y - 1].len() == w);
        assert(y * w == (y - 1) * w + w) by (nonlinear_arith);
    } else {
        assert(0 * w == 0);
    }
}

/// What `set` writes at a position inside the grid is what `get` then reads
/// there, and every other tile keeps its value.
pub proof fn law_grid_read_after_write<T>(g: Grid<T>, p: TilePos, v: T, q: TilePos)
    requires
        g.wf(),
        g.contains(p),
        g.contains(q),
    ensures
        g.cells_with(p, v)[p.y as int][p.x as int] == v,
        q != p ==> g.cells_with(p, v)[q.y as int][q.x as int] == g.cell(q),
{
}

impl<T> View for Grid<T> {
    type V = Seq<Seq<T>>;

    /// The tiles, row by row.
    closed spec fn view(&self) -> Seq<Seq<T>> {
        self.data@.map_values(|row: Vec<T>| row@)
    }
}

impl<T> Grid<T> {
    /// The grid's width as recorded in the `width` field.
    pub closed spec fn cols(&self) -> nat {
        self.width as nat
    }

    /// The grid's height as recorded in the `height` field.
    pub closed spec fn rows(&self) -> nat {
        self.height as nat
    }

    /// The grid has `height` rows of `width` tiles each.
    pub open spec fn wf(&self) -> bool {
        &&& self@.len() == self.rows()
        &&& forall|y: int| 0 <= y < self.rows() ==> (#[trigger] self@[y]).len() == self.cols()
    }

    /// The rows hold a tile at `p`: row `p.y` exists and is long enough.
    pub open spec fn holds_tile(&self, p: TilePos) -> bool {
        0 <= p.y < self@.len() && 0 <= p.x < self@[p.y as int].len()
    }

    /// The tile at a position inside the grid.
    pub open spec fn cell(&self, p: TilePos) -> T {
        self@[p.y as int][p.x as int]
    }

    /// The grid's tiles with the tile at `p` replaced.
    pub open spec fn cells_with(&self, p: TilePos, v: T) -> Seq<Seq<T>> {
        self@.update(p.y as int, self@[p.y as int].update(p.x as int, v))
    }

    /// Every tile is a clone of `d`.
    pub open spec fn filled_with(&self, d: T) -> bool where T: Clone {
        forall|y: int, x: int|
            0 <= y < self.rows() && 0 <= x < self.cols() ==> cloned(d, #[trigger] self@[y][x])
    }

    /// `p` lies inside the grid.
    pub open spec fn contains(&self, p: TilePos) -> bool {
        in_rect(p, self.cols() as int, self.rows() as int)
    }
}

/// Lower end of a region coordinate: negative values clamp to zero.
pub open spec fn region_lo(v: i32) -> int {
    if v < 0 { 0 } else { v as int }
}

/// Upper end (exclusive) of a region coordinate: the value clamped to
/// `0..=extent`.
pub open spec fn region_hi(v: i32, extent: int) -> int {
    if v < 0 {
        0
    } else if v < extent {
        v as int
    } else {
        extent
    }
}

impl<T> Grid<T> {
    /// The `width` and `height` fields.
    pub(crate) fn dims(&self) -> (res: (usize, usize))
        ensures
            res.0 == self.cols(),
            res.1 == self.rows(),
    {
        (self.width, self.height)
    }

    /// The number of rows held.
    pub(crate) fn row_count(&self) -> (res: usize)
        ensures
            res == self@.len(),
    {
        self.data.len()
    }

    /// The number of tiles held in row `y`.
    pub(crate) fn row_len(&self, y: usize) -> (res: usize)
        requires
            y < self@.len(),
        ensures
            res == self@[y as int].len(),
    {
        proof {
            assert(self@[y as int] == self.data@[y as int]@);
        }
        self.data[y].len()
    }

    /// Replace the tile in row `y`, column `x`.
    pub(crate) fn set_cell(&mut self, y: usize, x: usize, value: T)
        requires
            y < old(self)@.len(),
            x < old(self)@[y as int].len(),
        ensures
            final(self).cols() == old(self).cols(),
            final(self).rows() == old(self).rows(),
            final(self)@ == old(self)@.update(y as int, old(self)@[y as int].update(x as int, value)),
    {
        proof {
            assert(self@[y as int] == self.data@[y as int]@);
        }
        self.data[y][x] = value;
        proof {
            assert(self@ =~= old(self)@.update(y as int, old(self)@[y as int].update(x as int, value)));
        }
    }

    /// The tile in row `y`, column `x`.
    pub(crate) fn cell_at(&self, y: usize, x: usize) -> (res: &T)
        requires
            y < self@.len(),
            x < self@[y as int].len(),
        ensures
            *res == self@[y as int][x as int],
    {
        proof {
            assert(self@[y as int] == self.data@[y as int]@);
        }
        &self.data[y][x]
    }
}

impl<T: Clone> Grid<T> {
    /// Create a grid whose every tile is a clone of `default`.
    pub fn new(width: usize, height: usize, default: T) -> (res: Self)
        ensures
            res.wf(),
            res.cols() == width,
            res.rows() == height,
            forall|y: int, x: int|
                0 <= y < height && 0 <= x < width ==> cloned(default, #[trigger] res@[y][x]),
    {
        let mut data: Vec<Vec<T>> = Vec::new();
        let mut y: usize = 0;
        while y < height
            invariant
                y <= height,
                data@.len() == y,
                forall|r: int| 0 <= r < y ==> (#[trigger] data@[r])@.len() == width,
                forall|r: int, x: int|
                    0 <= r < y && 0 <= x < width ==> cloned(default, #[trigger] data@[r]@[x]),
            decreases height - y,
        {
            let mut row: Vec<T> = Vec::new();
            let mut x: usize = 0;
            while x < width
                invariant
                    x <= width,
                    row@.len() == x,
                    forall|c: int| 0 <= c < x ==> cloned(default, #[trigger] row@[c]),
                decreases width - x,
            {
                row.push(default.clone());
                x += 1;
            }
            data.push(row);
            y += 1;
        }
        let res = Grid { data, width, height };
        proof {
            assert forall|r: int, x: int| 0 <= r < height && 0 <= x < width implies cloned(
                default,
                #[trigger] res@[r][x],
            ) by {
                assert(res@[r] == res.data@[r]@);
            }
        }
        res
    }

    /// Create a grid from rows; the width is that of the first row, or zero
    /// when there are no rows. The grid is well formed when the rows have
    /// equal length.
    pub fn from_vec(data: Vec<Vec<T>>) -> (res: Self)
        ensures
            res.wf() <==> forall|y: int| 0 <= y < data@.len() ==> (#[trigger] data@[y])@.len() == data@[0]@.len(),
            res.rows() == data@.len(),
            res.cols() == (if data@.len() == 0 { 0 } else { data@[0]@.len() }),
            res@ == data@.map_values(|row: Vec<T>| row@),
    {
        let height = data.len();
        let width = if height == 0 { 0 } else { data[0].len() };
        let res = Grid { data, width, height };
        proof {
            let rect = forall|y: int| 0 <= y < data@.len() ==> (#[trigger] data@[y])@.len() == data@[0]@.len();
            if rect {
                assert forall|y: int| 0 <= y < res.rows() implies (#[trigger] res@[y]).len() == res.cols() by {
                    assert(res@[y] == res.data@[y]@);
                    assert(res.data@[y]@.len() == res.data@[0]@.len());
                }
            }
            if res.wf() {
                assert forall|y: int| 0 <= y < res.data@.len() implies (#[trigger] res.data@[y])@.len()
                    == res.data@[0]@.len() by {
                    assert(res@[y] == res.data@[y]@);
                    assert(res@[0] == res.data@[0]@);
                }
            }
        }
        res
    }

    /// Whether a position lies inside the grid.
    pub fn is_valid(&self, pos: TilePos) -> (res: bool)
        ensures
            res == self.contains(pos),
    {
        pos.x >= 0 && pos.y >= 0 && (pos.x as usize) < self.width && (pos.y as usize) < self.height
    }

    /// The tile at a position, or `None` outside the grid.
    pub fn get(&self, pos: TilePos) -> (res: Option<&T>)
        requires
            self.contains(pos) ==> self.holds_tile(pos),
        ensures
            res == (if self.contains(pos) {
                Some(&self.cell(pos))
            } else {
                None
            }),
    {
        if self.is_valid(pos) {
            proof {
                assert(self@[pos.y as int] == self.data@[pos.y as int]@);
            }
            Some(&self.data[pos.y as usize][pos.x as usize])
        } else {
            None
        }
    }

    /// A mutable reference to the tile at a position, or `None` outside the
    /// grid.
    pub fn get_mut(&mut self, pos: TilePos) -> (res: Option<&mut T>)
        requires
            old(self).contains(pos) ==> old(self).holds_tile(pos),
        ensures
            final(self).cols() == old(self).cols(),
            final(self).rows() == old(self).rows(),
            match res {
                Some(r) => {
                    &&& old(self).contains(pos)
                    &&& *r == old(self).cell(pos)
                    &&& final(self)@ == old(self).cells_with(pos, *final(r))
                },
                None => {
                    &&& !old(self).contains(pos)
                    &&& final(self)@ == old(self)@
                },
            },
    {
        if self.is_valid(pos) {
            proof {
                assert(self@[pos.y as int] == self.data@[pos.y as int]@);
            }
            Some(&mut self.data[pos.y as usize][pos.x as usize])
        } else {
            None
        }
    }

    /// Set the tile at a position; returns whether the position was inside
    /// the grid (nothing changes otherwise).
    pub fn set(&mut self, pos: TilePos, value: T) -> (res: bool)
        requires
            old(self).contains(pos) ==> old(self).holds_tile(pos),
        ensures
            res == old(self).contains(pos),
            old(self).wf() ==> final(self).wf(),
            final(self).cols() == old(self).cols(),
            final(self).rows() == old(self).rows(),
            final(self)@ == (if res {
                old(self).cells_with(pos, value)
            } else {
                old(self)@
            }),
    {
        if self.is_valid(pos) {
            proof {
                assert(self@[pos.y as int] == self.data@[pos.y as int]@);
            }
            self.data[pos.y as usize][pos.x as usize] = value;
            proof {
                assert(self@ =~= old(self).cells_with(pos, value));
                if old(self).wf() {
                    assert forall|y: int| 0 <= y < self.rows() implies (#[trigger] self@[y]).len() == self.cols() by {
                        assert(old(self)@[y].len() == self.cols());
                    }
                }
            }
            true
        } else {
            false
        }
    }
}

proof fn lemma_row_index_bound(yy: int, xx: int, y: int, w: int)
    requires
        0 <= yy < y,
        0 <= xx < w,
    ensures
        0 <= yy * w + xx < y * w,
{
    assert(0 <= yy * w + xx < y * w) by (nonlinear_arith)
        requires
            0 <= yy < y,
            0 <= xx < w,
    ;
}

impl<T: Clone> Grid<T> {
    /// The orthogonal neighbours of `pos` that lie inside the grid, in the
    /// order north, east, south, west.
    pub fn neighbors_4way(&self, pos: TilePos) -> (res: Vec<TilePos>)
        requires
            has_room(pos),
        ensures
            res@ == neighbors4(pos).filter(|p: TilePos| in_rect(p, self.cols() as int, self.rows() as int)),
    {
        let arr = pos.neighbors_4way();
        let mut cands: Vec<TilePos> = Vec::new();
        let mut k: usize = 0;
        while k < 4
            invariant
                k <= 4,
                arr@ == neighbors4(pos),
                cands@ == arr@.take(k as int),
            decreases 4 - k,
        {
            cands.push(arr[k]);
            k += 1;
            assert(cands@ =~= arr@.take(k as int));
        }
        assert(arr@.take(4) =~= arr@);
        filter_in_bounds(&cands, self.width, self.height)
    }

    /// The surrounding positions of `pos` that lie inside the grid, clockwise
    /// from north.
    pub fn neighbors_8way(&self, pos: TilePos) -> (res: Vec<TilePos>)
        requires
            has_room(pos),
        ensures
            res@ == neighbors8(pos).filter(|p: TilePos| in_rect(p, self.cols() as int, self.rows() as int)),
    {
        let arr = pos.neighbors_8way();
        let mut cands: Vec<TilePos> = Vec::new();
        let mut k: usize = 0;
        while k < 8
            invariant
                k <= 8,
                arr@ == neighbors8(pos),
                cands@ == arr@.take(k as int),
            decreases 8 - k,
        {
            cands.push(arr[k]);
            k += 1;
            assert(cands@ =~= arr@.take(k as int));
        }
        assert(arr@.take(8) =~= arr@);
        filter_in_bounds(&cands, self.width, self.height)
    }

    /// Every tile with its position, row by row.
    pub fn iter_with_pos(&self) -> (res: Vec<(TilePos, &T)>)
        ensures
            res@.len() == row_start(self@, self@.len() as int),
            forall|y: int, x: int|
                0 <= y < self@.len() && 0 <= x < self@[y].len() ==> res@[row_start(self@, y) + x] == (
                grid_pos(x, y),
                &#[trigger] self@[y][x],
            ),
            self.wf() ==> res@.len() == self.rows() * self.cols() && forall|y: int, x: int|
                0 <= y < self.rows() && 0 <= x < self.cols() ==> res@[y * self.cols() + x] == (
                grid_pos(x, y),
                &#[trigger] self@[y][x],
            ),
    {
        let mut res: Vec<(TilePos, &T)> = Vec::new();
        let h = self.data.len();
        let mut y: usize = 0;
        while y < h
            invariant
                h == self@.len(),
                y <= h,
                res@.len() == row_start(self@, y as int),
                forall|yy: int, x: int|
                    0 <= yy < y && 0 <= x < self@[yy].len() ==> res@[row_start(self@, yy) + x] == (
                    grid_pos(x, yy),
                    &#[trigger] self@[yy][x],
                ),
            decreases h - y,
        {
            let row = &self.data[y];
            proof {
                assert(self@[y as int] == row@);
            }
            let mut x: usize = 0;
            while x < row.len()
                invariant
                    h == self@.len(),
                    y < h,
                    row@ == self@[y as int],
                    x <= row@.len(),
                    res@.len() == row_start(self@, y as int) + x,
                    forall|yy: int, xx: int|
                        0 <= yy < y && 0 <= xx < self@[yy].len() ==> res@[row_start(self@, yy) + xx] == (
                        grid_pos(xx, yy),
                        &#[trigger] self@[yy][xx],
                    ),
                    forall|xx: int| 0 <= xx < x ==> res@[row_start(self@, y as int) + xx] == (
                        grid_pos(xx, y as int),
                        &#[trigger] self@[y as int][xx],
                    ),
                decreases row@.len() - x,
            {
                let ghost old_res = res@;
                res.push((TilePos::new(x as i32, y as i32), &row[x]));
                proof {
                    lemma_row_start_monotone(self@, 0, y as int);
                    assert(res@[row_start(self@, y as int) + x] == (grid_pos(x as int, y as int), &self@[y as int][x as int]));
                    assert forall|xx: int| 0 <= xx <= x implies res@[row_start(self@, y as int) + xx] == (
                        grid_pos(xx, y as int),
                        &#[trigger] self@[y as int][xx],
                    ) by {
                        if xx < x {
                            assert(res@[row_start(self@, y as int) + xx] == old_res[row_start(self@, y as int) + xx]);
                        }
                    }
                    assert forall|yy: int, xx: int|
                        0 <= yy < y && 0 <= xx < self@[yy].len() implies res@[row_start(self@, yy) + xx] == (
                        grid_pos(xx, yy),
                        &#[trigger] self@[yy][xx],
                    ) by {
                        lemma_row_start_within(self@, yy, xx, y as int);
                        assert(res@[row_start(self@, yy) + xx] == old_res[row_start(self@, yy) + xx]);
                    }
                }
                x += 1;
            }
            y += 1;
        }
        proof {
            if self.wf() {
                assert forall|yy: int| 0 <= yy <= self.rows() implies #[trigger] row_start(self@, yy) == yy * self.cols() by {
                    lemma_row_start_uniform(self@, self.cols() as int, yy);
                }
            }
        }
        res
    }

    /// Every tile with its position, row by row, each tile lent mutably;
    /// what is written through them is what the grid then holds.
    pub fn iter_mut_with_pos(&mut self) -> (res: Vec<(TilePos, &mut T)>)
        ensures
            res@.len() == row_start(old(self)@, old(self)@.len() as int),
            forall|y: int, x: int|
                0 <= y < old(self)@.len() && 0 <= x < old(self)@[y].len() ==> res@[tile_index(old(self)@, y, x)].0
                    == grid_pos(x, y) && *res@[tile_index(old(self)@, y, x)].1 == old(self)@[y][x],
            final(self)@.len() == old(self)@.len(),
            forall|y: int| 0 <= y < old(self)@.len() ==> (#[trigger] final(self)@[y]).len() == old(self)@[y].len(),
            forall|y: int, x: int|
                0 <= y < old(self)@.len() && 0 <= x < old(self)@[y].len() ==> #[trigger] final(self)@[y][x]
                    == *final(res@[tile_index(old(self)@, y, x)].1),
            final(self).cols() == old(self).cols(),
            final(self).rows() == old(self).rows(),
            old(self).wf() ==> final(self).wf() && res@.len() == old(self).rows() * old(self).cols() && forall|
                y: int,
                x: int,
            |
                0 <= y < old(self).rows() && 0 <= x < old(self).cols() ==> row_start(old(self)@, y) + x == #[trigger] (y
                    * old(self).cols() + x),
    {
        let h = self.data.len();
        let ghost start = old(self)@;
        let mut rows: &mut [Vec<T>] = self.data.as_mut_slice();
        let ghost all_rows = final(rows)@;
        let mut res: Vec<(TilePos, &mut T)> = Vec::new();
        let mut y: usize = 0;
        while y < h
            invariant
                h == start.len(),
                start == old(self)@,
                y <= h,
                rows@.len() == h - y,
                forall|k: int| 0 <= k < h - y ==> (#[trigger] rows@[k])@ == start[y + k],
                res@.len() == row_start(start, y as int),
                forall|yy: int, x: int|
                    0 <= yy < y && 0 <= x < start[yy].len() ==> (#[trigger] res@[tile_index(start, yy, x)]).0 == grid_pos(x, yy)
                        && *res@[tile_index(start, yy, x)].1 == start[yy][x],
                all_rows.len() == y + final(rows)@.len(),
                forall|yy: int| 0 <= yy < y ==> (#[trigger] all_rows[yy])@.len() == start[yy].len(),
                forall|yy: int, x: int|
                    0 <= yy < y && 0 <= x < start[yy].len() ==> #[trigger] all_rows[yy]@[x] == *final(
                        res@[tile_index(start, yy, x)].1),
                forall|k: int| 0 <= k < final(rows)@.len() ==> all_rows[y + k] == #[trigger] final(rows)@[k],
            decreases h - y,
        {
            let ghost before_rows = final(rows)@;
            let ghost cur_rows = rows@;
            let (head, tail) = rows.split_at_mut(1);
            let ghost head_final = final(head)@;
            let ghost tail_final = final(tail)@;
            let row = head.first_mut().unwrap();
            let ghost row_final = *final(row);
            proof {
                assert(before_rows == head_final + tail_final);
                assert(head_final[0] == row_final);
                assert(all_rows[y as int] == before_rows[0]);
                assert forall|k: int| 0 <= k < tail_final.len() implies all_rows[y + 1 + k] == #[trigger] tail_final[k] by {
                    assert(before_rows[1 + k] == tail_final[k]);
                }
                assert(cur_rows[0]@ == start[y as int]);
                assert forall|k: int| 0 <= k < h - y - 1 implies (#[trigger] tail@[k])@ == start[y + 1 + k] by {
                    assert(tail@[k] == cur_rows[k + 1]);
                }
                lemma_row_start_monotone(start, 0, y as int);
            }
            let m = row.len();
            let mut cells: &mut [T] = row.as_mut_slice();
            let ghost cells_final = final(cells)@;
            proof {
                assert(row_final@ == cells_final);
            }
            let mut x: usize = 0;
            while x < m
                invariant
                    h == start.len(),
                    start == old(self)@,
                    y < h,
                    m == start[y as int].len(),
                    x <= m,
                    0 <= row_start(start, y as int),
                    cells@ == start[y as int].skip(x as int),
                    res@.len() == row_start(start, y as int) + x,
                    forall|yy: int, xx: int|
                        0 <= yy < y && 0 <= xx < start[yy].len() ==> (#[trigger] res@[tile_index(start, yy, xx)]).0 == grid_pos(
                            xx,
                            yy,
                        ) && *res@[tile_index(start, yy, xx)].1 == start[yy][xx],
                    forall|xx: int| 0 <= xx < x ==> (#[trigger] res@[tile_index(start, y as int, xx)]).0 == grid_pos(xx, y as int)
                        && *res@[tile_index(start, y as int, xx)].1 == start[y as int][xx],
                    forall|yy: int, xx: int|
                        0 <= yy < y && 0 <= xx < start[yy].len() ==> #[trigger] all_rows[yy]@[xx] == *final(
                            res@[tile_index(start, yy, xx)].1),
                    cells_final.len() == x + final(cells)@.len(),
                    forall|xx: int| 0 <= xx < x ==> #[trigger] cells_final[xx] == *final(
                        res@[tile_index(start, y as int, xx)].1),
                    forall|k: int| 0 <= k < final(cells)@.len() ==> cells_final[x + k] == #[trigger] final(cells)@[k],
                decreases m - x,
            {
                let ghost before = final(cells)@;
                let ghost earlier = res@;
                let (chead, ctail) = cells.split_at_mut(1);
                let ghost chead_final = final(chead)@;
                let ghost ctail_final = final(ctail)@;
                let cell = chead.first_mut().unwrap();
                let ghost cell_final = *final(cell);
                proof {
                    assert(before == chead_final + ctail_final);
                    assert(chead_final[0] == cell_final);
                    assert(cells_final[x as int] == before[0]);
                    assert forall|k: int| 0 <= k < ctail_final.len() implies cells_final[x + 1 + k] == #[trigger] ctail_final[k] by {
                        assert(before[1 + k] == ctail_final[k]);
                    }
                }
                res.push((TilePos::new(x as i32, y as i32), cell));
                proof {
                    assert(*final(res@[tile_index(start, y as int, x as int)].1) == cell_final);
                    assert forall|yy: int, xx: int|
                        0 <= yy < y && 0 <= xx < start[yy].len() implies #[trigger] all_rows[yy]@[xx] == *final(
                            res@[tile_index(start, yy, xx)].1) by {
                        lemma_row_start_within(start, yy, xx, y as int);
                        assert(res@[tile_index(start, yy, xx)] == earlier[tile_index(start, yy, xx)]);
                    }
                    assert forall|yy: int, xx: int|
                        0 <= yy < y && 0 <= xx < start[yy].len() implies (#[trigger] res@[tile_index(start, yy, xx)]).0 == grid_pos(
                            xx,
                            yy,
                        ) && *res@[tile_index(start, yy, xx)].1 == start[yy][xx] by {
                        lemma_row_start_within(start, yy, xx, y as int);
                        assert(res@[tile_index(start, yy, xx)] == earlier[tile_index(start, yy, xx)]);
                    }
                    assert forall|xx: int| 0 <= xx <= x implies #[trigger] cells_final[xx] == *final(
                        res@[tile_index(start, y as int, xx)].1) by {
                        if xx < x {
                            assert(res@[tile_index(start, y as int, xx)] == earlier[tile_index(start, y as int, xx)]);
                        }
                    }
                    assert forall|xx: int| 0 <= xx <= x implies (#[trigger] res@[tile_index(start, y as int, xx)]).0 == grid_pos(
                        xx,
                        y as int,
                    ) && *res@[tile_index(start, y as int, xx)].1 == start[y as int][xx] by {
                        if xx < x {
                            assert(res@[tile_index(start, y as int, xx)] == earlier[tile_index(start, y as int, xx)]);
                        } else {
                            assert(start[y as int].skip(x as int)[0] == start[y as int][x as int]);
                        }
                    }
                }
                cells = ctail;
                x += 1;
            }
            proof {
                assert(all_rows[y as int]@ =~= cells_final);
            }
            rows = tail;
            y += 1;
        }
        proof {
            if old(self).wf() {
                let w = old(self).cols() as int;
                lemma_row_start_uniform(start, w, h as int);
                assert forall|yy: int, x: int|
                    0 <= yy < old(self).rows() && 0 <= x < w implies row_start(start, yy) + x == #[trigger] (yy * w
                        + x) by {
                    lemma_row_start_uniform(start, w, yy);
                }
            }
        }
        res
    }

    /// The rows of tiles.
    pub fn data(&self) -> (res: &Vec<Vec<T>>)
        ensures
            res@.map_values(|row: Vec<T>| row@) == self@,
    {
        &self.data
    }

    /// Mutable access to the rows of tiles. Whatever the caller leaves there
    /// becomes the grid's tiles; the width and height fields stay as they were.
    pub fn data_mut(&mut self) -> (res: &mut Vec<Vec<T>>)
        ensures
            res@.map_values(|row: Vec<T>| row@) == old(self)@,
            final(self)@ == final(res)@.map_values(|row: Vec<T>| row@),
            final(self).cols() == old(self).cols(),
            final(self).rows() == old(self).rows(),
    {
        &mut self.data
    }

    /// Replace every tile of every row with a clone of `value`; the rows
    /// keep their lengths.
    pub fn fill(&mut self, value: T)
        ensures
            final(self).cols() == old(self).cols(),
            final(self).rows() == old(self).rows(),
            final(self)@.len() == old(self)@.len(),
            forall|y: int| 0 <= y < old(self)@.len() ==> (#[trigger] final(self)@[y]).len() == old(self)@[y].len(),
            forall|y: int, x: int|
                0 <= y < final(self)@.len() && 0 <= x < final(self)@[y].len() ==> cloned(value, #[trigger] final(self)@[y][x]),
            old(self).wf() ==> final(self).wf() && final(self).filled_with(value),
    {
        let n = self.data.len();
        let mut y: usize = 0;
        while y < n
            invariant
                n == self@.len() == old(self)@.len(),
                self.cols() == old(self).cols(),
                self.rows() == old(self).rows(),
                forall|yy: int| 0 <= yy < n ==> (#[trigger] self@[yy]).len() == old(self)@[yy].len(),
                y <= n,
                forall|yy: int, x: int| 0 <= yy < y && 0 <= x < self@[yy].len() ==> cloned(value, #[trigger] self@[yy][x]),
            decreases n - y,
        {
            let m = self.data[y].len();
            proof {
                assert(self@[y as int] == self.data@[y as int]@);
            }
            let mut x: usize = 0;
            while x < m
                invariant
                    n == self@.len() == old(self)@.len(),
                    self.cols() == old(self).cols(),
                    self.rows() == old(self).rows(),
                    forall|yy: int| 0 <= yy < n ==> (#[trigger] self@[yy]).len() == old(self)@[yy].len(),
                    y < n,
                    m == self@[y as int].len(),
                    x <= m,
                    forall|yy: int, xx: int|
                        0 <= yy < n && 0 <= xx < self@[yy].len() && (yy < y || (yy == y && xx < x))
                            ==> cloned(value, #[trigger] self@[yy][xx]),
                decreases m - x,
            {
                let ghost before = self@;
                proof {
                    assert(self@[y as int] == self.data@[y as int]@);
                }
                let v = value.clone();
                self.data[y][x] = v;
                proof {
                    assert(self@ =~= before.update(y as int, before[y as int].update(x as int, v)));
                    assert forall|yy: int| 0 <= yy < n implies (#[trigger] self@[yy]).len() == old(self)@[yy].len() by {
                        assert(before[yy].len() == old(self)@[yy].len());
                    }
                }
                x += 1;
            }
            y += 1;
        }
    }

    /// The cell `(x, y)` lies in the region that `fill_region(min, max, ..)`
    /// fills: columns in `[max(min.x, 0), min(max.x, width))` and rows in
    /// `[max(min.y, 0), min(max.y, height))`.
    pub open spec fn in_region(&self, min: TilePos, max: TilePos, y: int, x: int) -> bool {
        &&& region_lo(min.y) <= y < region_hi(max.y, self.rows() as int)
        &&& region_lo(min.x) <= x < region_hi(max.x, self.cols() as int)
    }

    /// Replace the tiles with columns in `[max(min.x, 0), min(max.x, width))`
    /// and rows in `[max(min.y, 0), min(max.y, height))` with clones of
    /// `value`; `max` is exclusive, so a negative `max` fills nothing.
    pub fn fill_region(&mut self, min: TilePos, max: TilePos, value: T)
        requires
            forall|y: int, x: int|
                #[trigger] old(self).in_region(min, max, y, x) ==> y < old(self)@.len() && x < old(self)@[y].len(),
        ensures
            final(self).cols() == old(self).cols(),
            final(self).rows() == old(self).rows(),
            final(self)@.len() == old(self)@.len(),
            forall|y: int| 0 <= y < old(self)@.len() ==> (#[trigger] final(self)@[y]).len() == old(self)@[y].len(),
            forall|y: int, x: int|
                0 <= y < old(self)@.len() && 0 <= x < old(self)@[y].len() ==> if old(self).in_region(min, max, y, x) {
                    cloned(value, #[trigger] final(self)@[y][x])
                } else {
                    final(self)@[y][x] == old(self)@[y][x]
                },
            old(self).wf() ==> final(self).wf(),
            max.x <= 0 || max.y <= 0 ==> final(self)@ == old(self)@,
    {
        let min_x: usize = if min.x < 0 { 0 } else { min.x as usize };
        let min_y: usize = if min.y < 0 { 0 } else { min.y as usize };
        let max_x: usize = if max.x < 0 {
            0
        } else if (max.x as usize) < self.width {
            max.x as usize
        } else {
            self.width
        };
        let max_y: usize = if max.y < 0 {
            0
        } else if (max.y as usize) < self.height {
            max.y as usize
        } else {
            self.height
        };
        let ghost old_cells = self@;
        if min_y >= max_y || min_x >= max_x {
            return;
        }
        let mut y: usize = min_y;
        while y < max_y
            invariant
                self.cols() == old(self).cols(),
                self.rows() == old(self).rows(),
                self.width == old(self).width,
                self.height == old(self).height,
                old_cells == old(self)@,
                self@.len() == old_cells.len(),
                forall|yy: int| 0 <= yy < old_cells.len() ==> (#[trigger] self@[yy]).len() == old_cells[yy].len(),
                forall|yy: int, xx: int|
                    #[trigger] old(self).in_region(min, max, yy, xx) ==> yy < old_cells.len() && xx < old_cells[yy].len(),
                min_y <= y <= max_y,
                min_x < max_x,
                min_y == region_lo(min.y),
                max_y == region_hi(max.y, self.height as int),
                min_x == region_lo(min.x),
                max_x == region_hi(max.x, self.width as int),
                forall|yy: int, x: int|
                    0 <= yy < old_cells.len() && 0 <= x < old_cells[yy].len() ==> if min_y <= yy < y && min_x <= x
                        < max_x {
                        cloned(value, #[trigger] self@[yy][x])
                    } else {
                        self@[yy][x] == old_cells[yy][x]
                    },
            decreases max_y - y,
        {
            let mut x: usize = min_x;
            while x < max_x
                invariant
                    self.cols() == old(self).cols(),
                    self.rows() == old(self).rows(),
                    self.width == old(self).width,
                    self.height == old(self).height,
                    old_cells == old(self)@,
                    self@.len() == old_cells.len(),
                    forall|yy: int| 0 <= yy < old_cells.len() ==> (#[trigger] self@[yy]).len() == old_cells[yy].len(),
                    forall|yy: int, xx: int|
                        #[trigger] old(self).in_region(min, max, yy, xx) ==> yy < old_cells.len() && xx
                            < old_cells[yy].len(),
                    min_y <= y < max_y,
                    min_x <= x <= max_x,
                    min_y == region_lo(min.y),
                    max_y == region_hi(max.y, self.height as int),
                    min_x == region_lo(min.x),
                    max_x == region_hi(max.x, self.width as int),
                    forall|yy: int, xx: int|
                        0 <= yy < old_cells.len() && 0 <= xx < old_cells[yy].len() ==> if (min_y <= yy < y && min_x
                            <= xx < max_x) || (yy == y && min_x <= xx < x) {
                            cloned(value, #[trigger] self@[yy][xx])
                        } else {
                            self@[yy][xx] == old_cells[yy][xx]
                        },
                decreases max_x - x,
            {
                let ghost before = self@;
                proof {
                    assert(old(self).in_region(min, max, y as int, x as int));
                    assert(self@[y as int] == self.data@[y as int]@);
                }
                let v = value.clone();
                self.data[y][x] = v;
                proof {
                    assert(self@ =~= before.update(y as int, before[y as int].update(x as int, v)));
                }
                x += 1;
            }
            y += 1;
        }
        proof {
            if old(self).wf() {
                assert forall|yy: int| 0 <= yy < self.rows() implies (#[trigger] self@[yy]).len() == self.cols() by {
                    assert(old_cells[yy].len() == self.cols());
                }
            }
            if max.x <= 0 || max.y <= 0 {
                assert forall|yy: int| 0 <= yy < old_cells.len() implies #[trigger] self@[yy] == old_cells[yy] by {
                    assert(self@[yy] =~= old_cells[yy]);
                }
                assert(self@ =~= old_cells);
            }
        }
    }
}

impl<T: Clone + Default> Grid<T> {
    /// Create a grid whose every tile is a clone of `T::default()`.
    pub fn new_default(width: usize, height: usize) -> (res: Self)
        ensures
            res.wf(),
            res.cols() == width,
            res.rows() == height,
            exists|d: T| #[trigger] res.filled_with(d),
    {
        let d = T::default();
        let res = Self::new(width, height, d);
        proof {
            assert(res.filled_with(d));
        }
        res
    }
}

} // verus!
