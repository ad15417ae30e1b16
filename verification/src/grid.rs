//! Tile positions and grid utilities for tile-based games.

use vstd::prelude::*;

pub mod fog;
pub mod flat_grid;
pub mod pathfinding;
pub mod vec_grid;
pub mod vision;


verus! {

/// A position in tile coordinates.
#[derive(Debug, Copy, Clone, Hash, PartialEq, Eq, Structural)]
pub struct TilePos {
    pub x: i32,
    pub y: i32,
}

impl From<(i32, i32)> for TilePos {
    /// The position with coordinates `(x, y)`.
    fn from(xy: (i32, i32)) -> (res: Self) {
        TilePos::new(xy.0, xy.1)
    }
}

impl vstd::std_specs::convert::FromSpecImpl<(i32, i32)> for TilePos {
    open spec fn obeys_from_spec() -> bool {
        true
    }

    open spec fn from_spec(xy: (i32, i32)) -> Self {
        TilePos { x: xy.0, y: xy.1 }
    }
}

impl From<TilePos> for (i32, i32) {
    /// The coordinates `(x, y)` of a position.
    fn from(pos: TilePos) -> (res: Self) {
        (pos.x, pos.y)
    }
}

impl vstd::std_specs::convert::FromSpecImpl<TilePos> for (i32, i32) {
    open spec fn obeys_from_spec() -> bool {
        true
    }

    open spec fn from_spec(pos: TilePos) -> Self {
        (pos.x, pos.y)
    }
}

/// The absolute value of an integer.
pub open spec fn abs_int(v: int) -> int {
    if v < 0 { -v } else { v }
}

/// The position `(x, y)` as mathematical integers, shifted by `(dx, dy)`.
pub open spec fn offset(p: TilePos, dx: int, dy: int) -> TilePos {
    TilePos { x: (p.x + dx) as i32, y: (p.y + dy) as i32 }
}

/// Neither coordinate sits on the edge of the `i32` range, so every
/// neighbour of the position is representable.
pub open spec fn has_room(p: TilePos) -> bool {
    i32::MIN < p.x < i32::MAX && i32::MIN < p.y < i32::MAX
}

/// The four orthogonal neighbours, in the order north, east, south, west.
pub open spec fn neighbors4(p: TilePos) -> Seq<TilePos> {
    seq![offset(p, 0, -1), offset(p, 1, 0), offset(p, 0, 1), offset(p, -1, 0)]
}

/// The eight surrounding positions, clockwise starting from north.
pub open spec fn neighbors8(p: TilePos) -> Seq<TilePos> {
    seq![
        offset(p, 0, -1),
        offset(p, 1, -1),
        offset(p, 1, 0),
        offset(p, 1, 1),
        offset(p, 0, 1),
        offset(p, -1, 1),
        offset(p, -1, 0),
        offset(p, -1, -1),
    ]
}

/// The neighbours used by a search: eight-way when diagonals are allowed.
pub open spec fn neighbors(p: TilePos, allow_diagonals: bool) -> Seq<TilePos> {
    if allow_diagonals { neighbors8(p) } else { neighbors4(p) }
}

/// `p` lies inside a `width` x `height` grid anchored at the origin.
pub open spec fn in_rect(p: TilePos, width: int, height: int) -> bool {
    0 <= p.x && 0 <= p.y && p.x < width && p.y < height
}

impl TilePos {
    /// Create a new tile position.
    pub fn new(x: i32, y: i32) -> (res: Self)
        ensures
            res == (TilePos { x, y }),
    {
        TilePos { x, y }
    }

    /// Manhattan distance to another position.
    pub fn manhattan_distance(&self, other: &TilePos) -> (res: i32)
        requires
            i32::MIN < self.x - other.x,
            i32::MIN < self.y - other.y,
            abs_int(self.x - other.x) + abs_int(self.y - other.y) <= i32::MAX,
        ensures
            res == abs_int(self.x - other.x) + abs_int(self.y - other.y),
    {
        let dx = self.x - other.x;
        let dy = self.y - other.y;
        let adx = if dx < 0 { -dx } else { dx };
        let ady = if dy < 0 { -dy } else { dy };
        adx + ady
    }

    /// The four orthogonal neighbours (north, east, south, west).
    pub fn neighbors_4way(&self) -> (res: [TilePos; 4])
        requires
            has_room(*self),
        ensures
            res@ == neighbors4(*self),
    {
        let res = [
            TilePos::new(self.x, self.y - 1),
            TilePos::new(self.x + 1, self.y),
            TilePos::new(self.x, self.y + 1),
            TilePos::new(self.x - 1, self.y),
        ];
        assert(res@ =~= neighbors4(*self));
        res
    }

    /// The eight surrounding positions, clockwise from north.
    pub fn neighbors_8way(&self) -> (res: [TilePos; 8])
        requires
            has_room(*self),
        ensures
            res@ == neighbors8(*self),
    {
        let res = [
            TilePos::new(self.x, self.y - 1),
            TilePos::new(self.x + 1, self.y - 1),
            TilePos::new(self.x + 1, self.y),
            TilePos::new(self.x + 1, self.y + 1),
            TilePos::new(self.x, self.y + 1),
            TilePos::new(self.x - 1, self.y + 1),
            TilePos::new(self.x - 1, self.y),
            TilePos::new(self.x - 1, self.y - 1),
        ];
        assert(res@ =~= neighbors8(*self));
        res
    }

    /// Whether this position lies inside a `width` x `height` grid.
    pub fn in_bounds(&self, width: usize, height: usize) -> (res: bool)
        ensures
            res == in_rect(*self, width as int, height as int),
    {
        self.x >= 0 && self.y >= 0 && (self.x as usize) < width && (self.y as usize) < height
    }

    /// Row-major index of this position in a grid of the given width;
    /// `None` for a negative coordinate.
    pub fn to_index(&self, width: usize) -> (res: Option<usize>)
        requires
            self.x >= 0 && self.y >= 0 ==> self.y * width + self.x <= usize::MAX,
        ensures
            res == (if self.x < 0 || self.y < 0 {
                None::<usize>
            } else {
                Some((self.y * width + self.x) as usize)
            }),
    {
        if self.x < 0 || self.y < 0 {
            return None;
        }
        let y = self.y as usize;
        let x = self.x as usize;
        proof {
            assert(y * width <= usize::MAX) by (nonlinear_arith)
                requires
                    y * width + x <= usize::MAX,
                    x >= 0,
            ;
        }
        Some(y * width + x)
    }

    /// The position at a row-major index in a grid of the given width.
    /// Coordinates beyond the `i32` range wrap, as an `as` conversion does.
    pub fn from_index(index: usize, width: usize) -> (res: Self)
        requires
            width > 0,
        ensures
            res.x == (index % width) as i32,
            res.y == (index / width) as i32,
    {
        TilePos::new((index % width) as i32, (index / width) as i32)
    }
}

/// For a position inside a grid of positive width, `from_index` undoes
/// `to_index`.
pub proof fn law_tile_index_round_trip(p: TilePos, width: int)
    requires
        0 <= p.x < width,
        0 <= p.y,
    ensures
        (p.y * width + p.x) % width == p.x,
        (p.y * width + p.x) / width == p.y,
{
    let i = p.y * width + p.x;
    assert(i % width == p.x && i / width == p.y) by (nonlinear_arith)
        requires
            0 <= p.x < width,
            0 <= p.y,
            i == p.y * width + p.x,
    {
        vstd::arithmetic::div_mod::lemma_fundamental_div_mod_converse(i, width, p.y as int, p.x as int);
    }
}

/// Keep the candidates that lie inside a `width` x `height` grid, in order.
pub fn filter_in_bounds(cands: &Vec<TilePos>, width: usize, height: usize) -> (res: Vec<TilePos>)
    ensures
        res@ == cands@.filter(|p: TilePos| in_rect(p, width as int, height as int)),
{
    let ghost keep = |p: TilePos| in_rect(p, width as int, height as int);
    let mut res: Vec<TilePos> = Vec::new();
    let mut k: usize = 0;
    while k < cands.len()
        invariant
            k <= cands@.len(),
            keep == (|p: TilePos| in_rect(p, width as int, height as int)),
            res@ == cands@.take(k as int).filter(keep),
        decreases cands@.len() - k,
    {
        let p = cands[k];
        proof {
            reveal_with_fuel(Seq::<_>::filter, 1);
            assert(cands@.take(k + 1).drop_last() =~= cands@.take(k as int));
        }
        if p.in_bounds(width, height) {
            res.push(p);
        }
        k += 1;
    }
    proof {
        assert(cands@.take(cands@.len() as int) =~= cands@);
    }
    res
}

} // verus!
