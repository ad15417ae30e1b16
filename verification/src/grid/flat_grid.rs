//! Flat vector grid storage with index-based access.

use vstd::prelude::*;

use crate::grid::pathfinding::{
    component,
    connected,
    in_component,
    reachable_region,
    reached,
    shortest_walk,
    shortest_walk_result,
    closures_answer,
    both,
    lemma_reached_passable,
    expanded_by_search,
    answers_as,
    lemma_expanded_in_component,
};
use crate::grid::{filter_in_bounds, has_room, in_rect, neighbors4, neighbors8, TilePos};
use crate::text::{decimal, push_decimal, push_str};

verus! {

/// Flat vector grid storage for games that need cache-friendly iteration or
/// index-based persistence.
#[derive(Debug, Clone)]
pub struct FlatGrid<T> {
    data: Vec<T>,
    pub width: usize,
    pub height: usize,
}

/// The row-major index of `p` in a grid `width` tiles wide.
pub open spec fn flat_index(p: TilePos, width: int) -> int {
    p.y * width + p.x
}

/// The position at row-major index `i` in a grid `width` tiles wide, its
/// coordinates converted to `i32`.
pub open spec fn flat_pos(i: int, width: int) -> TilePos {
    TilePos { x: (i % width) as i32, y: (i / width) as i32 }
}

/// The message `FlatGrid::from_vec` gives for data of the wrong length.
pub open spec fn size_mismatch_message(len: nat, width: nat, height: nat) -> Seq<char> {
    "FlatGrid data length "@ + decimal(len) + " does not match "@ + decimal(width) + "x"@ + decimal(
        height,
    )
}

/// The closure `f` answers `true` for the tile `t` at `p`.
pub open spec fn tile_holds<T, F: Fn(TilePos, &T) -> bool>(f: &F, p: TilePos, t: &T) -> bool {
    call_ensures(*f, (p, t), true)
}

/// `f` may be called on any position and tile, and answers each the same way
/// every time.
pub open spec fn is_pure_tile_predicate<T, F: Fn(TilePos, &T) -> bool>(f: &F) -> bool {
    &&& forall|p: TilePos, t: &T| call_requires(*f, (p, t))
    &&& forall|p: TilePos, t: &T, r: bool| #[trigger] call_ensures(*f, (p, t), r) ==> r == tile_holds(f, p, t)
}

/// Whatever `f` returns for a position and tile is what `m` says of them:
/// `m` is a predicate the closure computes.
pub open spec fn tile_answers_as<T, F: Fn(TilePos, &T) -> bool>(f: &F, m: spec_fn(TilePos, T) -> bool) -> bool {
    forall|p: TilePos, t: &T, r: bool| #[trigger] call_ensures(*f, (p, t), r) ==> r == m(p, *t)
}

impl<T> View for FlatGrid<T> {
    type V = Seq<T>;

    /// The tiles in row-major order.
    closed spec fn view(&self) -> Seq<T> {
        self.data@
    }
}

impl<T> FlatGrid<T> {
    /// The grid's width as recorded in the `width` field.
    pub closed spec fn cols(&self) -> nat {
        self.width as nat
    }

    /// The grid's height as recorded in the `height` field.
    pub closed spec fn rows(&self) -> nat {
        self.height as nat
    }

    /// The grid holds exactly `width * height` tiles.
    pub open spec fn wf(&self) -> bool {
        self@.len() == self.cols() * self.rows()
    }

    /// `p` lies inside the grid.
    pub open spec fn contains(&self, p: TilePos) -> bool {
        in_rect(p, self.cols() as int, self.rows() as int)
    }

    /// The tile at a position inside the grid.
    pub open spec fn cell(&self, p: TilePos) -> T {
        self@[flat_index(p, self.cols() as int)]
    }

    /// `p` is inside the grid and its index falls within the tiles held.
    pub open spec fn has_cell(&self, p: TilePos) -> bool {
        self.contains(p) && flat_index(p, self.cols() as int) < self@.len()
    }

    /// The index of `p`, when `p` is inside the grid, fits in a `usize`.
    pub open spec fn index_fits(&self, p: TilePos) -> bool {
        self.contains(p) ==> flat_index(p, self.cols() as int) <= usize::MAX
    }

    /// Every tile is a clone of `d`.
    pub open spec fn filled_with(&self, d: T) -> bool where T: Clone {
        forall|i: int| 0 <= i < self@.len() ==> cloned(d, #[trigger] self@[i])
    }

    /// The positions a search over this grid may step on: inside the grid,
    /// with a tile held there that `can_enter` accepts.
    pub open spec fn passable<F: Fn(TilePos, &T) -> bool>(&self, can_enter: &F) -> spec_fn(TilePos) -> bool {
        |p: TilePos| self.has_cell(p) && tile_holds(&can_enter, p, &self.cell(p))
    }

    /// The positions with a tile that `m` accepts.
    pub open spec fn passable_as(&self, m: spec_fn(TilePos, T) -> bool) -> spec_fn(TilePos) -> bool {
        |p: TilePos| self.has_cell(p) && m(p, self.cell(p))
    }
}

proof fn lemma_flat_index_in_range(p: TilePos, w: int, h: int)
    requires
        in_rect(p, w, h),
    ensures
        0 <= flat_index(p, w) < w * h,
{
    assert(0 <= p.y * w + p.x < w * h) by (nonlinear_arith)
        requires
            0 <= p.x < w,
            0 <= p.y < h,
    ;
}

proof fn lemma_flat_pos_of_index(p: TilePos, w: int, h: int)
    requires
        in_rect(p, w, h),
    ensures
        flat_pos(flat_index(p, w), w) == p,
{
    let i = p.y * w + p.x;
    assert(i % w == p.x && i / w == p.y) by (nonlinear_arith)
        requires
            0 <= p.x < w,
            0 <= p.y,
            i == p.y * w + p.x,
    {
        vstd::arithmetic::div_mod::lemma_fundamental_div_mod_converse(i, w, p.y as int, p.x as int);
    }
}

/// A position inside a grid and its row-major index convert into each
/// other: `pos_from_index` undoes `index`.
pub proof fn law_flat_index_round_trip(p: TilePos, width: int, height: int)
    requires
        in_rect(p, width, height),
    ensures
        0 <= flat_index(p, width) < width * height,
        flat_pos(flat_index(p, width), width) == p,
{
    lemma_flat_index_in_range(p, width, height);
    lemma_flat_pos_of_index(p, width, height);
}

/// What `set` writes at a position inside the grid is what `get` then reads
/// there, and every other tile keeps its value.
pub proof fn law_flat_read_after_write<T>(g: FlatGrid<T>, p: TilePos, v: T, q: TilePos)
    requires
        g.wf(),
        g.contains(p),
        g.contains(q),
    ensures
        g@.update(flat_index(p, g.cols() as int), v)[flat_index(p, g.cols() as int)] == v,
        q != p ==> g@.update(flat_index(p, g.cols() as int), v)[flat_index(q, g.cols() as int)] == g.cell(q),
{
    lemma_flat_index_in_range(p, g.cols() as int, g.rows() as int);
    lemma_flat_index_in_range(q, g.cols() as int, g.rows() as int);
    if q != p {
        lemma_flat_pos_of_index(p, g.cols() as int, g.rows() as int);
        lemma_flat_pos_of_index(q, g.cols() as int, g.rows() as int);
    }
}

/// When `width * height` fits in a `usize`, so does the index of every
/// position inside the grid.
proof fn lemma_index_fits<T>(g: &FlatGrid<T>, p: TilePos)
    requires
        g.cols() * g.rows() <= usize::MAX,
    ensures
        g.index_fits(p),
{
    if g.contains(p) {
        lemma_flat_index_in_range(p, g.cols() as int, g.rows() as int);
    }
}

/// The positions inside a grid form a finite set.
proof fn lemma_rect_finite(w: int, h: int)
    requires
        w >= 0,
        h >= 0,
    ensures
        Set::new(|p: TilePos| in_rect(p, w, h)).finite(),
{
    let all = Seq::new((w * h) as nat, |i: int| flat_pos(i, w));
    assert(w * h >= 0) by (nonlinear_arith)
        requires
            w >= 0,
            h >= 0,
    ;
    assert forall|p: TilePos| Set::new(|p: TilePos| in_rect(p, w, h)).contains(p) implies all.to_set().contains(
        p,
    ) by {
        lemma_flat_index_in_range(p, w, h);
        lemma_flat_pos_of_index(p, w, h);
        assert(all[flat_index(p, w)] == p);
    }
    vstd::set_lib::lemma_len_subset(Set::new(|p: TilePos| in_rect(p, w, h)), all.to_set());
}

impl<T: Clone> FlatGrid<T> {
    /// Create a grid whose every tile is a clone of `default`.
    pub fn new(width: usize, height: usize, default: T) -> (res: Self)
        requires
            width * height <= usize::MAX,
        ensures
            res.wf(),
            res.cols() == width,
            res.rows() == height,
            res.filled_with(default),
    {
        let n = width * height;
        let mut data: Vec<T> = Vec::new();
        let mut i: usize = 0;
        while i < n
            invariant
                i <= n,
                data@.len() == i,
                forall|j: int| 0 <= j < i ==> cloned(default, #[trigger] data@[j]),
            decreases n - i,
        {
            data.push(default.clone());
            i += 1;
        }
        FlatGrid { data, width, height }
    }

    /// Replace every tile with a clone of `value`.
    pub fn fill(&mut self, value: T)
        ensures
            final(self)@.len() == old(self)@.len(),
            final(self).cols() == old(self).cols(),
            final(self).rows() == old(self).rows(),
            final(self).filled_with(value),
    {
        let n = self.data.len();
        let mut i: usize = 0;
        while i < n
            invariant
                i <= n,
                n == self@.len(),
                n == old(self)@.len(),
                self.cols() == old(self).cols(),
                self.rows() == old(self).rows(),
                forall|j: int| 0 <= j < i ==> cloned(value, #[trigger] self@[j]),
            decreases n - i,
        {
            let v = value.clone();
            self.data.set(i, v);
            i += 1;
        }
    }
}

impl<T> FlatGrid<T> {
    /// The `width` and `height` fields.
    pub(crate) fn dims(&self) -> (res: (usize, usize))
        ensures
            res.0 == self.cols(),
            res.1 == self.rows(),
    {
        (self.width, self.height)
    }

    /// Replace the tile at row-major index `i`.
    pub(crate) fn set_at(&mut self, i: usize, value: T)
        requires
            i < old(self)@.len(),
        ensures
            final(self)@ == old(self)@.update(i as int, value),
            final(self).cols() == old(self).cols(),
            final(self).rows() == old(self).rows(),
    {
        self.data.set(i, value);
    }

    /// The tile at row-major index `i`.
    pub(crate) fn at(&self, i: usize) -> (res: &T)
        requires
            i < self@.len(),
        ensures
            *res == self@[i as int],
    {
        &self.data[i]
    }

    /// The number of tiles.
    pub(crate) fn len(&self) -> (res: usize)
        ensures
            res == self@.len(),
    {
        self.data.len()
    }

    /// Create a flat grid from existing data, which must hold exactly
    /// `width * height` tiles.
    pub fn from_vec(width: usize, height: usize, data: Vec<T>) -> (res: Result<Self, String>)
        requires
            width * height <= usize::MAX,
        ensures
            match res {
                Ok(g) => {
                    &&& data@.len() == width * height
                    &&& g.wf()
                    &&& g.cols() == width
                    &&& g.rows() == height
                    &&& g@ == data@
                },
                Err(msg) => {
                    &&& data@.len() != width * height
                    &&& msg@ == size_mismatch_message(data@.len(), width as nat, height as nat)
                },
            },
    {
        if data.len() != width * height {
            let mut msg = String::new();
            push_str(&mut msg, "FlatGrid data length ");
            push_decimal(&mut msg, data.len() as u64);
            push_str(&mut msg, " does not match ");
            push_decimal(&mut msg, width as u64);
            push_str(&mut msg, "x");
            push_decimal(&mut msg, height as u64);
            return Err(msg);
        }
        Ok(FlatGrid { data, width, height })
    }

    /// Whether a position lies inside the grid.
    pub fn is_valid(&self, pos: TilePos) -> (res: bool)
        ensures
            res == self.contains(pos),
    {
        pos.in_bounds(self.width, self.height)
    }

    /// The row-major index of a position inside the grid, or `None` outside.
    pub fn index(&self, pos: TilePos) -> (res: Option<usize>)
        requires
            self.index_fits(pos),
        ensures
            res == (if self.contains(pos) {
                Some(flat_index(pos, self.cols() as int) as usize)
            } else {
                None::<usize>
            }),
            res matches Some(i) ==> i == flat_index(pos, self.cols() as int),
            self.wf() ==> (res matches Some(i) ==> i < self@.len()),
    {
        if self.is_valid(pos) {
            proof {
                if self.wf() {
                    lemma_flat_index_in_range(pos, self.cols() as int, self.rows() as int);
                }
            }
            pos.to_index(self.width)
        } else {
            None
        }
    }

    /// The position of the tile at a row-major index, or `None` past the end.
    pub fn pos_from_index(&self, index: usize) -> (res: Option<TilePos>)
        requires
            index < self@.len() ==> self.cols() > 0,
        ensures
            res == (if index < self@.len() {
                Some(flat_pos(index as int, self.cols() as int))
            } else {
                None::<TilePos>
            }),
    {
        if index < self.data.len() {
            Some(TilePos::from_index(index, self.width))
        } else {
            None
        }
    }

    /// The tile at a position, or `None` when the position is outside the
    /// grid or past the tiles held.
    pub fn get(&self, pos: TilePos) -> (res: Option<&T>)
        requires
            self.index_fits(pos),
        ensures
            res == (if self.has_cell(pos) {
                Some(&self.cell(pos))
            } else {
                None
            }),
    {
        match self.index(pos) {
            Some(index) => {
                if index < self.data.len() {
                    Some(&self.data[index])
                } else {
                    None
                }
            },
            None => None,
        }
    }

    /// A mutable reference to the tile at a position, or `None` when the
    /// position is outside the grid or past the tiles held.
    pub fn get_mut(&mut self, pos: TilePos) -> (res: Option<&mut T>)
        requires
            old(self).index_fits(pos),
        ensures
            final(self).cols() == old(self).cols(),
            final(self).rows() == old(self).rows(),
            match res {
                Some(r) => {
                    &&& old(self).has_cell(pos)
                    &&& *r == old(self).cell(pos)
                    &&& final(self)@ == old(self)@.update(flat_index(pos, old(self).cols() as int), *final(r))
                },
                None => {
                    &&& !old(self).has_cell(pos)
                    &&& final(self)@ == old(self)@
                },
            },
    {
        match self.index(pos) {
            Some(index) => {
                if index < self.data.len() {
                    Some(&mut self.data[index])
                } else {
                    None
                }
            },
            None => None,
        }
    }

    /// Set the tile at a position; returns whether the position was inside
    /// the grid (nothing changes otherwise).
    pub fn set(&mut self, pos: TilePos, value: T) -> (res: bool)
        requires
            old(self).contains(pos) ==> old(self).has_cell(pos),
        ensures
            res == old(self).contains(pos),
            final(self).cols() == old(self).cols(),
            final(self).rows() == old(self).rows(),
            final(self)@ == (if res {
                old(self)@.update(flat_index(pos, old(self).cols() as int), value)
            } else {
                old(self)@
            }),
            old(self).wf() ==> final(self).wf(),
    {
        let n = self.data.len();
        if let Some(index) = self.index(pos) {
            self.data.set(index, value);
            true
        } else {
            false
        }
    }

    /// The orthogonal neighbours of `pos` inside the grid, in the order north,
    /// east, south, west.
    pub fn neighbors_4way(&self, pos: TilePos) -> (res: Vec<TilePos>)
        requires
            has_room(pos),
        ensures
            res@ == neighbors4(pos).filter(|p: TilePos| in_rect(p, self.cols() as int, self.rows() as int)),
    {
        let arr = pos.neighbors_4way();
        let mut cands: Vec<TilePos> = Vec::new();
        let mut k: usize = 0;
        while k < 4
            invariant
                k <= 4,
                arr@ == neighbors4(pos),
                cands@ == arr@.take(k as int),
            decreases 4 - k,
        {
            cands.push(arr[k]);
            k += 1;
            assert(cands@ =~= arr@.take(k as int));
        }
        assert(arr@.take(4) =~= arr@);
        filter_in_bounds(&cands, self.width, self.height)
    }

    /// The surrounding positions of `pos` inside the grid, clockwise from
    /// north.
    pub fn neighbors_8way(&self, pos: TilePos) -> (res: Vec<TilePos>)
        requires
            has_room(pos),
        ensures
            res@ == neighbors8(pos).filter(|p: TilePos| in_rect(p, self.cols() as int, self.rows() as int)),
    {
        let arr = pos.neighbors_8way();
        let mut cands: Vec<TilePos> = Vec::new();
        let mut k: usize = 0;
        while k < 8
            invariant
                k <= 8,
                arr@ == neighbors8(pos),
                cands@ == arr@.take(k as int),
            decreases 8 - k,
        {
            cands.push(arr[k]);
            k += 1;
            assert(cands@ =~= arr@.take(k as int));
        }
        assert(arr@.take(8) =~= arr@);
        filter_in_bounds(&cands, self.width, self.height)
    }

    /// Every tile with its position, in row-major order.
    pub fn iter_with_pos(&self) -> (res: Vec<(TilePos, &T)>)
        requires
            self.cols() > 0 || self@.len() == 0,
        ensures
            res@.len() == self@.len(),
            forall|i: int|
                0 <= i < self@.len() ==> #[trigger] res@[i] == (flat_pos(i, self.cols() as int), &self@[i]),
    {
        let mut res: Vec<(TilePos, &T)> = Vec::new();
        let n = self.data.len();
        let mut i: usize = 0;
        while i < n
            invariant
                self.cols() > 0 || self@.len() == 0,
                n == self@.len(),
                i <= n,
                res@.len() == i,
                forall|j: int| 0 <= j < i ==> #[trigger] res@[j] == (flat_pos(j, self.cols() as int), &self@[j]),
            decreases n - i,
        {
            res.push((TilePos::from_index(i, self.width), &self.data[i]));
            i += 1;
        }
        res
    }

    /// Every tile with its position, in row-major order, each tile lent
    /// mutably; what is written through them is what the grid then holds.
    pub fn iter_mut_with_pos(&mut self) -> (res: Vec<(TilePos, &mut T)>)
        requires
            old(self).cols() > 0 || old(self)@.len() == 0,
        ensures
            res@.len() == old(self)@.len(),
            forall|i: int| 0 <= i < res@.len() ==> (#[trigger] res@[i]).0 == flat_pos(i, old(self).cols() as int)
                && *res@[i].1 == old(self)@[i],
            final(self)@.len() == old(self)@.len(),
            forall|i: int| 0 <= i < res@.len() ==> final(self)@[i] == *final(#[trigger] res@[i].1),
            final(self).cols() == old(self).cols(),
            final(self).rows() == old(self).rows(),
    {
        let width = self.width;
        let n = self.data.len();
        let mut rest: &mut [T] = self.data.as_mut_slice();
        let ghost whole = final(rest)@;
        let mut res: Vec<(TilePos, &mut T)> = Vec::new();
        let mut i: usize = 0;
        while i < n
            invariant
                n == old(self)@.len(),
                i <= n,
                width == old(self).cols(),
                width == 0 ==> n == 0,
                rest@ == old(self)@.skip(i as int),
                res@.len() == i,
                forall|j: int| 0 <= j < i ==> (#[trigger] res@[j]).0 == flat_pos(j, width as int) && *res@[j].1 == old(self)@[j],
                whole.len() == i + final(rest)@.len(),
                forall|j: int| 0 <= j < i ==> whole[j] == *final(#[trigger] res@[j].1),
                forall|j: int| 0 <= j < final(rest)@.len() ==> whole[i + j] == #[trigger] final(rest)@[j],
            decreases n - i,
        {
            let ghost before = final(rest)@;
            let ghost earlier = res@;
            let (head, tail) = rest.split_at_mut(1);
            let ghost head_final = final(head)@;
            let ghost tail_final = final(tail)@;
            let cell = head.first_mut().unwrap();
            let ghost cell_final = *final(cell);
            proof {
                assert(before == head_final + tail_final);
                assert(head_final[0] == cell_final);
                assert forall|j: int| 0 <= j < tail_final.len() implies whole[i + 1 + j] == #[trigger] tail_final[j] by {
                    assert(before[1 + j] == tail_final[j]);
                }
            }
            res.push((TilePos::from_index(i, width), cell));
            proof {
                assert(*final(res@[i as int].1) == cell_final);
                assert(whole[i as int] == before[0]);
                assert forall|j: int| 0 <= j <= i implies whole[j] == *final(#[trigger] res@[j].1) by {
                    if j < i {
                        assert(res@[j] == earlier[j]);
                    }
                }
            }
            rest = tail;
            i += 1;
        }
        res
    }

    /// The tiles in row-major order.
    pub fn data(&self) -> (res: &[T])
        ensures
            res@ == self@,
    {
        self.data.as_slice()
    }

    /// Mutable access to the tiles in row-major order; their number cannot
    /// change.
    pub fn data_mut(&mut self) -> (res: &mut [T])
        ensures
            res@ == old(self)@,
            final(self)@ == final(res)@,
            final(self).cols() == old(self).cols(),
            final(self).rows() == old(self).rows(),
    {
        self.data.as_mut_slice()
    }
}

/// Everything reachable through positions inside a grid lies inside it.
proof fn lemma_component_in_rect(ok: spec_fn(TilePos) -> bool, diag: bool, start: TilePos, w: int, h: int)
    requires
        w >= 0,
        h >= 0,
        forall|p: TilePos| ok(p) ==> in_rect(p, w, h),
    ensures
        component(ok, diag, start).finite(),
        forall|p: TilePos| in_component(ok, diag, start, p) ==> in_rect(p, w, h),
{
    assert forall|p: TilePos| in_component(ok, diag, start, p) implies in_rect(p, w, h) by {
        let k = choose|k: nat| #[trigger] reached(ok, diag, start, k, p);
        lemma_reached_passable(ok, diag, start, k, p);
    }
    lemma_rect_finite(w, h);
    vstd::set_lib::lemma_len_subset(component(ok, diag, start), Set::new(|p: TilePos| in_rect(p, w, h)));
}

impl<T> FlatGrid<T> {
    /// Find a shortest walk across this grid from `start` to `goal`, stepping
    /// only on tiles that `can_enter` accepts. Returns `None` when there is
    /// no such walk.
    pub fn bfs_path<F>(&self, start: TilePos, goal: TilePos, allow_diagonals: bool, can_enter: F) -> (res:
        Option<Vec<TilePos>>) where F: Fn(TilePos, &T) -> bool
        requires
            self.cols() * self.rows() <= usize::MAX,
            self.cols() <= i32::MAX,
            self.rows() <= i32::MAX,
            is_pure_tile_predicate(&can_enter),
        ensures
            shortest_walk_result(self.passable(&can_enter), allow_diagonals, start, goal, res),
            forall|m: spec_fn(TilePos, T) -> bool|
                tile_answers_as(&can_enter, m) ==> shortest_walk_result(
                    self.passable_as(m),
                    allow_diagonals,
                    start,
                    goal,
                    res,
                ),
    {
        let ghost okv = |p: TilePos| self.contains(p);
        let ghost oke = |p: TilePos| self.has_cell(p) && tile_holds(&can_enter, p, &self.cell(p));
        let valid = |pos: TilePos| -> (r: bool)
            ensures
                r == self.contains(pos),
            { self.is_valid(pos) };
        let ce = &can_enter;
        let enter = |pos: TilePos| -> (r: bool)
            requires
                self.cols() * self.rows() <= usize::MAX,
                is_pure_tile_predicate(ce),
            ensures
                r == (self.has_cell(pos) && tile_holds(ce, pos, &self.cell(pos))),
                forall|m: spec_fn(TilePos, T) -> bool|
                    tile_answers_as(ce, m) ==> r == (self.has_cell(pos) && m(pos, self.cell(pos))),
            {
                proof {
                    lemma_index_fits(self, pos);
                }
                match self.get(pos) {
                    Some(tile) => ce(pos, tile),
                    None => false,
                }
            };
        proof {
            assert(both(okv, oke) =~= self.passable(&can_enter));
            lemma_component_in_rect(both(okv, oke), allow_diagonals, start, self.cols() as int, self.rows() as int);
            assert forall|p: TilePos|
                expanded_by_search(both(okv, oke), allow_diagonals, start, None, Some(goal), p) implies has_room(p) by {
                lemma_expanded_in_component(both(okv, oke), allow_diagonals, start, Some(goal), p);
                assert(in_rect(p, self.cols() as int, self.rows() as int));
            }
        }
        let res = shortest_walk(start, goal, allow_diagonals, valid, enter, Ghost(okv), Ghost(oke));
        proof {
            assert forall|m: spec_fn(TilePos, T) -> bool| tile_answers_as(&can_enter, m) implies shortest_walk_result(
                self.passable_as(m),
                allow_diagonals,
                start,
                goal,
                res,
            ) by {
                let mv = |p: TilePos| self.contains(p);
                let me = |p: TilePos| self.has_cell(p) && m(p, self.cell(p));
                assert(answers_as(valid, mv));
                assert(answers_as(enter, me));
                assert(both(mv, me) =~= self.passable_as(m));
            }
        }
        res
    }

    /// Every position reachable from `start` across this grid through tiles
    /// that `can_enter` accepts, each listed once.
    pub fn flood_fill<F>(&self, start: TilePos, allow_diagonals: bool, can_enter: F) -> (res: Vec<TilePos>) where
        F: Fn(TilePos, &T) -> bool,
        requires
            self.cols() * self.rows() <= usize::MAX,
            self.cols() <= i32::MAX,
            self.rows() <= i32::MAX,
            is_pure_tile_predicate(&can_enter),
        ensures
            res@.no_duplicates(),
            forall|p: TilePos|
                #[trigger] res@.contains(p) <==> in_component(self.passable(&can_enter), allow_diagonals, start, p),
            forall|m: spec_fn(TilePos, T) -> bool|
                tile_answers_as(&can_enter, m) ==> forall|p: TilePos|
                    #[trigger] res@.contains(p) <==> in_component(self.passable_as(m), allow_diagonals, start, p),
    {
        let ghost okv = |p: TilePos| self.contains(p);
        let ghost oke = |p: TilePos| self.has_cell(p) && tile_holds(&can_enter, p, &self.cell(p));
        let valid = |pos: TilePos| -> (r: bool)
            ensures
                r == self.contains(pos),
            { self.is_valid(pos) };
        let ce = &can_enter;
        let enter = |pos: TilePos| -> (r: bool)
            requires
                self.cols() * self.rows() <= usize::MAX,
                is_pure_tile_predicate(ce),
            ensures
                r == (self.has_cell(pos) && tile_holds(ce, pos, &self.cell(pos))),
                forall|m: spec_fn(TilePos, T) -> bool|
                    tile_answers_as(ce, m) ==> r == (self.has_cell(pos) && m(pos, self.cell(pos))),
            {
                proof {
                    lemma_index_fits(self, pos);
                }
                match self.get(pos) {
                    Some(tile) => ce(pos, tile),
                    None => false,
                }
            };
        proof {
            assert(both(okv, oke) =~= self.passable(&can_enter));
            lemma_component_in_rect(both(okv, oke), allow_diagonals, start, self.cols() as int, self.rows() as int);
            assert forall|p: TilePos| in_component(both(okv, oke), allow_diagonals, start, p) implies has_room(p) by {
                assert(in_rect(p, self.cols() as int, self.rows() as int));
            }
        }
        let res = reachable_region(start, allow_diagonals, valid, enter, Ghost(okv), Ghost(oke));
        proof {
            assert forall|m: spec_fn(TilePos, T) -> bool| tile_answers_as(&can_enter, m) implies forall|p: TilePos|
                #[trigger] res@.contains(p) <==> in_component(self.passable_as(m), allow_diagonals, start, p) by {
                let mv = |p: TilePos| self.contains(p);
                let me = |p: TilePos| self.has_cell(p) && m(p, self.cell(p));
                assert(answers_as(valid, mv));
                assert(answers_as(enter, me));
                assert(both(mv, me) =~= self.passable_as(m));
            }
        }
        res
    }
}

impl<T: Clone + Default> FlatGrid<T> {
    /// Create a grid whose every tile is a clone of `T::default()`.
    pub fn new_default(width: usize, height: usize) -> (res: Self)
        requires
            width * height <= usize::MAX,
        ensures
            res.wf(),
            res.cols() == width,
            res.rows() == height,
            exists|d: T| #[trigger] res.filled_with(d),
    {
        let d = T::default();
        let res = Self::new(width, height, d);
        proof {
            assert(res.filled_with(d));
        }
        res
    }
}

} // verus!
