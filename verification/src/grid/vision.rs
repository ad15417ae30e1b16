//! Line of sight, visibility, and radius queries.

use vstd::prelude::*;

use crate::grid::pathfinding::{answers_as, holds, holds_fn, is_pure_predicate};
use crate::grid::{abs_int, TilePos};

verus! {

// ---------------------------------------------------------------------------
// Bresenham's line
// ---------------------------------------------------------------------------

/// Horizontal extent of the line.
pub open spec fn line_dx(from: TilePos, to: TilePos) -> int {
    abs_int(to.x - from.x)
}

/// Vertical extent of the line.
pub open spec fn line_dy(from: TilePos, to: TilePos) -> int {
    abs_int(to.y - from.y)
}

/// One step of Bresenham's algorithm on the state `(x, y, err)`.
pub open spec fn line_step(from: TilePos, to: TilePos, s: (int, int, int)) -> (int, int, int) {
    let dx = line_dx(from, to);
    let dy = -line_dy(from, to);
    let sx: int = if from.x < to.x { 1 } else { -1 };
    let sy: int = if from.y < to.y { 1 } else { -1 };
    let e2 = 2 * s.2;
    let x1 = if e2 >= dy { s.0 + sx } else { s.0 };
    let err1 = if e2 >= dy { s.2 + dy } else { s.2 };
    let y1 = if e2 <= dx { s.1 + sy } else { s.1 };
    let err2 = if e2 <= dx { err1 + dx } else { err1 };
    (x1, y1, err2)
}

/// The state of Bresenham's algorithm after `n` steps from `from` toward `to`.
pub open spec fn line_state(from: TilePos, to: TilePos, n: nat) -> (int, int, int)
    decreases n,
{
    if n == 0 {
        (from.x as int, from.y as int, line_dx(from, to) - line_dy(from, to))
    } else {
        line_step(from, to, line_state(from, to, (n - 1) as nat))
    }
}

/// The tile visited after `n` steps.
pub open spec fn line_point(from: TilePos, to: TilePos, n: nat) -> TilePos {
    TilePos { x: line_state(from, to, n).0 as i32, y: line_state(from, to, n).1 as i32 }
}

/// Step `n` is the first at which the line stands on `to`.
pub open spec fn line_arrives(from: TilePos, to: TilePos, n: nat) -> bool {
    &&& line_state(from, to, n).0 == to.x
    &&& line_state(from, to, n).1 == to.y
    &&& forall|m: nat|
        m < n ==> !(#[trigger] line_state(from, to, m).0 == to.x && line_state(from, to, m).1 == to.y)
}

/// `line` is the sequence of tiles Bresenham's algorithm visits from `from`
/// to `to`, both ends included.
pub open spec fn is_line(from: TilePos, to: TilePos, line: Seq<TilePos>) -> bool {
    &&& line.len() > 0
    &&& line_arrives(from, to, (line.len() - 1) as nat)
    &&& forall|i: int| 0 <= i < line.len() ==> #[trigger] line[i] == line_point(from, to, i as nat)
}

/// No tile of the line from `from` to `to`, other than `from` itself, is
/// blocked.
pub open spec fn line_clear(from: TilePos, to: TilePos, blocked: spec_fn(TilePos) -> bool) -> bool {
    forall|n: nat, i: nat|
        #![trigger line_arrives(from, to, n), line_point(from, to, i)]
        line_arrives(from, to, n) && i <= n && line_point(from, to, i) != from ==> !blocked(
            line_point(from, to, i),
        )
}

/// The line arrives at its end exactly once.
pub proof fn lemma_line_arrival_unique(from: TilePos, to: TilePos, n: nat, m: nat)
    requires
        line_arrives(from, to, n),
        line_arrives(from, to, m),
    ensures
        n == m,
{
    if n < m {
        assert(line_state(from, to, n).0 == to.x && line_state(from, to, n).1 == to.y);
    } else if m < n {
        assert(line_state(from, to, m).0 == to.x && line_state(from, to, m).1 == to.y);
    }
}

/// The line runs from `from` to `to`: its first tile is `from` and its last
/// is `to`.
pub proof fn law_line_runs_between(from: TilePos, to: TilePos, line: Seq<TilePos>)
    requires
        is_line(from, to, line),
    ensures
        line[0] == from,
        line.last() == to,
{
    assert(line[0] == line_point(from, to, 0));
    let n = (line.len() - 1) as nat;
    assert(line[n as int] == line_point(from, to, n));
}

/// Steps taken along each axis after `n` steps: `a` along x and `b` along
/// y, each toward `to`.
pub open spec fn x_steps(from: TilePos, to: TilePos, n: nat) -> int {
    if from.x < to.x {
        line_state(from, to, n).0 - from.x
    } else {
        from.x - line_state(from, to, n).0
    }
}

/// Steps taken along y after `n` steps, toward `to`.
pub open spec fn y_steps(from: TilePos, to: TilePos, n: nat) -> int {
    if from.y < to.y {
        line_state(from, to, n).1 - from.y
    } else {
        from.y - line_state(from, to, n).1
    }
}

/// Every step moves along at least one axis, toward `to`, and the error
/// term follows the steps taken.
proof fn lemma_line_progress(from: TilePos, to: TilePos, n: nat)
    ensures
        x_steps(from, to, n) >= 0,
        y_steps(from, to, n) >= 0,
        x_steps(from, to, n) + y_steps(from, to, n) >= n,
        line_state(from, to, n).2 == line_dx(from, to) * (1 + y_steps(from, to, n)) - line_dy(from, to) * (
        1 + x_steps(from, to, n)),
    decreases n,
{
    let dx = line_dx(from, to);
    let dd = line_dy(from, to);
    if n == 0 {
        assert(dx * (1 + 0int) - dd * (1 + 0int) == dx - dd) by (nonlinear_arith);
    } else {
        lemma_line_progress(from, to, (n - 1) as nat);
        let a = x_steps(from, to, (n - 1) as nat);
        let b = y_steps(from, to, (n - 1) as nat);
        let e = line_state(from, to, (n - 1) as nat).2;
        let e2 = 2 * e;
        let err1 = if e2 >= -dd { e - dd } else { e };
        let a1 = if e2 >= -dd { a + 1 } else { a };
        let b1 = if e2 <= dx { b + 1 } else { b };
        assert(x_steps(from, to, n) == a1);
        assert(y_steps(from, to, n) == b1);
        assert(dx * (1 + b) - dd * (1 + a) - dd == dx * (1 + b) - dd * (1 + (a + 1))) by (nonlinear_arith);
        assert(dx * (1 + b) + dx == dx * (1 + (b + 1))) by (nonlinear_arith);
        assert(dx * (1 + b) - dd * (2 + a) + dx == dx * (1 + (b + 1)) - dd * (1 + (a + 1))) by (nonlinear_arith);
        assert(dd >= 0 && dx >= 0);
    }
}

/// Before it arrives, the line never passes `to` on either axis.
proof fn lemma_line_within(from: TilePos, to: TilePos, n: nat, i: nat)
    requires
        line_arrives(from, to, n),
        i <= n,
    ensures
        x_steps(from, to, i) <= line_dx(from, to),
        y_steps(from, to, i) <= line_dy(from, to),
    decreases i,
{
    if i > 0 {
        let k = (i - 1) as nat;
        lemma_line_within(from, to, n, k);
        lemma_line_progress(from, to, k);
        let dx = line_dx(from, to);
        let dd = line_dy(from, to);
        let a = x_steps(from, to, k);
        let b = y_steps(from, to, k);
        let e = line_state(from, to, k).2;
        assert(!(line_state(from, to, k).0 == to.x && line_state(from, to, k).1 == to.y));
        if a == dx {
            assert(b < dd);
            assert(dx * b <= dx * (dd - 1)) by (nonlinear_arith)
                requires
                    b <= dd - 1,
                    dx >= 0,
            ;
            assert(dx * (1 + b) - dd * (1 + dx) <= -dd) by (nonlinear_arith)
                requires
                    dx * b <= dx * (dd - 1),
            ;
        }
        if b == dd {
            assert(a < dx);
            assert(dd * a <= dd * (dx - 1)) by (nonlinear_arith)
                requires
                    a <= dx - 1,
                    dd >= 0,
            ;
            assert(dx * (1 + dd) - dd * (1 + a) >= dx) by (nonlinear_arith)
                requires
                    dd * a <= dd * (dx - 1),
            ;
        }
    }
}

/// Only the first tile of the line is `from`: every later one differs.
pub proof fn lemma_line_leaves_start(from: TilePos, to: TilePos, line: Seq<TilePos>, i: int)
    requires
        is_line(from, to, line),
        1 <= i < line.len(),
    ensures
        line[i] != from,
{
    let n = (line.len() - 1) as nat;
    lemma_line_progress(from, to, i as nat);
    lemma_line_within(from, to, n, i as nat);
    assert(line[i] == line_point(from, to, i as nat));
}

/// Line of sight looks at every tile of the line but the first: it is clear
/// exactly when none of the tiles `line_positions` lists after the start
/// blocks vision.
pub proof fn law_sight_skips_only_the_start(
    from: TilePos,
    to: TilePos,
    line: Seq<TilePos>,
    blocked: spec_fn(TilePos) -> bool,
)
    requires
        is_line(from, to, line),
    ensures
        line_clear(from, to, blocked) == (forall|i: int| 1 <= i < line.len() ==> !blocked(#[trigger] line[i])),
{
    law_sight_follows_line(from, to, line, blocked);
    law_line_runs_between(from, to, line);
    assert forall|i: int| 1 <= i < line.len() implies #[trigger] line[i] != from by {
        lemma_line_leaves_start(from, to, line, i);
    }
}

/// Line of sight agrees with the line's tiles: it is clear exactly when no
/// tile listed by `line_positions`, other than the start, blocks vision.
pub proof fn law_sight_follows_line(
    from: TilePos,
    to: TilePos,
    line: Seq<TilePos>,
    blocked: spec_fn(TilePos) -> bool,
)
    requires
        is_line(from, to, line),
    ensures
        line_clear(from, to, blocked) == (forall|i: int|
            0 <= i < line.len() && #[trigger] line[i] != from ==> !blocked(line[i])),
{
    let n = (line.len() - 1) as nat;
    if line_clear(from, to, blocked) {
        assert forall|i: int| 0 <= i < line.len() && #[trigger] line[i] != from implies !blocked(line[i]) by {
            assert(line[i] == line_point(from, to, i as nat));
            assert(line_arrives(from, to, n));
        }
    }
    if forall|i: int| 0 <= i < line.len() && #[trigger] line[i] != from ==> !blocked(line[i]) {
        assert forall|m: nat, i: nat|
            line_arrives(from, to, m) && i <= m && line_point(from, to, i) != from implies !blocked(
            line_point(from, to, i),
        ) by {
            lemma_line_arrival_unique(from, to, n, m);
            assert(line[i as int] == line_point(from, to, i));
        }
    }
}

/// Facts about a running Bresenham walk: where it stands after `i`
/// horizontal and `j` vertical moves, and the error term that keeps it on the
/// line.
spec fn walk_state(from: TilePos, to: TilePos, x: int, y: int, err: int, i: int, j: int) -> bool {
    let dxa = line_dx(from, to);
    let dya = line_dy(from, to);
    let sx: int = if from.x < to.x { 1 } else { -1 };
    let sy: int = if from.y < to.y { 1 } else { -1 };
    let m = if dxa > dya { dxa } else { dya };
    &&& 0 <= i <= dxa
    &&& 0 <= j <= dya
    &&& x == from.x + sx * i
    &&& y == from.y + sy * j
    &&& err == dxa * (1 + j) - dya * (1 + i)
    &&& -dya - m <= err <= dxa + m
}

proof fn lemma_walk_step(from: TilePos, to: TilePos, x: int, y: int, err: int, i: int, j: int)
    requires
        walk_state(from, to, x, y, err, i, j),
        !(i == line_dx(from, to) && j == line_dy(from, to)),
    ensures
        ({
            let s = line_step(from, to, (x, y, err));
            let dx = line_dx(from, to);
            let dy = -line_dy(from, to);
            let e2 = 2 * err;
            let i2 = if e2 >= dy { i + 1 } else { i };
            let j2 = if e2 <= dx { j + 1 } else { j };
            &&& walk_state(from, to, s.0, s.1, s.2, i2, j2)
            &&& i2 + j2 > i + j
        }),
{
    let dxa = line_dx(from, to);
    let dya = line_dy(from, to);
    let m = if dxa > dya { dxa } else { dya };
    let sx: int = if from.x < to.x { 1 } else { -1 };
    let sy: int = if from.y < to.y { 1 } else { -1 };
    if i == dxa {
        assert(j < dya);
        assert(dxa * (1 + j) - dya * (1 + i) <= -dya) by (nonlinear_arith)
            requires
                i == dxa,
                0 <= j < dya,
                dxa >= 0,
        ;
    }
    if j == dya {
        assert(i < dxa);
        assert(dxa * (1 + j) - dya * (1 + i) >= dxa) by (nonlinear_arith)
            requires
                j == dya,
                0 <= i < dxa,
                dya >= 0,
        ;
    }
    assert(sx * (i + 1) == sx * i + sx) by (nonlinear_arith);
    assert(sy * (j + 1) == sy * j + sy) by (nonlinear_arith);
    assert(dxa * (1 + (j + 1)) == dxa * (1 + j) + dxa) by (nonlinear_arith);
    assert(dya * (1 + (i + 1)) == dya * (1 + i) + dya) by (nonlinear_arith);
}

/// The walk is at its end exactly when both extents are used up.
proof fn lemma_walk_at_end(from: TilePos, to: TilePos, x: int, y: int, err: int, i: int, j: int)
    requires
        walk_state(from, to, x, y, err, i, j),
    ensures
        (x == to.x && y == to.y) == (i == line_dx(from, to) && j == line_dy(from, to)),
{
    let sx: int = if from.x < to.x { 1 } else { -1 };
    let sy: int = if from.y < to.y { 1 } else { -1 };
    if from.x < to.x {
        assert(sx * i == i);
    } else {
        assert(sx * i == -i) by (nonlinear_arith)
            requires
                sx == -1,
        ;
    }
    if from.y < to.y {
        assert(sy * j == j);
    } else {
        assert(sy * j == -j) by (nonlinear_arith)
            requires
                sy == -1,
        ;
    }
}

/// The tiles from `from` to `to` along Bresenham's line, both ends included.
pub fn line_positions(from: TilePos, to: TilePos) -> (res: Vec<TilePos>)
    ensures
        is_line(from, to, res@),
{
    let mut positions: Vec<TilePos> = Vec::new();
    let mut x0: i64 = from.x as i64;
    let mut y0: i64 = from.y as i64;
    let x1: i64 = to.x as i64;
    let y1: i64 = to.y as i64;
    let dx: i64 = if x1 >= x0 { x1 - x0 } else { x0 - x1 };
    let dy: i64 = if y1 >= y0 { -(y1 - y0) } else { -(y0 - y1) };
    let sx: i64 = if x0 < x1 { 1 } else { -1 };
    let sy: i64 = if y0 < y1 { 1 } else { -1 };
    let mut err: i64 = dx + dy;
    let ghost mut n: nat = 0;
    let ghost mut i: int = 0;
    let ghost mut j: int = 0;
    proof {
        let a = line_dx(from, to);
        let b = line_dy(from, to);
        assert(a * (1 + 0) - b * (1 + 0) == a - b) by (nonlinear_arith);
        assert(sx * 0 == 0 && sy * 0 == 0) by (nonlinear_arith);
    }
    loop
        invariant_except_break
            positions@.len() == n,
            forall|k: int| 0 <= k < n ==> #[trigger] positions@[k] == line_point(from, to, k as nat),
        invariant
            walk_state(from, to, x0 as int, y0 as int, err as int, i, j),
            line_state(from, to, n) == (x0 as int, y0 as int, err as int),
            dx == line_dx(from, to),
            dy == -line_dy(from, to),
            x1 == to.x,
            y1 == to.y,
            sx == (if from.x < to.x { 1int } else { -1int }),
            sy == (if from.y < to.y { 1int } else { -1int }),
            forall|m: nat|
                m < n ==> !(#[trigger] line_state(from, to, m).0 == to.x && line_state(from, to, m).1
                    == to.y),
        ensures
            is_line(from, to, positions@),
        decreases line_dx(from, to) + line_dy(from, to) - i - j,
    {
        proof {
            assert(from.x <= x0 <= to.x || to.x <= x0 <= from.x) by (nonlinear_arith)
                requires
                    x0 == from.x + sx * i,
                    0 <= i <= line_dx(from, to),
                    sx == (if from.x < to.x { 1int } else { -1int }),
                    line_dx(from, to) == abs_int(to.x - from.x),
            ;
            assert(from.y <= y0 <= to.y || to.y <= y0 <= from.y) by (nonlinear_arith)
                requires
                    y0 == from.y + sy * j,
                    0 <= j <= line_dy(from, to),
                    sy == (if from.y < to.y { 1int } else { -1int }),
                    line_dy(from, to) == abs_int(to.y - from.y),
            ;
        }
        positions.push(TilePos::new(x0 as i32, y0 as i32));
        proof {
            lemma_walk_at_end(from, to, x0 as int, y0 as int, err as int, i, j);
        }
        if x0 == x1 && y0 == y1 {
            break;
        }
        proof {
            lemma_walk_step(from, to, x0 as int, y0 as int, err as int, i, j);
        }
        let e2 = 2 * err;
        if e2 >= dy {
            err += dy;
            x0 += sx;
            proof {
                i = i + 1;
            }
        }
        if e2 <= dx {
            err += dx;
            y0 += sy;
            proof {
                j = j + 1;
            }
        }
        proof {
            n = n + 1;
        }
    }
    positions
}

/// A Bresenham walk that has not yet arrived keeps going until it does.
proof fn lemma_walk_arrives(from: TilePos, to: TilePos, n: nat, i: int, j: int)
    requires
        walk_state(from, to, line_state(from, to, n).0, line_state(from, to, n).1, line_state(from, to, n).2, i, j),
        forall|m: nat|
            m < n ==> !(#[trigger] line_state(from, to, m).0 == to.x && line_state(from, to, m).1 == to.y),
    ensures
        exists|k: nat| n <= k && #[trigger] line_arrives(from, to, k),
    decreases line_dx(from, to) + line_dy(from, to) - i - j,
{
    let s = line_state(from, to, n);
    lemma_walk_at_end(from, to, s.0, s.1, s.2, i, j);
    if s.0 == to.x && s.1 == to.y {
        assert(line_arrives(from, to, n));
    } else {
        lemma_walk_step(from, to, s.0, s.1, s.2, i, j);
        let dx = line_dx(from, to);
        let dy = -line_dy(from, to);
        let e2 = 2 * s.2;
        let i2 = if e2 >= dy { i + 1 } else { i };
        let j2 = if e2 <= dx { j + 1 } else { j };
        assert(line_state(from, to, n + 1) == line_step(from, to, s));
        assert forall|m: nat| m < n + 1 implies !(#[trigger] line_state(from, to, m).0 == to.x
            && line_state(from, to, m).1 == to.y) by {
            if m < n {
            }
        }
        lemma_walk_arrives(from, to, n + 1, i2, j2);
    }
}

/// The walk visits tiles whose coordinates lie between those of its ends.
proof fn lemma_walk_in_range(from: TilePos, to: TilePos, x: int, y: int, err: int, i: int, j: int)
    requires
        walk_state(from, to, x, y, err, i, j),
    ensures
        from.x <= x <= to.x || to.x <= x <= from.x,
        from.y <= y <= to.y || to.y <= y <= from.y,
{
    let sx: int = if from.x < to.x { 1 } else { -1 };
    let sy: int = if from.y < to.y { 1 } else { -1 };
    lemma_walk_at_end(from, to, x, y, err, i, j);
    if from.x < to.x {
        assert(sx * i == i);
    } else {
        assert(sx * i == -i) by (nonlinear_arith)
            requires
                sx == -1,
        ;
    }
    if from.y < to.y {
        assert(sy * j == j);
    } else {
        assert(sy * j == -j) by (nonlinear_arith)
            requires
                sy == -1,
        ;
    }
}

fn sight_clear<F: Fn(TilePos) -> bool>(from: TilePos, to: TilePos, blocks_vision: &F) -> (res: bool)
    requires
        is_pure_predicate(*blocks_vision),
    ensures
        exists|n: nat| #[trigger] line_arrives(from, to, n),
        res == line_clear(from, to, holds_fn(*blocks_vision)),
        forall|m: spec_fn(TilePos) -> bool| answers_as(*blocks_vision, m) ==> res == line_clear(from, to, m),
{
    let ghost blocked = holds_fn(*blocks_vision);
    let mut x0: i64 = from.x as i64;
    let mut y0: i64 = from.y as i64;
    let x1: i64 = to.x as i64;
    let y1: i64 = to.y as i64;
    let dx: i64 = if x1 >= x0 { x1 - x0 } else { x0 - x1 };
    let dy: i64 = if y1 >= y0 { -(y1 - y0) } else { -(y0 - y1) };
    let sx: i64 = if x0 < x1 { 1 } else { -1 };
    let sy: i64 = if y0 < y1 { 1 } else { -1 };
    let mut err: i64 = dx + dy;
    let ghost mut n: nat = 0;
    let ghost mut i: int = 0;
    let ghost mut j: int = 0;
    proof {
        let a = line_dx(from, to);
        let b = line_dy(from, to);
        assert(a * (1 + 0) - b * (1 + 0) == a - b) by (nonlinear_arith);
        assert(sx * 0 == 0 && sy * 0 == 0) by (nonlinear_arith);
    }
    loop
        invariant
            is_pure_predicate(*blocks_vision),
            blocked == holds_fn(*blocks_vision),
            walk_state(from, to, x0 as int, y0 as int, err as int, i, j),
            line_state(from, to, n) == (x0 as int, y0 as int, err as int),
            dx == line_dx(from, to),
            dy == -line_dy(from, to),
            x1 == to.x,
            y1 == to.y,
            sx == (if from.x < to.x { 1int } else { -1int }),
            sy == (if from.y < to.y { 1int } else { -1int }),
            forall|k: nat|
                k < n && #[trigger] line_point(from, to, k) != from ==> !blocked(line_point(from, to, k)),
            forall|k: nat|
                k < n && #[trigger] line_point(from, to, k) != from ==> call_ensures(
                    *blocks_vision,
                    (line_point(from, to, k),),
                    false,
                ),
            forall|m: nat|
                m < n ==> !(#[trigger] line_state(from, to, m).0 == to.x && line_state(from, to, m).1
                    == to.y),
        decreases line_dx(from, to) + line_dy(from, to) - i - j,
    {
        proof {
            lemma_walk_in_range(from, to, x0 as int, y0 as int, err as int, i, j);
            lemma_walk_at_end(from, to, x0 as int, y0 as int, err as int, i, j);
        }
        if x0 != from.x as i64 || y0 != from.y as i64 {
            let pos = TilePos::new(x0 as i32, y0 as i32);
            if blocks_vision(pos) {
                proof {
                    assert(pos == line_point(from, to, n));
                    lemma_walk_arrives(from, to, n, i, j);
                    let k = choose|k: nat| n <= k && #[trigger] line_arrives(from, to, k);
                    assert(line_arrives(from, to, k) && n <= k && line_point(from, to, n) != from);
                    assert forall|m: spec_fn(TilePos) -> bool| answers_as(*blocks_vision, m) implies !line_clear(
                        from,
                        to,
                        m,
                    ) by {
                        assert(call_ensures(*blocks_vision, (pos,), true));
                        assert(m(line_point(from, to, n)));
                    }
                }
                return false;
            }
        }
        if x0 == x1 && y0 == y1 {
            proof {
                assert(line_arrives(from, to, n));
                assert forall|m: nat, k: nat|
                    #![trigger line_arrives(from, to, m), line_point(from, to, k)]
                    line_arrives(from, to, m) && k <= m && line_point(from, to, k) != from implies !blocked(
                    line_point(from, to, k),
                ) by {
                    lemma_line_arrival_unique(from, to, n, m);
                }
                assert forall|mm: spec_fn(TilePos) -> bool| answers_as(*blocks_vision, mm) implies line_clear(
                    from,
                    to,
                    mm,
                ) by {
                    assert forall|m: nat, k: nat|
                        #![trigger line_arrives(from, to, m), line_point(from, to, k)]
                        line_arrives(from, to, m) && k <= m && line_point(from, to, k) != from implies !mm(
                        line_point(from, to, k),
                    ) by {
                        lemma_line_arrival_unique(from, to, n, m);
                        if k < n {
                            assert(call_ensures(*blocks_vision, (line_point(from, to, k),), false));
                        } else {
                            assert(call_ensures(*blocks_vision, (line_point(from, to, n),), false));
                        }
                    }
                }
            }
            return true;
        }
        proof {
            lemma_walk_step(from, to, x0 as int, y0 as int, err as int, i, j);
        }
        let e2 = 2 * err;
        if e2 >= dy {
            err += dy;
            x0 += sx;
            proof {
                i = i + 1;
            }
        }
        if e2 <= dx {
            err += dx;
            y0 += sy;
            proof {
                j = j + 1;
            }
        }
        proof {
            n = n + 1;
        }
    }
}

/// Whether nothing blocks the view from `from` to `to` along Bresenham's
/// line. The starting tile itself never blocks; `blocks_vision` answers
/// `true` for tiles that block sight.
pub fn has_line_of_sight<F>(from: TilePos, to: TilePos, blocks_vision: F) -> (res: bool) where
    F: Fn(TilePos) -> bool,
    requires
        is_pure_predicate(blocks_vision),
    ensures
        exists|n: nat| #[trigger] line_arrives(from, to, n),
        res == line_clear(from, to, holds_fn(blocks_vision)),
        forall|m: spec_fn(TilePos) -> bool| answers_as(blocks_vision, m) ==> res == line_clear(from, to, m),
{
    sight_clear(from, to, &blocks_vision)
}

// ---------------------------------------------------------------------------
// Radius queries
// ---------------------------------------------------------------------------

/// `p` lies within `radius` of `center`: inside the square of half-width
/// `radius` and at squared distance at most `radius * radius`.
pub open spec fn in_disc(center: TilePos, radius: int, p: TilePos) -> bool {
    let dx = p.x - center.x;
    let dy = p.y - center.y;
    &&& abs_int(dx) <= radius
    &&& abs_int(dy) <= radius
    &&& dx * dx + dy * dy <= radius * radius
}

/// Radius queries can enumerate the square around `center` without leaving
/// the `i32` range.
pub open spec fn radius_fits(center: TilePos, radius: i32) -> bool {
    &&& i32::MIN < radius <= 32767
    &&& radius >= 0 ==> {
        &&& i32::MIN <= center.x - radius
        &&& center.x + radius <= i32::MAX
        &&& i32::MIN <= center.y - radius
        &&& center.y + radius <= i32::MAX
    }
}

/// Offset `(dx, dy)` from `center` comes before `(cx, cy)` in row-major order.
pub open spec fn scanned_before(center: TilePos, p: TilePos, cy: int, cx: int) -> bool {
    (p.y - center.y < cy) || (p.y - center.y == cy && p.x - center.x < cx)
}

proof fn lemma_square_bounds(dx: int, dy: int, r: int)
    requires
        0 <= r <= 32767,
        -r <= dx <= r,
        -r <= dy <= r,
    ensures
        0 <= dx * dx <= r * r,
        0 <= dy * dy <= r * r,
        r * r <= 32767 * 32767,
{
    assert(0 <= dx * dx <= r * r) by (nonlinear_arith)
        requires
            -r <= dx <= r,
    ;
    assert(0 <= dy * dy <= r * r) by (nonlinear_arith)
        requires
            -r <= dy <= r,
    ;
    assert(r * r <= 32767 * 32767) by (nonlinear_arith)
        requires
            0 <= r <= 32767,
    ;
}

/// A tile the scan keeps when `blocked` tells which tiles block sight:
/// inside the disc and, when sight is checked, in view.
spec fn disc_keep(center: TilePos, radius: i32, blocked: spec_fn(TilePos) -> bool, check_sight: bool, p: TilePos) -> bool {
    in_disc(center, radius as int, p) && (check_sight ==> line_clear(center, p, blocked))
}

/// The predicates the scan's answers follow: every predicate when sight is
/// not checked, those `blocks_vision` computes when it is.
spec fn scan_model<F: Fn(TilePos) -> bool>(blocks_vision: F, check_sight: bool, m: spec_fn(TilePos) -> bool) -> bool {
    check_sight ==> answers_as(blocks_vision, m)
}

/// `tiles` holds exactly the kept tiles scanned before offset `(cx, cy)`,
/// whichever of the scan's predicates tells what blocks sight.
spec fn scan_done<F: Fn(TilePos) -> bool>(
    tiles: Seq<TilePos>,
    center: TilePos,
    radius: i32,
    blocks_vision: F,
    check_sight: bool,
    cy: int,
    cx: int,
) -> bool {
    forall|m: spec_fn(TilePos) -> bool|
        #[trigger] scan_model(blocks_vision, check_sight, m) ==> forall|p: TilePos|
            #[trigger] tiles.contains(p) <==> (disc_keep(center, radius, m, check_sight, p) && scanned_before(
                center,
                p,
                cy,
                cx,
            ))
}

/// Scan the square around `center` row by row and keep each tile within the
/// radius that is in view, when `check_sight` asks for sight.
fn scan_disc<F: Fn(TilePos) -> bool>(
    center: TilePos,
    radius: i32,
    blocks_vision: &F,
    check_sight: bool,
) -> (res: Vec<TilePos>)
    requires
        radius_fits(center, radius),
        check_sight ==> is_pure_predicate(*blocks_vision),
    ensures
        res@.no_duplicates(),
        forall|m: spec_fn(TilePos) -> bool|
            #[trigger] scan_model(*blocks_vision, check_sight, m) ==> forall|p: TilePos|
                #[trigger] res@.contains(p) <==> disc_keep(center, radius, m, check_sight, p),
{
    let mut tiles: Vec<TilePos> = Vec::new();
    if radius < 0 {
        proof {
            assert forall|m: spec_fn(TilePos) -> bool| #[trigger] scan_model(*blocks_vision, check_sight, m) implies forall|p: TilePos|
                #[trigger] tiles@.contains(p) <==> disc_keep(center, radius, m, check_sight, p) by {
                assert forall|p: TilePos| #[trigger] tiles@.contains(p) <==> disc_keep(center, radius, m, check_sight, p) by {
                    assert(!in_disc(center, radius as int, p));
                }
            }
        }
        return tiles;
    }
    let mut dy: i32 = -radius;
    proof {
        assert forall|m: spec_fn(TilePos) -> bool| #[trigger] scan_model(*blocks_vision, check_sight, m) implies forall|p: TilePos|
            #[trigger] tiles@.contains(p) <==> (disc_keep(center, radius, m, check_sight, p) && scanned_before(
            center,
            p,
            dy as int,
            -radius as int,
        )) by {
            assert forall|p: TilePos| #[trigger] tiles@.contains(p) <==> (disc_keep(center, radius, m, check_sight, p)
                && scanned_before(center, p, dy as int, -radius as int)) by {
                if disc_keep(center, radius, m, check_sight, p) {
                    assert(in_disc(center, radius as int, p));
                }
            }
        }
    }
    while dy <= radius
        invariant
            radius_fits(center, radius),
            check_sight ==> is_pure_predicate(*blocks_vision),
            -radius <= dy,
            dy <= radius + 1,
            tiles@.no_duplicates(),
            scan_done(tiles@, center, radius, *blocks_vision, check_sight, dy as int, -radius as int),
        decreases radius + 1 - dy,
    {
        let mut dx: i32 = -radius;
        while dx <= radius
            invariant
                radius_fits(center, radius),
                check_sight ==> is_pure_predicate(*blocks_vision),
                -radius <= dy <= radius,
                -radius <= dx <= radius + 1,
                tiles@.no_duplicates(),
                scan_done(tiles@, center, radius, *blocks_vision, check_sight, dy as int, dx as int),
            decreases radius + 1 - dx,
        {
            proof {
                lemma_square_bounds(dx as int, dy as int, radius as int);
            }
            let ghost old_tiles = tiles@;
            let distance_sq = dx * dx + dy * dy;
            if distance_sq <= radius * radius {
                let target = TilePos::new(center.x + dx, center.y + dy);
                let visible = if check_sight {
                    sight_clear(center, target, blocks_vision)
                } else {
                    true
                };
                proof {
                    assert(in_disc(center, radius as int, target));
                    assert forall|p: TilePos|
                        p.y - center.y == dy && p.x - center.x == dx implies p == target by {}
                }
                if visible {
                    proof {
                        assert forall|m: spec_fn(TilePos) -> bool| #[trigger] scan_model(*blocks_vision, check_sight, m) implies !old_tiles.contains(target) by {
                            assert(!scanned_before(center, target, dy as int, dx as int));
                        }
                        assert(scan_model(*blocks_vision, check_sight, |p: TilePos| false) || check_sight);
                        if !check_sight {
                            assert(scan_model(*blocks_vision, check_sight, |p: TilePos| false));
                        } else {
                            assert(scan_model(*blocks_vision, check_sight, holds_fn(*blocks_vision)));
                        }
                        assert(!old_tiles.contains(target));
                    }
                    tiles.push(target);
                    proof {
                        assert forall|a: int, b: int| 0 <= a < b < tiles@.len() implies tiles@[a] != tiles@[b] by {
                            if b == old_tiles.len() {
                                assert(old_tiles.contains(tiles@[a]));
                            }
                        }
                        assert forall|m: spec_fn(TilePos) -> bool| #[trigger] scan_model(*blocks_vision, check_sight, m) implies forall|p: TilePos|
                            #[trigger] tiles@.contains(p) <==> (disc_keep(center, radius, m, check_sight, p) && scanned_before(
                            center,
                            p,
                            dy as int,
                            dx + 1,
                        )) by {
                            assert(disc_keep(center, radius, m, check_sight, target));
                            assert forall|p: TilePos| #[trigger] tiles@.contains(p) <==> (disc_keep(center, radius, m, check_sight, p)
                                && scanned_before(center, p, dy as int, dx + 1)) by {
                                assert(old_tiles.contains(p) <==> (disc_keep(center, radius, m, check_sight, p) && scanned_before(
                                    center,
                                    p,
                                    dy as int,
                                    dx as int,
                                )));
                                if tiles@.contains(p) && p != target {
                                    let k = tiles@.index_of(p);
                                    assert(old_tiles[k] == p);
                                }
                                if old_tiles.contains(p) {
                                    let k = old_tiles.index_of(p);
                                    assert(tiles@[k] == p);
                                }
                                if p == target {
                                    assert(tiles@[old_tiles.len() as int] == p);
                                }
                            }
                        }
                    }
                } else {
                    proof {
                        assert forall|m: spec_fn(TilePos) -> bool| #[trigger] scan_model(*blocks_vision, check_sight, m) implies forall|p: TilePos|
                            #[trigger] tiles@.contains(p) <==> (disc_keep(center, radius, m, check_sight, p) && scanned_before(
                            center,
                            p,
                            dy as int,
                            dx + 1,
                        )) by {
                            assert(!disc_keep(center, radius, m, check_sight, target));
                            assert forall|p: TilePos| #[trigger] tiles@.contains(p) <==> (disc_keep(center, radius, m, check_sight, p)
                                && scanned_before(center, p, dy as int, dx + 1)) by {
                                assert(old_tiles.contains(p) <==> (disc_keep(center, radius, m, check_sight, p) && scanned_before(
                                    center,
                                    p,
                                    dy as int,
                                    dx as int,
                                )));
                                if p.y - center.y == dy && p.x - center.x == dx {
                                    assert(p == target);
                                }
                            }
                        }
                    }
                }
            } else {
                proof {
                    assert forall|m: spec_fn(TilePos) -> bool| #[trigger] scan_model(*blocks_vision, check_sight, m) implies forall|p: TilePos|
                        #[trigger] tiles@.contains(p) <==> (disc_keep(center, radius, m, check_sight, p) && scanned_before(
                        center,
                        p,
                        dy as int,
                        dx + 1,
                    )) by {
                        assert forall|p: TilePos| #[trigger] tiles@.contains(p) <==> (disc_keep(center, radius, m, check_sight, p)
                            && scanned_before(center, p, dy as int, dx + 1)) by {
                            assert(old_tiles.contains(p) <==> (disc_keep(center, radius, m, check_sight, p) && scanned_before(
                                center,
                                p,
                                dy as int,
                                dx as int,
                            )));
                            if p.y - center.y == dy && p.x - center.x == dx {
                                assert((p.x - center.x) * (p.x - center.x) + (p.y - center.y) * (p.y
                                    - center.y) == distance_sq);
                                assert(!in_disc(center, radius as int, p));
                            }
                        }
                    }
                }
            }
            dx += 1;
        }
        proof {
            let ghost cur = tiles@;
            assert forall|m: spec_fn(TilePos) -> bool| #[trigger] scan_model(*blocks_vision, check_sight, m) implies forall|p: TilePos|
                #[trigger] cur.contains(p) <==> (disc_keep(center, radius, m, check_sight, p) && scanned_before(
                center,
                p,
                dy + 1,
                -radius as int,
            )) by {
                assert forall|p: TilePos| #[trigger] cur.contains(p) <==> (disc_keep(center, radius, m, check_sight, p)
                    && scanned_before(center, p, dy + 1, -radius as int)) by {
                    assert(cur.contains(p) <==> (disc_keep(center, radius, m, check_sight, p) && scanned_before(
                        center,
                        p,
                        dy as int,
                        dx as int,
                    )));
                    if disc_keep(center, radius, m, check_sight, p) {
                        assert(in_disc(center, radius as int, p));
                    }
                }
            }
        }
        dy += 1;
    }
    proof {
        let ghost cur = tiles@;
        assert forall|m: spec_fn(TilePos) -> bool| #[trigger] scan_model(*blocks_vision, check_sight, m) implies forall|p: TilePos|
            #[trigger] cur.contains(p) <==> disc_keep(center, radius, m, check_sight, p) by {
            assert forall|p: TilePos| #[trigger] cur.contains(p) <==> disc_keep(center, radius, m, check_sight, p) by {
                assert(cur.contains(p) <==> (disc_keep(center, radius, m, check_sight, p) && scanned_before(
                    center,
                    p,
                    dy as int,
                    -radius as int,
                )));
                if disc_keep(center, radius, m, check_sight, p) {
                    assert(in_disc(center, radius as int, p));
                }
            }
        }
    }
    tiles
}

/// Every tile within `radius` of `center` that can be seen from it, each
/// listed once. `blocks_vision` answers `true` for tiles that block sight.
pub fn calculate_visible_tiles<F>(center: TilePos, radius: i32, blocks_vision: F) -> (res: Vec<
    TilePos,
>) where F: Fn(TilePos) -> bool
    requires
        radius_fits(center, radius),
        is_pure_predicate(blocks_vision),
    ensures
        res@.no_duplicates(),
        forall|p: TilePos|
            #[trigger] res@.contains(p) <==> (in_disc(center, radius as int, p) && line_clear(
                center,
                p,
                holds_fn(blocks_vision),
            )),
        forall|m: spec_fn(TilePos) -> bool|
            answers_as(blocks_vision, m) ==> forall|p: TilePos|
                #[trigger] res@.contains(p) <==> (in_disc(center, radius as int, p) && line_clear(center, p, m)),
{
    let res = scan_disc(center, radius, &blocks_vision, true);
    proof {
        assert(scan_model(blocks_vision, true, holds_fn(blocks_vision)));
        assert forall|m: spec_fn(TilePos) -> bool| answers_as(blocks_vision, m) implies forall|p: TilePos|
            #[trigger] res@.contains(p) <==> (in_disc(center, radius as int, p) && line_clear(center, p, m)) by {
            assert(scan_model(blocks_vision, true, m));
        }
    }
    res
}

/// Every tile within `radius` of `center`, each listed once, without
/// line-of-sight checks.
pub fn tiles_in_radius(center: TilePos, radius: i32) -> (res: Vec<TilePos>)
    requires
        radius_fits(center, radius),
    ensures
        res@.no_duplicates(),
        forall|p: TilePos| #[trigger] res@.contains(p) <==> in_disc(center, radius as int, p),
{
    let never = |p: TilePos| -> (r: bool) ensures !r { false };
    let res = scan_disc(center, radius, &never, false);
    proof {
        assert(scan_model(never, false, |p: TilePos| false));
    }
    res
}

} // verus!
