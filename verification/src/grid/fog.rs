//! Fog-of-war state tracking.

use vstd::prelude::*;

use crate::grid::flat_grid::{flat_pos, FlatGrid};
use crate::grid::vec_grid::{grid_pos, Grid};
use crate::grid::TilePos;

verus! {

/// Fog of war state for a tile.
#[derive(Debug, Clone, Copy, PartialEq, Eq, Structural)]
pub enum FogState {
    /// Tile has never been seen
    Hidden,
    /// Tile was seen before but is not currently visible
    Revealed,
    /// Tile is currently visible
    Visible,
}

impl Default for FogState {
    /// A tile starts out never seen.
    fn default() -> (res: Self)
        ensures
            res == FogState::Hidden,
    {
        FogState::Hidden
    }
}

/// The state of a tile after a frame in which it was seen or not: seen tiles
/// become `Visible`, tiles that were `Visible` and are no longer seen become
/// `Revealed`, and the rest keep their state.
pub open spec fn fog_next(state: FogState, seen: bool) -> FogState {
    if seen {
        FogState::Visible
    } else if state == FogState::Visible {
        FogState::Revealed
    } else {
        state
    }
}

/// A tile is `Visible` after an update exactly when it was seen.
pub proof fn law_fog_visible_iff_seen(state: FogState, seen: bool)
    ensures
        (fog_next(state, seen) == FogState::Visible) == seen,
{
}

/// Once a tile has been seen it never becomes `Hidden` again.
pub proof fn law_fog_never_rehides(state: FogState, seen: bool)
    ensures
        fog_next(state, seen) == FogState::Hidden ==> state == FogState::Hidden && !seen,
{
}

/// Whether `pos` is one of the `visible` positions.
fn is_listed(visible: &[TilePos], pos: TilePos) -> (res: bool)
    ensures
        res == visible@.contains(pos),
{
    let mut i: usize = 0;
    while i < visible.len()
        invariant
            i <= visible@.len(),
            forall|j: int| 0 <= j < i ==> visible@[j] != pos,
        decreases visible@.len() - i,
    {
        if visible[i] == pos {
            proof {
                assert(visible@[i as int] == pos);
            }
            return true;
        }
        i += 1;
    }
    false
}

/// Update fog states from the positions currently visible.
///
/// Previously `Visible` tiles become `Revealed` when not visible this frame;
/// `Hidden` tiles stay hidden until they become visible. Every tile held is
/// updated, row by row.
pub fn update_fog_states(grid: &mut Grid<FogState>, visible: &[TilePos])
    ensures
        final(grid).cols() == old(grid).cols(),
        final(grid).rows() == old(grid).rows(),
        final(grid)@.len() == old(grid)@.len(),
        forall|y: int| 0 <= y < old(grid)@.len() ==> (#[trigger] final(grid)@[y]).len() == old(grid)@[y].len(),
        forall|y: int, x: int|
            0 <= y < old(grid)@.len() && 0 <= x < old(grid)@[y].len() ==> #[trigger] final(grid)@[y][x] == fog_next(
                old(grid)@[y][x],
                visible@.contains(grid_pos(x, y)),
            ),
        old(grid).wf() ==> final(grid).wf(),
{
    let ghost before = grid@;
    let height = grid.row_count();
    let mut y: usize = 0;
    while y < height
        invariant
            grid.cols() == old(grid).cols(),
            grid.rows() == old(grid).rows(),
            before == old(grid)@,
            height == before.len() == grid@.len(),
            forall|yy: int| 0 <= yy < height ==> (#[trigger] grid@[yy]).len() == before[yy].len(),
            y <= height,
            forall|yy: int, x: int|
                0 <= yy < height && 0 <= x < before[yy].len() ==> #[trigger] grid@[yy][x] == if yy < y {
                    fog_next(before[yy][x], visible@.contains(grid_pos(x, yy)))
                } else {
                    before[yy][x]
                },
        decreases height - y,
    {
        let width = grid.row_len(y);
        let mut x: usize = 0;
        while x < width
            invariant
                grid.cols() == old(grid).cols(),
                grid.rows() == old(grid).rows(),
                before == old(grid)@,
                height == before.len() == grid@.len(),
                forall|yy: int| 0 <= yy < height ==> (#[trigger] grid@[yy]).len() == before[yy].len(),
                y < height,
                width == before[y as int].len(),
                x <= width,
                forall|yy: int, xx: int|
                    0 <= yy < height && 0 <= xx < before[yy].len() ==> #[trigger] grid@[yy][xx] == if yy < y || (yy
                        == y && xx < x) {
                        fog_next(before[yy][xx], visible@.contains(grid_pos(xx, yy)))
                    } else {
                        before[yy][xx]
                    },
            decreases width - x,
        {
            let pos = TilePos::new(x as i32, y as i32);
            let fog = *grid.cell_at(y, x);
            let next = if is_listed(visible, pos) {
                FogState::Visible
            } else if fog == FogState::Visible {
                FogState::Revealed
            } else {
                fog
            };
            grid.set_cell(y, x, next);
            x += 1;
        }
        y += 1;
    }
    proof {
        if old(grid).wf() {
            assert forall|yy: int| 0 <= yy < grid.rows() implies (#[trigger] grid@[yy]).len() == grid.cols() by {
                assert(before[yy].len() == grid.cols());
            }
        }
    }
}

/// Update flat fog states from the positions currently visible.
pub fn update_flat_fog_states(grid: &mut FlatGrid<FogState>, visible: &[TilePos])
    requires
        old(grid).cols() > 0 || old(grid)@.len() == 0,
    ensures
        final(grid)@.len() == old(grid)@.len(),
        old(grid).wf() ==> final(grid).wf(),
        final(grid).cols() == old(grid).cols(),
        final(grid).rows() == old(grid).rows(),
        forall|i: int|
            0 <= i < old(grid)@.len() ==> #[trigger] final(grid)@[i] == fog_next(
                old(grid)@[i],
                visible@.contains(flat_pos(i, old(grid).cols() as int)),
            ),
{
    let ghost before = grid@;
    let n = grid.len();
    let (width, _) = grid.dims();
    let mut i: usize = 0;
    while i < n
        invariant
            grid@.len() == n == before.len(),
            grid.cols() == old(grid).cols() == width,
            grid.rows() == old(grid).rows(),
            before == old(grid)@,
            width > 0 || n == 0,
            i <= n,
            forall|j: int|
                0 <= j < n ==> #[trigger] grid@[j] == if j < i {
                    fog_next(before[j], visible@.contains(flat_pos(j, width as int)))
                } else {
                    before[j]
                },
        decreases n - i,
    {
        let pos = TilePos::from_index(i, width);
        let fog = *grid.at(i);
        let next = if is_listed(visible, pos) {
            FogState::Visible
        } else if fog == FogState::Visible {
            FogState::Revealed
        } else {
            fog
        };
        grid.set_at(i, next);
        i += 1;
    }
}

} // verus!
