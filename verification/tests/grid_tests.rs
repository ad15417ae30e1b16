use macroquad_toolkit::grid::fog::{update_flat_fog_states, update_fog_states, FogState};
use macroquad_toolkit::grid::flat_grid::FlatGrid;
use macroquad_toolkit::grid::pathfinding::{bfs_path, flood_fill, reachable_within};
use macroquad_toolkit::grid::vec_grid::Grid;
use macroquad_toolkit::grid::vision::{
    calculate_visible_tiles, has_line_of_sight, line_positions, tiles_in_radius,
};
use macroquad_toolkit::grid::TilePos;

#[test]
fn test_grid_basic() {
    let mut grid: Grid<i32> = Grid::new(10, 10, 0);

    assert!(grid.is_valid(TilePos::new(5, 5)));
    assert!(!grid.is_valid(TilePos::new(10, 10)));
    assert!(!grid.is_valid(TilePos::new(-1, 0)));

    grid.set(TilePos::new(5, 5), 42);
    assert_eq!(*grid.get(TilePos::new(5, 5)).unwrap(), 42);
}

#[test]
fn test_line_of_sight() {
    // No blockers
    let visible = has_line_of_sight(TilePos::new(0, 0), TilePos::new(5, 5), |_| false);
    assert!(visible);

    // Blocker at (2, 2)
    let blocked = has_line_of_sight(TilePos::new(0, 0), TilePos::new(5, 5), |pos| {
        pos == TilePos::new(2, 2)
    });
    assert!(!blocked);
}

#[test]
fn test_neighbors() {
    let grid: Grid<i32> = Grid::new(5, 5, 0);
    let center = TilePos::new(2, 2);

    let n4 = grid.neighbors_4way(center);
    assert_eq!(n4.len(), 4);

    let n8 = grid.neighbors_8way(center);
    assert_eq!(n8.len(), 8);

    // Corner should have fewer neighbors
    let corner = TilePos::new(0, 0);
    let corner_n4 = grid.neighbors_4way(corner);
    assert_eq!(corner_n4.len(), 2);
}

#[test]
fn test_flat_grid_indexing() {
    let mut grid = FlatGrid::new(4, 3, 0);
    let pos = TilePos::new(2, 1);

    assert_eq!(grid.index(pos), Some(6));
    assert_eq!(grid.pos_from_index(6), Some(pos));

    assert!(grid.set(pos, 9));
    assert_eq!(grid.get(pos), Some(&9));
    assert!(!grid.set(TilePos::new(9, 9), 1));
}

#[test]
fn test_bfs_path_and_flood_fill() {
    let mut grid = FlatGrid::new(5, 5, true);
    for y in 0..4 {
        grid.set(TilePos::new(2, y), false);
    }

    let path = grid
        .bfs_path(TilePos::new(0, 2), TilePos::new(4, 2), false, |_, tile| *tile)
        .unwrap();
    assert_eq!(path.first().copied(), Some(TilePos::new(0, 2)));
    assert_eq!(path.last().copied(), Some(TilePos::new(4, 2)));
    assert!(path.contains(&TilePos::new(2, 4)));

    let reachable = grid.flood_fill(TilePos::new(0, 0), false, |_, tile| *tile);
    assert!(reachable.contains(&TilePos::new(4, 4)));
    assert!(!reachable.contains(&TilePos::new(2, 2)));
}

#[test]
fn test_fog_update() {
    let mut grid = Grid::new(3, 3, FogState::Hidden);
    let visible = vec![TilePos::new(1, 1)];

    update_fog_states(&mut grid, &visible);
    assert_eq!(grid.get(TilePos::new(1, 1)), Some(&FogState::Visible));

    update_fog_states(&mut grid, &[]);
    assert_eq!(grid.get(TilePos::new(1, 1)), Some(&FogState::Revealed));
}

#[test]
fn manhattan_distance_adds_axis_gaps() {
    let a = TilePos::new(0, 0);
    let b = TilePos::new(3, -4);
    assert_eq!(a.manhattan_distance(&b), 7);
    assert_eq!(b.manhattan_distance(&a), 7);
    assert_eq!(a.manhattan_distance(&a), 0);
}

#[test]
fn test_tile_pos() {
    let pos1 = TilePos::new(0, 0);
    let pos2 = TilePos::new(3, 4);
    assert_eq!(pos1.manhattan_distance(&pos2), 7);
}

#[test]
fn tile_pos_converts_to_and_from_pairs() {
    let p = TilePos::from((3, -2));
    assert_eq!(p, TilePos::new(3, -2));
    let xy: (i32, i32) = p.into();
    assert_eq!(xy, (3, -2));
}

#[test]
fn neighbor_arrays_come_in_compass_order() {
    let p = TilePos::new(1, 1);
    assert_eq!(
        p.neighbors_4way(),
        [TilePos::new(1, 0), TilePos::new(2, 1), TilePos::new(1, 2), TilePos::new(0, 1)]
    );
    let n8 = p.neighbors_8way();
    assert_eq!(n8[0], TilePos::new(1, 0));
    assert_eq!(n8[1], TilePos::new(2, 0));
    assert_eq!(n8[7], TilePos::new(0, 0));
}

#[test]
fn index_conversions_round_trip() {
    let p = TilePos::new(2, 3);
    assert!(p.in_bounds(4, 4));
    assert!(!p.in_bounds(2, 4));
    assert_eq!(p.to_index(4), Some(14));
    assert_eq!(TilePos::new(-1, 0).to_index(4), None);
    assert_eq!(TilePos::from_index(14, 4), p);
}

#[test]
fn grid_from_rows_takes_first_row_width() {
    let grid = Grid::from_vec(vec![vec![1, 2, 3], vec![4, 5, 6]]);
    assert_eq!(grid.width, 3);
    assert_eq!(grid.height, 2);
    assert_eq!(grid.get(TilePos::new(2, 1)), Some(&6));
    assert_eq!(grid.get(TilePos::new(3, 0)), None);
    let empty: Grid<i32> = Grid::from_vec(Vec::new());
    assert_eq!(empty.width, 0);
    assert_eq!(empty.height, 0);
}

#[test]
fn fill_region_clips_to_grid() {
    let mut grid = Grid::new(4, 3, 0);
    grid.fill_region(TilePos::new(-5, 1), TilePos::new(2, 10), 7);
    let cells: Vec<i32> = grid.iter_with_pos().into_iter().map(|(_, v)| *v).collect();
    assert_eq!(cells, vec![0, 0, 0, 0, 7, 7, 0, 0, 7, 7, 0, 0]);
    grid.fill(1);
    assert!(grid.data().iter().all(|row| row.iter().all(|v| *v == 1)));
}

#[test]
fn grid_iter_mut_writes_back() {
    let mut grid = Grid::new(3, 2, 0);
    for (pos, cell) in grid.iter_mut_with_pos() {
        *cell = pos.x + 10 * pos.y;
    }
    assert_eq!(grid.get(TilePos::new(2, 1)), Some(&12));
    assert_eq!(grid.get(TilePos::new(1, 0)), Some(&1));
    let positions: Vec<TilePos> = grid.iter_with_pos().into_iter().map(|(p, _)| p).collect();
    assert_eq!(positions[4], TilePos::new(1, 1));
}

#[test]
fn flat_grid_iter_mut_writes_back() {
    let mut grid = FlatGrid::new(3, 2, 0);
    for (pos, cell) in grid.iter_mut_with_pos() {
        *cell = pos.x + 10 * pos.y;
    }
    assert_eq!(grid.data(), &[0, 1, 2, 10, 11, 12]);
    let positions: Vec<TilePos> = grid.iter_with_pos().into_iter().map(|(p, _)| p).collect();
    assert_eq!(positions[5], TilePos::new(2, 1));
}

#[test]
fn flat_grid_rejects_wrong_length() {
    let err = FlatGrid::from_vec(3, 2, vec![0; 5]).unwrap_err();
    assert_eq!(err, "FlatGrid data length 5 does not match 3x2");
    let grid = FlatGrid::from_vec(3, 2, vec![1; 6]).unwrap();
    assert_eq!(grid.get(TilePos::new(2, 1)), Some(&1));
    assert_eq!(grid.pos_from_index(6), None);
    assert_eq!(grid.index(TilePos::new(3, 0)), None);
}

#[test]
fn flat_grid_neighbors_stay_inside() {
    let grid = FlatGrid::new(3, 3, 0u8);
    assert_eq!(grid.neighbors_4way(TilePos::new(0, 0)).len(), 2);
    assert_eq!(grid.neighbors_8way(TilePos::new(0, 0)).len(), 3);
    assert_eq!(grid.neighbors_8way(TilePos::new(1, 1)).len(), 8);
}

#[test]
fn flat_fog_keeps_revealed_tiles() {
    let mut grid = FlatGrid::new(2, 2, FogState::default());
    assert_eq!(FogState::default(), FogState::Hidden);
    update_flat_fog_states(&mut grid, &[TilePos::new(0, 0), TilePos::new(1, 1)]);
    update_flat_fog_states(&mut grid, &[TilePos::new(1, 1)]);
    assert_eq!(grid.get(TilePos::new(0, 0)), Some(&FogState::Revealed));
    assert_eq!(grid.get(TilePos::new(1, 1)), Some(&FogState::Visible));
    assert_eq!(grid.get(TilePos::new(1, 0)), Some(&FogState::Hidden));
}

#[test]
fn bfs_finds_a_shortest_walk() {
    let walls = [TilePos::new(1, 0), TilePos::new(1, 1)];
    let path = bfs_path(
        TilePos::new(0, 0),
        TilePos::new(2, 0),
        false,
        |p| p.x >= 0 && p.y >= 0 && p.x < 3 && p.y < 3,
        |p| !walls.contains(&p),
    )
    .unwrap();
    assert_eq!(path.len(), 7);
    assert_eq!(path[0], TilePos::new(0, 0));
    assert_eq!(path[6], TilePos::new(2, 0));
    let diag = bfs_path(
        TilePos::new(0, 0),
        TilePos::new(2, 2),
        true,
        |p| p.x >= 0 && p.y >= 0 && p.x < 3 && p.y < 3,
        |_| true,
    )
    .unwrap();
    assert_eq!(diag.len(), 3);
    let same = bfs_path(TilePos::new(1, 1), TilePos::new(1, 1), false, |_| true, |_| true).unwrap();
    assert_eq!(same, vec![TilePos::new(1, 1)]);
}

#[test]
fn bfs_reports_unreachable_goal() {
    let none = bfs_path(
        TilePos::new(0, 0),
        TilePos::new(2, 0),
        false,
        |p| p.x >= 0 && p.y >= 0 && p.x < 3 && p.y < 1,
        |p| p.x != 1,
    );
    assert_eq!(none, None);
}

#[test]
fn flood_fill_covers_the_component() {
    let region = flood_fill(
        TilePos::new(0, 0),
        false,
        |p| p.x >= 0 && p.y >= 0 && p.x < 3 && p.y < 3,
        |p| p.x != 1,
    );
    assert_eq!(region.len(), 3);
    assert!(region.contains(&TilePos::new(0, 2)));
    assert!(!region.contains(&TilePos::new(2, 0)));
    let blocked = flood_fill(TilePos::new(1, 0), false, |_| true, |p| p.x != 1);
    assert!(blocked.is_empty());
}

#[test]
fn reachable_within_gives_step_counts() {
    let mut found = reachable_within(
        TilePos::new(0, 0),
        2,
        false,
        |p| p.x >= 0 && p.y >= 0 && p.x < 5 && p.y < 5,
        |_| true,
    );
    found.sort_by_key(|(p, d)| (*d, p.x, p.y));
    assert_eq!(found.len(), 6);
    assert_eq!(found[0], (TilePos::new(0, 0), 0));
    assert!(found.contains(&(TilePos::new(1, 1), 2)));
    assert!(found.contains(&(TilePos::new(0, 1), 1)));
}

#[test]
fn line_positions_follow_bresenham() {
    let line = line_positions(TilePos::new(0, 0), TilePos::new(4, 2));
    assert_eq!(
        line,
        vec![
            TilePos::new(0, 0),
            TilePos::new(1, 1),
            TilePos::new(2, 1),
            TilePos::new(3, 2),
            TilePos::new(4, 2)
        ]
    );
    assert_eq!(line_positions(TilePos::new(3, 3), TilePos::new(3, 3)), vec![TilePos::new(3, 3)]);
}

#[test]
fn sight_ignores_only_the_start() {
    let from = TilePos::new(0, 0);
    let to = TilePos::new(3, 0);
    assert!(has_line_of_sight(from, to, |p| p == from));
    assert!(!has_line_of_sight(from, to, |p| p == to));
    assert!(!has_line_of_sight(from, to, |p| p == TilePos::new(1, 0)));
}

#[test]
fn tiles_in_radius_is_a_disc() {
    let tiles = tiles_in_radius(TilePos::new(0, 0), 1);
    assert_eq!(tiles.len(), 5);
    assert!(tiles.contains(&TilePos::new(0, -1)));
    assert!(!tiles.contains(&TilePos::new(1, 1)));
    assert_eq!(tiles_in_radius(TilePos::new(2, 2), 0), vec![TilePos::new(2, 2)]);
}

#[test]
fn visible_tiles_stop_behind_walls() {
    let wall = TilePos::new(1, 0);
    let seen = calculate_visible_tiles(TilePos::new(0, 0), 2, |p| p == wall);
    assert_eq!(seen.len(), 11);
    assert!(!seen.contains(&wall));
    assert!(!seen.contains(&TilePos::new(2, 0)));
    assert!(seen.contains(&TilePos::new(0, 2)));
    assert!(seen.contains(&TilePos::new(1, 1)));
    assert!(seen.contains(&TilePos::new(0, 0)));
}

#[test]
fn ragged_rows_are_walked_as_they_are() {
    let mut grid = Grid::from_vec(vec![vec![1, 2], vec![3]]);
    assert_eq!(grid.width, 2);
    assert_eq!(grid.height, 2);
    let seen: Vec<(TilePos, i32)> = grid.iter_with_pos().into_iter().map(|(p, v)| (p, *v)).collect();
    assert_eq!(
        seen,
        vec![(TilePos::new(0, 0), 1), (TilePos::new(1, 0), 2), (TilePos::new(0, 1), 3)]
    );
    for (_, cell) in grid.iter_mut_with_pos() {
        *cell *= 10;
    }
    assert_eq!(grid.data(), &vec![vec![10, 20], vec![30]]);
    grid.fill(5);
    assert_eq!(grid.data(), &vec![vec![5, 5], vec![5]]);
    assert_eq!(grid.get(TilePos::new(0, 1)), Some(&5));
}

#[test]
fn path_found_exactly_when_goal_is_filled() {
    let valid = |p: TilePos| p.x >= 0 && p.y >= 0 && p.x < 4 && p.y < 3;
    let enter = |p: TilePos| p != TilePos::new(2, 0) && p != TilePos::new(2, 1) && p != TilePos::new(2, 2);
    let region = flood_fill(TilePos::new(0, 0), false, valid, enter);
    for goal in [TilePos::new(1, 2), TilePos::new(3, 0)] {
        let path = bfs_path(TilePos::new(0, 0), goal, false, valid, enter);
        assert_eq!(path.is_some(), region.contains(&goal));
    }
}

#[test]
fn step_counts_match_shortest_walks() {
    let valid = |p: TilePos| p.x >= 0 && p.y >= 0 && p.x < 4 && p.y < 4;
    let enter = |p: TilePos| p != TilePos::new(1, 1) && p != TilePos::new(1, 0);
    let steps = reachable_within(TilePos::new(0, 0), 10, false, valid, enter);
    for (pos, d) in steps {
        let path = bfs_path(TilePos::new(0, 0), pos, false, valid, enter).unwrap();
        assert_eq!(path.len(), d + 1);
    }
}

#[test]
fn lines_run_from_start_to_end() {
    for (a, b) in [((0, 0), (7, -3)), ((2, 5), (-4, 1)), ((1, 1), (1, 9))] {
        let from = TilePos::new(a.0, a.1);
        let to = TilePos::new(b.0, b.1);
        let line = line_positions(from, to);
        assert_eq!(line[0], from);
        assert_eq!(*line.last().unwrap(), to);
    }
}

#[test]
fn flat_grid_reads_nothing_past_its_tiles() {
    let mut grid = FlatGrid::new(2, 2, 7u8);
    grid.height = 5;
    assert!(grid.is_valid(TilePos::new(0, 4)));
    assert_eq!(grid.index(TilePos::new(0, 4)), Some(8));
    assert_eq!(grid.get(TilePos::new(0, 4)), None);
    assert_eq!(grid.get_mut(TilePos::new(1, 3)), None);
    assert_eq!(grid.get(TilePos::new(1, 1)), Some(&7));
    let region = grid.flood_fill(TilePos::new(0, 0), false, |_, _| true);
    assert_eq!(region.len(), 4);
}

#[test]
fn fill_region_with_negative_max_changes_nothing() {
    let mut grid = Grid::new(3, 2, 0);
    grid.fill_region(TilePos::new(0, 0), TilePos::new(-1, -1), 9);
    assert!(grid.data().iter().all(|row| row.iter().all(|v| *v == 0)));
    grid.fill_region(TilePos::new(0, 0), TilePos::new(2, -3), 9);
    assert!(grid.data().iter().all(|row| row.iter().all(|v| *v == 0)));
    grid.fill_region(TilePos::new(-4, -4), TilePos::new(1, 1), 9);
    assert_eq!(grid.get(TilePos::new(0, 0)), Some(&9));
    assert_eq!(grid.get(TilePos::new(1, 0)), Some(&0));
}

#[test]
fn bfs_rejects_blocked_goal_in_open_plane() {
    let none = bfs_path(TilePos::new(0, 0), TilePos::new(1, 0), false, |_| true, |p| p.x != 1);
    assert_eq!(none, None);
    let bad_start = bfs_path(TilePos::new(1, 0), TilePos::new(0, 0), true, |_| true, |p| p.x != 1);
    assert_eq!(bad_start, None);
}

#[test]
fn bfs_goal_near_start_in_open_plane() {
    let path = bfs_path(TilePos::new(0, 0), TilePos::new(2, 0), false, |_| true, |_| true).unwrap();
    assert_eq!(path, vec![TilePos::new(0, 0), TilePos::new(1, 0), TilePos::new(2, 0)]);
}

#[test]
fn reachable_within_next_to_the_coordinate_edge() {
    let start = TilePos::new(i32::MAX - 1, 0);
    let mut found = reachable_within(start, 1, false, |_| true, |_| true);
    found.sort_by_key(|(p, d)| (*d, p.x, p.y));
    assert_eq!(found.len(), 5);
    assert_eq!(found[0], (start, 0));
    assert!(found.contains(&(TilePos::new(i32::MAX, 0), 1)));
    let only_start = reachable_within(TilePos::new(i32::MAX, i32::MIN), 0, true, |_| true, |_| true);
    assert_eq!(only_start, vec![(TilePos::new(i32::MAX, i32::MIN), 0)]);
}
