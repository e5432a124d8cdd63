use terrain_path::frontier::find_best_next_tile;
use terrain_path::geom::{calc_dist_sqr, Vec2};
use terrain_path::grid::Grid;
use terrain_path::heuristic::set_h_for_all_tiles;
use terrain_path::neighbors::get_adjacent;
use terrain_path::path::create_final_path;
use terrain_path::search::find_path_with_a_star;
use terrain_path::terrain::{color_category, EGroundType, FORBIDDEN_COST};
use terrain_path::tile::Tile;

fn uniform_grid(width: usize, height: usize, category: EGroundType) -> Grid {
    let mut grid = Grid::new(width, height);
    for x in 0..width {
        for y in 0..height {
            let pos = Vec2 { x, y };
            let mut t = grid.get(pos);
            t.ground_type = category;
            grid.set(pos, t);
        }
    }
    grid
}

#[test]
fn walk_costs_match_cost_model() {
    assert_eq!(EGroundType::OpenLand.walk_cost(), 10);
    assert_eq!(EGroundType::RoughMeadow.walk_cost(), 15);
    assert_eq!(EGroundType::EasyMovementForest.walk_cost(), 12);
    assert_eq!(EGroundType::SlowRunForest.walk_cost(), 20);
    assert_eq!(EGroundType::WalkForest.walk_cost(), 25);
    assert_eq!(EGroundType::PavedRoad.walk_cost(), 1);
    assert_eq!(EGroundType::FootPath.walk_cost(), 5);
}

#[test]
fn forbidden_categories_share_the_maximum_sentinel() {
    let forbidden = [
        EGroundType::ImpassibleVegetation,
        EGroundType::LakeSwampMarsh,
        EGroundType::OutOfBounds,
        EGroundType::NotSet,
    ];
    for category in forbidden {
        assert_eq!(category.walk_cost(), FORBIDDEN_COST);
        assert_eq!(category.walk_cost(), i8::MAX);
    }
}

#[test]
fn every_walk_cost_is_nonnegative_and_ordered() {
    let all = [
        EGroundType::OpenLand,
        EGroundType::RoughMeadow,
        EGroundType::EasyMovementForest,
        EGroundType::SlowRunForest,
        EGroundType::WalkForest,
        EGroundType::ImpassibleVegetation,
        EGroundType::LakeSwampMarsh,
        EGroundType::PavedRoad,
        EGroundType::FootPath,
        EGroundType::OutOfBounds,
        EGroundType::NotSet,
    ];
    for category in all {
        assert!(category.walk_cost() >= 0);
    }
    assert!(EGroundType::PavedRoad.walk_cost() < EGroundType::FootPath.walk_cost());
    assert!(EGroundType::FootPath.walk_cost() < EGroundType::OpenLand.walk_cost());
    assert!(EGroundType::OpenLand.walk_cost() < EGroundType::EasyMovementForest.walk_cost());
    assert!(EGroundType::EasyMovementForest.walk_cost() < EGroundType::RoughMeadow.walk_cost());
    assert!(EGroundType::RoughMeadow.walk_cost() < EGroundType::SlowRunForest.walk_cost());
    assert!(EGroundType::SlowRunForest.walk_cost() < EGroundType::WalkForest.walk_cost());
    assert!(EGroundType::WalkForest.walk_cost() < FORBIDDEN_COST);
}

#[test]
fn squared_distance_exact_values() {
    let a = Vec2 { x: 0, y: 0 };
    let b = Vec2 { x: 3, y: 4 };
    assert_eq!(calc_dist_sqr(&a, &b), 25);
    assert_eq!(calc_dist_sqr(&b, &a), 25);
    assert_eq!(calc_dist_sqr(&b, &b), 0);
    let c = Vec2 { x: 10, y: 2 };
    let d = Vec2 { x: 7, y: 9 };
    assert_eq!(calc_dist_sqr(&c, &d), 9 + 49);
}

#[test]
fn heuristic_is_zero_at_goal_and_grows_with_distance() {
    let goal = Vec2 { x: 2, y: 2 };
    let near = Vec2 { x: 2, y: 3 };
    let far = Vec2 { x: 0, y: 0 };
    assert_eq!(calc_dist_sqr(&goal, &goal), 0);
    assert!(calc_dist_sqr(&near, &goal) > 0);
    assert!(calc_dist_sqr(&near, &goal) < calc_dist_sqr(&far, &goal));
}

#[test]
fn color_table_maps_every_known_color() {
    assert_eq!(color_category(248, 148, 18, 255), EGroundType::OpenLand);
    assert_eq!(color_category(255, 192, 0, 255), EGroundType::RoughMeadow);
    assert_eq!(color_category(255, 255, 255, 255), EGroundType::EasyMovementForest);
    assert_eq!(color_category(2, 208, 60, 255), EGroundType::SlowRunForest);
    assert_eq!(color_category(2, 136, 40, 255), EGroundType::WalkForest);
    assert_eq!(color_category(5, 73, 24, 255), EGroundType::ImpassibleVegetation);
    assert_eq!(color_category(0, 0, 255, 255), EGroundType::LakeSwampMarsh);
    assert_eq!(color_category(71, 51, 3, 255), EGroundType::PavedRoad);
    assert_eq!(color_category(0, 0, 0, 255), EGroundType::FootPath);
    assert_eq!(color_category(0, 0, 0, 0), EGroundType::FootPath);
    assert_eq!(color_category(205, 0, 101, 255), EGroundType::OutOfBounds);
    assert_eq!(color_category(1, 2, 3, 4), EGroundType::NotSet);
}

#[test]
fn tile_constructors_and_set_prev() {
    let pos = Vec2 { x: 5, y: 7 };
    let t = Tile::new(pos, EGroundType::PavedRoad);
    assert_eq!(t.pos, pos);
    assert_eq!(t.prev, Vec2 { x: 0, y: 0 });
    assert_eq!(t.ground_type, EGroundType::PavedRoad);
    assert_eq!(t.h, 0);
    assert_eq!(t.g, 0);

    let e = Tile::new_empty();
    assert_eq!(e.pos, Vec2 { x: 0, y: 0 });
    assert_eq!(e.ground_type, EGroundType::NotSet);

    let mut u = Tile::new(pos, EGroundType::OpenLand);
    u.set_prev(Vec2 { x: 1, y: 2 });
    assert_eq!(u.prev, Vec2 { x: 1, y: 2 });
    assert_eq!(u.pos, pos);
}

#[test]
fn grid_bulk_initialization_populates_every_cell() {
    let grid = Grid::new(4, 3);
    assert_eq!(grid.width, 4);
    assert_eq!(grid.height, 3);
    for x in 0..4 {
        for y in 0..3 {
            let t = grid.get(Vec2 { x, y });
            assert_eq!(t.pos, Vec2 { x, y });
            assert_eq!(t.ground_type, EGroundType::NotSet);
            assert_eq!(t.g, 0);
            assert_eq!(t.h, 0);
        }
    }
}

#[test]
fn grid_set_replaces_one_cell_only() {
    let mut grid = Grid::new(3, 3);
    let pos = Vec2 { x: 1, y: 2 };
    let mut t = grid.get(pos);
    t.ground_type = EGroundType::PavedRoad;
    grid.set(pos, t);
    assert_eq!(grid.get(pos).ground_type, EGroundType::PavedRoad);
    assert_eq!(grid.get(Vec2 { x: 0, y: 0 }).ground_type, EGroundType::NotSet);
    assert_eq!(grid.get(Vec2 { x: 2, y: 2 }).ground_type, EGroundType::NotSet);
}

#[test]
fn heuristic_pass_writes_squared_distance_for_every_cell() {
    let mut grid = uniform_grid(4, 4, EGroundType::OpenLand);
    let goal = Vec2 { x: 3, y: 1 };
    set_h_for_all_tiles(&mut grid, &goal);
    for x in 0..4 {
        for y in 0..4 {
            let t = grid.get(Vec2 { x, y });
            let expected = calc_dist_sqr(&Vec2 { x, y }, &goal);
            assert_eq!(t.h, expected);
        }
    }
    assert_eq!(grid.get(goal).h, 0);
}

#[test]
fn neighbors_of_an_interior_cell_are_the_full_ring() {
    let out = get_adjacent(Vec2 { x: 2, y: 2 }, 5, 5);
    assert_eq!(out.len(), 8);
    for p in &out {
        assert!(p.x < 5 && p.y < 5);
        let dx = p.x as i64 - 2;
        let dy = p.y as i64 - 2;
        assert!(dx.abs() <= 1 && dy.abs() <= 1);
        assert!(!(dx == 0 && dy == 0));
    }
}

#[test]
fn neighbors_are_bounds_filtered_at_the_corners() {
    let origin = get_adjacent(Vec2 { x: 0, y: 0 }, 5, 5);
    assert_eq!(origin.len(), 3);
    for p in &origin {
        assert!(p.x < 5 && p.y < 5);
    }
    let far = get_adjacent(Vec2 { x: 4, y: 4 }, 5, 5);
    assert_eq!(far.len(), 3);
    for p in &far {
        assert!(p.x < 5 && p.y < 5);
    }
}

#[test]
fn frontier_selector_picks_the_smallest_score() {
    let mut a = Tile::new(Vec2 { x: 0, y: 0 }, EGroundType::OpenLand);
    a.g = 10;
    a.h = 20;
    let mut b = Tile::new(Vec2 { x: 1, y: 0 }, EGroundType::OpenLand);
    b.g = 4;
    b.h = 5;
    let mut c = Tile::new(Vec2 { x: 2, y: 0 }, EGroundType::OpenLand);
    c.g = 30;
    c.h = 1;
    let open = vec![a, b, c];
    assert_eq!(find_best_next_tile(&open), 1);
}

#[test]
fn frontier_selector_breaks_ties_toward_the_earlier_entry() {
    let mut a = Tile::new(Vec2 { x: 0, y: 0 }, EGroundType::OpenLand);
    a.g = 7;
    a.h = 3;
    let mut b = Tile::new(Vec2 { x: 1, y: 0 }, EGroundType::OpenLand);
    b.g = 5;
    b.h = 5;
    let mut c = Tile::new(Vec2 { x: 2, y: 0 }, EGroundType::OpenLand);
    c.g = 9;
    c.h = 2;
    // a and b share the minimal score 10; the earlier entry wins
    let open = vec![a, b, c];
    assert_eq!(find_best_next_tile(&open), 0);
}

#[test]
fn search_from_a_cell_to_itself_returns_that_single_cell() {
    let mut grid = uniform_grid(5, 5, EGroundType::OpenLand);
    let start = Vec2 { x: 2, y: 3 };
    let path = find_path_with_a_star(&mut grid, start, start);
    assert_eq!(path.len(), 1);
    assert_eq!(path[0].pos, start);
}

#[test]
fn search_crosses_a_uniform_grid_goal_first_start_last() {
    let mut grid = uniform_grid(5, 5, EGroundType::OpenLand);
    let start = Vec2 { x: 0, y: 0 };
    let goal = Vec2 { x: 4, y: 4 };
    let path = find_path_with_a_star(&mut grid, start, goal);
    assert!(!path.is_empty());
    assert_eq!(path[0].pos, goal);
    assert_eq!(path[path.len() - 1].pos, start);
}

#[test]
fn search_for_a_goal_outside_the_grid_terminates_empty() {
    let mut grid = uniform_grid(3, 3, EGroundType::OpenLand);
    let start = Vec2 { x: 1, y: 1 };
    let goal = Vec2 { x: 9, y: 9 };
    let path = find_path_with_a_star(&mut grid, start, goal);
    assert!(path.is_empty());
}

#[test]
fn forbidden_ring_around_the_start_yields_empty_and_terminates() {
    // every cell bordering the start carries the sentinel cost, so the goal
    // beyond the ring is unreachable: forbidden cells are never traversed,
    // the search terminates, and the result is empty
    let mut grid = uniform_grid(5, 5, EGroundType::OpenLand);
    let start = Vec2 { x: 2, y: 2 };
    for x in 1..4 {
        for y in 1..4 {
            if !(x == 2 && y == 2) {
                let pos = Vec2 { x, y };
                let mut t = grid.get(pos);
                t.ground_type = EGroundType::ImpassibleVegetation;
                grid.set(pos, t);
            }
        }
    }
    let goal = Vec2 { x: 4, y: 4 };
    let path = find_path_with_a_star(&mut grid, start, goal);
    assert!(path.is_empty());
}

#[test]
fn impassable_wall_separating_start_and_goal_yields_empty() {
    // a full-height wall of impassable cells cuts the grid in two; the goal
    // on the far side is never dequeued and the result is empty
    let mut grid = uniform_grid(3, 3, EGroundType::OpenLand);
    for y in 0..3 {
        let pos = Vec2 { x: 1, y };
        let mut t = grid.get(pos);
        t.ground_type = EGroundType::ImpassibleVegetation;
        grid.set(pos, t);
    }
    let start = Vec2 { x: 0, y: 0 };
    let goal = Vec2 { x: 2, y: 2 };
    let path = find_path_with_a_star(&mut grid, start, goal);
    assert!(path.is_empty());
}

#[test]
fn forbidden_goal_cell_is_never_reached() {
    let mut grid = uniform_grid(4, 4, EGroundType::OpenLand);
    let goal = Vec2 { x: 3, y: 3 };
    let mut t = grid.get(goal);
    t.ground_type = EGroundType::LakeSwampMarsh;
    grid.set(goal, t);
    let path = find_path_with_a_star(&mut grid, Vec2 { x: 0, y: 0 }, goal);
    assert!(path.is_empty());
}

#[test]
fn walkable_terrain_beside_a_wall_is_still_explored() {
    // the wall has a gap: the search goes around the forbidden cells and
    // still finds the goal
    let mut grid = uniform_grid(3, 3, EGroundType::OpenLand);
    for y in 0..2 {
        let pos = Vec2 { x: 1, y };
        let mut t = grid.get(pos);
        t.ground_type = EGroundType::ImpassibleVegetation;
        grid.set(pos, t);
    }
    let start = Vec2 { x: 0, y: 0 };
    let goal = Vec2 { x: 2, y: 0 };
    let path = find_path_with_a_star(&mut grid, start, goal);
    assert!(!path.is_empty());
    assert_eq!(path[0].pos, goal);
    assert_eq!(path[path.len() - 1].pos, start);
}

#[test]
fn no_cell_appears_twice_in_a_returned_path() {
    let mut grid = uniform_grid(6, 4, EGroundType::RoughMeadow);
    let start = Vec2 { x: 0, y: 3 };
    let goal = Vec2 { x: 5, y: 0 };
    let path = find_path_with_a_star(&mut grid, start, goal);
    assert!(!path.is_empty());
    for i in 0..path.len() {
        for j in (i + 1)..path.len() {
            assert_ne!(path[i].pos, path[j].pos);
        }
    }
}

#[test]
fn rolling_predecessor_bookkeeping_shows_in_the_route() {
    // each expanded cell's g is its own terrain cost plus the g of the cell
    // expanded immediately before it, which is the next element of the
    // returned route; the first expanded cell (the start) pays its own cost
    let mut grid = uniform_grid(5, 5, EGroundType::RoughMeadow);
    let start = Vec2 { x: 0, y: 0 };
    let goal = Vec2 { x: 4, y: 4 };
    let path = find_path_with_a_star(&mut grid, start, goal);
    assert!(path.len() >= 2);
    for i in 1..path.len() - 1 {
        assert_eq!(path[i].g, 15 + path[i + 1].g);
    }
    assert_eq!(path[path.len() - 1].g, 15);
}

#[test]
fn reconstruction_follows_the_predecessor_links_of_the_searched_grid() {
    let mut grid = uniform_grid(4, 4, EGroundType::OpenLand);
    let start = Vec2 { x: 0, y: 0 };
    let goal = Vec2 { x: 3, y: 3 };
    let path = find_path_with_a_star(&mut grid, start, goal);
    assert!(!path.is_empty());
    // every step of the returned route follows a predecessor link
    for i in 0..path.len() - 1 {
        assert_eq!(path[i + 1].pos, path[i].prev);
        assert_ne!(path[i].pos, start);
    }
    // walking the chain again over the searched grid gives the same route
    let again = create_final_path(start, goal, &grid);
    assert_eq!(again.len(), path.len());
    for i in 0..path.len() {
        assert_eq!(again[i].pos, path[i].pos);
    }
}
