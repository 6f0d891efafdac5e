use maze_gen::grid::{Wall, WallOrientation, CELLS, COLS, ROWS};
use maze_gen::world::World;

fn visited_cells(world: &World) -> Vec<(usize, usize)> {
    let mut cells = Vec::new();
    for row in 0..ROWS {
        for col in 0..COLS {
            if world.is_visited(col, row) {
                cells.push((col, row));
            }
        }
    }
    cells
}

fn removed_walls(world: &World) -> Vec<Wall> {
    let mut walls = Vec::new();
    for y in 0..ROWS {
        for x in 0..COLS {
            for orientation in [WallOrientation::Vertical, WallOrientation::Horizontal] {
                let wall = Wall { orientation, x, y };
                if world.is_removed(&wall) {
                    walls.push(wall);
                }
            }
        }
    }
    walls
}

fn visited_table(world: &World) -> Vec<bool> {
    let mut table = Vec::new();
    for row in 0..ROWS {
        for col in 0..COLS {
            table.push(world.is_visited(col, row));
        }
    }
    table
}

fn wall_at(i: usize) -> Wall {
    let orientation = if i % 2 == 0 {
        WallOrientation::Vertical
    } else {
        WallOrientation::Horizontal
    };
    Wall { orientation, x: (i / 2) % COLS, y: (i / 2) / COLS }
}

fn wall_table(world: &World) -> Vec<bool> {
    (0..2 * CELLS).map(|i| world.is_removed(&wall_at(i))).collect()
}

fn far_side(wall: &Wall) -> (usize, usize) {
    match wall.orientation {
        WallOrientation::Vertical => (wall.x + 1, wall.y),
        WallOrientation::Horizontal => (wall.x, wall.y + 1),
    }
}

/// Walks (0,0) -> (1,0) -> (2,0) -> (2,1) -> (2,2) -> (1,2) -> (0,2) -> (0,1),
/// which leaves (1,1) as the only cell open from (0,1).
fn world_around_centre() -> World {
    let mut world = World::new();
    for pick in [0, 0, 1, 2, 0, 0, 0] {
        assert!(world.update_with(pick));
    }
    world
}

#[test]
fn initial_state_holds_the_origin_alone() {
    let world = World::new();
    assert_eq!(visited_cells(&world), vec![(0, 0)]);
    assert_eq!(world.frontier(), &vec![(0, 0)]);
    assert_eq!(removed_walls(&world), vec![]);
}

#[test]
fn initial_candidates_are_right_and_down() {
    let world = World::new();
    assert_eq!(
        world.candidates(),
        vec![((1, 0), WallOrientation::Vertical), ((0, 1), WallOrientation::Horizontal)]
    );
}

#[test]
fn candidates_come_in_the_order_left_right_up_down() {
    let mut world = World::new();
    assert!(world.update_with(1));
    assert!(world.update_with(0));
    assert_eq!(world.frontier(), &vec![(0, 0), (0, 1), (1, 1)]);
    assert_eq!(
        world.candidates(),
        vec![
            ((2, 1), WallOrientation::Vertical),
            ((1, 0), WallOrientation::Horizontal),
            ((1, 2), WallOrientation::Horizontal),
        ]
    );
    assert!(world.update_with(1));
    assert!(world.update_with(1));
    assert_eq!(world.frontier(), &vec![(0, 0), (0, 1), (1, 1), (1, 0), (2, 0)]);
}

#[test]
fn first_step_enters_a_neighbour_of_the_origin() {
    let mut world = World::new();
    assert!(world.update());
    let visited = visited_cells(&world);
    assert_eq!(visited.len(), 2);
    let path = world.frontier().clone();
    assert_eq!(path.len(), 2);
    assert_eq!(path[0], (0, 0));
    let new = path[1];
    assert!(new == (1, 0) || new == (0, 1));
    assert!(world.is_visited(new.0, new.1));
    let walls = removed_walls(&world);
    assert_eq!(walls.len(), 1);
    assert_eq!((walls[0].x, walls[0].y), (0, 0));
    let expected = if new == (1, 0) {
        WallOrientation::Vertical
    } else {
        WallOrientation::Horizontal
    };
    assert_eq!(walls[0].orientation, expected);
}

#[test]
fn first_step_with_pick_zero_goes_right() {
    let mut world = World::new();
    assert!(world.update_with(0));
    assert_eq!(visited_cells(&world), vec![(0, 0), (1, 0)]);
    assert_eq!(world.frontier(), &vec![(0, 0), (1, 0)]);
    assert_eq!(
        removed_walls(&world),
        vec![Wall { orientation: WallOrientation::Vertical, x: 0, y: 0 }]
    );
}

#[test]
fn first_step_with_pick_one_goes_down() {
    let mut world = World::new();
    assert!(world.update_with(1));
    assert_eq!(visited_cells(&world), vec![(0, 0), (0, 1)]);
    assert_eq!(world.frontier(), &vec![(0, 0), (0, 1)]);
    assert_eq!(
        removed_walls(&world),
        vec![Wall { orientation: WallOrientation::Horizontal, x: 0, y: 0 }]
    );
}

#[test]
fn pick_is_taken_modulo_the_number_of_candidates() {
    let mut by_two = World::new();
    assert!(by_two.update_with(2));
    assert_eq!(by_two.frontier(), &vec![(0, 0), (1, 0)]);
    let mut by_seven = World::new();
    assert!(by_seven.update_with(7));
    assert_eq!(by_seven.frontier(), &vec![(0, 0), (0, 1)]);
    let mut by_max = World::new();
    assert!(by_max.update_with(usize::MAX));
    assert_eq!(by_max.frontier(), &vec![(0, 0), (0, 1)]);
}

#[test]
fn forced_step_enters_the_only_open_neighbour() {
    let mut world = world_around_centre();
    assert_eq!(world.frontier().last(), Some(&(0, 1)));
    assert_eq!(world.candidates(), vec![((1, 1), WallOrientation::Vertical)]);
    let visited_before = visited_cells(&world);
    let walls_before = removed_walls(&world);
    let path_before = world.frontier().clone();

    assert!(world.update());

    let mut path_after = path_before.clone();
    path_after.push((1, 1));
    assert_eq!(world.frontier(), &path_after);
    let visited_after = visited_cells(&world);
    assert_eq!(visited_after.len(), visited_before.len() + 1);
    assert!(visited_before.iter().all(|c| visited_after.contains(c)));
    assert!(world.is_visited(1, 1));
    let walls_after = removed_walls(&world);
    assert_eq!(walls_after.len(), walls_before.len() + 1);
    assert!(walls_before.iter().all(|w| walls_after.contains(w)));
    let new_wall = Wall { orientation: WallOrientation::Vertical, x: 0, y: 1 };
    assert!(!walls_before.contains(&new_wall));
    assert!(walls_after.contains(&new_wall));
}

#[test]
fn step_from_a_surrounded_cell_only_pops_it() {
    let mut world = world_around_centre();
    assert!(world.update_with(0));
    assert_eq!(world.frontier().last(), Some(&(1, 1)));
    assert!(world.is_visited(0, 1));
    assert!(world.is_visited(2, 1));
    assert!(world.is_visited(1, 0));
    assert!(world.is_visited(1, 2));
    assert_eq!(world.candidates(), vec![]);
    let visited_before = visited_cells(&world);
    let walls_before = removed_walls(&world);
    let mut path = world.frontier().clone();

    assert!(!world.update());

    path.pop();
    assert_eq!(world.frontier(), &path);
    assert_eq!(world.frontier().last(), Some(&(0, 1)));
    assert_eq!(visited_cells(&world), visited_before);
    assert_eq!(removed_walls(&world), walls_before);
}

#[test]
fn step_with_pick_from_a_surrounded_cell_only_pops_it() {
    let mut world = world_around_centre();
    assert!(world.update_with(5));
    let visited_before = visited_cells(&world);
    let walls_before = removed_walls(&world);
    let mut path = world.frontier().clone();
    assert!(!world.update_with(3));
    path.pop();
    assert_eq!(world.frontier(), &path);
    assert_eq!(visited_cells(&world), visited_before);
    assert_eq!(removed_walls(&world), walls_before);
}

#[test]
fn visited_cells_and_removed_walls_never_shrink() {
    let mut world = World::new();
    let mut visited = visited_table(&world);
    let mut walls = wall_table(&world);
    for _ in 0..2 * CELLS {
        world.update();
        let visited_now = visited_table(&world);
        let walls_now = wall_table(&world);
        assert!(visited.iter().zip(&visited_now).all(|(before, now)| !*before || *now));
        assert!(walls.iter().zip(&walls_now).all(|(before, now)| !*before || *now));
        visited = visited_now;
        walls = walls_now;
    }
}

#[test]
fn generation_is_over_after_twice_the_cells_steps() {
    let mut world = World::new();
    for _ in 0..2 * CELLS {
        world.update();
    }
    assert!(world.frontier().is_empty());
    let visited = visited_cells(&world);
    let walls = removed_walls(&world);
    for _ in 0..10 {
        assert!(!world.update());
        assert!(world.frontier().is_empty());
        assert_eq!(visited_cells(&world), visited);
        assert_eq!(removed_walls(&world), walls);
    }
    assert!(!world.update_with(3));
    assert!(world.frontier().is_empty());
    assert_eq!(world.candidates(), vec![]);
}

#[test]
fn generation_takes_one_step_less_than_twice_the_cells() {
    let mut world = World::new();
    let mut advances: usize = 0;
    for _ in 0..2 * CELLS - 2 {
        assert!(!world.frontier().is_empty());
        if world.update() {
            advances += 1;
        }
    }
    assert_eq!(world.frontier(), &vec![(0, 0)]);
    assert!(!world.update());
    assert!(world.frontier().is_empty());
    assert_eq!(advances, CELLS - 1);
}

#[test]
fn finished_maze_covers_the_grid() {
    let mut world = World::new();
    while !world.frontier().is_empty() {
        world.update();
    }
    assert_eq!(visited_cells(&world).len(), 900);
    for row in 0..ROWS {
        for col in 0..COLS {
            assert!(world.is_visited(col, row));
        }
    }
}

#[test]
fn finished_maze_has_one_wall_less_than_cells_removed() {
    let mut world = World::new();
    while !world.frontier().is_empty() {
        world.update();
    }
    assert_eq!(removed_walls(&world).len(), 899);
}

#[test]
fn removed_walls_are_one_less_than_visited_cells_throughout() {
    let mut world = World::new();
    assert_eq!(removed_walls(&world).len() + 1, visited_cells(&world).len());
    while !world.frontier().is_empty() {
        world.update();
        assert_eq!(removed_walls(&world).len() + 1, visited_cells(&world).len());
    }
}

#[test]
fn each_removed_wall_joins_the_current_cell_to_a_new_one() {
    let mut world = World::new();
    while !world.frontier().is_empty() {
        let current = *world.frontier().last().unwrap();
        let visited_before = visited_table(&world);
        let walls_before = wall_table(&world);
        if world.update() {
            let new = *world.frontier().last().unwrap();
            assert_ne!(new, current);
            assert!(visited_before[current.1 * COLS + current.0]);
            assert!(!visited_before[new.1 * COLS + new.0]);
            let walls_after = wall_table(&world);
            let added: Vec<usize> =
                (0..walls_after.len()).filter(|&i| walls_after[i] != walls_before[i]).collect();
            assert_eq!(added.len(), 1);
            assert!(walls_after[added[0]]);
            let wall = wall_at(added[0]);
            let sides = ((wall.x, wall.y), far_side(&wall));
            assert!(sides == (current, new) || sides == (new, current));
            assert_eq!(wall.x, current.0.min(new.0));
            assert_eq!(wall.y, current.1.min(new.1));
        } else {
            assert_eq!(wall_table(&world), walls_before);
            assert_eq!(visited_table(&world), visited_before);
        }
    }
}

#[test]
fn every_removed_wall_of_a_finished_maze_lies_inside_the_grid() {
    let mut world = World::new();
    while !world.frontier().is_empty() {
        world.update();
    }
    for wall in removed_walls(&world) {
        let (x, y) = far_side(&wall);
        assert!(x < COLS && y < ROWS);
        assert_ne!((wall.x, wall.y), (x, y));
    }
}

#[test]
fn always_picking_the_first_candidate_fills_the_grid_row_by_row() {
    let mut world = World::new();
    for _ in 0..CELLS - 1 {
        assert!(world.update_with(0));
    }
    let path = world.frontier().clone();
    assert_eq!(path.len(), 900);
    assert_eq!(path[29], (29, 0));
    assert_eq!(path[30], (29, 1));
    assert_eq!(path[59], (0, 1));
    assert_eq!(path[60], (0, 2));
    assert_eq!(path[899], (0, 29));
    assert!(world.is_removed(&Wall { orientation: WallOrientation::Horizontal, x: 29, y: 0 }));
    assert!(!world.is_removed(&Wall { orientation: WallOrientation::Horizontal, x: 28, y: 0 }));
    assert!(world.is_removed(&Wall { orientation: WallOrientation::Vertical, x: 28, y: 0 }));
    for _ in 0..CELLS {
        assert!(!world.frontier().is_empty());
        assert!(!world.update_with(0));
    }
    assert!(world.frontier().is_empty());
}

#[test]
fn chance_picks_each_candidate_sometimes() {
    let mut right: usize = 0;
    let mut down: usize = 0;
    for _ in 0..400 {
        let mut world = World::new();
        assert!(world.update());
        match world.frontier()[1] {
            (1, 0) => right += 1,
            (0, 1) => down += 1,
            other => panic!("{:?} is no neighbour of the origin", other),
        }
    }
    assert!(right > 0);
    assert!(down > 0);
    assert_eq!(right + down, 400);
}

#[test]
fn cells_and_walls_off_the_grid_are_absent() {
    let mut world = World::new();
    while !world.frontier().is_empty() {
        world.update();
    }
    assert!(!world.is_visited(COLS, 0));
    assert!(!world.is_visited(0, ROWS));
    assert!(!world.is_visited(usize::MAX, usize::MAX));
    assert!(!world.is_removed(&Wall { orientation: WallOrientation::Vertical, x: COLS, y: 0 }));
    assert!(!world.is_removed(&Wall { orientation: WallOrientation::Horizontal, x: 0, y: ROWS }));
    assert!(!world.is_removed(&Wall { orientation: WallOrientation::Vertical, x: COLS - 1, y: 0 }));
    assert!(!world.is_removed(&Wall { orientation: WallOrientation::Horizontal, x: 0, y: ROWS - 1 }));
}

#[test]
fn wall_between_is_anchored_at_the_smaller_coordinates() {
    let v = Wall::between((3, 4), (2, 4), WallOrientation::Vertical);
    assert_eq!(v, Wall { orientation: WallOrientation::Vertical, x: 2, y: 4 });
    let same = Wall::between((2, 4), (3, 4), WallOrientation::Vertical);
    assert_eq!(same, v);
    let h = Wall::between((7, 9), (7, 8), WallOrientation::Horizontal);
    assert_eq!(h, Wall { orientation: WallOrientation::Horizontal, x: 7, y: 8 });
    assert_eq!(Wall::between((7, 8), (7, 9), WallOrientation::Horizontal), h);
    assert_ne!(v, Wall { orientation: WallOrientation::Horizontal, x: 2, y: 4 });
}

fn passage(world: &World, a: (usize, usize), b: (usize, usize)) -> bool {
    let orientation = if a.1 == b.1 {
        WallOrientation::Vertical
    } else {
        WallOrientation::Horizontal
    };
    let adjacent = (a.1 == b.1 && (a.0 + 1 == b.0 || b.0 + 1 == a.0))
        || (a.0 == b.0 && (a.1 + 1 == b.1 || b.1 + 1 == a.1));
    adjacent && world.is_removed(&Wall::between(a, b, orientation))
}

fn reached_from_origin(world: &World) -> Vec<(usize, usize)> {
    let mut reached = vec![(0usize, 0usize)];
    let mut next: usize = 0;
    while next < reached.len() {
        let (x, y) = reached[next];
        next += 1;
        let mut around = vec![(x + 1, y), (x, y + 1)];
        if x > 0 {
            around.push((x - 1, y));
        }
        if y > 0 {
            around.push((x, y - 1));
        }
        for cell in around {
            if passage(world, (x, y), cell) && !reached.contains(&cell) {
                reached.push(cell);
            }
        }
    }
    reached.sort_by_key(|c| (c.1, c.0));
    reached
}

#[test]
fn grid_has_nine_hundred_cells() {
    assert_eq!(COLS, 30);
    assert_eq!(ROWS, 30);
    assert_eq!(CELLS, 900);
}

#[test]
fn path_is_a_walk_from_the_origin_without_repetition() {
    let mut world = World::new();
    let mut steps: usize = 0;
    while !world.frontier().is_empty() {
        let path = world.frontier();
        assert_eq!(path[0], (0, 0));
        if steps % 20 == 0 {
            for i in 1..path.len() {
                assert!(passage(&world, path[i - 1], path[i]));
                assert!(!path[..i].contains(&path[i]));
            }
            for cell in path {
                assert!(world.is_visited(cell.0, cell.1));
            }
        }
        world.update();
        steps += 1;
    }
}

#[test]
fn visited_cells_are_those_reached_from_the_origin() {
    let mut world = World::new();
    assert_eq!(reached_from_origin(&world), vec![(0, 0)]);
    for step in 0..2 * CELLS {
        world.update();
        if step % 50 == 0 {
            assert_eq!(reached_from_origin(&world), visited_cells(&world));
        }
    }
    assert_eq!(reached_from_origin(&world).len(), 900);
}

#[test]
fn cells_off_the_path_have_no_unvisited_neighbour() {
    let mut world = World::new();
    for _ in 0..700 {
        world.update();
    }
    let path = world.frontier().clone();
    for (x, y) in visited_cells(&world) {
        if !path.contains(&(x, y)) {
            assert!(x == 0 || world.is_visited(x - 1, y));
            assert!(x + 1 == COLS || world.is_visited(x + 1, y));
            assert!(y == 0 || world.is_visited(x, y - 1));
            assert!(y + 1 == ROWS || world.is_visited(x, y + 1));
        }
    }
}

#[test]
fn clone_is_a_second_maze_in_the_same_state() {
    let mut world = World::new();
    for pick in [0, 0, 1, 2, 0] {
        world.update_with(pick);
    }
    let mut copy = world.clone();
    assert_eq!(copy.frontier(), world.frontier());
    assert_eq!(visited_cells(&copy), visited_cells(&world));
    assert_eq!(removed_walls(&copy), removed_walls(&world));
    assert!(copy.update_with(0));
    assert_eq!(copy.frontier().len(), world.frontier().len() + 1);
    assert_eq!(visited_cells(&copy).len(), visited_cells(&world).len() + 1);
    assert!(world.update_with(0));
    assert_eq!(copy.frontier(), world.frontier());
}
