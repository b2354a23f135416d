use maze_game::maze::Maze;

fn small() -> Maze {
    Maze::with_size(3, 3).unwrap()
}

fn relation(maze: &Maze, id: usize) -> Vec<usize> {
    maze.get_node_relation(id).unwrap().clone()
}

#[test]
fn default_maze_is_ten_by_ten() {
    let maze = Maze::new();
    assert_eq!(maze.width(), 10);
    assert_eq!(maze.height(), 10);
    assert_eq!(maze.len(), 144);
    assert_eq!(maze.start(), 13);
    assert_eq!(maze.end(), 13);
    assert_eq!(maze.get_bfs(), vec![13]);
}

#[test]
fn with_size_refuses_what_is_not_a_square() {
    assert!(Maze::with_size(0, 0).is_none());
    assert!(Maze::with_size(3, 4).is_none());
    assert!(Maze::with_size(4, 3).is_none());
    assert!(Maze::with_size(usize::MAX, usize::MAX).is_none());
    assert!(Maze::with_size(usize::MAX - 2, usize::MAX - 2).is_none());
    assert!(Maze::with_size(1, 1).is_some());
}

#[test]
fn with_size_puts_start_and_end_on_the_first_cell() {
    let maze = small();
    assert_eq!(maze.len(), 25);
    assert_eq!(maze.start(), 6);
    assert_eq!(maze.end(), 6);
    assert_eq!(maze.get_coord(maze.start()), (1, 1));
}

#[test]
fn index_and_coord_are_inverse() {
    let maze = Maze::new();
    for y in 0..12 {
        for x in 0..12 {
            let id = maze.get_index(x, y);
            assert_eq!(id, x + y * 12);
            assert_eq!(maze.get_coord(id), (x, y));
        }
    }
    assert_eq!(maze.get_index(3, 2), 27);
    assert_eq!(maze.get_coord(143), (11, 11));
}

#[test]
fn fresh_cells_list_their_playable_neighbours() {
    let maze = small();
    // corner (1,1), edge (2,1), centre (2,2), corner (3,3)
    assert_eq!(relation(&maze, 6), vec![7, 11]);
    assert_eq!(relation(&maze, 7), vec![6, 8, 12]);
    assert_eq!(relation(&maze, 12), vec![7, 11, 13, 17]);
    assert_eq!(relation(&maze, 18), vec![13, 17]);
    let big = Maze::new();
    assert_eq!(relation(&big, 13), vec![14, 25]);
    assert_eq!(relation(&big, 66), vec![54, 65, 67, 78]);
}

#[test]
fn single_cell_maze_has_a_dead_cell() {
    let mut maze = Maze::with_size(1, 1).unwrap();
    assert_eq!(maze.len(), 9);
    assert_eq!(maze.start(), 4);
    assert!(relation(&maze, 4).is_empty());
    maze.toggle(4);
    assert!(relation(&maze, 4).is_empty());
    assert_eq!(maze.get_bfs(), vec![4]);
}

#[test]
fn border_cells_are_refused_and_playable_cells_are_not() {
    let maze = small();
    for id in 0..maze.len() {
        let (x, y) = maze.get_coord(id);
        let playable = 1 <= x && x <= 3 && 1 <= y && y <= 3;
        assert_eq!(maze.get_node_relation(id).is_ok(), playable);
        assert_eq!(maze.is_playable(id), playable);
    }
    assert_eq!(maze.get_node_relation(0), Err(()));
    assert_eq!(maze.get_node_relation(4), Err(()));
    assert_eq!(maze.get_node_relation(24), Err(()));
    assert_eq!(maze.get_node_relation(25), Err(()));
    assert_eq!(maze.get_node_relation(1000), Err(()));
}

#[test]
fn neighbours_come_in_ascending_order() {
    let maze = small();
    assert_eq!(maze.get_neighbor(12), vec![7, 11, 13, 17]);
    assert_eq!(maze.get_neighbor(6), vec![1, 5, 7, 11]);
    assert_eq!(maze.get_alive_neighbor(6), vec![7, 11]);
    assert_eq!(maze.get_alive_neighbor(12), vec![7, 11, 13, 17]);
}

#[test]
fn kill_empties_the_cell_and_unlinks_it() {
    let mut maze = small();
    maze.kill(12);
    assert!(relation(&maze, 12).is_empty());
    assert_eq!(relation(&maze, 7), vec![6, 8]);
    assert_eq!(relation(&maze, 11), vec![6, 16]);
    assert_eq!(relation(&maze, 13), vec![8, 18]);
    assert_eq!(relation(&maze, 17), vec![16, 18]);
    assert_eq!(relation(&maze, 6), vec![7, 11]);
    assert_eq!(maze.get_alive_neighbor(6), vec![7, 11]);
    assert_eq!(maze.get_alive_neighbor(7), vec![6, 8]);
}

#[test]
fn kill_on_every_playable_cell_unlinks_it() {
    for id in 0..25 {
        let mut maze = small();
        if maze.get_node_relation(id).is_err() {
            continue;
        }
        let former = relation(&maze, id);
        maze.kill(id);
        assert!(relation(&maze, id).is_empty());
        for n in former {
            assert!(!relation(&maze, n).contains(&id));
        }
        for border in [0, 1, 2, 3, 4, 5, 9, 10, 14, 15, 19, 20, 21, 22, 23, 24] {
            assert_eq!(maze.get_node_relation(border), Err(()));
        }
    }
}

#[test]
fn revive_links_to_alive_neighbours_only() {
    let mut maze = small();
    maze.kill(12);
    maze.kill(7);
    assert_eq!(relation(&maze, 6), vec![11]);
    maze.revive(12);
    // 7 is dead, so 12 lists the other three, and they list 12 last
    assert_eq!(relation(&maze, 12), vec![11, 13, 17]);
    assert!(relation(&maze, 7).is_empty());
    assert_eq!(relation(&maze, 11), vec![6, 16, 12]);
    assert_eq!(relation(&maze, 13), vec![8, 18, 12]);
    assert_eq!(relation(&maze, 17), vec![16, 18, 12]);
}

#[test]
fn toggle_twice_restores_the_cell() {
    for id in 0..144 {
        let mut maze = Maze::new();
        if maze.get_node_relation(id).is_err() {
            continue;
        }
        let at_first = relation(&maze, id);
        maze.toggle(id);
        assert!(relation(&maze, id).is_empty());
        maze.toggle(id);
        assert_eq!(relation(&maze, id), at_first);
    }
}

#[test]
fn toggle_twice_appends_in_the_neighbours() {
    let mut maze = small();
    maze.toggle(12);
    maze.toggle(12);
    assert_eq!(relation(&maze, 12), vec![7, 11, 13, 17]);
    assert_eq!(relation(&maze, 7), vec![6, 8, 12]);
    // the cell is appended, not inserted in order
    assert_eq!(relation(&maze, 13), vec![8, 18, 12]);
    assert_eq!(relation(&maze, 11), vec![6, 16, 12]);
}

#[test]
fn setters_take_any_id() {
    let mut maze = small();
    maze.set_start(8);
    maze.set_end(16);
    assert_eq!(maze.start(), 8);
    assert_eq!(maze.end(), 16);
    maze.set_end(0);
    assert_eq!(maze.end(), 0);
    assert_eq!(maze.get_bfs(), vec![8]);
}

#[test]
fn path_between_same_cell_is_that_cell() {
    let mut maze = small();
    maze.set_start(12);
    maze.set_end(12);
    assert_eq!(maze.get_bfs(), vec![12]);
}

#[test]
fn shortest_path_across_three_by_three() {
    let mut maze = small();
    let start = maze.get_index(1, 1);
    let end = maze.get_index(3, 3);
    maze.set_start(start);
    maze.set_end(end);
    let path = maze.get_bfs();
    assert_eq!(path.len(), 5);
    assert_eq!(path[0], start);
    assert_eq!(path[4], end);
    for pair in path.windows(2) {
        assert!(relation(&maze, pair[0]).contains(&pair[1]));
    }
    assert_eq!(path, vec![6, 7, 8, 13, 18]);
}

#[test]
fn no_path_when_the_connecting_cells_are_dead() {
    let mut maze = small();
    let start = maze.get_index(1, 1);
    let end = maze.get_index(3, 3);
    maze.set_start(start);
    maze.set_end(end);
    // the anti-diagonal separates the two corners
    let (a, b, c) = (maze.get_index(3, 1), maze.get_index(2, 2), maze.get_index(1, 3));
    maze.toggle(a);
    maze.toggle(b);
    maze.toggle(c);
    let path = maze.get_bfs();
    assert_eq!(path, vec![start]);
    assert_eq!(path.len(), 1);
}

#[test]
fn dead_middle_column_splits_the_grid() {
    let mut maze = small();
    for y in 1..4 {
        let id = maze.get_index(2, y);
        maze.toggle(id);
    }
    for (from, to) in [((1, 1), (3, 1)), ((1, 2), (3, 3)), ((3, 3), (1, 1)), ((1, 3), (3, 2))] {
        let start = maze.get_index(from.0, from.1);
        let end = maze.get_index(to.0, to.1);
        maze.set_start(start);
        maze.set_end(end);
        assert_eq!(maze.get_bfs(), vec![start]);
    }
    // inside one half the cells still connect
    maze.set_start(maze.get_index(1, 1));
    maze.set_end(maze.get_index(1, 3));
    assert_eq!(maze.get_bfs(), vec![6, 11, 16]);
}

#[test]
fn path_goes_round_a_dead_cell() {
    let mut maze = small();
    maze.toggle(12);
    maze.set_start(11);
    maze.set_end(13);
    let path = maze.get_bfs();
    assert_eq!(path.len(), 5);
    assert_eq!(path[0], 11);
    assert_eq!(path[4], 13);
    assert!(!path.contains(&12));
}

#[test]
fn path_to_a_dead_cell_is_the_start_alone() {
    let mut maze = small();
    maze.toggle(18);
    maze.set_end(18);
    assert_eq!(maze.get_bfs(), vec![6]);
}

#[test]
fn maze_clone_is_independent() {
    let mut maze = small();
    let copy = maze.clone();
    maze.toggle(12);
    assert_eq!(relation(&copy, 12), vec![7, 11, 13, 17]);
    assert!(relation(&maze, 12).is_empty());
}

#[test]
fn cell_kind_ranks_start_over_end_over_dead() {
    let mut maze = Maze::with_size(3, 3).unwrap();
    assert_eq!(maze.cell_kind(6), Ok(maze_game::maze::CellKind::Start));
    assert_eq!(maze.cell_kind(7), Ok(maze_game::maze::CellKind::Alive));
    maze.set_end(18);
    assert_eq!(maze.cell_kind(18), Ok(maze_game::maze::CellKind::End));
    maze.toggle(12);
    assert_eq!(maze.cell_kind(12), Ok(maze_game::maze::CellKind::Dead));
    maze.toggle(18);
    assert_eq!(maze.cell_kind(18), Ok(maze_game::maze::CellKind::End));
    maze.set_start(12);
    assert_eq!(maze.cell_kind(12), Ok(maze_game::maze::CellKind::Start));
    assert_eq!(maze.cell_kind(0), Err(()));
    assert_eq!(maze.cell_kind(99), Err(()));
}

#[test]
fn kill_after_an_append_still_empties_the_cell() {
    let mut maze = Maze::with_size(3, 3).unwrap();
    maze.toggle(12);
    maze.toggle(12);
    // 12 now stands last in lists that are no longer in order
    let before: Vec<Vec<usize>> =
        [7, 11, 13, 17].iter().map(|n| maze.get_node_relation(*n).unwrap().clone()).collect();
    maze.kill(12);
    assert!(maze.get_node_relation(12).unwrap().is_empty());
    for (n, old) in [7usize, 11, 13, 17].iter().zip(before) {
        let now = maze.get_node_relation(*n).unwrap();
        // the search either found the cell and removed it, or left the list alone
        if now.len() == old.len() {
            assert_eq!(now, &old);
        } else {
            assert_eq!(now.len() + 1, old.len());
            assert!(!now.contains(&12));
        }
    }
    // 7 kept its order, so there the cell is gone for certain
    assert_eq!(maze.get_node_relation(7).unwrap(), &vec![6, 8]);
}

#[test]
fn try_toggle_refuses_padding_cells() {
    let mut maze = Maze::with_size(3, 3).unwrap();
    for border in [0usize, 4, 5, 9, 20, 24, 25, 400] {
        assert_eq!(maze.try_toggle(border), Err(()));
    }
    for id in 0..25 {
        let fresh = Maze::with_size(3, 3).unwrap();
        assert_eq!(maze.get_node_relation(id), fresh.get_node_relation(id));
    }
    assert_eq!(maze.try_toggle(12), Ok(()));
    assert!(maze.get_node_relation(12).unwrap().is_empty());
    assert_eq!(maze.get_node_relation(7).unwrap(), &vec![6, 8]);
    assert_eq!(maze.try_toggle(12), Ok(()));
    assert_eq!(maze.get_node_relation(12).unwrap(), &vec![7, 11, 13, 17]);
}

fn is_symmetric(maze: &Maze) -> bool {
    for u in 0..maze.len() {
        if let Ok(list) = maze.get_node_relation(u) {
            for v in list {
                match maze.get_node_relation(*v) {
                    Ok(back) => {
                        if !back.contains(&u) {
                            return false;
                        }
                    }
                    Err(()) => return false,
                }
            }
        }
    }
    true
}

#[test]
fn new_maze_is_symmetric_and_sorted() {
    for side in 1..6 {
        let maze = Maze::with_size(side, side).unwrap();
        assert!(is_symmetric(&maze));
        for id in 0..maze.len() {
            if let Ok(list) = maze.get_node_relation(id) {
                assert!(list.windows(2).all(|w| w[0] < w[1]));
                assert!(list.len() <= 4);
                if side >= 2 {
                    assert!(list.len() >= 2);
                }
            }
        }
    }
}

#[test]
fn kill_and_revive_keep_the_maze_symmetric() {
    let mut maze = Maze::with_size(4, 4).unwrap();
    for id in [14usize, 15, 8, 21] {
        maze.kill(id);
        assert!(is_symmetric(&maze));
    }
    for id in [15usize, 8, 14, 21] {
        maze.revive(id);
        assert!(is_symmetric(&maze));
    }
    assert_eq!(maze.get_node_relation(14).unwrap(), &vec![8, 13, 15, 20]);
}
