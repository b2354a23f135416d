use maze_game::graph::Graph;

fn line(n: usize) -> Graph {
    let mut g = Graph::new(n);
    for u in 0..n {
        if u > 0 {
            g.push_neighbor(u, u - 1);
        }
        if u + 1 < n {
            g.push_neighbor(u, u + 1);
        }
    }
    g
}

#[test]
fn new_graph_has_empty_lists() {
    let g = Graph::new(5);
    assert_eq!(g.len(), 5);
    for u in 0..5 {
        assert!(g.list(u).is_empty());
    }
    assert_eq!(Graph::new(0).len(), 0);
}

#[test]
fn bfs_same_node_is_single_element() {
    let g = line(4);
    assert_eq!(g.do_bfs(2, 2), vec![2]);
    let lonely = Graph::new(3);
    assert_eq!(lonely.do_bfs(1, 1), vec![1]);
}

#[test]
fn bfs_walks_a_line() {
    let g = line(6);
    assert_eq!(g.do_bfs(0, 5), vec![0, 1, 2, 3, 4, 5]);
    assert_eq!(g.do_bfs(4, 1), vec![4, 3, 2, 1]);
}

#[test]
fn bfs_unreachable_gives_start_alone() {
    let mut g = Graph::new(5);
    g.push_neighbor(0, 1);
    g.push_neighbor(1, 0);
    g.push_neighbor(3, 4);
    g.push_neighbor(4, 3);
    assert_eq!(g.do_bfs(0, 4), vec![0]);
    assert_eq!(g.do_bfs(0, 2), vec![0]);
    assert_eq!(g.do_bfs(2, 0), vec![2]);
}

#[test]
fn bfs_end_outside_the_graph_gives_start_alone() {
    let g = line(3);
    assert_eq!(g.do_bfs(0, 17), vec![0]);
}

#[test]
fn bfs_ends_on_a_cycle_without_the_target() {
    let mut g = Graph::new(4);
    g.push_neighbor(0, 1);
    g.push_neighbor(1, 2);
    g.push_neighbor(2, 0);
    assert_eq!(g.do_bfs(0, 3), vec![0]);
}

#[test]
fn bfs_prefers_the_short_way() {
    // 0 - 1 - 2 - 3 and a shortcut 0 - 3
    let mut g = line(4);
    g.push_neighbor(0, 3);
    g.push_neighbor(3, 0);
    assert_eq!(g.do_bfs(0, 3), vec![0, 3]);
    assert_eq!(g.do_bfs(0, 2).len(), 3);
}

#[test]
fn bfs_takes_the_first_listed_of_equal_ways() {
    // a diamond: 0 -> 1 -> 3 and 0 -> 2 -> 3
    let mut g = Graph::new(4);
    g.push_neighbor(0, 1);
    g.push_neighbor(0, 2);
    g.push_neighbor(1, 3);
    g.push_neighbor(2, 3);
    assert_eq!(g.do_bfs(0, 3), vec![0, 1, 3]);
}

#[test]
fn bfs_follows_directed_edges_only() {
    let mut g = Graph::new(3);
    g.push_neighbor(0, 1);
    g.push_neighbor(1, 2);
    assert_eq!(g.do_bfs(0, 2), vec![0, 1, 2]);
    assert_eq!(g.do_bfs(2, 0), vec![2]);
}

#[test]
fn remove_found_takes_the_reported_position() {
    let mut g = Graph::new(2);
    g.set_list(0, vec![3, 5, 8]);
    g.remove_found(0, Ok(1));
    assert_eq!(g.list(0), &vec![3, 8]);
    g.remove_found(0, Err(1));
    assert_eq!(g.list(0), &vec![3, 8]);
    g.remove_found(0, Ok(2));
    assert_eq!(g.list(0), &vec![3, 8]);
    assert!(g.list(1).is_empty());
}

#[test]
fn remove_sorted_finds_and_removes() {
    let mut g = Graph::new(1);
    g.set_list(0, vec![1, 4, 6, 9]);
    g.remove_sorted(0, 6);
    assert_eq!(g.list(0), &vec![1, 4, 9]);
    g.remove_sorted(0, 5);
    assert_eq!(g.list(0), &vec![1, 4, 9]);
    g.remove_sorted(0, 1);
    assert_eq!(g.list(0), &vec![4, 9]);
    g.remove_sorted(0, 9);
    g.remove_sorted(0, 4);
    assert!(g.list(0).is_empty());
    g.remove_sorted(0, 4);
    assert!(g.list(0).is_empty());
}

#[test]
fn graph_clone_is_independent() {
    let mut g = line(3);
    let copy = g.clone();
    g.push_neighbor(0, 2);
    assert_eq!(copy.list(0), &vec![1]);
    assert_eq!(g.list(0), &vec![1, 2]);
}
