//! What holds of every maze: facts about new mazes, and about switching a
//! cell off and on again.

use vstd::prelude::*;
use crate::graph::symmetric;
use crate::grid::{
    among_first, cell_coord, cell_id, is_interior, is_neighbor, lemma_coord_roundtrip,
    lemma_interior_bounds, lemma_neighbors_of_interior, lemma_picks_agree, lemma_picks_contains,
    lemma_picks_members, lemma_picks_sorted, neighbors, picks,
};
use crate::maze::{
    alive_in, fresh_cells, interior_in, killed, revived, searches_sound, toggles_to, MazeView,
};
use crate::search::{
    binary_search_outcome, detach, lemma_detach_keeps_others, lemma_detach_removes, search_sound,
    sorted, strictly_sorted,
};

verus! {

/// On the grid of a maze, mapping a column and a row to an id and back
/// gives the column and the row again, and the id names a cell.
pub proof fn lemma_index_coord_roundtrip(maze: MazeView, x: int, y: int)
    requires
        maze.shaped(),
        0 <= x < maze.width + 2,
        0 <= y < maze.height + 2,
    ensures
        cell_coord(maze.height, cell_id(maze.height, x, y)) == (x, y),
        0 <= cell_id(maze.height, x, y) < maze.cells.len(),
{
    lemma_coord_roundtrip(maze.height, x, y);
    let s = maze.height + 2;
    assert(0 <= y * s && y * s + s <= s * s) by (nonlinear_arith)
        requires
            0 <= y < s,
    ;
}

/// In a new maze a playable cell lists exactly its playable neighbours, in
/// strictly ascending order, and a padding cell lists nothing.
pub proof fn lemma_fresh_cells_list_playable_neighbors(side: int, id: int)
    requires
        1 <= side,
        (side + 2) * (side + 2) <= usize::MAX,
        0 <= id < (side + 2) * (side + 2),
    ensures
        strictly_sorted(fresh_cells(side, side)[id]),
        forall|n: usize|
            fresh_cells(side, side)[id].contains(n) <==> is_interior(side, side, id) && is_neighbor(
                side + 2,
                id,
                n as int,
            ) && is_interior(side, side, n as int),
{
    let list = fresh_cells(side, side)[id];
    if is_interior(side, side, id) {
        let ids = neighbors(side + 2, id as usize);
        let keep = interior_in(side, side);
        lemma_neighbors_of_interior(side, id as usize);
        lemma_picks_sorted(ids, keep, 4);
        lemma_picks_members(ids, keep, 4);
        assert forall|n: usize| list.contains(n) <==> is_neighbor(side + 2, id, n as int)
            && is_interior(side, side, n as int) by {
            if list.contains(n) {
                let j = choose|j: int| 0 <= j < list.len() && list[j] == n;
                assert(keep(list[j]) && among_first(ids, 4, list[j] as int));
                let u = choose|u: int| 0 <= u < 4 && #[trigger] ids[u] == n;
                assert(u == 0 || u == 1 || u == 2 || u == 3);
            }
            if is_neighbor(side + 2, id, n as int) && is_interior(side, side, n as int) {
                let t: int = if n == ids[0] {
                    0
                } else if n == ids[1] {
                    1
                } else if n == ids[2] {
                    2
                } else {
                    3
                };
                assert(ids[t] == n);
                assert(keep(ids[t]));
                lemma_picks_contains(ids, keep, 4, t);
            }
        }
    } else {
        assert(list.len() == 0);
    }
}

/// In a new maze with more than one cell, every playable cell lists at
/// least two neighbours; in the maze of one cell it lists none.
pub proof fn lemma_fresh_cells_degree(side: int, id: int)
    requires
        1 <= side,
        (side + 2) * (side + 2) <= usize::MAX,
        0 <= id < (side + 2) * (side + 2),
        is_interior(side, side, id),
    ensures
        side >= 2 ==> fresh_cells(side, side)[id].len() >= 2,
        side == 1 ==> fresh_cells(side, side)[id].len() == 0,
{
    let list = fresh_cells(side, side)[id];
    let ids = neighbors(side + 2, id as usize);
    let keep = interior_in(side, side);
    let (x, y) = cell_coord(side, id);
    lemma_neighbors_of_interior(side, id as usize);
    lemma_picks_members(ids, keep, 4);
    if side >= 2 {
        let a: int = if 2 <= y {
            0
        } else {
            3
        };
        let b: int = if 2 <= x {
            1
        } else {
            2
        };
        assert(keep(ids[a]) && keep(ids[b]));
        lemma_picks_contains(ids, keep, 4, a);
        lemma_picks_contains(ids, keep, 4, b);
        let i = choose|i: int| 0 <= i < list.len() && list[i] == ids[a];
        let j = choose|j: int| 0 <= j < list.len() && list[j] == ids[b];
        assert(i != j);
    } else {
        if list.len() > 0 {
            assert(keep(list[0]) && among_first(ids, 4, list[0] as int));
            let u = choose|u: int| 0 <= u < 4 && #[trigger] ids[u] == list[0];
            assert(u == 0 || u == 1 || u == 2 || u == 3);
        }
    }
}

/// On a new maze, toggling a playable cell twice gives the cell the list
/// it had at first. The lists of its neighbours need not come back in their
/// first order: the cell is appended to them.
pub proof fn lemma_toggle_twice_restores(
    first: MazeView,
    second: MazeView,
    third: MazeView,
    id: usize,
)
    requires
        first.wf(),
        first.cells == fresh_cells(first.width, first.height),
        first.interior(id as int),
        toggles_to(first, second, id),
        toggles_to(second, third, id),
    ensures
        third.cells[id as int] == first.cells[id as int],
{
    let side = first.width;
    let stride = side + 2;
    let fresh = first.cells;
    let ids = neighbors(stride, id);
    lemma_interior_bounds(side, id as int);
    lemma_neighbors_of_interior(side, id);
    lemma_fresh_cells_degree(side, id as int);
    if side >= 2 {
        assert(second.cells == killed(fresh, stride, id));
        assert(second.cells[id as int].len() == 0);
        assert(third.cells == revived(second.cells, stride, id));
        assert forall|t: int| 0 <= t < 4 implies alive_in(second.cells)(#[trigger] ids[t])
            == interior_in(side, side)(ids[t]) by {
            let n = ids[t];
            assert(is_neighbor(stride, id as int, n as int));
            let found = binary_search_outcome(fresh[n as int], id);
            assert(second.cells[n as int] == detach(fresh[n as int], found));
            assert(search_sound(fresh[n as int], id, found));
            lemma_fresh_cells_list_playable_neighbors(side, n as int);
            if is_interior(side, side, n as int) {
                lemma_fresh_cells_degree(side, n as int);
                assert(is_neighbor(stride, n as int, id as int));
                assert(fresh[n as int].contains(id));
                assert(sorted(fresh[n as int]));
            }
        }
        lemma_picks_agree(ids, alive_in(second.cells), interior_in(side, side), 4);
    } else {
        lemma_picks_members(ids, alive_in(fresh), 4);
        let own = picks(ids, alive_in(fresh), 4);
        if own.len() > 0 {
            assert(alive_in(fresh)(own[0]) && among_first(ids, 4, own[0] as int));
            let u = choose|u: int| 0 <= u < 4 && #[trigger] ids[u] == own[0];
            assert(u == 0 || u == 1 || u == 2 || u == 3);
            lemma_fresh_cells_list_playable_neighbors(side, own[0] as int);
        }
        assert(second.cells == revived(fresh, stride, id));
        assert forall|k: int| 0 <= k < fresh.len() implies second.cells[k] == fresh[k] by {
            if k != id && is_neighbor(stride, id as int, k) {
                assert(ids[0] == k || ids[1] == k || ids[2] == k || ids[3] == k);
                assert(!is_interior(side, side, k));
            }
        }
        assert(second.cells =~= fresh);
    }
}

/// Switching a playable cell off unlinks it from every cell that it
/// listed and whose own list was in strictly ascending order. A cell whose
/// list was out of order, as after an append, may keep its entry.
pub proof fn lemma_kill_unlinks_former_neighbors(before: MazeView, id: usize, n: usize)
    requires
        before.wf(),
        before.interior(id as int),
        searches_sound(before.cells, before.stride(), id),
        before.cells[id as int].contains(n),
        strictly_sorted(before.cells[n as int]),
    ensures
        killed(before.cells, before.stride(), id)[id as int].len() == 0,
        !killed(before.cells, before.stride(), id)[n as int].contains(id),
{
    lemma_interior_bounds(before.width, id as int);
    let j = choose|j: int| 0 <= j < before.cells[id as int].len() && before.cells[id as int][j] == n;
    assert(before.adjacent(id as int, before.cells[id as int][j]));
    lemma_interior_bounds(before.width, n as int);
    assert(search_sound(
        before.cells[n as int],
        id,
        binary_search_outcome(before.cells[n as int], id),
    ));
    lemma_detach_removes(
        before.cells[n as int],
        id,
        binary_search_outcome(before.cells[n as int], id),
    );
}

/// A new maze is symmetric: a cell is listed by every cell that it lists.
pub proof fn lemma_fresh_cells_symmetric(side: int)
    requires
        1 <= side,
        (side + 2) * (side + 2) <= usize::MAX,
    ensures
        symmetric(fresh_cells(side, side)),
{
    let fresh = fresh_cells(side, side);
    assert forall|u: usize, v: usize|
        u < fresh.len() && v < fresh.len() && #[trigger] fresh[u as int].contains(
            v,
        ) implies fresh[v as int].contains(u) by {
        lemma_fresh_cells_list_playable_neighbors(side, u as int);
        lemma_fresh_cells_list_playable_neighbors(side, v as int);
    }
}

/// Switching a playable cell off keeps a maze symmetric, provided that the
/// lists of its four neighbours are in strictly ascending order.
pub proof fn lemma_kill_keeps_symmetric(before: MazeView, id: usize)
    requires
        before.wf(),
        before.interior(id as int),
        symmetric(before.cells),
        searches_sound(before.cells, before.stride(), id),
        forall|k: int|
            0 <= k < before.cells.len() && is_neighbor(before.stride(), id as int, k)
                ==> strictly_sorted(#[trigger] before.cells[k]),
    ensures
        symmetric(killed(before.cells, before.stride(), id)),
{
    let stride = before.stride();
    let after = killed(before.cells, stride, id);
    lemma_interior_bounds(before.width, id as int);
    assert forall|u: usize, v: usize|
        u < after.len() && v < after.len() && #[trigger] after[u as int].contains(
            v,
        ) implies after[v as int].contains(u) by {
        lemma_kill_step(before, id, u);
        lemma_kill_step(before, id, v);
        assert(before.cells[u as int].contains(v));
        assert(before.cells[v as int].contains(u));
        if v == id {
            let j = choose|j: int|
                0 <= j < before.cells[id as int].len() && before.cells[id as int][j] == u;
            assert(before.adjacent(id as int, before.cells[id as int][j]));
        }
    }
}

/// What switching `id` off does to the list of one cell `k`: nothing is
/// added, and only `id` can be lost; from a neighbour whose list was in
/// strictly ascending order it is lost.
pub proof fn lemma_kill_step(before: MazeView, id: usize, k: usize)
    requires
        before.wf(),
        before.interior(id as int),
        k < before.cells.len(),
        searches_sound(before.cells, before.stride(), id),
        forall|n: int|
            0 <= n < before.cells.len() && is_neighbor(before.stride(), id as int, n)
                ==> strictly_sorted(#[trigger] before.cells[n]),
    ensures
        forall|v: usize|
            killed(before.cells, before.stride(), id)[k as int].contains(v)
                ==> before.cells[k as int].contains(v) && v != id && k != id,
        forall|v: usize|
            before.cells[k as int].contains(v) && v != id && k != id ==> killed(
                before.cells,
                before.stride(),
                id,
            )[k as int].contains(v),
{
    let stride = before.stride();
    let list = before.cells[k as int];
    let found = binary_search_outcome(list, id);
    let after = killed(before.cells, stride, id)[k as int];
    if k != id && is_neighbor(stride, id as int, k as int) {
        assert(strictly_sorted(list));
        assert(sorted(list));
        assert(search_sound(list, id, found));
        lemma_detach_keeps_others(list, id, found);
        lemma_detach_removes(list, id, found);
    } else if k != id {
        assert forall|v: usize| list.contains(v) implies v != id by {
            let j = choose|j: int| 0 <= j < list.len() && list[j] == v;
            assert(before.adjacent(k as int, list[j]));
        }
    }
}

/// Switching a playable cell on keeps a maze symmetric.
pub proof fn lemma_revive_keeps_symmetric(before: MazeView, id: usize)
    requires
        before.wf(),
        before.interior(id as int),
        symmetric(before.cells),
    ensures
        symmetric(revived(before.cells, before.stride(), id)),
{
    let stride = before.stride();
    let cells = before.cells;
    let after = revived(cells, stride, id);
    let ids = neighbors(stride, id);
    let own = picks(ids, alive_in(cells), 4);
    lemma_interior_bounds(before.width, id as int);
    lemma_neighbors_of_interior(before.width, id);
    lemma_picks_members(ids, alive_in(cells), 4);
    assert forall|n: usize|
        n < cells.len() && is_neighbor(stride, id as int, n as int) && cells[n as int].len()
            > 0 implies own.contains(n) by {
        let t: int = if n == ids[0] {
            0
        } else if n == ids[1] {
            1
        } else if n == ids[2] {
            2
        } else {
            3
        };
        assert(ids[t] == n);
        assert(alive_in(cells)(ids[t]));
        lemma_picks_contains(ids, alive_in(cells), 4, t);
    }
    assert forall|n: usize| own.contains(n) implies n < cells.len() && is_neighbor(
        stride,
        id as int,
        n as int,
    ) && cells[n as int].len() > 0 by {
        let j = choose|j: int| 0 <= j < own.len() && own[j] == n;
        assert(alive_in(cells)(own[j]) && among_first(ids, 4, own[j] as int));
        let t = choose|t: int| 0 <= t < 4 && #[trigger] ids[t] == n;
        assert(t == 0 || t == 1 || t == 2 || t == 3);
    }
    assert forall|u: usize, v: usize|
        u < after.len() && v < after.len() && #[trigger] after[u as int].contains(
            v,
        ) implies after[v as int].contains(u) by {
        if u == id {
            assert(own.contains(v));
            let grown = cells[v as int].push(id);
            assert(grown[grown.len() - 1] == id);
        } else {
            let j = choose|j: int| 0 <= j < after[u as int].len() && after[u as int][j] == v;
            if v == id {
                if j < cells[u as int].len() {
                    assert(cells[u as int][j] == id);
                    assert(before.adjacent(u as int, cells[u as int][j]));
                }
                assert(own.contains(u));
            } else {
                assert(cells[u as int][j] == v);
                assert(cells[u as int].contains(v));
                assert(cells[v as int].contains(u));
                let i = choose|i: int| 0 <= i < cells[v as int].len() && cells[v as int][i] == u;
                assert(after[v as int][i] == u);
            }
        }
    }
}

} // verus!
