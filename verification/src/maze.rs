//! The maze: a square grid of cells inside a ring of padding, with two
//! marked cells and the route between them.

use vstd::prelude::*;
use crate::graph::{bfs_path, connects, in_range, reachable, Graph};
use crate::grid::{
    among_first, cell_coord, cell_id, is_interior, is_neighbor, lemma_coord_roundtrip,
    lemma_id_roundtrip, lemma_interior_bounds, lemma_neighbors_of_interior, lemma_picks_members,
    neighbors, picks,
};
use crate::search::{binary_search_outcome, detach, lemma_detach_removes, search_sound, strictly_sorted};

verus! {

/// The maze as contracts see it.
pub struct MazeView {
    pub cells: Seq<Seq<usize>>,
    pub width: int,
    pub height: int,
    pub start: usize,
    pub end: usize,
}

impl MazeView {
    /// The distance in ids between a cell and the one below it.
    pub open spec fn stride(self) -> int {
        self.height + 2
    }

    /// The cell `id` is playable.
    pub open spec fn interior(self, id: int) -> bool {
        is_interior(self.width, self.height, id)
    }

    /// The grid is square, not empty, and its padded size fits the machine.
    pub open spec fn shaped(self) -> bool {
        &&& self.width == self.height
        &&& 1 <= self.width
        &&& self.cells.len() == (self.width + 2) * (self.height + 2)
        &&& self.cells.len() <= usize::MAX
    }

    /// Every cell lists only playable cells next to it, and padding cells
    /// list nothing.
    pub open spec fn wf(self) -> bool {
        &&& self.shaped()
        &&& in_range(self.cells)
        &&& forall|id: int|
            0 <= id < self.cells.len() && !self.interior(id) ==> (#[trigger] self.cells[id]).len()
                == 0
        &&& forall|id: int, j: int|
            0 <= id < self.cells.len() && 0 <= j < self.cells[id].len() ==> self.adjacent(
                id,
                #[trigger] self.cells[id][j],
            )
    }

    /// `n` is a playable cell next to `id`.
    pub open spec fn adjacent(self, id: int, n: usize) -> bool {
        is_neighbor(self.stride(), id, n as int) && self.interior(n as int)
    }
}

/// In a shaped maze one padded row is no longer than the whole grid.
pub proof fn lemma_row_fits(maze: MazeView)
    requires
        maze.shaped(),
    ensures
        maze.height + 2 < maze.cells.len(),
        maze.width + 2 < maze.cells.len(),
{
    let s = maze.height + 2;
    assert(s < s * s) by (nonlinear_arith)
        requires
            s >= 3,
    ;
}

/// The test "is playable", as a function of the id.
pub open spec fn interior_in(width: int, height: int) -> spec_fn(usize) -> bool {
    |n: usize| is_interior(width, height, n as int)
}

/// The test "lists at least one neighbour", as a function of the id.
pub open spec fn alive_in(cells: Seq<Seq<usize>>) -> spec_fn(usize) -> bool {
    |n: usize| n < cells.len() && cells[n as int].len() > 0
}

/// The cells of a new maze: a playable cell lists its playable neighbours,
/// in ascending order, and a padding cell lists nothing.
pub open spec fn fresh_cells(width: int, height: int) -> Seq<Seq<usize>> {
    Seq::new(
        ((width + 2) * (height + 2)) as nat,
        |id: int|
            if is_interior(width, height, id) {
                picks(neighbors(height + 2, id as usize), interior_in(width, height), 4)
            } else {
                Seq::empty()
            },
    )
}

/// The cells after `id` was switched off: its own list is empty, and each
/// neighbour's list went through a sorted search-and-remove of `id`.
pub open spec fn killed(cells: Seq<Seq<usize>>, stride: int, id: usize) -> Seq<Seq<usize>> {
    Seq::new(
        cells.len(),
        |k: int|
            if k == id {
                Seq::empty()
            } else if is_neighbor(stride, id as int, k) {
                detach(cells[k], binary_search_outcome(cells[k], id))
            } else {
                cells[k]
            },
    )
}

/// The cells after `id` was switched on: it lists its neighbours that are
/// alive, and each of those has `id` appended to its list.
pub open spec fn revived(cells: Seq<Seq<usize>>, stride: int, id: usize) -> Seq<Seq<usize>> {
    Seq::new(
        cells.len(),
        |k: int|
            if k == id {
                picks(neighbors(stride, id), alive_in(cells), 4)
            } else if is_neighbor(stride, id as int, k) && cells[k].len() > 0 {
                cells[k].push(id)
            } else {
                cells[k]
            },
    )
}

/// The searches that switching `id` off makes are reliable on those of its
/// neighbours' lists that are sorted.
pub open spec fn searches_sound(cells: Seq<Seq<usize>>, stride: int, id: usize) -> bool {
    forall|k: int|
        0 <= k < cells.len() && is_neighbor(stride, id as int, k) ==> search_sound(
            #[trigger] cells[k],
            id,
            binary_search_outcome(cells[k], id),
        )
}

/// `after` is `before` with the cell `id` toggled: switched off if it was
/// alive, switched on if it was dead.
pub open spec fn toggles_to(before: MazeView, after: MazeView, id: usize) -> bool {
    if before.cells[id as int].len() > 0 {
        &&& after == (MazeView { cells: killed(before.cells, before.stride(), id), ..before })
        &&& searches_sound(before.cells, before.stride(), id)
    } else {
        after == (MazeView { cells: revived(before.cells, before.stride(), id), ..before })
    }
}

/// In a new maze every cell lists only playable cells next to it.
pub proof fn lemma_fresh_cells_adjacent(maze: MazeView)
    requires
        maze.shaped(),
        maze.cells == fresh_cells(maze.width, maze.height),
    ensures
        forall|id: int, j: int|
            0 <= id < maze.cells.len() && 0 <= j < maze.cells[id].len() ==> maze.adjacent(
                id,
                #[trigger] maze.cells[id][j],
            ),
{
    let side = maze.width;
    assert forall|id: int, j: int|
        0 <= id < maze.cells.len() && 0 <= j < maze.cells[id].len() implies maze.adjacent(
        id,
        #[trigger] maze.cells[id][j],
    ) by {
        let ids = neighbors(side + 2, id as usize);
        let keep = interior_in(side, side);
        let list = picks(ids, keep, 4);
        lemma_neighbors_of_interior(side, id as usize);
        lemma_picks_members(ids, keep, 4);
        assert(keep(list[j]) && among_first(ids, 4, list[j] as int));
        let t = choose|t: int| 0 <= t < 4 && #[trigger] ids[t] == list[j];
        assert(t == 0 || t == 1 || t == 2 || t == 3);
    }
}

/// Switching a playable cell off keeps the maze well formed.
pub proof fn lemma_killed_wf(before: MazeView, id: usize)
    requires
        before.wf(),
        before.interior(id as int),
    ensures
        (MazeView { cells: killed(before.cells, before.stride(), id), ..before }).wf(),
{
    let after = killed(before.cells, before.stride(), id);
    assert forall|u: int, j: int| 0 <= u < after.len() && 0 <= j < after[u].len() implies (
    #[trigger] after[u][j]) < after.len() by {
        let list = before.cells[u];
        if j < list.len() {
            assert(list[j] < before.cells.len());
        }
        if j + 1 < list.len() {
            assert(list[j + 1] < before.cells.len());
        }
    }
    assert forall|k: int| 0 <= k < after.len() && !before.interior(k) implies (
    #[trigger] after[k]).len() == 0 by {
        assert(before.cells[k].len() == 0);
    }
    assert forall|u: int, j: int| 0 <= u < after.len() && 0 <= j < after[u].len() implies before.adjacent(
        u,
        #[trigger] after[u][j],
    ) by {
        let list = before.cells[u];
        if j < list.len() {
            assert(before.adjacent(u, list[j]));
        }
        if j + 1 < list.len() {
            assert(before.adjacent(u, list[j + 1]));
        }
    }
}

/// Switching a playable cell on keeps the maze well formed.
pub proof fn lemma_revived_wf(before: MazeView, id: usize)
    requires
        before.wf(),
        before.interior(id as int),
    ensures
        (MazeView { cells: revived(before.cells, before.stride(), id), ..before }).wf(),
{
    let after = revived(before.cells, before.stride(), id);
    let ids = neighbors(before.stride(), id);
    let own = picks(ids, alive_in(before.cells), 4);
    lemma_interior_bounds(before.width, id as int);
    lemma_neighbors_of_interior(before.width, id);
    lemma_picks_members(ids, alive_in(before.cells), 4);
    assert forall|u: int, j: int| 0 <= u < after.len() && 0 <= j < after[u].len() implies (
    #[trigger] after[u][j]) < after.len() by {
        if u == id {
            assert(alive_in(before.cells)(own[j]));
        } else {
            let list = before.cells[u];
            if j < list.len() {
                assert(list[j] < before.cells.len());
            }
        }
    }
    assert forall|k: int| 0 <= k < after.len() && !before.interior(k) implies (
    #[trigger] after[k]).len() == 0 by {
        assert(before.cells[k].len() == 0);
    }
    assert forall|u: int, j: int| 0 <= u < after.len() && 0 <= j < after[u].len() implies before.adjacent(
        u,
        #[trigger] after[u][j],
    ) by {
        if u == id {
            assert(alive_in(before.cells)(own[j]) && among_first(ids, 4, own[j] as int));
            let t = choose|t: int| 0 <= t < 4 && #[trigger] ids[t] == own[j];
            assert(t == 0 || t == 1 || t == 2 || t == 3);
            if !before.interior(own[j] as int) {
                assert(before.cells[own[j] as int].len() == 0);
            }
        } else {
            let list = before.cells[u];
            if j < list.len() {
                assert(before.adjacent(u, list[j]));
            }
        }
    }
}

/// How a playable cell is shown.
#[derive(Debug, Clone, Copy, PartialEq, Eq, Structural)]
pub enum CellKind {
    /// The cell where the route begins.
    Start,
    /// The cell where the route ends.
    End,
    /// A cell that lists no neighbour.
    Dead,
    /// Any other cell.
    Alive,
}

/// The kind of the cell `id`: the start wins over the end, and both win
/// over dead and alive.
pub open spec fn kind_of(maze: MazeView, id: usize) -> CellKind {
    if id == maze.start {
        CellKind::Start
    } else if id == maze.end {
        CellKind::End
    } else if maze.cells[id as int].len() == 0 {
        CellKind::Dead
    } else {
        CellKind::Alive
    }
}

/// A square grid of cells with a start and an end cell.
#[derive(Debug, Clone)]
pub struct Maze {
    graph: Graph,
    width: usize,
    height: usize,
    start: usize,
    end: usize,
}

impl View for Maze {
    type V = MazeView;

    closed spec fn view(&self) -> MazeView {
        MazeView {
            cells: self.graph@,
            width: self.width as int,
            height: self.height as int,
            start: self.start,
            end: self.end,
        }
    }
}

impl Maze {
    /// A maze of `width` by `height` playable cells, all alive, with start
    /// and end on the first playable cell. The grid must be square and not
    /// empty, and its padded size must fit the machine.
    pub fn with_size(width: usize, height: usize) -> (made: Option<Maze>)
        ensures
            made is Some <==> width == height && 1 <= width && (width + 2) * (height + 2)
                <= usize::MAX,
            match made {
                Some(maze) => {
                    &&& maze@.wf()
                    &&& maze@.width == width
                    &&& maze@.height == height
                    &&& maze@.cells == fresh_cells(width as int, height as int)
                    &&& maze@.start == height + 3
                    &&& maze@.end == height + 3
                },
                None => true,
            },
    {
        if width != height || width == 0 {
            return None;
        }
        let padded = match height.checked_add(2) {
            Some(p) => p,
            None => {
                assert((width + 2) * (height + 2) > usize::MAX) by (nonlinear_arith)
                    requires
                        width == height,
                        height + 2 > usize::MAX,
                ;
                return None;
            },
        };
        let size = match padded.checked_mul(padded) {
            Some(s) => s,
            None => {
                return None;
            },
        };
        assert(padded + 1 <= size) by (nonlinear_arith)
            requires
                size == padded * padded,
                padded >= 3,
        ;
        let start = padded + 1;
        let graph = Graph::new(size);
        let mut maze = Maze { graph, width, height, start, end: start };
        maze.init_graph();
        Some(maze)
    }

    /// The maze of ten by ten cells.
    pub fn new() -> (maze: Maze)
        ensures
            maze@.wf(),
            maze@.width == 10,
            maze@.height == 10,
            maze@.cells == fresh_cells(10, 10),
            maze@.start == 13,
            maze@.end == 13,
    {
        let made = Maze::with_size(10, 10);
        assert(12 * 12 <= usize::MAX);
        made.unwrap()
    }

    /// The id of the cell at column `x`, row `y`.
    pub fn get_index(&self, x: usize, y: usize) -> (id: usize)
        requires
            self@.shaped(),
            cell_id(self@.height, x as int, y as int) <= usize::MAX,
        ensures
            id == cell_id(self@.height, x as int, y as int),
    {
        proof {
            lemma_row_fits(self@);
        }
        assert(0 <= y * (self.height + 2)) by (nonlinear_arith);
        x + (y * (self.height + 2))
    }

    /// The column and row of the cell `idx`.
    pub fn get_coord(&self, idx: usize) -> (coord: (usize, usize))
        requires
            self@.shaped(),
        ensures
            (coord.0 as int, coord.1 as int) == cell_coord(self@.height, idx as int),
    {
        proof {
            lemma_row_fits(self@);
        }
        (idx % (self.height + 2), idx / (self.height + 2))
    }

    /// Whether the cell `idx` is playable.
    pub fn is_playable(&self, idx: usize) -> (inside: bool)
        requires
            self@.shaped(),
        ensures
            inside == self@.interior(idx as int),
            inside ==> idx < self@.cells.len(),
    {
        let (x, y) = self.get_coord(idx);
        proof {
            if self@.interior(idx as int) {
                lemma_interior_bounds(self@.width, idx as int);
            }
        }
        !(x == 0 || x > self.width || y == 0 || y > self.height)
    }

    /// The four neighbours of a playable cell: above, left, right, below.
    pub fn get_neighbor(&self, idx: usize) -> (ids: Vec<usize>)
        requires
            self@.shaped(),
            self@.interior(idx as int),
        ensures
            ids@ == neighbors(self@.stride(), idx),
            forall|t: int| 0 <= t < 4 ==> (#[trigger] ids@[t]) < self@.cells.len(),
            ids@[0] < ids@[1] < idx < ids@[2] < ids@[3],
    {
        proof {
            lemma_interior_bounds(self@.width, idx as int);
        }
        let stride = self.width + 2;
        let mut ids: Vec<usize> = Vec::with_capacity(4);
        ids.push(idx - stride);
        ids.push(idx - 1);
        ids.push(idx + 1);
        ids.push(idx + stride);
        assert(ids@ =~= neighbors(self@.stride(), idx));
        ids
    }

    /// Those neighbours of a playable cell that are alive, in ascending order.
    pub fn get_alive_neighbor(&self, idx: usize) -> (alive: Vec<usize>)
        requires
            self@.shaped(),
            self@.interior(idx as int),
        ensures
            alive@ == picks(neighbors(self@.stride(), idx), alive_in(self@.cells), 4),
            forall|j: int| 0 <= j < alive@.len() ==> (#[trigger] alive@[j]) < self@.cells.len(),
    {
        let ids = self.get_neighbor(idx);
        let mut alive: Vec<usize> = Vec::new();
        let mut t: usize = 0;
        while t < 4
            invariant
                t <= 4,
                ids@ == neighbors(self@.stride(), idx),
                forall|t: int| 0 <= t < 4 ==> (#[trigger] ids@[t]) < self@.cells.len(),
                alive@ == picks(ids@, alive_in(self@.cells), t as int),
                forall|j: int| 0 <= j < alive@.len() ==> (#[trigger] alive@[j]) < self@.cells.len(),
            decreases 4 - t,
        {
            let neigh = ids[t];
            if self.graph.list(neigh).len() > 0 {
                alive.push(neigh);
            }
            t += 1;
        }
        alive
    }

    /// The number of cells, padding included.
    pub fn len(&self) -> (n: usize)
        ensures
            n == self@.cells.len(),
    {
        self.graph.len()
    }

    /// The number of playable rows.
    pub fn height(&self) -> (h: usize)
        ensures
            h == self@.height,
    {
        self.height
    }

    /// The number of playable columns.
    pub fn width(&self) -> (w: usize)
        ensures
            w == self@.width,
    {
        self.width
    }

    /// The cell where the route begins.
    pub fn start(&self) -> (id: usize)
        ensures
            id == self@.start,
    {
        self.start
    }

    /// The cell where the route ends.
    pub fn end(&self) -> (id: usize)
        ensures
            id == self@.end,
    {
        self.end
    }

    /// Moves the end of the route to `idx`, whatever cell that is.
    pub fn set_end(&mut self, idx: usize)
        ensures
            final(self)@ == (MazeView { end: idx, ..old(self)@ }),
    {
        self.end = idx;
    }

    /// Moves the start of the route to `idx`, whatever cell that is.
    pub fn set_start(&mut self, idx: usize)
        ensures
            final(self)@ == (MazeView { start: idx, ..old(self)@ }),
    {
        self.start = idx;
    }

    /// The list of a playable cell; a padding cell is refused. An empty list
    /// marks a dead cell.
    pub fn get_node_relation(&self, idx: usize) -> (relation: Result<&Vec<usize>, ()>)
        requires
            self@.shaped(),
        ensures
            relation is Ok <==> self@.interior(idx as int),
            match relation {
                Ok(list) => idx < self@.cells.len() && list@ == self@.cells[idx as int],
                Err(_) => true,
            },
    {
        if self.is_playable(idx) {
            Ok(self.graph.list(idx))
        } else {
            Err(())
        }
    }

    /// The kind of a playable cell; a padding cell is refused.
    pub fn cell_kind(&self, idx: usize) -> (kind: Result<CellKind, ()>)
        requires
            self@.shaped(),
        ensures
            kind is Ok <==> self@.interior(idx as int),
            kind is Ok ==> kind == Ok::<CellKind, ()>(kind_of(self@, idx)),
    {
        match self.get_node_relation(idx) {
            Ok(list) => {
                if idx == self.start {
                    Ok(CellKind::Start)
                } else if idx == self.end {
                    Ok(CellKind::End)
                } else if list.len() == 0 {
                    Ok(CellKind::Dead)
                } else {
                    Ok(CellKind::Alive)
                }
            },
            Err(_) => Err(()),
        }
    }

    /// A shortest route from start to end over alive cells; the start alone
    /// when there is none, or when start and end are the same cell.
    pub fn get_bfs(&self) -> (path: Vec<usize>)
        requires
            self@.wf(),
            self@.start < self@.cells.len(),
        ensures
            path@ == bfs_path(self@.cells, self@.start, self@.end),
            self@.start == self@.end ==> path@ == seq![self@.start],
            !reachable(self@.cells, self@.start, self@.end) ==> path@ == seq![self@.start],
            reachable(self@.cells, self@.start, self@.end) ==> connects(
                self@.cells,
                path@,
                self@.start,
                self@.end,
            ),
            forall|p: Seq<usize>|
                connects(self@.cells, p, self@.start, self@.end) ==> path@.len() <= p.len(),
    {
        self.graph.do_bfs(self.start, self.end)
    }

    /// Switches a playable cell off: empties its list, then searches each of
    /// its four neighbours' lists for it, as a sorted list is searched, and
    /// removes the occurrence found. A neighbour whose list is out of order
    /// may keep its entry.
    pub fn kill(&mut self, idx: usize)
        requires
            old(self)@.wf(),
            old(self)@.interior(idx as int),
        ensures
            final(self)@.wf(),
            final(self)@ == (MazeView {
                cells: killed(old(self)@.cells, old(self)@.stride(), idx),
                ..old(self)@
            }),
            searches_sound(old(self)@.cells, old(self)@.stride(), idx),
            final(self)@.cells[idx as int].len() == 0,
            forall|k: int|
                0 <= k < old(self)@.cells.len() && is_neighbor(old(self)@.stride(), idx as int, k)
                    && strictly_sorted(old(self)@.cells[k]) ==> !(#[trigger] final(self)@.cells[k])
                    .contains(idx),
    {
        let ghost before = self@;
        let ghost stride = self@.stride();
        let ids = self.get_neighbor(idx);
        self.graph.set_list(idx, Vec::new());
        let mut t: usize = 0;
        while t < 4
            invariant
                t <= 4,
                before.wf(),
                before.interior(idx as int),
                stride == before.stride(),
                idx < before.cells.len(),
                ids@ == neighbors(stride, idx),
                forall|u: int| 0 <= u < 4 ==> (#[trigger] ids@[u]) < before.cells.len(),
                ids@[0] < ids@[1] < idx < ids@[2] < ids@[3],
                self@ == (MazeView { cells: self@.cells, ..before }),
                self@.cells.len() == before.cells.len(),
                forall|k: int|
                    0 <= k < before.cells.len() ==> #[trigger] self@.cells[k] == (if k == idx {
                        Seq::empty()
                    } else if among_first(ids@, t as int, k) {
                        detach(before.cells[k], binary_search_outcome(before.cells[k], idx))
                    } else {
                        before.cells[k]
                    }),
                forall|u: int|
                    0 <= u < t ==> search_sound(
                        before.cells[(#[trigger] ids@[u]) as int],
                        idx,
                        binary_search_outcome(before.cells[ids@[u] as int], idx),
                    ),
            decreases 4 - t,
        {
            let neigh = ids[t];
            let ghost prior = self@.cells;
            assert(!among_first(ids@, t as int, neigh as int));
            assert(prior[neigh as int] == before.cells[neigh as int]);
            self.graph.remove_sorted(neigh, idx);
            proof {
                assert forall|k: int| 0 <= k < before.cells.len() implies #[trigger] self@.cells[k]
                    == (if k == idx {
                    Seq::empty()
                } else if among_first(ids@, t + 1, k) {
                    detach(before.cells[k], binary_search_outcome(before.cells[k], idx))
                } else {
                    before.cells[k]
                }) by {
                    assert(prior[k] == (if k == idx {
                        Seq::empty()
                    } else if among_first(ids@, t as int, k) {
                        detach(before.cells[k], binary_search_outcome(before.cells[k], idx))
                    } else {
                        before.cells[k]
                    }));
                    if k == neigh {
                        assert(ids@[t as int] == k);
                    } else if among_first(ids@, t as int, k) {
                        let u = choose|u: int| 0 <= u < t && #[trigger] ids@[u] == k;
                        assert(ids@[u] == k);
                    }
                }
            }
            t += 1;
        }
        proof {
            let after = self@.cells;
            lemma_interior_bounds(before.width, idx as int);
            assert(ids@[0] == idx - stride && ids@[1] == idx - 1 && ids@[2] == idx + 1 && ids@[3]
                == idx + stride);
            assert forall|k: int| 0 <= k < before.cells.len() implies (among_first(ids@, 4, k)
                <==> is_neighbor(stride, idx as int, k)) by {
                if is_neighbor(stride, idx as int, k) {
                    assert(ids@[0] == k || ids@[1] == k || ids@[2] == k || ids@[3] == k);
                }
                if among_first(ids@, 4, k) {
                    let u = choose|u: int| 0 <= u < 4 && #[trigger] ids@[u] == k;
                    assert(u == 0 || u == 1 || u == 2 || u == 3);
                }
            }
            assert(after =~= killed(before.cells, stride, idx));
            assert forall|k: int|
                0 <= k < before.cells.len() && is_neighbor(stride, idx as int, k) implies search_sound(
                #[trigger] before.cells[k],
                idx,
                binary_search_outcome(before.cells[k], idx),
            ) by {
                let u = choose|u: int| 0 <= u < 4 && #[trigger] ids@[u] == k;
                assert(ids@[u] == k);
            }
            assert forall|k: int|
                0 <= k < before.cells.len() && is_neighbor(stride, idx as int, k) && strictly_sorted(
                    before.cells[k],
                ) implies !(#[trigger] after[k]).contains(idx) by {
                lemma_detach_removes(
                    before.cells[k],
                    idx,
                    binary_search_outcome(before.cells[k], idx),
                );
            }
            lemma_killed_wf(before, idx);
        }
    }

    /// Switches a playable cell on: its list becomes those of its four
    /// neighbours that are alive, and each of them gets the cell appended to
    /// its own list.
    pub fn revive(&mut self, idx: usize)
        requires
            old(self)@.wf(),
            old(self)@.interior(idx as int),
        ensures
            final(self)@.wf(),
            final(self)@ == (MazeView {
                cells: revived(old(self)@.cells, old(self)@.stride(), idx),
                ..old(self)@
            }),
    {
        let ghost before = self@;
        let ghost stride = self@.stride();
        let alive = self.get_alive_neighbor(idx);
        let ids = self.get_neighbor(idx);
        let mut t: usize = 0;
        while t < 4
            invariant
                t <= 4,
                before.wf(),
                before.interior(idx as int),
                stride == before.stride(),
                idx < before.cells.len(),
                ids@ == neighbors(stride, idx),
                forall|u: int| 0 <= u < 4 ==> (#[trigger] ids@[u]) < before.cells.len(),
                ids@[0] < ids@[1] < idx < ids@[2] < ids@[3],
                self@ == (MazeView { cells: self@.cells, ..before }),
                self@.cells.len() == before.cells.len(),
                forall|k: int|
                    0 <= k < before.cells.len() ==> #[trigger] self@.cells[k] == (if among_first(
                        ids@,
                        t as int,
                        k,
                    ) && before.cells[k].len() > 0 {
                        before.cells[k].push(idx)
                    } else {
                        before.cells[k]
                    }),
            decreases 4 - t,
        {
            let neigh = ids[t];
            let ghost prior = self@.cells;
            assert(!among_first(ids@, t as int, neigh as int));
            assert(prior[neigh as int] == before.cells[neigh as int]);
            if self.graph.list(neigh).len() > 0 {
                self.graph.push_neighbor(neigh, idx);
            }
            proof {
                assert forall|k: int| 0 <= k < before.cells.len() implies #[trigger] self@.cells[k]
                    == (if among_first(ids@, t + 1, k) && before.cells[k].len() > 0 {
                    before.cells[k].push(idx)
                } else {
                    before.cells[k]
                }) by {
                    assert(prior[k] == (if among_first(ids@, t as int, k) && before.cells[k].len()
                        > 0 {
                        before.cells[k].push(idx)
                    } else {
                        before.cells[k]
                    }));
                    if k == neigh {
                        assert(ids@[t as int] == k);
                    } else if among_first(ids@, t as int, k) {
                        let u = choose|u: int| 0 <= u < t && #[trigger] ids@[u] == k;
                        assert(ids@[u] == k);
                    }
                }
            }
            t += 1;
        }
        self.graph.set_list(idx, alive);
        proof {
            let after = self@.cells;
            lemma_interior_bounds(before.width, idx as int);
            assert(ids@[0] == idx - stride && ids@[1] == idx - 1 && ids@[2] == idx + 1 && ids@[3]
                == idx + stride);
            assert forall|k: int| 0 <= k < before.cells.len() implies (among_first(ids@, 4, k)
                <==> is_neighbor(stride, idx as int, k)) by {
                if is_neighbor(stride, idx as int, k) {
                    assert(ids@[0] == k || ids@[1] == k || ids@[2] == k || ids@[3] == k);
                }
                if among_first(ids@, 4, k) {
                    let u = choose|u: int| 0 <= u < 4 && #[trigger] ids@[u] == k;
                    assert(u == 0 || u == 1 || u == 2 || u == 3);
                }
            }
            assert(!among_first(ids@, 4, idx as int));
            assert(after =~= revived(before.cells, stride, idx));
            lemma_revived_wf(before, idx);
        }
    }

    /// Switches a playable cell off if it is alive, and on if it is dead.
    pub fn toggle(&mut self, idx: usize)
        requires
            old(self)@.wf(),
            old(self)@.interior(idx as int),
        ensures
            final(self)@.wf(),
            toggles_to(old(self)@, final(self)@, idx),
    {
        proof {
            lemma_interior_bounds(self@.width, idx as int);
        }
        if self.graph.list(idx).len() != 0 {
            self.kill(idx);
        } else {
            self.revive(idx);
        }
    }

    /// Toggles the cell `idx` if it is playable, and refuses a padding cell
    /// without touching the maze.
    pub fn try_toggle(&mut self, idx: usize) -> (done: Result<(), ()>)
        requires
            old(self)@.wf(),
        ensures
            final(self)@.wf(),
            done is Ok <==> old(self)@.interior(idx as int),
            done is Ok ==> toggles_to(old(self)@, final(self)@, idx),
            done is Err ==> final(self)@ == old(self)@,
    {
        if self.is_playable(idx) {
            self.toggle(idx);
            Ok(())
        } else {
            Err(())
        }
    }

    /// Links every playable cell of an edgeless grid to its playable
    /// neighbours.
    fn init_graph(&mut self)
        requires
            old(self)@.shaped(),
            forall|id: int| 0 <= id < old(self)@.cells.len() ==> old(self)@.cells[id].len() == 0,
        ensures
            final(self)@ == (MazeView {
                cells: fresh_cells(old(self)@.width, old(self)@.height),
                ..old(self)@
            }),
            final(self)@.wf(),
    {
        let ghost before = self@;
        let ghost side = self@.width;
        let mut y: usize = 1;
        proof {
            lemma_row_fits(self@);
        }
        while y < self.height + 1
            invariant
                self.height + 2 <= usize::MAX,
                self.width + 2 <= usize::MAX,
                1 <= y <= self.height + 1,
                self@ == (MazeView { cells: self@.cells, ..before }),
                before.shaped(),
                side == before.width,
                self@.cells.len() == before.cells.len(),
                in_range(self@.cells),
                forall|id: int|
                    0 <= id < self@.cells.len() ==> #[trigger] self@.cells[id] == (if is_interior(
                        side,
                        side,
                        id,
                    ) && cell_coord(side, id).1 < y {
                        fresh_cells(side, side)[id]
                    } else {
                        Seq::empty()
                    }),
            decreases self.height + 1 - y,
        {
            let mut x: usize = 1;
            while x < self.width + 1
                invariant
                    self.height + 2 <= usize::MAX,
                    self.width + 2 <= usize::MAX,
                    1 <= y <= self.height,
                    1 <= x <= self.width + 1,
                    self@ == (MazeView { cells: self@.cells, ..before }),
                    before.shaped(),
                    side == before.width,
                    self@.cells.len() == before.cells.len(),
                    in_range(self@.cells),
                    forall|id: int|
                        0 <= id < self@.cells.len() ==> #[trigger] self@.cells[id] == (
                        if is_interior(side, side, id) && (cell_coord(side, id).1 < y || (
                        cell_coord(side, id).1 == y && cell_coord(side, id).0 < x)) {
                            fresh_cells(side, side)[id]
                        } else {
                            Seq::empty()
                        }),
                decreases self.width + 1 - x,
            {
                proof {
                    lemma_coord_roundtrip(side, x as int, y as int);
                    lemma_interior_bounds(side, cell_id(side, x as int, y as int));
                }
                let idx = self.get_index(x, y);
                let ids = self.get_neighbor(idx);
                let ghost outside = self@.cells;
                let mut t: usize = 0;
                while t < 4
                    invariant
                        t <= 4,
                        idx < self@.cells.len(),
                        ids@ == neighbors(side + 2, idx),
                        self@ == (MazeView { cells: self@.cells, ..before }),
                        before.shaped(),
                        side == before.width,
                        self@.cells.len() == before.cells.len(),
                        outside.len() == before.cells.len(),
                        in_range(self@.cells),
                        self@.cells[idx as int] == picks(ids@, interior_in(side, side), t as int),
                        forall|id: int|
                            0 <= id < self@.cells.len() && id != idx ==> #[trigger] self@.cells[id]
                                == outside[id],
                    decreases 4 - t,
                {
                    let neigh = ids[t];
                    if self.is_playable(neigh) {
                        let ghost prior = self@.cells;
                        self.graph.push_neighbor(idx, neigh);
                        proof {
                            assert forall|u: int, j: int|
                                0 <= u < self@.cells.len() && 0 <= j < self@.cells[u].len() implies (
                            #[trigger] self@.cells[u][j]) < self@.cells.len() by {
                                if u == idx && j == prior[u].len() {
                                } else {
                                    assert(self@.cells[u][j] == prior[u][j]);
                                }
                            }
                        }
                    }
                    t += 1;
                }
                proof {
                    assert forall|id: int| 0 <= id < self@.cells.len() implies #[trigger] self@.cells[id]
                        == (if is_interior(side, side, id) && (cell_coord(side, id).1 < y || (
                    cell_coord(side, id).1 == y && cell_coord(side, id).0 < x + 1)) {
                        fresh_cells(side, side)[id]
                    } else {
                        Seq::empty()
                    }) by {
                        lemma_id_roundtrip(side, id);
                        if id != idx {
                            assert(self@.cells[id] == outside[id]);
                        }
                    }
                }
                x += 1;
            }
            y += 1;
        }
        proof {
            assert(self@.cells =~= fresh_cells(side, side));
            lemma_fresh_cells_adjacent(self@);
        }
    }
}

} // verus!
