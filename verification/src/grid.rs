//! The layout of a padded grid: cell ids, coordinates and the four
//! neighbours of a cell.

use vstd::prelude::*;
use crate::search::strictly_sorted;

verus! {

/// The id of the cell at column `x`, row `y`, in a grid whose rows are
/// `height + 2` ids apart.
pub open spec fn cell_id(height: int, x: int, y: int) -> int {
    x + y * (height + 2)
}

/// The column and row of the cell `id`.
pub open spec fn cell_coord(height: int, id: int) -> (int, int) {
    (id % (height + 2), id / (height + 2))
}

/// The cell lies inside the playable area, off the padding ring.
pub open spec fn is_interior(width: int, height: int, id: int) -> bool {
    let (x, y) = cell_coord(height, id);
    1 <= x <= width && 1 <= y <= height
}

/// The ids above, left of, right of and below `id`, in ascending order.
pub open spec fn neighbors(stride: int, id: usize) -> Seq<usize> {
    seq![(id - stride) as usize, (id - 1) as usize, (id + 1) as usize, (id + stride) as usize]
}

/// `k` is one of the four neighbours of `id`.
pub open spec fn is_neighbor(stride: int, id: int, k: int) -> bool {
    k == id - stride || k == id - 1 || k == id + 1 || k == id + stride
}

/// Of the first `count` entries of `ids`, those that satisfy `keep`, in order.
pub open spec fn picks(ids: Seq<usize>, keep: spec_fn(usize) -> bool, count: int) -> Seq<usize>
    decreases count,
{
    if count <= 0 {
        Seq::empty()
    } else if keep(ids[count - 1]) {
        picks(ids, keep, count - 1).push(ids[count - 1])
    } else {
        picks(ids, keep, count - 1)
    }
}

/// Mapping a coordinate to its id and back gives the coordinate again, for
/// every column within the row length and every row.
pub proof fn lemma_coord_roundtrip(height: int, x: int, y: int)
    requires
        0 <= height,
        0 <= x < height + 2,
        0 <= y,
    ensures
        cell_coord(height, cell_id(height, x, y)) == (x, y),
{
    vstd::arithmetic::div_mod::lemma_fundamental_div_mod_converse(
        x + y * (height + 2),
        height + 2,
        y,
        x,
    );
}

/// An id is the id of its own coordinate.
pub proof fn lemma_id_roundtrip(height: int, id: int)
    requires
        0 <= height,
        0 <= id,
    ensures
        cell_id(height, cell_coord(height, id).0, cell_coord(height, id).1) == id,
        0 <= cell_coord(height, id).0 < height + 2,
        0 <= cell_coord(height, id).1,
{
    vstd::arithmetic::div_mod::lemma_fundamental_div_mod(id, height + 2);
    let q = id / (height + 2);
    assert((height + 2) * q == q * (height + 2)) by (nonlinear_arith);
    assert(0 <= id / (height + 2)) by (nonlinear_arith)
        requires
            0 <= id,
            0 < height + 2,
    ;
}

/// An interior cell of a square grid has all four neighbours on the grid.
pub proof fn lemma_interior_bounds(side: int, id: int)
    requires
        0 <= side,
        0 <= id,
        is_interior(side, side, id),
    ensures
        side + 3 <= id,
        id + side + 2 < (side + 2) * (side + 2),
{
    lemma_id_roundtrip(side, id);
    let (x, y) = cell_coord(side, id);
    let s = side + 2;
    assert(id == x + y * s);
    assert(y * s >= s && (y + 1) * s <= (s - 1) * s && (s - 1) * s == s * s - s
        && (y + 1) * s == y * s + s) by (nonlinear_arith)
        requires
            1 <= y <= s - 2,
            s >= 2,
    ;
}

/// The coordinates of the four neighbours of an interior cell.
pub proof fn lemma_neighbor_coords(side: int, id: int)
    requires
        0 <= side,
        0 <= id,
        is_interior(side, side, id),
    ensures
        ({
            let (x, y) = cell_coord(side, id);
            &&& cell_coord(side, id - (side + 2)) == (x, y - 1)
            &&& cell_coord(side, id - 1) == (x - 1, y)
            &&& cell_coord(side, id + 1) == (x + 1, y)
            &&& cell_coord(side, id + (side + 2)) == (x, y + 1)
        }),
{
    lemma_id_roundtrip(side, id);
    let (x, y) = cell_coord(side, id);
    let s = side + 2;
    assert((y - 1) * s == y * s - s && (y + 1) * s == y * s + s) by (nonlinear_arith);
    lemma_coord_roundtrip(side, x, y - 1);
    lemma_coord_roundtrip(side, x - 1, y);
    lemma_coord_roundtrip(side, x + 1, y);
    lemma_coord_roundtrip(side, x, y + 1);
}

/// `k` is one of the first `count` entries of `ids`.
pub open spec fn among_first(ids: Seq<usize>, count: int, k: int) -> bool {
    exists|u: int| 0 <= u < count && #[trigger] ids[u] == k
}

/// Of the first `count` ids, each one picked is one of them and passes the
/// test.
pub proof fn lemma_picks_members(ids: Seq<usize>, keep: spec_fn(usize) -> bool, count: int)
    requires
        0 <= count <= ids.len(),
    ensures
        picks(ids, keep, count).len() <= count,
        forall|j: int|
            0 <= j < picks(ids, keep, count).len() ==> keep(#[trigger] picks(ids, keep, count)[j])
                && among_first(ids, count, picks(ids, keep, count)[j] as int),
    decreases count,
{
    if count > 0 {
        lemma_picks_members(ids, keep, count - 1);
        let shorter = picks(ids, keep, count - 1);
        let longer = picks(ids, keep, count);
        assert forall|j: int| 0 <= j < longer.len() implies keep(#[trigger] longer[j])
            && among_first(ids, count, longer[j] as int) by {
            if j < shorter.len() {
                assert(longer[j] == shorter[j]);
                let u = choose|u: int| 0 <= u < count - 1 && #[trigger] ids[u] == shorter[j];
                assert(ids[u] == longer[j]);
            } else {
                assert(longer[j] == ids[count - 1]);
            }
        }
    }
}

/// Picking with two tests that agree on the ids gives the same list.
pub proof fn lemma_picks_agree(
    ids: Seq<usize>,
    keep: spec_fn(usize) -> bool,
    other: spec_fn(usize) -> bool,
    count: int,
)
    requires
        0 <= count <= ids.len(),
        forall|t: int| 0 <= t < count ==> keep(#[trigger] ids[t]) == other(ids[t]),
    ensures
        picks(ids, keep, count) == picks(ids, other, count),
    decreases count,
{
    if count > 0 {
        lemma_picks_agree(ids, keep, other, count - 1);
        assert(keep(ids[count - 1]) == other(ids[count - 1]));
    }
}

/// Every id among the first `count` that passes the test is picked.
pub proof fn lemma_picks_contains(ids: Seq<usize>, keep: spec_fn(usize) -> bool, count: int, t: int)
    requires
        0 <= t < count <= ids.len(),
        keep(ids[t]),
    ensures
        picks(ids, keep, count).contains(ids[t]),
    decreases count,
{
    let longer = picks(ids, keep, count);
    let shorter = picks(ids, keep, count - 1);
    if t == count - 1 {
        assert(longer[longer.len() - 1] == ids[t]);
    } else {
        lemma_picks_contains(ids, keep, count - 1, t);
        let j = choose|j: int| 0 <= j < shorter.len() && shorter[j] == ids[t];
        assert(longer[j] == ids[t]);
    }
}

/// Picking from ids in strictly ascending order gives a list in strictly
/// ascending order.
pub proof fn lemma_picks_sorted(ids: Seq<usize>, keep: spec_fn(usize) -> bool, count: int)
    requires
        0 <= count <= ids.len(),
        strictly_sorted(ids),
    ensures
        strictly_sorted(picks(ids, keep, count)),
    decreases count,
{
    if count > 0 {
        lemma_picks_sorted(ids, keep, count - 1);
        lemma_picks_members(ids, keep, count - 1);
        let longer = picks(ids, keep, count);
        let shorter = picks(ids, keep, count - 1);
        assert forall|i: int, j: int| 0 <= i < j < longer.len() implies longer[i] < longer[j] by {
            if j < shorter.len() {
                assert(longer[i] == shorter[i] && longer[j] == shorter[j]);
            } else {
                assert(longer[j] == ids[count - 1]);
                assert(longer[i] == shorter[i]);
                let u = choose|u: int| 0 <= u < count - 1 && #[trigger] ids[u] == shorter[i];
                assert(ids[u] < ids[count - 1]);
            }
        }
    }
}

/// The four neighbours of a playable cell, as numbers, and which of them
/// are playable.
pub proof fn lemma_neighbors_of_interior(side: int, id: usize)
    requires
        1 <= side,
        (side + 2) * (side + 2) <= usize::MAX,
        is_interior(side, side, id as int),
    ensures
        ({
            let ids = neighbors(side + 2, id);
            let (x, y) = cell_coord(side, id as int);
            &&& ids.len() == 4
            &&& ids[0] == id - (side + 2)
            &&& ids[1] == id - 1
            &&& ids[2] == id + 1
            &&& ids[3] == id + (side + 2)
            &&& strictly_sorted(ids)
            &&& is_interior(side, side, ids[0] as int) == (2 <= y)
            &&& is_interior(side, side, ids[1] as int) == (2 <= x)
            &&& is_interior(side, side, ids[2] as int) == (x + 1 <= side)
            &&& is_interior(side, side, ids[3] as int) == (y + 1 <= side)
        }),
{
    lemma_interior_bounds(side, id as int);
    lemma_neighbor_coords(side, id as int);
}

} // verus!
