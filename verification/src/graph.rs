//! Adjacency lists indexed by node id, and breadth-first shortest paths.

use vstd::prelude::*;
use crate::search::{detach, search_sorted, binary_search_outcome, search_sound};

verus! {

/// What the search records for a node: the level at which it was discovered
/// and the node it was discovered from.
pub type Mark = (Option<usize>, Option<usize>);

/// One adjacency list per node id; entry `u` lists the nodes that `u` leads to.
#[derive(Debug, Clone)]
pub struct Graph(pub Vec<Vec<usize>>);

impl View for Graph {
    type V = Seq<Seq<usize>>;

    open spec fn view(&self) -> Seq<Seq<usize>> {
        Seq::new(self.0@.len(), |u: int| self.0@[u]@)
    }
}

/// Every neighbour id names a node of the graph.
pub open spec fn in_range(g: Seq<Seq<usize>>) -> bool {
    forall|u: int, j: int|
        0 <= u < g.len() && 0 <= j < g[u].len() ==> (#[trigger] g[u][j]) < g.len()
}

/// `u` lists `v` as a neighbour.
pub open spec fn has_edge(g: Seq<Seq<usize>>, u: usize, v: usize) -> bool {
    u < g.len() && g[u as int].contains(v)
}

/// Whoever lists a node is listed by it.
pub open spec fn symmetric(g: Seq<Seq<usize>>) -> bool {
    forall|u: usize, v: usize|
        u < g.len() && v < g.len() && #[trigger] g[u as int].contains(v) ==> g[v as int].contains(u)
}

/// `p` is a non-empty walk along edges of `g`.
pub open spec fn is_path(g: Seq<Seq<usize>>, p: Seq<usize>) -> bool {
    &&& p.len() > 0
    &&& forall|i: int| 0 <= i < p.len() - 1 ==> has_edge(g, #[trigger] p[i], p[i + 1])
}

/// `p` is a walk from `a` to `b`.
pub open spec fn connects(g: Seq<Seq<usize>>, p: Seq<usize>, a: usize, b: usize) -> bool {
    is_path(g, p) && p[0] == a && p.last() == b
}

/// Some walk leads from `a` to `b`.
pub open spec fn reachable(g: Seq<Seq<usize>>, a: usize, b: usize) -> bool {
    exists|p: Seq<usize>| connects(g, p, a, b)
}

/// The entries that expanding `node` adds to a frontier: each neighbour,
/// paired with `node` as the place it was reached from.
pub open spec fn expansions(g: Seq<Seq<usize>>, node: usize) -> Seq<(usize, usize)> {
    Seq::new(g[node as int].len(), |j: int| (g[node as int][j], node))
}

/// The marks before the search: only `start` is marked, at level 0.
pub open spec fn initial_marks(g: Seq<Seq<usize>>, start: usize) -> Seq<Mark> {
    Seq::new(g.len(), |v: int| (None::<usize>, None::<usize>)).update(
        start as int,
        (Some(0usize), None::<usize>),
    )
}

/// One pass over the frontier `current`, from entry `k` on: an entry whose
/// node is unmarked marks it at `level`, with the entry's other node as its
/// predecessor, and queues its neighbours. The pass stops on marking `end`.
/// Gives the marks, the next frontier and whether `end` was marked.
pub open spec fn sweep(
    g: Seq<Seq<usize>>,
    marks: Seq<Mark>,
    current: Seq<(usize, usize)>,
    k: int,
    upcoming: Seq<(usize, usize)>,
    level: usize,
    end: usize,
) -> (Seq<Mark>, Seq<(usize, usize)>, bool)
    decreases current.len() - k,
{
    if k < 0 || k >= current.len() {
        (marks, upcoming, false)
    } else {
        let (node, before) = current[k];
        if marks[node as int].0 is None {
            let marked = marks.update(node as int, (Some(level), Some(before)));
            let queued = upcoming + expansions(g, node);
            if node == end {
                (marked, queued, true)
            } else {
                sweep(g, marked, current, k + 1, queued, level, end)
            }
        } else {
            sweep(g, marks, current, k + 1, upcoming, level, end)
        }
    }
}

/// The search from a frontier reached at `depth`, for at most `rounds`
/// passes: pass after pass until `end` is marked or the frontier is empty.
/// Gives the marks and whether `end` was marked.
pub open spec fn search(
    g: Seq<Seq<usize>>,
    marks: Seq<Mark>,
    frontier: Seq<(usize, usize)>,
    depth: usize,
    end: usize,
    rounds: nat,
) -> (Seq<Mark>, bool)
    decreases rounds,
{
    if frontier.len() == 0 || rounds == 0 {
        (marks, false)
    } else {
        let level = (depth + 1) as usize;
        let (marked, queued, found) = sweep(g, marks, frontier, 0, Seq::empty(), level, end);
        if found {
            (marked, true)
        } else {
            search(g, marked, queued, level, end, (rounds - 1) as nat)
        }
    }
}

/// The walk that the predecessor links describe, from the root to `node`,
/// over at most `steps` links.
pub open spec fn trace(marks: Seq<Mark>, node: usize, steps: nat) -> Seq<usize>
    decreases steps,
{
    match marks[node as int].1 {
        Some(before) => if steps > 0 {
            trace(marks, before, (steps - 1) as nat).push(node)
        } else {
            seq![node]
        },
        None => seq![node],
    }
}

/// The route that the search gives: `start` alone when both ends are the
/// same node or `end` is never marked, else the walk along the predecessor
/// links from `start` to `end`. Among shortest walks it is the one found
/// first when frontiers and lists are gone through in order.
pub open spec fn bfs_path(g: Seq<Seq<usize>>, start: usize, end: usize) -> Seq<usize> {
    if start == end {
        seq![start]
    } else {
        let (marks, found) = search(
            g,
            initial_marks(g, start),
            expansions(g, start),
            0,
            end,
            g.len(),
        );
        if found {
            match marks[end as int].0 {
                Some(level) => trace(marks, end, level as nat),
                None => seq![start],
            }
        } else {
            seq![start]
        }
    }
}

/// The level recorded for node `v`, if any.
spec fn level_of(marks: Seq<Mark>, v: int) -> Option<usize> {
    marks[v].0
}

/// Node `v` is either unmarked, or the origin, or was discovered one level
/// after its predecessor, along an edge from it.
spec fn linked(g: Seq<Seq<usize>>, marks: Seq<Mark>, start: usize, v: int) -> bool {
    match marks[v].0 {
        None => marks[v].1 is None,
        Some(d) => v == start || (d >= 1 && match marks[v].1 {
            Some(p) => p < g.len() && level_of(marks, p as int) == Some((d - 1) as usize)
                && has_edge(g, p, v as usize),
            None => false,
        }),
    }
}

/// The marks form a tree rooted at `start`, whose links are edges of `g`.
spec fn search_tree(g: Seq<Seq<usize>>, marks: Seq<Mark>, start: usize) -> bool {
    &&& marks.len() == g.len()
    &&& start < g.len()
    &&& marks[start as int] == (Some(0usize), None::<usize>)
    &&& forall|v: int| 0 <= v < marks.len() ==> #[trigger] linked(g, marks, start, v)
}

/// No recorded level exceeds `bound`.
spec fn levels_within(marks: Seq<Mark>, bound: int) -> bool {
    forall|v: int|
        0 <= v < marks.len() ==> match #[trigger] level_of(marks, v) {
            Some(d) => d <= bound,
            None => true,
        }
}

/// If `u` was discovered before level `bound`, its `j`-th neighbour is marked
/// too, at most one level later.
spec fn edge_settled(g: Seq<Seq<usize>>, marks: Seq<Mark>, bound: int, u: int, j: int) -> bool {
    match marks[u].0 {
        Some(d) => d < bound ==> match level_of(marks, g[u][j] as int) {
            Some(e) => e <= d + 1,
            None => false,
        },
        None => true,
    }
}

/// Every edge that leaves a node discovered before level `bound` is settled.
spec fn settled_below(g: Seq<Seq<usize>>, marks: Seq<Mark>, bound: int) -> bool {
    forall|u: int, j: int|
        0 <= u < g.len() && 0 <= j < g[u].len() ==> #[trigger] edge_settled(g, marks, bound, u, j)
}

/// If `u` was discovered at `level`, its `j`-th neighbour waits in `frontier`.
spec fn edge_queued(
    g: Seq<Seq<usize>>,
    marks: Seq<Mark>,
    level: int,
    frontier: Seq<(usize, usize)>,
    u: int,
    j: int,
) -> bool {
    marks[u].0 == Some(level as usize) ==> exists|t: int|
        0 <= t < frontier.len() && (#[trigger] frontier[t]).0 == g[u][j]
}

/// The frontier holds every neighbour of every node discovered at `level`.
spec fn frontier_covers(
    g: Seq<Seq<usize>>,
    marks: Seq<Mark>,
    level: int,
    frontier: Seq<(usize, usize)>,
) -> bool {
    forall|u: int, j: int|
        0 <= u < g.len() && 0 <= j < g[u].len() ==> #[trigger] edge_queued(
            g,
            marks,
            level,
            frontier,
            u,
            j,
        )
}

/// Each frontier entry pairs a node with a neighbour of it that was
/// discovered at `level`.
spec fn frontier_valid(
    g: Seq<Seq<usize>>,
    marks: Seq<Mark>,
    level: int,
    frontier: Seq<(usize, usize)>,
) -> bool {
    forall|t: int|
        0 <= t < frontier.len() ==> {
            let (w, u) = #[trigger] frontier[t];
            w < g.len() && has_edge(g, u, w) && level_of(marks, u as int) == Some(level as usize)
        }
}

/// The marked nodes, as a set of ids.
spec fn marked(marks: Seq<Mark>) -> Set<int> {
    Set::new(|v: int| 0 <= v < marks.len() && marks[v].0 is Some)
}

/// Along a walk from the origin, a node that is `i` steps in has a level of
/// at most `i`, as long as every edge below level `i` is settled.
proof fn lemma_level_at_most_steps(
    g: Seq<Seq<usize>>,
    marks: Seq<Mark>,
    start: usize,
    bound: int,
    p: Seq<usize>,
    i: int,
)
    requires
        in_range(g),
        search_tree(g, marks, start),
        settled_below(g, marks, bound),
        is_path(g, p),
        p[0] == start,
        0 <= i < p.len(),
        i <= bound,
    ensures
        p[i] < g.len(),
        match level_of(marks, p[i] as int) {
            Some(e) => e <= i,
            None => false,
        },
    decreases i,
{
    if i > 0 {
        lemma_level_at_most_steps(g, marks, start, bound, p, i - 1);
        let u = p[i - 1];
        let w = p[i];
        assert(has_edge(g, u, w));
        let j = choose|j: int| 0 <= j < g[u as int].len() && g[u as int][j] == w;
        assert(edge_settled(g, marks, bound, u as int, j));
    }
}

impl Graph {
    /// A graph of `len` nodes without edges.
    pub fn new(len: usize) -> (graph: Graph)
        ensures
            graph@ == Seq::new(len as nat, |u: int| Seq::<usize>::empty()),
    {
        let mut lists: Vec<Vec<usize>> = Vec::with_capacity(len);
        let mut i: usize = 0;
        while i < len
            invariant
                i <= len,
                lists@.len() == i,
                forall|u: int| 0 <= u < i ==> (#[trigger] lists@[u])@ == Seq::<usize>::empty(),
            decreases len - i,
        {
            lists.push(Vec::new());
            i += 1;
        }
        let graph = Graph(lists);
        assert(graph@ =~= Seq::new(len as nat, |u: int| Seq::<usize>::empty()));
        graph
    }

    /// Breadth-first search, level by level, from `start` towards `end`.
    ///
    /// Returns a shortest walk from `start` to `end`, both included, when one
    /// exists; of several, the one found first when each frontier and each
    /// list is gone through in order. When `end` cannot be reached the result
    /// is the single node `start`, the same as for `start == end`.
    pub fn do_bfs(&self, start: usize, end: usize) -> (path: Vec<usize>)
        requires
            in_range(self@),
            start < self@.len(),
        ensures
            path@ == bfs_path(self@, start, end),
            start == end ==> path@ == seq![start],
            !reachable(self@, start, end) ==> path@ == seq![start],
            reachable(self@, start, end) ==> connects(self@, path@, start, end),
            forall|p: Seq<usize>| connects(self@, p, start, end) ==> path@.len() <= p.len(),
    {
        let n = self.0.len();
        let ghost g = self@;
        let mut marks: Vec<Mark> = Vec::with_capacity(n);
        let mut i: usize = 0;
        while i < n
            invariant
                i <= n,
                marks@.len() == i,
                forall|v: int| 0 <= v < i ==> #[trigger] marks@[v] == (None::<usize>, None::<usize>),
            decreases n - i,
        {
            marks.push((None, None));
            i += 1;
        }
        let mut next_level: Vec<(usize, usize)> = Vec::new();
        self.enqueue_neighbors(start, &mut next_level);
        marks[start] = (Some(0), None);
        let mut depth: usize = 0;
        let mut found = start == end;
        let ghost marks0 = marks@;
        let ghost frontier0 = next_level@;
        proof {
            assert(marks0 =~= initial_marks(g, start));
            assert(frontier0 =~= expansions(g, start));
            vstd::set_lib::lemma_int_range(0, n as int);
            assert(marked(marks@) =~= set![start as int]);
            assert forall|v: int| 0 <= v < marks@.len() implies linked(g, marks@, start, v) by {}
            assert forall|t: int| 0 <= t < next_level@.len() implies ({
                let (w, u) = #[trigger] next_level@[t];
                w < g.len() && has_edge(g, u, w) && level_of(marks@, u as int) == Some(0usize)
            }) by {
                assert(next_level@[t] == expansions(g, start)[t]);
                assert(g[start as int][t] < g.len());
            }
            assert forall|u: int, j: int| 0 <= u < g.len() && 0 <= j < g[u].len() implies edge_queued(
                g,
                marks@,
                0,
                next_level@,
                u,
                j,
            ) by {
                if u == start {
                    assert(next_level@[j].0 == g[u][j]);
                }
            }
        }
        while next_level.len() > 0 && !found
            invariant
                n == g.len(),
                g == self@,
                in_range(g),
                search_tree(g, marks@, start),
                levels_within(marks@, depth as int),
                frontier_valid(g, marks@, depth as int, next_level@),
                !found ==> frontier_covers(g, marks@, depth as int, next_level@),
                !found ==> settled_below(g, marks@, depth as int),
                !found && end < n ==> marks@[end as int].0 is None,
                found ==> end < n && settled_below(g, marks@, depth - 1) && marks@[end as int].0
                    == Some(depth),
                next_level@.len() > 0 ==> depth < marked(marks@).len(),
                depth <= marked(marks@).len() <= n,
                marked(marks@).finite(),
                marks0.len() == n,
                found && start != end ==> search(g, marks0, frontier0, 0, end, n as nat) == (
                    marks@,
                    true,
                ),
                !found ==> search(g, marks@, next_level@, depth, end, (n - depth) as nat) == search(
                    g,
                    marks0,
                    frontier0,
                    0,
                    end,
                    n as nat,
                ),
            decreases
                    2 * (n - marked(marks@).len()) + (if next_level@.len() > 0 && !found {
                        1int
                    } else {
                        0int
                    }),
        {
            proof {
                vstd::set_lib::lemma_int_range(0, n as int);
                vstd::set_lib::lemma_len_subset(
                    marked(marks@),
                    vstd::set_lib::set_int_range(0, n as int),
                );
            }
            let level: usize = depth + 1;
            let current = next_level;
            let mut upcoming: Vec<(usize, usize)> = Vec::new();
            let ghost count0 = marked(marks@).len();
            let ghost marks_head = marks@;
            let mut k: usize = 0;
            proof {
                assert forall|u: int, j: int|
                    0 <= u < g.len() && 0 <= j < g[u].len() implies edge_queued(
                    g,
                    marks@,
                    level as int,
                    upcoming@,
                    u,
                    j,
                ) by {
                    assert(level_of(marks@, u) == marks@[u].0);
                }
            }
            while k < current.len() && !found
                invariant
                    n == g.len(),
                    g == self@,
                    in_range(g),
                    level == depth + 1,
                    k <= current@.len(),
                    search_tree(g, marks@, start),
                    levels_within(marks@, level as int),
                    settled_below(g, marks@, depth as int),
                    frontier_valid(g, marks@, depth as int, current@),
                    frontier_covers(g, marks@, depth as int, current@),
                    forall|t: int|
                        0 <= t < k ==> level_of(marks@, (#[trigger] current@[t]).0 as int) is Some,
                    frontier_valid(g, marks@, level as int, upcoming@),
                    frontier_covers(g, marks@, level as int, upcoming@),
                    !found && end < n ==> marks@[end as int].0 is None,
                    found ==> end < n && marks@[end as int].0 == Some(level),
                    marked(marks@).finite(),
                    marked(marks@).len() >= count0,
                    marked(marks@).len() == count0 ==> upcoming@.len() == 0 && !found,
                    found ==> start != end && sweep(
                        g,
                        marks_head,
                        current@,
                        0,
                        Seq::empty(),
                        level,
                        end,
                    ) == (marks@, upcoming@, true),
                    !found ==> sweep(g, marks@, current@, k as int, upcoming@, level, end) == sweep(
                        g,
                        marks_head,
                        current@,
                        0,
                        Seq::empty(),
                        level,
                        end,
                    ),
                decreases current@.len() - k,
            {
                let (node, before) = current[k];
                assert(node < n && has_edge(g, before, node) && level_of(marks@, before as int)
                    == Some(depth)) by {
                    let entry = current@[k as int];
                    assert(entry == (node, before));
                }
                if marks[node].0.is_none() {
                    let ghost old_marks = marks@;
                    let ghost old_up = upcoming@;
                    marks[node] = (Some(level), Some(before));
                    self.enqueue_neighbors(node, &mut upcoming);
                    if node == end {
                        found = true;
                    }
                    proof {
                        let new_marks = marks@;
                        let new_up = upcoming@;
                        assert(new_marks == old_marks.update(node as int, (Some(level), Some(before))));
                        assert(node != start);
                        assert forall|v: int| 0 <= v < new_marks.len() implies linked(
                            g,
                            new_marks,
                            start,
                            v,
                        ) by {
                            assert(linked(g, old_marks, start, v));
                        }
                        assert forall|v: int| 0 <= v < new_marks.len() implies match #[trigger] level_of(
                            new_marks,
                            v,
                        ) {
                            Some(d) => d <= level,
                            None => true,
                        } by {
                            assert(v != node ==> level_of(new_marks, v) == level_of(old_marks, v));
                        }
                        assert forall|u: int, j: int|
                            0 <= u < g.len() && 0 <= j < g[u].len() implies edge_settled(
                            g,
                            new_marks,
                            depth as int,
                            u,
                            j,
                        ) by {
                            assert(edge_settled(g, old_marks, depth as int, u, j));
                        }
                        assert forall|t: int| 0 <= t < current@.len() implies ({
                            let (w, u) = #[trigger] current@[t];
                            w < g.len() && has_edge(g, u, w) && level_of(new_marks, u as int)
                                == Some(depth)
                        }) by {
                            let (w, u) = current@[t];
                            assert(level_of(old_marks, u as int) == Some(depth));
                        }
                        assert forall|u: int, j: int|
                            0 <= u < g.len() && 0 <= j < g[u].len() implies edge_queued(
                            g,
                            new_marks,
                            depth as int,
                            current@,
                            u,
                            j,
                        ) by {
                            assert(edge_queued(g, old_marks, depth as int, current@, u, j));
                        }
                        assert forall|t: int| 0 <= t < new_up.len() implies ({
                            let (w, u) = #[trigger] new_up[t];
                            w < g.len() && has_edge(g, u, w) && level_of(new_marks, u as int)
                                == Some(level)
                        }) by {
                            if t < old_up.len() {
                                assert(new_up[t] == old_up[t]);
                                let (w, u) = old_up[t];
                                assert(level_of(old_marks, u as int) == Some(level));
                            } else {
                                let j = t - old_up.len();
                                assert(new_up[t] == expansions(g, node)[j]);
                                assert(g[node as int][j] < g.len());
                            }
                        }
                        assert forall|u: int, j: int|
                            0 <= u < g.len() && 0 <= j < g[u].len() implies edge_queued(
                            g,
                            new_marks,
                            level as int,
                            new_up,
                            u,
                            j,
                        ) by {
                            if new_marks[u].0 == Some(level) {
                                if u == node {
                                    let t = old_up.len() + j;
                                    assert(new_up[t] == expansions(g, node)[j]);
                                    assert(new_up[t].0 == g[u][j]);
                                } else {
                                    assert(edge_queued(g, old_marks, level as int, old_up, u, j));
                                    let t = choose|t: int|
                                        0 <= t < old_up.len() && (#[trigger] old_up[t]).0 == g[u][j];
                                    assert(new_up[t] == old_up[t]);
                                }
                            }
                        }
                        assert forall|t: int| 0 <= t < k + 1 implies level_of(
                            new_marks,
                            (#[trigger] current@[t]).0 as int,
                        ) is Some by {
                            if t < k {
                                assert(level_of(old_marks, current@[t].0 as int) is Some);
                            }
                        }
                        assert(marked(new_marks) =~= marked(old_marks).insert(node as int));
                    }
                }
                k += 1;
            }
            proof {
                vstd::set_lib::lemma_len_subset(
                    marked(marks@),
                    vstd::set_lib::set_int_range(0, n as int),
                );
                assert(search(g, marks_head, current@, depth, end, (n - depth) as nat) == (if found {
                    (marks@, true)
                } else {
                    search(g, marks@, upcoming@, level, end, (n - depth - 1) as nat)
                }));
                if !found {
                    assert forall|u: int, j: int|
                        0 <= u < g.len() && 0 <= j < g[u].len() implies edge_settled(
                        g,
                        marks@,
                        level as int,
                        u,
                        j,
                    ) by {
                        assert(edge_settled(g, marks@, depth as int, u, j));
                        assert(edge_queued(g, marks@, depth as int, current@, u, j));
                        if marks@[u].0 == Some(depth) {
                            let t = choose|t: int|
                                0 <= t < current@.len() && (#[trigger] current@[t]).0 == g[u][j];
                            assert(level_of(marks@, current@[t].0 as int) is Some);
                        }
                    }
                }
            }
            depth = level;
            next_level = upcoming;
        }
        let mut path: Vec<usize> = Vec::new();
        if found {
            path.push(end);
            let mut idx: usize = end;
            let mut link = marks[idx].1;
            let ghost mut d: int = depth as int;
            proof {
                assert(path@.skip(1) =~= Seq::<usize>::empty());
                assert(trace(marks@, end, depth as nat) + Seq::<usize>::empty() =~= trace(
                    marks@,
                    end,
                    depth as nat,
                ));
            }
            while link.is_some()
                invariant
                    n == g.len(),
                    search_tree(g, marks@, start),
                    idx < n,
                    0 <= d <= depth,
                    level_of(marks@, idx as int) == Some(d as usize),
                    link == marks@[idx as int].1,
                    is_path(g, path@),
                    path@[0] == idx,
                    path@.last() == end,
                    path@.len() == depth - d + 1,
                    trace(marks@, end, depth as nat) == trace(marks@, idx, d as nat) + path@.skip(1),
                decreases d,
            {
                let before = link.unwrap();
                let ghost shorter = path@;
                proof {
                    assert(linked(g, marks@, start, idx as int));
                }
                path.insert(0, before);
                idx = before;
                link = marks[idx].1;
                proof {
                    assert(trace(marks@, shorter[0], d as nat) == trace(
                        marks@,
                        before,
                        (d - 1) as nat,
                    ).push(shorter[0]));
                    assert(path@.skip(1) =~= shorter);
                    assert(shorter =~= seq![shorter[0]] + shorter.skip(1));
                    assert(trace(marks@, before, (d - 1) as nat).push(shorter[0]) + shorter.skip(1)
                        =~= trace(marks@, before, (d - 1) as nat) + shorter);
                    d = d - 1;
                    assert forall|i: int| 0 <= i < path@.len() - 1 implies has_edge(
                        g,
                        #[trigger] path@[i],
                        path@[i + 1],
                    ) by {
                        if i > 0 {
                            assert(path@[i] == shorter[i - 1]);
                            assert(path@[i + 1] == shorter[i]);
                        }
                    }
                }
            }
            proof {
                assert(linked(g, marks@, start, idx as int));
                assert(trace(marks@, idx, d as nat) == seq![idx]);
                assert(seq![idx] + path@.skip(1) =~= path@);
                assert(connects(g, path@, start, end));
                assert forall|p: Seq<usize>| connects(g, p, start, end) implies path@.len()
                    <= p.len() by {
                    if p.len() <= depth {
                        lemma_level_at_most_steps(g, marks@, start, depth - 1, p, p.len() - 1);
                    }
                }
                if start == end {
                    assert(connects(g, seq![start], start, end));
                    assert(path@ =~= seq![start]);
                }
            }
        } else {
            path.push(start);
            proof {
                assert(path@ =~= seq![start]);
                assert forall|p: Seq<usize>| !connects(g, p, start, end) by {
                    if connects(g, p, start, end) {
                        let bound = p.len() as int;
                        assert forall|u: int, j: int|
                            0 <= u < g.len() && 0 <= j < g[u].len() implies edge_settled(
                            g,
                            marks@,
                            bound,
                            u,
                            j,
                        ) by {
                            assert(edge_settled(g, marks@, depth as int, u, j));
                            assert(edge_queued(g, marks@, depth as int, next_level@, u, j));
                            assert(level_of(marks@, u) == marks@[u].0);
                        }
                        lemma_level_at_most_steps(g, marks@, start, bound, p, p.len() - 1);
                    }
                }
            }
        }
        path
    }

    /// The number of nodes.
    pub fn len(&self) -> (n: usize)
        ensures
            n == self@.len(),
    {
        self.0.len()
    }

    /// The adjacency list of `node`.
    pub fn list(&self, node: usize) -> (list: &Vec<usize>)
        requires
            node < self@.len(),
        ensures
            list@ == self@[node as int],
    {
        &self.0[node]
    }

    /// Appends `value` to the list of `node`.
    pub fn push_neighbor(&mut self, node: usize, value: usize)
        requires
            node < old(self)@.len(),
        ensures
            final(self)@ == old(self)@.update(node as int, old(self)@[node as int].push(value)),
    {
        self.0[node].push(value);
        assert(self@ =~= old(self)@.update(node as int, old(self)@[node as int].push(value)));
    }

    /// Replaces the list of `node` by `list`.
    pub fn set_list(&mut self, node: usize, list: Vec<usize>)
        requires
            node < old(self)@.len(),
        ensures
            final(self)@ == old(self)@.update(node as int, list@),
    {
        self.0[node] = list;
        assert(self@ =~= old(self)@.update(node as int, list@));
    }

    /// Takes out of the list of `node` the element at the position that a
    /// search reported; a miss, or a position past the end, changes nothing.
    pub fn remove_found(&mut self, node: usize, found: Result<usize, usize>)
        requires
            node < old(self)@.len(),
        ensures
            final(self)@ == old(self)@.update(node as int, detach(old(self)@[node as int], found)),
    {
        if let Ok(index) = found {
            if index < self.0[node].len() {
                self.0[node].remove(index);
            }
        }
        assert(self@ =~= old(self)@.update(node as int, detach(old(self)@[node as int], found)));
    }

    /// Searches the list of `node` for `value`, as a sorted list is searched,
    /// and removes the occurrence that the search reports.
    pub fn remove_sorted(&mut self, node: usize, value: usize)
        requires
            node < old(self)@.len(),
        ensures
            final(self)@ == old(self)@.update(
                node as int,
                detach(old(self)@[node as int], binary_search_outcome(old(self)@[node as int], value)),
            ),
            search_sound(
                old(self)@[node as int],
                value,
                binary_search_outcome(old(self)@[node as int], value),
            ),
    {
        let found = search_sorted(&self.0[node], value);
        self.remove_found(node, found);
    }

    /// Appends to `frontier` every neighbour of `node`, in list order.
    fn enqueue_neighbors(&self, node: usize, frontier: &mut Vec<(usize, usize)>)
        requires
            node < self@.len(),
        ensures
            final(frontier)@ == old(frontier)@ + expansions(self@, node),
    {
        let ghost before = frontier@;
        let list = &self.0[node];
        let mut j: usize = 0;
        while j < list.len()
            invariant
                j <= list@.len(),
                list@ == self@[node as int],
                frontier@.len() == before.len() + j,
                forall|t: int| 0 <= t < before.len() ==> frontier@[t] == before[t],
                forall|t: int| 0 <= t < j ==> frontier@[before.len() + t] == (list@[t], node),
            decreases list@.len() - j,
        {
            frontier.push((list[j], node));
            j += 1;
        }
        assert(frontier@ =~= before + expansions(self@, node));
    }
}

} // verus!
