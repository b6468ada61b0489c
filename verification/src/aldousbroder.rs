//! The Aldous-Broder maze generator: a uniform random walk.
//!
//! The walk starts at a uniformly random cell. At each step the current
//! cell is marked visited and a uniformly random existing neighbor is
//! chosen; the connecting wall is carved only when that neighbor has not
//! been visited yet, and the walk moves there either way. Carving only
//! into unvisited cells keeps the carved graph a tree at all times, so
//! when every cell has been visited the grid is a spanning tree.

use vstd::prelude::*;

use crate::graph::{
    adj, all_closed, boundary_ok, flag_count, flags_le, has_east, has_north, has_south, has_west,
    lemma_connected_add_node, lemma_corner, lemma_flag_count_all_closed, lemma_flag_count_update,
    lemma_reaches_mono, lemma_reaches_refl, reaches, spanning_tree,
};
use crate::grid::{copy_vec, Grid, GridCell};
use crate::rng::rand_below;

verus! {

/// The number of true entries.
pub open spec fn count_true(s: Seq<bool>) -> int
    decreases s.len(),
{
    if s.len() == 0 {
        0
    } else {
        count_true(s.drop_last()) + (if s.last() {
            1int
        } else {
            0
        })
    }
}

proof fn lemma_count_true_bounds(s: Seq<bool>)
    ensures
        0 <= count_true(s) <= s.len(),
    decreases s.len(),
{
    if s.len() > 0 {
        lemma_count_true_bounds(s.drop_last());
    }
}

proof fn lemma_count_true_update(s: Seq<bool>, j: int, v: bool)
    requires
        0 <= j < s.len(),
    ensures
        count_true(s.update(j, v)) == count_true(s) - (if s[j] {
            1int
        } else {
            0
        }) + (if v {
            1int
        } else {
            0
        }),
    decreases s.len(),
{
    let s2 = s.update(j, v);
    if j == s.len() - 1 {
        assert(s2.drop_last() =~= s.drop_last());
    } else {
        assert(s2.drop_last() =~= s.drop_last().update(j, v));
        lemma_count_true_update(s.drop_last(), j, v);
    }
}

proof fn lemma_count_true_zero(s: Seq<bool>)
    requires
        count_true(s) == 0,
    ensures
        forall|j: int| 0 <= j < s.len() ==> !s[j],
    decreases s.len(),
{
    if s.len() > 0 {
        lemma_count_true_bounds(s.drop_last());
        lemma_count_true_zero(s.drop_last());
        assert forall|j: int| 0 <= j < s.len() implies !s[j] by {
            if j < s.len() - 1 {
                assert(!s.drop_last()[j]);
            }
        }
    }
}

proof fn lemma_count_true_full(s: Seq<bool>)
    requires
        count_true(s) == s.len(),
    ensures
        forall|j: int| 0 <= j < s.len() ==> s[j],
    decreases s.len(),
{
    if s.len() > 0 {
        lemma_count_true_bounds(s.drop_last());
        lemma_count_true_full(s.drop_last());
        assert forall|j: int| 0 <= j < s.len() implies s[j] by {
            if j < s.len() - 1 {
                assert(s.drop_last()[j]);
            }
        }
    }
}

/// Cell `j` belongs to the walk's territory: visited, or the current cell.
pub open spec fn ab_in(vis: Seq<bool>, cur: int, j: int) -> bool {
    0 <= j < vis.len() && (vis[j] || j == cur)
}

/// Every open flag is a legal edge between two territory cells.
pub open spec fn edges_ok(c: Seq<GridCell>, w: int, vis: Seq<bool>, cur: int) -> bool {
    forall|j: int|
        0 <= j < c.len() ==> ((#[trigger] c[j]).0 ==> has_north(j, w) && ab_in(vis, cur, j)
            && ab_in(vis, cur, j - w)) && (c[j].1 ==> has_east(j, w) && ab_in(vis, cur, j)
            && ab_in(vis, cur, j + 1))
}

/// All territory cells are mutually reachable through open walls.
pub open spec fn ab_connected(c: Seq<GridCell>, w: int, vis: Seq<bool>, cur: int) -> bool {
    forall|a: int, b: int|
        ab_in(vis, cur, a) && ab_in(vis, cur, b) ==> #[trigger] reaches(c, w, a, b)
}

/// The size of the territory.
pub open spec fn ab_size(vis: Seq<bool>, cur: int) -> int {
    count_true(vis) + (if 0 <= cur < vis.len() && vis[cur] {
        0int
    } else {
        1
    })
}

/// An existing neighbor of a cell, carrying the neighbor's flat index.
#[derive(Clone, Copy, Debug, PartialEq, Eq, Structural)]
pub enum Direction {
    North(usize),
    East(usize),
    South(usize),
    West(usize),
}

/// The direction names a neighbor of `i` that exists and carries its index.
pub open spec fn dir_valid(w: int, h: int, i: int, d: Direction) -> bool {
    match d {
        Direction::North(n) => has_north(i, w) && n == i - w,
        Direction::East(n) => has_east(i, w) && n == i + 1,
        Direction::South(n) => has_south(i, w, h) && n == i + w,
        Direction::West(n) => has_west(i, w) && n == i - 1,
    }
}

/// Aldous-Broder generator state: the working cell array, the walk's
/// position (`None` before the first snapshot), and the visited set as a
/// flag per cell plus its count.
pub struct Maze {
    pub width: usize,
    pub height: usize,
    pub cells: Vec<GridCell>,
    pub index: Option<usize>,
    pub visited: Vec<bool>,
    pub visited_count: usize,
}

impl Maze {
    pub open spec fn inv(self) -> bool {
        let w = self.width as int;
        let h = self.height as int;
        let c = self.cells@;
        let vis = self.visited@;
        &&& self.width >= 1
        &&& self.height >= 1
        &&& w * h <= usize::MAX
        &&& c.len() == w * h
        &&& vis.len() == w * h
        &&& self.visited_count == count_true(vis)
        &&& match self.index {
            None => count_true(vis) == 0 && all_closed(c),
            Some(i) => {
                &&& i < w * h
                &&& edges_ok(c, w, vis, i as int)
                &&& ab_connected(c, w, vis, i as int)
                &&& flag_count(c) == ab_size(vis, i as int) - 1
            },
        }
    }

    pub fn new(width: usize, height: usize) -> (m: Maze)
        requires
            width >= 1,
            height >= 1,
            width * height <= usize::MAX,
        ensures
            m.inv(),
            m.width == width,
            m.height == height,
            m.index is None,
            m.visited_count == 0,
            all_closed(m.cells@),
    {
        let total = width * height;
        let mut cells: Vec<GridCell> = Vec::new();
        let mut visited: Vec<bool> = Vec::new();
        let mut k: usize = 0;
        while k < total
            invariant
                k <= total,
                cells@.len() == k,
                visited@.len() == k,
                forall|j: int| 0 <= j < k ==> !(#[trigger] cells@[j]).0 && !cells@[j].1,
                count_true(visited@) == 0,
                forall|j: int| 0 <= j < k ==> !visited@[j],
            decreases total - k,
        {
            cells.push(GridCell(false, false));
            proof {
                assert(visited@.push(false).drop_last() =~= visited@);
            }
            visited.push(false);
            k += 1;
        }
        Maze { width, height, cells, index: None, visited, visited_count: 0 }
    }

    /// The existing neighbors of cell `i`, in the fixed order north, east,
    /// south, west. Only a single-cell grid has a cell with no neighbors.
    pub fn neighbours(&self, i: usize) -> (v: Vec<Direction>)
        requires
            self.width >= 1,
            self.height >= 1,
            self.width * self.height <= usize::MAX,
            i < self.width * self.height,
        ensures
            forall|k: int|
                0 <= k < v@.len() ==> dir_valid(
                    self.width as int,
                    self.height as int,
                    i as int,
                    #[trigger] v@[k],
                ),
            v@.len() == (if has_north(i as int, self.width as int) {
                1int
            } else {
                0
            }) + (if has_east(i as int, self.width as int) {
                1int
            } else {
                0
            }) + (if has_south(i as int, self.width as int, self.height as int) {
                1int
            } else {
                0
            }) + (if has_west(i as int, self.width as int) {
                1int
            } else {
                0
            }),
            v@.len() == 0 <==> self.width * self.height == 1,
    {
        let w = self.width;
        let total = self.width * self.height;
        proof {
            assert(w <= w as int * self.height as int) by (nonlinear_arith)
                requires
                    w >= 1,
                    self.height >= 1,
            ;
        }
        let mut v: Vec<Direction> = Vec::new();
        let has_n = i >= w;
        let has_e = (i + 1) % w != 0;
        let has_s = i < total - w;
        let has_w = i % w != 0;
        if has_n {
            v.push(Direction::North(i - w));
        }
        if has_e {
            v.push(Direction::East(i + 1));
        }
        if has_s {
            v.push(Direction::South(i + w));
        }
        if has_w {
            proof {
                if i == 0 {
                    vstd::arithmetic::div_mod::lemma_small_mod(0nat, w as nat);
                }
            }
            v.push(Direction::West(i - 1));
        }
        proof {
            let wi = w as int;
            let hi = self.height as int;
            let ii = i as int;
            lemma_corner(ii, wi);
            if !has_n && !has_e && !has_s && !has_w {
                assert(ii == wi - 1);
                vstd::arithmetic::div_mod::lemma_small_mod(i as nat, w as nat);
                assert(ii == 0);
                assert(wi == 1);
                assert(1int * hi == hi) by (nonlinear_arith);
                assert(hi == 1);
            }
            if w as int * hi == 1 {
                assert(wi == 1 && hi == 1) by (nonlinear_arith)
                    requires
                        wi >= 1,
                        hi >= 1,
                        wi * hi == 1,
                ;
                vstd::arithmetic::div_mod::lemma_mod_self_0(1int);
            }
        }
        v
    }

    /// Produces the next snapshot, or `None` once every cell is visited.
    ///
    /// The visited count never decreases, grows by at most one per pull,
    /// and never exceeds the cell count; the walk ends exactly when the
    /// count is full (a single-cell grid ends right after its start
    /// snapshot), and the finished grid is a spanning tree.
    #[verifier::rlimit(100)]
    pub fn next(&mut self) -> (r: Option<Grid>)
        requires
            old(self).inv(),
        ensures
            final(self).inv(),
            final(self).width == old(self).width,
            final(self).height == old(self).height,
            final(self).visited@.len() == old(self).visited@.len(),
            forall|j: int|
                0 <= j < old(self).visited@.len() && old(self).visited@[j]
                    ==> final(self).visited@[j],
            old(self).visited_count <= final(self).visited_count <= old(self).visited_count + 1,
            final(self).visited_count <= old(self).width * old(self).height,
            flags_le(old(self).cells@, final(self).cells@),
            old(self).index is None ==> r is Some && final(self).cells@ == old(self).cells@
                && final(self).visited_count == 0,
            old(self).index matches Some(i) ==> (r is Some ==> final(self).visited@[i as int]),
            r is None <==> (old(self).index is Some && (old(self).visited_count == old(self).width
                * old(self).height || old(self).width * old(self).height == 1)),
            r is None ==> final(self).cells@ == old(self).cells@
                && final(self).visited_count == old(self).width * old(self).height
                && spanning_tree(
                final(self).cells@,
                old(self).width as int,
                old(self).height as int,
            ),
            r matches Some(g) ==> {
                &&& g.wf()
                &&& g.width == old(self).width
                &&& g.height == old(self).height
                &&& g.cells@ == final(self).cells@
                &&& g.highlights@.len() == 0
                &&& final(self).index matches Some(ni) && g.current_cell_index == ni && ni < old(self).width
                    * old(self).height
                &&& boundary_ok(g.cells@, old(self).width as int)
                &&& (final(self).visited_count == old(self).width * old(self).height
                    ==> spanning_tree(
                    g.cells@,
                    old(self).width as int,
                    old(self).height as int,
                ))
            },
    {
        let total = self.width * self.height;
        let ghost wi = self.width as int;
        let ghost hi = self.height as int;
        match self.index {
            None => {
                proof {
                    assert(wi * hi >= 1) by (nonlinear_arith)
                        requires
                            wi >= 1,
                            hi >= 1,
                    ;
                }
                let start = rand_below(total);
                self.index = Some(start);
                proof {
                    lemma_flag_count_all_closed(self.cells@);
                    lemma_count_true_zero(self.visited@);
                    assert forall|a: int, b: int|
                        ab_in(self.visited@, start as int, a) && ab_in(
                            self.visited@,
                            start as int,
                            b,
                        ) implies #[trigger] reaches(self.cells@, wi, a, b) by {
                        lemma_reaches_refl(self.cells@, wi, a);
                    }
                }
                let snap = copy_vec(&self.cells);
                Some(Grid::new(self.width, self.height, snap, start, Vec::new()))
            },
            Some(i) => {
                if self.visited_count == total {
                    proof {
                        lemma_ab_spanning(
                            self.cells@,
                            wi,
                            hi,
                            self.visited@,
                            i as int,
                        );
                    }
                    return None;
                }
                let ghost vis0 = self.visited@;
                proof {
                    lemma_count_true_bounds(vis0);
                }
                if !self.visited[i] {
                    self.visited.set(i, true);
                    proof {
                        lemma_count_true_update(vis0, i as int, true);
                        lemma_count_true_bounds(self.visited@);
                    }
                    self.visited_count = self.visited_count + 1;
                }
                let ghost vis1 = self.visited@;
                proof {
                    // marking the current cell does not change the territory
                    assert forall|j: int| ab_in(vis0, i as int, j) == ab_in(
                        vis1,
                        i as int,
                        j,
                    ) by {}
                    assert(edges_ok(self.cells@, wi, vis1, i as int));
                    assert(ab_connected(self.cells@, wi, vis1, i as int)) by {
                        assert forall|a: int, b: int|
                            ab_in(vis1, i as int, a) && ab_in(vis1, i as int, b) implies #[trigger] reaches(
                            self.cells@,
                            wi,
                            a,
                            b,
                        ) by {
                            assert(ab_in(vis0, i as int, a) && ab_in(vis0, i as int, b));
                        }
                    }
                    assert(ab_size(vis1, i as int) == ab_size(vis0, i as int));
                }
                if total == 1 {
                    proof {
                        // the lone cell was unvisited at entry, so the walk
                        // has just covered the whole grid
                        lemma_count_true_bounds(vis0);
                        if vis0[i as int] {
                            lemma_count_true_update(vis0, i as int, false);
                            lemma_count_true_bounds(vis0.update(i as int, false));
                        }
                        assert(count_true(vis1) == wi * hi);
                        lemma_ab_spanning(self.cells@, wi, hi, vis1, i as int);
                    }
                    return None;
                }
                let ni = self.walk_step(i);
                self.index = Some(ni);
                proof {
                    if self.visited_count == total {
                        lemma_ab_spanning(self.cells@, wi, hi, vis1, ni as int);
                    }
                }
                let snap = copy_vec(&self.cells);
                Some(Grid::new(self.width, self.height, snap, ni, Vec::new()))
            },
        }
    }

    /// One move of the walk from the already-visited cell `i`: a uniformly
    /// random existing neighbor is chosen, the connecting wall is carved
    /// only when that neighbor is unvisited, and its index is returned as
    /// the walk's new position.
    fn walk_step(&mut self, i: usize) -> (ni: usize)
        requires
            old(self).width >= 1,
            old(self).height >= 1,
            old(self).width * old(self).height <= usize::MAX,
            old(self).width * old(self).height >= 2,
            old(self).cells@.len() == old(self).width * old(self).height,
            old(self).visited@.len() == old(self).width * old(self).height,
            i < old(self).width * old(self).height,
            old(self).visited@[i as int],
            edges_ok(old(self).cells@, old(self).width as int, old(self).visited@, i as int),
            ab_connected(old(self).cells@, old(self).width as int, old(self).visited@, i as int),
            flag_count(old(self).cells@) == ab_size(old(self).visited@, i as int) - 1,
        ensures
            final(self).width == old(self).width,
            final(self).height == old(self).height,
            final(self).index == old(self).index,
            final(self).visited == old(self).visited,
            final(self).visited_count == old(self).visited_count,
            final(self).cells@.len() == old(self).cells@.len(),
            ni < old(self).width * old(self).height,
            flags_le(old(self).cells@, final(self).cells@),
            edges_ok(final(self).cells@, old(self).width as int, old(self).visited@, ni as int),
            ab_connected(
                final(self).cells@,
                old(self).width as int,
                old(self).visited@,
                ni as int,
            ),
            flag_count(final(self).cells@) == ab_size(old(self).visited@, ni as int) - 1,
    {
        let ghost wi = self.width as int;
        let ghost hi = self.height as int;
        let ghost vis1 = self.visited@;
        let nbrs = self.neighbours(i);
        let k = rand_below(nbrs.len());
        let d = nbrs[k];
        proof {
            assert(dir_valid(wi, hi, i as int, nbrs@[k as int]));
        }
        let ghost c0 = self.cells@;
        let ni: usize;
        match d {
            Direction::North(n) => {
                if !self.visited[n] {
                    let cur = self.cells[i];
                    self.cells.set(i, GridCell(true, cur.1));
                    proof {
                        assert(!c0[i as int].0);
                        lemma_flag_count_update(c0, i as int, self.cells@[i as int]);
                    }
                }
                ni = n;
            },
            Direction::East(n) => {
                proof {
                    if n as int == wi * hi {
                        vstd::arithmetic::div_mod::lemma_mod_multiples_basic(hi, wi);
                        assert(hi * wi == wi * hi) by (nonlinear_arith);
                        assert(false);
                    }
                }
                if !self.visited[n] {
                    let cur = self.cells[i];
                    self.cells.set(i, GridCell(cur.0, true));
                    proof {
                        assert(!c0[i as int].1);
                        lemma_flag_count_update(c0, i as int, self.cells@[i as int]);
                    }
                }
                ni = n;
            },
            Direction::South(n) => {
                if !self.visited[n] {
                    let cur = self.cells[n];
                    self.cells.set(n, GridCell(true, cur.1));
                    proof {
                        assert(!c0[n as int].0);
                        lemma_flag_count_update(c0, n as int, self.cells@[n as int]);
                    }
                }
                ni = n;
            },
            Direction::West(n) => {
                if !self.visited[n] {
                    let cur = self.cells[n];
                    self.cells.set(n, GridCell(cur.0, true));
                    proof {
                        assert(!c0[n as int].1);
                        lemma_flag_count_update(c0, n as int, self.cells@[n as int]);
                    }
                }
                ni = n;
            },
        }
        proof {
            let c1 = self.cells@;
            let ii = i as int;
            let nii = ni as int;
            assert(flags_le(c0, c1));
            lemma_edges_ok_shift(c0, wi, vis1, ii, nii);
            if !vis1[nii] {
                match d {
                    Direction::North(n) => {
                        lemma_edges_ok_update(c0, c1, wi, vis1, nii, ii);
                    },
                    Direction::East(n) => {
                        lemma_edges_ok_update(c0, c1, wi, vis1, nii, ii);
                    },
                    Direction::South(n) => {
                        lemma_edges_ok_update(c0, c1, wi, vis1, nii, nii);
                    },
                    Direction::West(n) => {
                        lemma_edges_ok_update(c0, c1, wi, vis1, nii, nii);
                    },
                }
                assert(adj(c1, wi, ii, nii));
                assert(ab_size(vis1, nii) == count_true(vis1) + 1);
                assert(flag_count(c1) == ab_size(vis1, nii) - 1);
            } else {
                assert(c1 == c0);
                assert(edges_ok(c1, wi, vis1, nii));
                assert(flag_count(c1) == ab_size(vis1, nii) - 1);
            }
            lemma_ab_move_connected(c0, c1, wi, vis1, ii, nii);
        }
        ni
    }
}

/// Once the current cell is marked visited, every edge endpoint is in the
/// visited set itself, so the edges stay legal for any new cursor.
proof fn lemma_edges_ok_shift(c: Seq<GridCell>, w: int, vis: Seq<bool>, i: int, nn: int)
    requires
        edges_ok(c, w, vis, i),
        0 <= i < vis.len(),
        vis[i],
    ensures
        edges_ok(c, w, vis, nn),
{
    assert forall|j: int|
        0 <= j < c.len() implies ((#[trigger] c[j]).0 ==> has_north(j, w) && ab_in(vis, nn, j)
        && ab_in(vis, nn, j - w)) && (c[j].1 ==> has_east(j, w) && ab_in(vis, nn, j) && ab_in(
        vis,
        nn,
        j + 1,
    )) by {
        if c[j].0 {
            assert(ab_in(vis, i, j) && ab_in(vis, i, j - w));
        }
        if c[j].1 {
            assert(ab_in(vis, i, j) && ab_in(vis, i, j + 1));
        }
    }
}

/// Opening one legal flag keeps every edge legal.
proof fn lemma_edges_ok_update(
    c0: Seq<GridCell>,
    c1: Seq<GridCell>,
    w: int,
    vis: Seq<bool>,
    nn: int,
    p: int,
)
    requires
        edges_ok(c0, w, vis, nn),
        c0.len() == vis.len(),
        0 <= p < c0.len(),
        c1 == c0.update(p, (GridCell(true, c0[p].1))) || c1 == c0.update(
            p,
            (GridCell(c0[p].0, true)),
        ),
        c1[p].0 && !c0[p].0 ==> has_north(p, w) && ab_in(vis, nn, p) && ab_in(vis, nn, p - w),
        c1[p].1 && !c0[p].1 ==> has_east(p, w) && ab_in(vis, nn, p) && ab_in(vis, nn, p + 1),
    ensures
        edges_ok(c1, w, vis, nn),
{
    assert forall|j: int|
        0 <= j < c1.len() implies ((#[trigger] c1[j]).0 ==> has_north(j, w) && ab_in(vis, nn, j)
        && ab_in(vis, nn, j - w)) && (c1[j].1 ==> has_east(j, w) && ab_in(vis, nn, j) && ab_in(
        vis,
        nn,
        j + 1,
    )) by {
        if j != p {
            assert(c1[j] == c0[j]);
        }
    }
}

/// Moving the walk keeps the territory mutually reachable: either the new
/// position was already in it, or the freshly carved wall joins it.
proof fn lemma_ab_move_connected(
    c0: Seq<GridCell>,
    c1: Seq<GridCell>,
    w: int,
    vis: Seq<bool>,
    i: int,
    nn: int,
)
    requires
        flags_le(c0, c1),
        0 <= i < vis.len(),
        0 <= nn < vis.len(),
        vis[i],
        ab_connected(c0, w, vis, i),
        vis[nn] || adj(c1, w, i, nn),
    ensures
        ab_connected(c1, w, vis, nn),
{
    let in_s = |j: int| 0 <= j < vis.len() && vis[j];
    assert forall|a: int, b: int| in_s(a) && in_s(b) implies #[trigger] reaches(c1, w, a, b) by {
        assert(ab_in(vis, i, a) && ab_in(vis, i, b));
        lemma_reaches_mono(c0, c1, w, a, b);
    }
    if vis[nn] {
        assert forall|a: int, b: int|
            ab_in(vis, nn, a) && ab_in(vis, nn, b) implies #[trigger] reaches(c1, w, a, b) by {
            assert(in_s(a) && in_s(b));
        }
    } else {
        lemma_connected_add_node(c1, w, in_s, i, nn);
        assert forall|a: int, b: int|
            ab_in(vis, nn, a) && ab_in(vis, nn, b) implies #[trigger] reaches(c1, w, a, b) by {
            assert(in_s(a) || a == nn);
            assert(in_s(b) || b == nn);
        }
    }
}

/// Once every cell is visited, the walk's invariants say the grid is a
/// spanning tree.
proof fn lemma_ab_spanning(c: Seq<GridCell>, w: int, h: int, vis: Seq<bool>, cur: int)
    requires
        w >= 1,
        h >= 1,
        c.len() == w * h,
        vis.len() == w * h,
        count_true(vis) == w * h,
        0 <= cur < c.len(),
        edges_ok(c, w, vis, cur),
        ab_connected(c, w, vis, cur),
        flag_count(c) == ab_size(vis, cur) - 1,
    ensures
        spanning_tree(c, w, h),
{
    lemma_count_true_full(vis);
    assert forall|a: int, b: int|
        0 <= a < c.len() && 0 <= b < c.len() implies #[trigger] reaches(c, w, a, b) by {
        assert(ab_in(vis, cur, a) && ab_in(vis, cur, b));
    }
    assert(boundary_ok(c, w)) by {
        assert forall|j: int|
            0 <= j < c.len() implies ((#[trigger] c[j]).0 ==> has_north(j, w)) && (c[j].1
            ==> has_east(j, w)) by {}
    }
    assert(vis[cur]);
}

} // verus!

