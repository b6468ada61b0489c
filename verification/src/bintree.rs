//! The binary-tree maze generator.
//!
//! Cells are processed in row-major order. Each cell opens its east wall
//! when it has no north neighbor, its north wall when it has no east
//! neighbor, one of the two (by a fair coin) when it has both, and nothing
//! when it has neither — that last case is only the top-right corner. The
//! finished grid is a spanning tree of the cells.

use vstd::prelude::*;

use crate::graph::{
    adj, all_closed, boundary_ok, col_of, expected_flags, flag_count, flags_le, flags_of,
    has_east, has_north, lemma_corner, lemma_east_step, lemma_flag_count_all_closed,
    lemma_flag_count_update, lemma_hub_connected, lemma_north_step, lemma_reaches_refl,
    lemma_reaches_step, lemma_row_col, reaches, row_of, spanning_tree,
};
use crate::grid::{copy_vec, Grid, GridCell};
use crate::rng::coin_flip;

verus! {

/// Binary-tree generator state: the working cell array and the cursor.
/// `index` is `None` before the first snapshot has been pulled.
pub struct Maze {
    pub width: usize,
    pub height: usize,
    pub cells: Vec<GridCell>,
    pub index: Option<usize>,
}

impl Maze {
    /// The number of snapshots pulled so far.
    pub open spec fn emitted(self) -> int {
        match self.index {
            None => 0,
            Some(i) => i + 1,
        }
    }

    pub open spec fn inv(self) -> bool {
        let w = self.width as int;
        let h = self.height as int;
        &&& self.width >= 1
        &&& self.height >= 1
        &&& w * h <= usize::MAX
        &&& self.cells@.len() == w * h
        &&& boundary_ok(self.cells@, w)
        &&& match self.index {
            None => all_closed(self.cells@),
            Some(i) => {
                &&& i <= w * h
                &&& forall|j: int|
                    i <= j < self.cells@.len() ==> !(#[trigger] self.cells@[j]).0
                        && !self.cells@[j].1
                &&& forall|j: int|
                    0 <= j < i && j != w - 1 ==> ((#[trigger] self.cells@[j]).0
                        || self.cells@[j].1)
                &&& flag_count(self.cells@) == expected_flags(i as int, w)
            },
        }
    }

    pub fn new(width: usize, height: usize) -> (m: Maze)
        requires
            width >= 1,
            height >= 1,
            width * height <= usize::MAX,
        ensures
            m.inv(),
            m.width == width,
            m.height == height,
            m.emitted() == 0,
            all_closed(m.cells@),
    {
        let total = width * height;
        let mut cells: Vec<GridCell> = Vec::new();
        let mut k: usize = 0;
        while k < total
            invariant
                k <= total,
                cells@.len() == k,
                forall|j: int| 0 <= j < k ==> !(#[trigger] cells@[j]).0 && !cells@[j].1,
            decreases total - k,
        {
            cells.push(GridCell(false, false));
            k += 1;
        }
        Maze { width, height, cells, index: None }
    }

    /// Produces the next snapshot, or `None` once the maze is finished.
    ///
    /// Exactly `width * height + 1` snapshots are produced: the initial
    /// all-closed grid, then one per processed cell. The snapshot that
    /// completes the pass — and every later state — is a spanning tree.
    pub fn next(&mut self) -> (r: Option<Grid>)
        requires
            old(self).inv(),
        ensures
            final(self).inv(),
            final(self).width == old(self).width,
            final(self).height == old(self).height,
            r is Some <==> old(self).emitted() <= old(self).width * old(self).height,
            r is Some ==> final(self).emitted() == old(self).emitted() + 1,
            r is None ==> *final(self) == *old(self),
            flags_le(old(self).cells@, final(self).cells@),
            r matches Some(g) ==> {
                &&& g.wf()
                &&& g.width == old(self).width
                &&& g.height == old(self).height
                &&& g.cells@ == final(self).cells@
                &&& g.current_cell_index == final(self).emitted() - 1
                &&& g.highlights@.len() == 0
                &&& boundary_ok(g.cells@, old(self).width as int)
            },
            old(self).emitted() == 0 ==> final(self).cells@ == old(self).cells@,
            1 <= old(self).emitted() <= old(self).width * old(self).height ==> ({
                let i = old(self).emitted() - 1;
                let w = old(self).width as int;
                let c0 = old(self).cells@;
                &&& (!has_north(i, w) && has_east(i, w) ==> final(self).cells@ == c0.update(
                    i,
                    (GridCell(false, true)),
                ))
                &&& (has_north(i, w) && !has_east(i, w) ==> final(self).cells@ == c0.update(
                    i,
                    (GridCell(true, false)),
                ))
                &&& (has_north(i, w) && has_east(i, w) ==> (final(self).cells@ == c0.update(
                    i,
                    (GridCell(true, false)),
                ) || final(self).cells@ == c0.update(i, (GridCell(false, true)))))
                &&& (!has_north(i, w) && !has_east(i, w) ==> final(self).cells@ == c0)
            }),
            final(self).emitted() == old(self).width * old(self).height + 1 ==> spanning_tree(
                final(self).cells@,
                old(self).width as int,
                old(self).height as int,
            ),
    {
        let w = self.width;
        let total = self.width * self.height;
        match self.index {
            None => {
                self.index = Some(0);
                proof {
                    lemma_flag_count_all_closed(self.cells@);
                    assert(w as int * self.height as int >= 1) by (nonlinear_arith)
                        requires
                            w >= 1,
                            self.height >= 1,
                    ;
                }
                let snap = copy_vec(&self.cells);
                Some(Grid::new(self.width, self.height, snap, 0, Vec::new()))
            },
            Some(i) => {
                if i == total {
                    proof {
                        let wi = w as int;
                        let hi = self.height as int;
                        assert(wi <= wi * hi) by (nonlinear_arith)
                            requires
                                wi >= 1,
                                hi >= 1,
                        ;
                        lemma_bt_spanning(self.cells@, wi, hi);
                    }
                    return None;
                }
                let ghost c0 = self.cells@;
                let has_n = i >= w;
                let has_e = (i + 1) % w != 0;
                proof {
                    assert(flags_of(c0[i as int]) == 0);
                }
                if has_n && !has_e {
                    let cur = self.cells[i];
                    self.cells.set(i, GridCell(true, cur.1));
                } else if !has_n && has_e {
                    let cur = self.cells[i];
                    self.cells.set(i, GridCell(cur.0, true));
                } else if has_n && has_e {
                    let b = coin_flip();
                    self.cells.set(i, GridCell(b, !b));
                }
                self.index = Some(i + 1);
                proof {
                    let wi = w as int;
                    let ii = i as int;
                    lemma_corner(ii, wi);
                    if has_n || has_e {
                        lemma_flag_count_update(c0, ii, self.cells@[ii]);
                        assert(flags_of(self.cells@[ii]) == 1);
                    } else {
                        assert(self.cells@ =~= c0);
                    }
                    assert(flag_count(self.cells@) == expected_flags(ii + 1, wi));
                    if self.emitted() == total + 1 {
                        let hi = self.height as int;
                        assert(wi <= wi * hi) by (nonlinear_arith)
                            requires
                                wi >= 1,
                                hi >= 1,
                        ;
                        lemma_bt_spanning(self.cells@, wi, hi);
                    }
                }
                let snap = copy_vec(&self.cells);
                Some(Grid::new(self.width, self.height, snap, i + 1, Vec::new()))
            },
        }
    }
}

/// In a finished binary-tree grid every cell except the top-right corner
/// has an open north or east flag, and each such flag leads to a cell
/// strictly closer to the corner, so every cell reaches the corner.
proof fn lemma_bt_reach_corner(c: Seq<GridCell>, w: int, h: int, j: int)
    requires
        w >= 1,
        h >= 1,
        c.len() == w * h,
        boundary_ok(c, w),
        forall|j2: int| 0 <= j2 < c.len() && j2 != w - 1 ==> ((#[trigger] c[j2]).0 || c[j2].1),
        0 <= j < c.len(),
    ensures
        reaches(c, w, j, w - 1),
    decreases row_of(j, w) + (w - 1 - col_of(j, w)),
{
    lemma_row_col(j, w);
    if j == w - 1 {
        lemma_reaches_refl(c, w, j);
    } else if c[j].0 {
        let p = j - w;
        lemma_north_step(j, w);
        assert(adj(c, w, j, p));
        lemma_bt_reach_corner(c, w, h, p);
        lemma_reaches_step(c, w, j, p, w - 1);
    } else {
        let p = j + 1;
        lemma_east_step(j, w);
        if p == c.len() {
            vstd::arithmetic::div_mod::lemma_mod_multiples_basic(h, w);
            assert(h * w == w * h) by (nonlinear_arith);
            assert(false);
        }
        assert(adj(c, w, j, p));
        lemma_bt_reach_corner(c, w, h, p);
        lemma_reaches_step(c, w, j, p, w - 1);
    }
}

/// A finished binary-tree grid is a spanning tree.
proof fn lemma_bt_spanning(c: Seq<GridCell>, w: int, h: int)
    requires
        w >= 1,
        h >= 1,
        c.len() == w * h,
        boundary_ok(c, w),
        forall|j2: int| 0 <= j2 < c.len() && j2 != w - 1 ==> ((#[trigger] c[j2]).0 || c[j2].1),
        flag_count(c) == w * h - 1,
    ensures
        spanning_tree(c, w, h),
{
    assert(w <= w * h) by (nonlinear_arith)
        requires
            w >= 1,
            h >= 1,
    ;
    assert forall|j: int| 0 <= j < c.len() implies #[trigger] reaches(c, w, j, w - 1) by {
        lemma_bt_reach_corner(c, w, h, j);
    }
    lemma_hub_connected(c, w, w - 1);
}

} // verus!

