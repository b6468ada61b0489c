//! The sidewinder maze generator.
//!
//! Cells are processed in row-major order while a "run" of consecutive
//! cells in the current row is accumulated. In the first row every cell
//! opens its east wall (the last one cannot and opens nothing). In later
//! rows each cell either extends the run by opening its east wall, or —
//! at the end of the row always, elsewhere on a fair coin — closes the run
//! by opening the north wall of one run member chosen uniformly at random.
//! The finished grid is a spanning tree of the cells.

use vstd::prelude::*;

use crate::graph::{
    adj, all_closed, boundary_ok, col_of, expected_flags, flag_count, flags_le, flags_of,
    has_east, has_north, lemma_corner, lemma_east_step, lemma_flag_count_all_closed,
    lemma_flag_count_update, lemma_hub_connected, lemma_north_step, lemma_reaches_refl,
    lemma_reaches_step, lemma_reaches_trans, lemma_row_col, reaches, row_of, spanning_tree,
};
use crate::grid::{copy_vec, Grid, GridCell};
use crate::rng::{coin_flip, rand_below};

verus! {

/// Some entry of `run` is the index `m`.
pub open spec fn is_run_member(run: Seq<usize>, m: int) -> bool {
    exists|k: int| 0 <= k < run.len() && (#[trigger] run[k]) as int == m
}

/// `c1` is `c0` with the north wall of one member of `run` opened.
pub open spec fn closes_with_north(c0: Seq<GridCell>, run: Seq<usize>, c1: Seq<GridCell>) -> bool {
    exists|m: int|
        #[trigger] is_run_member(run, m) && 0 <= m < c0.len() && c1 == c0.update(
            m,
            (GridCell(true, c0[m].1)),
        )
}

/// A closed run left its mark: somewhere at or left of `j`, in the same
/// row, sits a cell with an open north wall, and the cells between it and
/// `j` all have their east wall open.
pub open spec fn run_witness(c: Seq<GridCell>, w: int, j: int, m: int) -> bool {
    &&& 0 <= m <= j
    &&& row_of(m, w) == row_of(j, w)
    &&& c[m].0
    &&& forall|k: int| m <= k < j ==> (#[trigger] c[k]).1
}

/// Sidewinder generator state: the working cell array, the cursor, and the
/// indices of the active run. `index` is `None` before the first snapshot.
pub struct Maze {
    pub width: usize,
    pub height: usize,
    pub cells: Vec<GridCell>,
    pub index: Option<usize>,
    pub current_run: Vec<usize>,
}

impl Maze {
    /// The number of snapshots pulled so far.
    pub open spec fn emitted(self) -> int {
        match self.index {
            None => 0,
            Some(i) => i + 1,
        }
    }

    /// The active run is a block of consecutive indices ending right below
    /// the cursor, all in one row, each with its east wall open and its
    /// north wall still closed.
    pub open spec fn run_ok(self) -> bool {
        let c = self.cells@;
        let w = self.width as int;
        let run = self.current_run@;
        run.len() > 0 ==> {
            let r0 = run[0] as int;
            &&& self.index matches Some(i) && r0 + run.len() == i
            &&& forall|k: int| 0 <= k < run.len() ==> (#[trigger] run[k]) as int == r0 + k
            &&& row_of(r0, w) == row_of(r0 + run.len() - 1, w)
            &&& forall|k: int|
                0 <= k < run.len() ==> !(#[trigger] c[r0 + k]).0 && c[r0 + k].1
        }
    }

    pub open spec fn inv(self) -> bool {
        let w = self.width as int;
        let h = self.height as int;
        let c = self.cells@;
        &&& self.width >= 1
        &&& self.height >= 1
        &&& w * h <= usize::MAX
        &&& c.len() == w * h
        &&& boundary_ok(c, w)
        &&& self.run_ok()
        &&& match self.index {
            None => all_closed(c) && self.current_run@.len() == 0,
            Some(i) => {
                &&& i <= w * h
                &&& forall|j: int| i <= j < c.len() ==> !(#[trigger] c[j]).0 && !c[j].1
                &&& forall|j: int| 0 <= j < i && j < w && j != w - 1 ==> (#[trigger] c[j]).1
                &&& forall|j: int|
                    0 <= j < i && j >= w && !(#[trigger] c[j]).1 ==> exists|m: int|
                        run_witness(c, w, j, m)
                &&& flag_count(c) == expected_flags(i as int, w)
            },
        }
    }

    pub fn new(width: usize, height: usize) -> (m: Maze)
        requires
            width >= 1,
            height >= 1,
            width * height <= usize::MAX,
        ensures
            m.inv(),
            m.width == width,
            m.height == height,
            m.emitted() == 0,
            all_closed(m.cells@),
    {
        let total = width * height;
        let mut cells: Vec<GridCell> = Vec::new();
        let mut k: usize = 0;
        while k < total
            invariant
                k <= total,
                cells@.len() == k,
                forall|j: int| 0 <= j < k ==> !(#[trigger] cells@[j]).0 && !cells@[j].1,
            decreases total - k,
        {
            cells.push(GridCell(false, false));
            k += 1;
        }
        Maze { width, height, cells, index: None, current_run: Vec::new() }
    }

    /// Opens the north wall of one run member chosen uniformly at random
    /// (when asked to), then clears the run.
    fn close_run(&mut self, erase_north: bool)
        requires
            old(self).current_run@.len() >= 1,
            forall|k: int|
                0 <= k < old(self).current_run@.len() ==> (#[trigger] old(self).current_run@[k])
                    < old(self).cells@.len(),
            erase_north ==> forall|k: int|
                0 <= k < old(self).current_run@.len() ==> !old(self).cells@[(
                #[trigger] old(self).current_run@[k]) as int].0,
        ensures
            final(self).width == old(self).width,
            final(self).height == old(self).height,
            final(self).index == old(self).index,
            final(self).current_run@.len() == 0,
            !erase_north ==> final(self).cells@ == old(self).cells@,
            erase_north ==> closes_with_north(
                old(self).cells@,
                old(self).current_run@,
                final(self).cells@,
            ),
    {
        let run_index = rand_below(self.current_run.len());
        let run_cell_index = self.current_run[run_index];
        if erase_north {
            let cur = self.cells[run_cell_index];
            self.cells.set(run_cell_index, GridCell(true, cur.1));
            proof {
                assert(is_run_member(old(self).current_run@, run_cell_index as int));
            }
        }
        self.current_run.clear();
    }

    /// Produces the next snapshot, or `None` once the maze is finished.
    ///
    /// Exactly `width * height + 1` snapshots are produced: the initial
    /// all-closed grid, then one per processed cell. Each snapshot
    /// highlights the run that is active after its step. The snapshot that
    /// completes the pass — and every later state — is a spanning tree.
    #[verifier::rlimit(100)]
    pub fn next(&mut self) -> (r: Option<Grid>)
        requires
            old(self).inv(),
        ensures
            final(self).inv(),
            final(self).width == old(self).width,
            final(self).height == old(self).height,
            r is Some <==> old(self).emitted() <= old(self).width * old(self).height,
            r is Some ==> final(self).emitted() == old(self).emitted() + 1,
            r is None ==> *final(self) == *old(self),
            flags_le(old(self).cells@, final(self).cells@),
            r matches Some(g) ==> {
                &&& g.wf()
                &&& g.width == old(self).width
                &&& g.height == old(self).height
                &&& g.cells@ == final(self).cells@
                &&& g.current_cell_index == final(self).emitted() - 1
                &&& g.highlights@ == final(self).current_run@
                &&& boundary_ok(g.cells@, old(self).width as int)
            },
            old(self).emitted() == 0 ==> final(self).cells@ == old(self).cells@
                && final(self).current_run@.len() == 0,
            1 <= old(self).emitted() <= old(self).width * old(self).height ==> ({
                let i = old(self).emitted() - 1;
                let w = old(self).width as int;
                let c0 = old(self).cells@;
                let run1 = old(self).current_run@.push((old(self).emitted() - 1) as usize);
                &&& (!has_north(i, w) && has_east(i, w) ==> final(self).cells@ == c0.update(
                    i,
                    (GridCell(false, true)),
                ) && final(self).current_run@ == run1)
                &&& (has_north(i, w) && !has_east(i, w) ==> closes_with_north(
                    c0,
                    run1,
                    final(self).cells@,
                ) && final(self).current_run@.len() == 0)
                &&& (!has_north(i, w) && !has_east(i, w) ==> final(self).cells@ == c0
                    && final(self).current_run@.len() == 0)
                &&& (has_north(i, w) && has_east(i, w) ==> ((final(self).cells@ == c0.update(
                    i,
                    (GridCell(false, true)),
                ) && final(self).current_run@ == run1) || (closes_with_north(
                    c0,
                    run1,
                    final(self).cells@,
                ) && final(self).current_run@.len() == 0)))
            }),
            final(self).emitted() == old(self).width * old(self).height + 1 ==> spanning_tree(
                final(self).cells@,
                old(self).width as int,
                old(self).height as int,
            ),
    {
        let w = self.width;
        let total = self.width * self.height;
        match self.index {
            None => {
                self.index = Some(0);
                proof {
                    lemma_flag_count_all_closed(self.cells@);
                    assert(w as int * self.height as int >= 1) by (nonlinear_arith)
                        requires
                            w >= 1,
                            self.height >= 1,
                    ;
                }
                let snap = copy_vec(&self.cells);
                Some(Grid::new(self.width, self.height, snap, 0, Vec::new()))
            },
            Some(i) => {
                if i == total {
                    proof {
                        let wi = w as int;
                        let hi = self.height as int;
                        assert(wi <= wi * hi) by (nonlinear_arith)
                            requires
                                wi >= 1,
                                hi >= 1,
                        ;
                        lemma_sw_spanning(self.cells@, wi, hi);
                    }
                    return None;
                }
                let ghost c0 = self.cells@;
                let ghost run0 = self.current_run@;
                self.current_run.push(i);
                let ghost run1 = self.current_run@;
                let has_n = i >= w;
                let has_e = (i + 1) % w != 0;
                proof {
                    lemma_sw_run1_facts(*old(self), i);
                }
                if !has_n && !has_e {
                    self.close_run(false);
                } else if has_n && !has_e {
                    self.close_run(true);
                } else if !has_n && has_e {
                    let cur = self.cells[i];
                    self.cells.set(i, GridCell(cur.0, true));
                } else {
                    if coin_flip() {
                        self.close_run(true);
                    } else {
                        let cur = self.cells[i];
                        self.cells.set(i, GridCell(cur.0, true));
                    }
                }
                self.index = Some(i + 1);
                proof {
                    lemma_sw_step_inv(*old(self), *self, i);
                    if self.emitted() == total + 1 {
                        let wi = w as int;
                        let hi = self.height as int;
                        assert(wi <= wi * hi) by (nonlinear_arith)
                            requires
                                wi >= 1,
                                hi >= 1,
                        ;
                        lemma_sw_spanning(self.cells@, wi, hi);
                    }
                }
                let snap = copy_vec(&self.cells);
                let highlights = copy_vec(&self.current_run);
                Some(Grid::new(self.width, self.height, snap, i + 1, highlights))
            },
        }
    }
}

/// Facts about the run right after the cursor cell has been pushed: its
/// members are in bounds, north-closed, and the block of cells it names is
/// east-open below the cursor.
proof fn lemma_sw_run1_facts(m0: Maze, i: usize)
    requires
        m0.inv(),
        m0.index == Some(i),
        i < m0.cells@.len(),
    ensures
        ({
            let run1 = m0.current_run@.push(i);
            let c0 = m0.cells@;
            let w = m0.width as int;
            &&& forall|k: int| 0 <= k < run1.len() ==> (#[trigger] run1[k]) as int == run1[0] + k
            &&& run1[0] + run1.len() == i + 1
            &&& forall|k: int| 0 <= k < run1.len() ==> (#[trigger] run1[k]) < c0.len()
            &&& forall|k: int| 0 <= k < run1.len() ==> !c0[(#[trigger] run1[k]) as int].0
            &&& forall|k: int| run1[0] <= k < i ==> (#[trigger] c0[k]).1
            &&& row_of(run1[0] as int, w) == row_of(i as int, w) || (m0.current_run@.len() == 0
                && run1[0] == i)
        }),
{
    let run0 = m0.current_run@;
    let run1 = run0.push(i);
    let c0 = m0.cells@;
    let w = m0.width as int;
    if run0.len() == 0 {
        assert(run1[0] == i);
        assert forall|k: int| 0 <= k < run1.len() implies (#[trigger] run1[k]) as int == run1[0]
            + k by {}
    } else {
        let r0 = run0[0] as int;
        assert(run0[0] == run1[0]);
        assert(r0 + run0.len() == i);
        assert forall|k: int| 0 <= k < run1.len() implies (#[trigger] run1[k]) as int == run1[0]
            + k by {
            if k < run0.len() {
                assert(run0[k] == run1[k]);
            } else {
                assert(run1[k] == i);
            }
        }
        assert forall|k: int| r0 <= k < i implies (#[trigger] c0[k]).1 by {
            let k2 = k - r0;
            assert((#[trigger] run0[k2]) as int == r0 + k2);
            assert(c0[r0 + k2].1);
        }
        // the cell before the cursor belongs to the run, so its east wall is
        // open and the cursor is in the same row
        assert(c0[i - 1].1);
        assert(has_east(i - 1, w));
        lemma_east_step(i - 1, w);
        assert(row_of(r0, w) == row_of(i - 1, w));
    }
    assert forall|k: int| 0 <= k < run1.len() implies !c0[(#[trigger] run1[k]) as int].0 by {
        if k < run0.len() {
            assert(run0[k] == run1[k]);
            assert(!c0[run0[0] + k].0);
        } else {
            assert(run1[k] == i);
        }
    }
}

/// The step from cursor `i` to `i + 1` preserves the generator invariant.
proof fn lemma_sw_step_inv(m0: Maze, m1: Maze, i: usize)
    requires
        m0.inv(),
        m0.index == Some(i),
        i < m0.cells@.len(),
        m1.width == m0.width,
        m1.height == m0.height,
        m1.index == Some((i + 1) as usize),
        ({
            let w = m0.width as int;
            let c0 = m0.cells@;
            let run1 = m0.current_run@.push(i);
            &&& (!has_north(i as int, w) && has_east(i as int, w) ==> m1.cells@ == c0.update(
                i as int,
                (GridCell(c0[i as int].0, true)),
            ) && m1.current_run@ == run1)
            &&& (has_north(i as int, w) && !has_east(i as int, w) ==> closes_with_north(
                c0,
                run1,
                m1.cells@,
            ) && m1.current_run@.len() == 0)
            &&& (!has_north(i as int, w) && !has_east(i as int, w) ==> m1.cells@ == c0
                && m1.current_run@.len() == 0)
            &&& (has_north(i as int, w) && has_east(i as int, w) ==> ((m1.cells@ == c0.update(
                i as int,
                (GridCell(c0[i as int].0, true)),
            ) && m1.current_run@ == run1) || (closes_with_north(c0, run1, m1.cells@)
                && m1.current_run@.len() == 0)))
        }),
    ensures
        m1.inv(),
        flags_le(m0.cells@, m1.cells@),
{
    let w = m0.width as int;
    let h = m0.height as int;
    let c0 = m0.cells@;
    let c1 = m1.cells@;
    let ii = i as int;
    let run1 = m0.current_run@.push(i);
    lemma_sw_run1_facts(m0, i);
    lemma_corner(ii, w);
    lemma_row_col(ii, w);
    let r0 = run1[0] as int;
    if !has_north(ii, w) && !has_east(ii, w) {
        // the top-right corner closes its run without opening anything
        assert(c1 =~= c0);
        assert(flag_count(c1) == expected_flags(ii + 1, w));
        assert(m1.inv());
        assert(flags_le(c0, c1));
    } else if has_east(ii, w) && m1.current_run@ == run1 && c1 == c0.update(
        ii,
        (GridCell(c0[ii].0, true)),
    ) {
        // the east wall of the cursor cell opens and the run grows
        assert(flags_of(c0[ii]) == 0);
        lemma_flag_count_update(c0, ii, c1[ii]);
        assert(flags_le(c0, c1));
        lemma_witnesses_mono(c0, c1, w, ii);
        lemma_east_step(ii, w);
        if !has_north(ii, w) {
            assert(ii < w) by {
                lemma_row_col(ii, w);
            }
            assert(ii != w - 1);
        }
        assert(flag_count(c1) == expected_flags(ii + 1, w));
        // run shape for m1
        assert(row_of(r0, w) == row_of(ii, w));
        assert forall|k: int|
            0 <= k < run1.len() implies !(#[trigger] c1[r0 + k]).0 && c1[r0 + k].1 by {
            assert(run1[k] as int == r0 + k);
            if r0 + k < ii {
                assert(c0[r0 + k].1);
                assert(!c0[r0 + k].0);
            }
        }
        assert(m1.run_ok());
        assert(m1.inv());
    } else {
        // the run closes, opening the north wall of one member
        assert(closes_with_north(c0, run1, c1));
        assert(has_north(ii, w));
        let m = choose|m: int|
            #[trigger] is_run_member(run1, m) && 0 <= m < c0.len() && c1 == c0.update(
                m,
                (GridCell(true, c0[m].1)),
            );
        let k = choose|k: int| 0 <= k < run1.len() && (#[trigger] run1[k]) as int == m;
        assert(m == r0 + k);
        assert(r0 <= m <= ii);
        assert(row_of(m, w) == row_of(ii, w)) by {
            if m == ii {
            } else {
                assert(row_of(r0, w) == row_of(ii, w));
                lemma_rows_between(r0, m, ii, w);
            }
        }
        assert(row_of(ii, w) >= 1) by {
            lemma_north_step(ii, w);
        }
        assert(m >= w) by {
            lemma_row_col(m, w);
            assert(m == w * row_of(m, w) + col_of(m, w));
            assert(w * row_of(m, w) >= w) by (nonlinear_arith)
                requires
                    row_of(m, w) >= 1,
                    w >= 1,
            ;
        }
        assert(!c0[m].0);
        assert(flags_of(c1[m]) == flags_of(c0[m]) + 1);
        lemma_flag_count_update(c0, m, c1[m]);
        assert(flag_count(c1) == expected_flags(ii + 1, w));
        assert(flags_le(c0, c1));
        lemma_witnesses_mono(c0, c1, w, ii);
        // the freshly closed cell gets its witness
        assert(run_witness(c1, w, ii, m)) by {
            assert forall|k2: int| m <= k2 < ii implies (#[trigger] c1[k2]).1 by {
                assert(c0[k2].1);
            }
        }
        assert(boundary_ok(c1, w));
        assert forall|j: int|
            0 <= j < ii + 1 && j >= w && !(#[trigger] c1[j]).1 implies exists|m2: int|
            run_witness(c1, w, j, m2) by {
            if j < ii {
                assert(!c0[j].1);
            } else {
                assert(run_witness(c1, w, ii, m));
            }
        }
        assert(m1.inv());
    }
}

/// An index between two indices of one row is in that row.
proof fn lemma_rows_between(a: int, m: int, b: int, w: int)
    requires
        w >= 1,
        0 <= a <= m <= b,
        row_of(a, w) == row_of(b, w),
    ensures
        row_of(m, w) == row_of(a, w),
{
    lemma_row_col(a, w);
    lemma_row_col(b, w);
    let q = row_of(a, w);
    assert(m == q * w + (m - q * w)) by (nonlinear_arith);
    assert(0 <= m - q * w < w) by (nonlinear_arith)
        requires
            a == w * q + col_of(a, w),
            b == w * q + col_of(b, w),
            0 <= col_of(a, w) < w,
            0 <= col_of(b, w) < w,
            a <= m <= b,
    ;
    vstd::arithmetic::div_mod::lemma_fundamental_div_mod_converse(m, w, q, m - q * w);
}

/// Witnesses survive the opening of more walls.
proof fn lemma_witnesses_mono(c0: Seq<GridCell>, c1: Seq<GridCell>, w: int, bound: int)
    requires
        flags_le(c0, c1),
        bound <= c0.len(),
        forall|j: int|
            0 <= j < bound && j >= w && !(#[trigger] c0[j]).1 ==> exists|m: int|
                run_witness(c0, w, j, m),
    ensures
        forall|j: int|
            0 <= j < bound && j >= w && !(#[trigger] c1[j]).1 ==> exists|m: int|
                run_witness(c1, w, j, m),
{
    assert forall|j: int|
        0 <= j < bound && j >= w && !(#[trigger] c1[j]).1 implies exists|m: int|
        run_witness(c1, w, j, m) by {
        assert(!c0[j].1);
        let m = choose|m: int| run_witness(c0, w, j, m);
        assert forall|k: int| m <= k < j implies (#[trigger] c1[k]).1 by {
            assert(c0[k].1);
        }
        assert(run_witness(c1, w, j, m));
    }
}

/// Walking west along an east-open block gives a path.
proof fn lemma_sw_chain_back(c: Seq<GridCell>, w: int, j: int, m: int)
    requires
        w >= 1,
        0 <= m <= j < c.len(),
        boundary_ok(c, w),
        forall|k: int| m <= k < j ==> (#[trigger] c[k]).1,
    ensures
        reaches(c, w, j, m),
    decreases j - m,
{
    if j == m {
        lemma_reaches_refl(c, w, j);
    } else {
        assert(c[j - 1].1);
        assert(adj(c, w, j, j - 1));
        lemma_sw_chain_back(c, w, j - 1, m);
        lemma_reaches_step(c, w, j, j - 1, m);
    }
}

/// In a finished sidewinder grid every cell reaches the top-right corner:
/// first-row cells walk east along the open chain; a later-row cell walks
/// east to the end of its run, back to the run's north opening, up a row,
/// and recurses.
proof fn lemma_sw_reach_corner(c: Seq<GridCell>, w: int, h: int, j: int)
    requires
        w >= 1,
        h >= 1,
        c.len() == w * h,
        boundary_ok(c, w),
        forall|j2: int| 0 <= j2 < c.len() && j2 < w && j2 != w - 1 ==> (#[trigger] c[j2]).1,
        forall|j2: int|
            0 <= j2 < c.len() && j2 >= w && !(#[trigger] c[j2]).1 ==> exists|m: int|
                run_witness(c, w, j2, m),
        0 <= j < c.len(),
    ensures
        reaches(c, w, j, w - 1),
    decreases row_of(j, w), w - 1 - col_of(j, w),
{
    lemma_row_col(j, w);
    if j == w - 1 {
        lemma_reaches_refl(c, w, j);
    } else if c[j].1 {
        let p = j + 1;
        lemma_east_step(j, w);
        if p == c.len() {
            vstd::arithmetic::div_mod::lemma_mod_multiples_basic(h, w);
            assert(h * w == w * h) by (nonlinear_arith);
            assert(false);
        }
        assert(adj(c, w, j, p));
        lemma_sw_reach_corner(c, w, h, p);
        lemma_reaches_step(c, w, j, p, w - 1);
    } else {
        // j is not in the first row: a first-row cell other than the corner
        // always has its east wall open
        assert(j >= w) by {
            if j < w {
                assert(row_of(j, w) == 0) by {
                    vstd::arithmetic::div_mod::lemma_basic_div(j, w);
                }
                assert(c[j].1);
            }
        }
        let m = choose|m: int| run_witness(c, w, j, m);
        lemma_sw_chain_back(c, w, j, m);
        assert(m >= w) by {
            lemma_row_col(m, w);
            lemma_north_step(j, w);
            assert(row_of(m, w) >= 1);
            assert(w * row_of(m, w) >= w) by (nonlinear_arith)
                requires
                    row_of(m, w) >= 1,
                    w >= 1,
            ;
        }
        let p = m - w;
        lemma_north_step(m, w);
        lemma_row_col(p, w);
        assert(adj(c, w, m, p));
        lemma_sw_reach_corner(c, w, h, p);
        lemma_reaches_step(c, w, m, p, w - 1);
        lemma_reaches_trans(c, w, j, m, w - 1);
    }
}

/// A finished sidewinder grid is a spanning tree.
proof fn lemma_sw_spanning(c: Seq<GridCell>, w: int, h: int)
    requires
        w >= 1,
        h >= 1,
        c.len() == w * h,
        boundary_ok(c, w),
        forall|j2: int| 0 <= j2 < c.len() && j2 < w && j2 != w - 1 ==> (#[trigger] c[j2]).1,
        forall|j2: int|
            0 <= j2 < c.len() && j2 >= w && !(#[trigger] c[j2]).1 ==> exists|m: int|
                run_witness(c, w, j2, m),
        flag_count(c) == w * h - 1,
    ensures
        spanning_tree(c, w, h),
{
    assert(w <= w * h) by (nonlinear_arith)
        requires
            w >= 1,
            h >= 1,
    ;
    assert forall|j: int| 0 <= j < c.len() implies #[trigger] reaches(c, w, j, w - 1) by {
        lemma_sw_reach_corner(c, w, h, j);
    }
    lemma_hub_connected(c, w, w - 1);
}

} // verus!

