//! The cell graph of a maze: open walls as edges, reachability, and the
//! spanning-tree property that every finished maze satisfies.

use vstd::prelude::*;

use crate::grid::GridCell;

verus! {

/// Whether the cell at flat index `i` has a neighbor to the north.
pub open spec fn has_north(i: int, w: int) -> bool {
    i >= w
}

/// Whether the cell at flat index `i` has a neighbor to the east.
pub open spec fn has_east(i: int, w: int) -> bool {
    (i + 1) % w != 0
}

/// Whether the cell at flat index `i` has a neighbor to the south.
pub open spec fn has_south(i: int, w: int, h: int) -> bool {
    i + w < w * h
}

/// Whether the cell at flat index `i` has a neighbor to the west.
pub open spec fn has_west(i: int, w: int) -> bool {
    i % w != 0
}

/// No flag points at a nonexistent neighbor: a row-0 cell never has its
/// north-open flag set, a rightmost-column cell never its east-open flag.
pub open spec fn boundary_ok(c: Seq<GridCell>, w: int) -> bool {
    forall|j: int|
        0 <= j < c.len() ==> ((#[trigger] c[j]).0 ==> has_north(j, w)) && (c[j].1 ==> has_east(
            j,
            w,
        ))
}

/// Cells with both flags closed.
pub open spec fn all_closed(c: Seq<GridCell>) -> bool {
    forall|j: int| 0 <= j < c.len() ==> !(#[trigger] c[j]).0 && !c[j].1
}

/// Cells `a` and `b` are joined by an open wall. A north flag on a cell
/// joins it to the cell one row up; an east flag joins it to the next cell
/// in its row. The relation is symmetric by construction.
pub open spec fn adj(c: Seq<GridCell>, w: int, a: int, b: int) -> bool {
    &&& 0 <= a < c.len()
    &&& 0 <= b < c.len()
    &&& {
        ||| (a >= w && b == a - w && c[a].0)
        ||| (b >= w && a == b - w && c[b].0)
        ||| ((a + 1) % w != 0 && b == a + 1 && c[a].1)
        ||| ((b + 1) % w != 0 && a == b + 1 && c[b].1)
    }
}

/// There is a path of at most `n` open walls from `a` to `b`.
pub open spec fn reaches_in(c: Seq<GridCell>, w: int, a: int, b: int, n: nat) -> bool
    decreases n,
{
    a == b || (n > 0 && exists|m: int| #[trigger] adj(c, w, a, m) && reaches_in(
        c,
        w,
        m,
        b,
        (n - 1) as nat,
    ))
}

/// There is a path of open walls from `a` to `b`.
pub open spec fn reaches(c: Seq<GridCell>, w: int, a: int, b: int) -> bool {
    exists|n: nat| reaches_in(c, w, a, b, n)
}

/// Every cell reaches every other cell through open walls.
pub open spec fn connected(c: Seq<GridCell>, w: int) -> bool {
    forall|a: int, b: int|
        0 <= a < c.len() && 0 <= b < c.len() ==> #[trigger] reaches(c, w, a, b)
}

/// The number of open flags on one cell.
pub open spec fn flags_of(cell: GridCell) -> int {
    (if cell.0 {
        1int
    } else {
        0
    }) + (if cell.1 {
        1int
    } else {
        0
    })
}

/// The total number of open flags, which under `boundary_ok` is the number
/// of edges of the cell graph.
pub open spec fn flag_count(c: Seq<GridCell>) -> int
    decreases c.len(),
{
    if c.len() == 0 {
        0
    } else {
        flag_count(c.drop_last()) + flags_of(c.last())
    }
}

/// A finished perfect maze: every cell reachable from every other, no flag
/// pointing off the grid, and exactly `w * h - 1` open walls, so the cell
/// graph is a spanning tree.
pub open spec fn spanning_tree(c: Seq<GridCell>, w: int, h: int) -> bool {
    &&& c.len() == w * h
    &&& boundary_ok(c, w)
    &&& connected(c, w)
    &&& flag_count(c) == w * h - 1
}

/// The number of open flags after a row-major carving pass over the first
/// `i` cells, when every cell opens exactly one wall except the top-right
/// corner cell `w - 1`, which opens none.
pub open spec fn expected_flags(i: int, w: int) -> int {
    if i <= w - 1 {
        i
    } else {
        i - 1
    }
}

/// Flag-wise ordering: `c2` has every flag of `c1` open (and possibly more).
pub open spec fn flags_le(c1: Seq<GridCell>, c2: Seq<GridCell>) -> bool {
    &&& c1.len() == c2.len()
    &&& forall|j: int|
        0 <= j < c1.len() ==> ((#[trigger] c1[j]).0 ==> c2[j].0) && (c1[j].1 ==> c2[j].1)
}

/// The row of flat index `i`.
pub open spec fn row_of(i: int, w: int) -> int {
    i / w
}

/// The column of flat index `i`.
pub open spec fn col_of(i: int, w: int) -> int {
    i % w
}

/// Row and column decompose a flat index.
pub proof fn lemma_row_col(i: int, w: int)
    requires
        w >= 1,
        0 <= i,
    ensures
        i == w * row_of(i, w) + col_of(i, w),
        0 <= col_of(i, w) < w,
        0 <= row_of(i, w),
{
    vstd::arithmetic::div_mod::lemma_fundamental_div_mod(i, w);
    vstd::arithmetic::div_mod::lemma_mod_division_less_than_divisor(i, w);
    assert(i / w >= 0) by (nonlinear_arith)
        requires
            i >= 0,
            w >= 1,
    ;
}

/// Moving one cell north subtracts one row and keeps the column.
pub proof fn lemma_north_step(i: int, w: int)
    requires
        w >= 1,
        i >= w,
    ensures
        row_of(i - w, w) == row_of(i, w) - 1,
        col_of(i - w, w) == col_of(i, w),
        row_of(i, w) >= 1,
{
    lemma_row_col(i, w);
    let q = row_of(i, w);
    let r = col_of(i, w);
    assert(q >= 1) by (nonlinear_arith)
        requires
            i == w * q + r,
            0 <= r < w,
            i >= w,
            w >= 1,
    ;
    assert(i - w == (q - 1) * w + r) by (nonlinear_arith)
        requires
            i == w * q + r,
    ;
    vstd::arithmetic::div_mod::lemma_fundamental_div_mod_converse(i - w, w, q - 1, r);
}

/// Moving one cell east within a row adds one column and keeps the row.
pub proof fn lemma_east_step(i: int, w: int)
    requires
        w >= 1,
        i >= 0,
        (i + 1) % w != 0,
    ensures
        row_of(i + 1, w) == row_of(i, w),
        col_of(i + 1, w) == col_of(i, w) + 1,
        col_of(i, w) < w - 1,
{
    lemma_row_col(i, w);
    let q = row_of(i, w);
    let r = col_of(i, w);
    if r == w - 1 {
        assert(i + 1 == (q + 1) * w + 0) by (nonlinear_arith)
            requires
                i == w * q + r,
                r == w - 1,
        ;
        vstd::arithmetic::div_mod::lemma_fundamental_div_mod_converse(i + 1, w, q + 1, 0);
        assert(false);
    }
    assert(i + 1 == q * w + (r + 1)) by (nonlinear_arith)
        requires
            i == w * q + r,
    ;
    vstd::arithmetic::div_mod::lemma_fundamental_div_mod_converse(i + 1, w, q, r + 1);
}

/// Within a grid of `w * h` cells, the only cell without north and east
/// neighbors is the top-right corner, index `w - 1`.
pub proof fn lemma_corner(i: int, w: int)
    requires
        w >= 1,
        0 <= i,
    ensures
        (!has_north(i, w) && !has_east(i, w)) <==> i == w - 1,
{
    if i < w && (i + 1) % w == 0 {
        if i + 1 < w {
            vstd::arithmetic::div_mod::lemma_small_mod((i + 1) as nat, w as nat);
        }
        assert(i == w - 1);
    }
    if i == w - 1 {
        vstd::arithmetic::div_mod::lemma_mod_self_0(w);
    }
}

pub proof fn lemma_reaches_refl(c: Seq<GridCell>, w: int, a: int)
    ensures
        reaches(c, w, a, a),
{
    assert(reaches_in(c, w, a, a, 0));
}

pub proof fn lemma_adj_sym(c: Seq<GridCell>, w: int, a: int, b: int)
    requires
        adj(c, w, a, b),
    ensures
        adj(c, w, b, a),
{
}

/// Prepending one open wall to a path gives a path.
pub proof fn lemma_reaches_step(c: Seq<GridCell>, w: int, a: int, m: int, b: int)
    requires
        adj(c, w, a, m),
        reaches(c, w, m, b),
    ensures
        reaches(c, w, a, b),
{
    let n = choose|n: nat| reaches_in(c, w, m, b, n);
    assert(reaches_in(c, w, a, b, n + 1));
}

proof fn lemma_reaches_in_trans(c: Seq<GridCell>, w: int, a: int, b: int, d: int, n: nat)
    requires
        reaches_in(c, w, a, b, n),
        reaches(c, w, b, d),
    ensures
        reaches(c, w, a, d),
    decreases n,
{
    if a == b {
    } else {
        let m = choose|m: int| #[trigger] adj(c, w, a, m) && reaches_in(c, w, m, b, (n - 1) as nat);
        lemma_reaches_in_trans(c, w, m, b, d, (n - 1) as nat);
        lemma_reaches_step(c, w, a, m, d);
    }
}

/// Reachability is transitive.
pub proof fn lemma_reaches_trans(c: Seq<GridCell>, w: int, a: int, b: int, d: int)
    requires
        reaches(c, w, a, b),
        reaches(c, w, b, d),
    ensures
        reaches(c, w, a, d),
{
    let n = choose|n: nat| reaches_in(c, w, a, b, n);
    lemma_reaches_in_trans(c, w, a, b, d, n);
}

proof fn lemma_reaches_in_sym(c: Seq<GridCell>, w: int, a: int, b: int, n: nat)
    requires
        reaches_in(c, w, a, b, n),
    ensures
        reaches(c, w, b, a),
    decreases n,
{
    if a == b {
        lemma_reaches_refl(c, w, b);
    } else {
        let m = choose|m: int| #[trigger] adj(c, w, a, m) && reaches_in(c, w, m, b, (n - 1) as nat);
        lemma_reaches_in_sym(c, w, m, b, (n - 1) as nat);
        lemma_adj_sym(c, w, a, m);
        lemma_reaches_refl(c, w, a);
        lemma_reaches_step(c, w, m, a, a);
        lemma_reaches_trans(c, w, b, m, a);
    }
}

/// Reachability is symmetric, because every open wall can be crossed both
/// ways.
pub proof fn lemma_reaches_sym(c: Seq<GridCell>, w: int, a: int, b: int)
    requires
        reaches(c, w, a, b),
    ensures
        reaches(c, w, b, a),
{
    let n = choose|n: nat| reaches_in(c, w, a, b, n);
    lemma_reaches_in_sym(c, w, a, b, n);
}

/// A grid in which every cell reaches one hub cell is connected.
pub proof fn lemma_hub_connected(c: Seq<GridCell>, w: int, hub: int)
    requires
        0 <= hub < c.len(),
        forall|j: int| 0 <= j < c.len() ==> #[trigger] reaches(c, w, j, hub),
    ensures
        connected(c, w),
{
    assert forall|a: int, b: int|
        0 <= a < c.len() && 0 <= b < c.len() implies #[trigger] reaches(c, w, a, b) by {
        lemma_reaches_sym(c, w, b, hub);
        lemma_reaches_trans(c, w, a, hub, b);
    }
}

proof fn lemma_reaches_in_mono(c1: Seq<GridCell>, c2: Seq<GridCell>, w: int, a: int, b: int, n: nat)
    requires
        flags_le(c1, c2),
        reaches_in(c1, w, a, b, n),
    ensures
        reaches_in(c2, w, a, b, n),
    decreases n,
{
    if a == b {
    } else {
        let m = choose|m: int| #[trigger] adj(c1, w, a, m) && reaches_in(
            c1,
            w,
            m,
            b,
            (n - 1) as nat,
        );
        assert(adj(c2, w, a, m));
        lemma_reaches_in_mono(c1, c2, w, m, b, (n - 1) as nat);
        assert(reaches_in(c2, w, a, b, n));
    }
}

/// Opening more walls never breaks a path.
pub proof fn lemma_reaches_mono(c1: Seq<GridCell>, c2: Seq<GridCell>, w: int, a: int, b: int)
    requires
        flags_le(c1, c2),
        reaches(c1, w, a, b),
    ensures
        reaches(c2, w, a, b),
{
    let n = choose|n: nat| reaches_in(c1, w, a, b, n);
    lemma_reaches_in_mono(c1, c2, w, a, b, n);
}

/// If a set of mutually reachable cells contains `hub`, and `nn` is joined
/// to `hub` by an open wall, then the set extended with `nn` is mutually
/// reachable too.
pub proof fn lemma_connected_add_node(
    c: Seq<GridCell>,
    w: int,
    in_s: spec_fn(int) -> bool,
    hub: int,
    nn: int,
)
    requires
        forall|a: int, b: int| in_s(a) && in_s(b) ==> #[trigger] reaches(c, w, a, b),
        in_s(hub),
        adj(c, w, hub, nn),
    ensures
        forall|a: int, b: int|
            (in_s(a) || a == nn) && (in_s(b) || b == nn) ==> #[trigger] reaches(c, w, a, b),
{
    assert forall|a: int, b: int|
        (in_s(a) || a == nn) && (in_s(b) || b == nn) implies #[trigger] reaches(c, w, a, b) by {
        if a == nn && b == nn {
            lemma_reaches_refl(c, w, a);
        } else if a == nn {
            lemma_adj_sym(c, w, hub, nn);
            lemma_reaches_step(c, w, nn, hub, b);
        } else if b == nn {
            lemma_reaches_refl(c, w, nn);
            lemma_reaches_step(c, w, hub, nn, nn);
            lemma_reaches_trans(c, w, a, hub, nn);
        }
    }
}

/// Changing one cell changes the flag total by the difference at that cell.
pub proof fn lemma_flag_count_update(c: Seq<GridCell>, j: int, cell: GridCell)
    requires
        0 <= j < c.len(),
    ensures
        flag_count(c.update(j, cell)) == flag_count(c) + flags_of(cell) - flags_of(c[j]),
    decreases c.len(),
{
    let c2 = c.update(j, cell);
    if j == c.len() - 1 {
        assert(c2.drop_last() =~= c.drop_last());
    } else {
        assert(c2.drop_last() =~= c.drop_last().update(j, cell));
        lemma_flag_count_update(c.drop_last(), j, cell);
    }
}

/// A fully closed grid has no open flags.
pub proof fn lemma_flag_count_all_closed(c: Seq<GridCell>)
    requires
        all_closed(c),
    ensures
        flag_count(c) == 0,
    decreases c.len(),
{
    if c.len() > 0 {
        assert(all_closed(c.drop_last()));
        lemma_flag_count_all_closed(c.drop_last());
    }
}

} // verus!
