//! The rasterizer: a pure transform from a grid snapshot to a fixed-size,
//! fixed-palette pixel buffer.
//!
//! The layout puts the grid body after an outer padding and a left border;
//! each cell owns a `CELL_SIZE` by `CELL_SIZE` box whose top strip is its
//! north wall and whose right strip is its east wall, drawn closed unless
//! the matching flag is open; the corner post between them is always
//! drawn. A full-width bottom border closes the maze. The body of the
//! current cell and of highlighted cells is filled with a distinct color,
//! and walls are drawn over fills. Every pixel is a function of the grid
//! alone, so rasterization is deterministic.

use vstd::prelude::*;

use crate::grid::Grid;

verus! {

/// Palette index of the background.
pub const COLOR_BACKGROUND: u8 = 1;

/// Palette index of walls and borders.
pub const COLOR_WALL: u8 = 0;

/// Palette index of the current cell's fill.
pub const COLOR_CURRENT: u8 = 2;

/// Palette index of a highlighted cell's fill.
pub const COLOR_HIGHLIGHT: u8 = 3;

/// Outer padding, in pixels, around the whole maze.
pub const PADDING: usize = 20;

/// Thickness of a wall line, in pixels.
pub const BORDER: usize = 2;

/// Side of a cell's open interior, in pixels.
pub const CELL: usize = 10;

/// Pitch from one cell's box to the next.
pub const CELL_SIZE: usize = CELL + BORDER;

/// Width in pixels of the buffer for a grid `w` cells wide.
pub open spec fn raster_width(w: int) -> int {
    PADDING + BORDER + CELL_SIZE * w + PADDING
}

/// Height in pixels of the buffer for a grid `h` cells tall.
pub open spec fn raster_height(h: int) -> int {
    PADDING + CELL_SIZE * h + BORDER + PADDING
}

/// Whether a wall, border or corner post is drawn at this pixel: the left
/// border strip, the bottom border strip, or — inside a cell's box — the
/// top strip when the north wall is closed, the right strip when the east
/// wall is closed, and the top-right corner post always.
pub open spec fn wall_pixel(g: Grid, px: int, py: int) -> bool {
    let w = g.width as int;
    let h = g.height as int;
    ||| (PADDING <= px < PADDING + BORDER && PADDING <= py < PADDING + CELL_SIZE * h)
    ||| (PADDING <= px < PADDING + CELL_SIZE * w + BORDER && PADDING + CELL_SIZE * h <= py
        < PADDING + CELL_SIZE * h + BORDER)
    ||| ({
        &&& PADDING + BORDER <= px < PADDING + BORDER + CELL_SIZE * w
        &&& PADDING <= py < PADDING + CELL_SIZE * h
        &&& ({
            let x = (px - PADDING - BORDER) / (CELL_SIZE as int);
            let rx = (px - PADDING - BORDER) % (CELL_SIZE as int);
            let y = (py - PADDING) / (CELL_SIZE as int);
            let ry = (py - PADDING) % (CELL_SIZE as int);
            let cell = g.cells@[y * w + x];
            ||| (ry < BORDER && !cell.0)
            ||| (rx >= CELL && !cell.1)
            ||| (ry < BORDER && rx >= CELL)
        })
    })
}

/// The color of one pixel: walls win over fills, the current cell's fill
/// over a highlight fill, and everything else is background. A cell's fill
/// box starts one wall thickness below its wall box, so an open north wall
/// lets the fill of the cell above show through the gap.
pub open spec fn pixel_color(g: Grid, px: int, py: int) -> u8 {
    let w = g.width as int;
    let h = g.height as int;
    if wall_pixel(g, px, py) {
        COLOR_WALL
    } else if PADDING + BORDER <= px < PADDING + BORDER + CELL_SIZE * w && PADDING + BORDER <= py
        < PADDING + BORDER + CELL_SIZE * h {
        let x = (px - PADDING - BORDER) / (CELL_SIZE as int);
        let y = (py - PADDING - BORDER) / (CELL_SIZE as int);
        let idx = y * w + x;
        if idx == g.current_cell_index {
            COLOR_CURRENT
        } else if g.highlighted(idx) {
            COLOR_HIGHLIGHT
        } else {
            COLOR_BACKGROUND
        }
    } else {
        COLOR_BACKGROUND
    }
}

/// A rasterized snapshot: `width * height` palette indices, row-major.
#[derive(Clone, Debug)]
pub struct Raster {
    pub width: usize,
    pub height: usize,
    pub pixels: Vec<u8>,
}

/// The buffer `r` is exactly the rasterization of `g`.
pub open spec fn raster_matches(g: Grid, r: Raster) -> bool {
    &&& r.width == raster_width(g.width as int)
    &&& r.height == raster_height(g.height as int)
    &&& r.pixels@.len() == raster_width(g.width as int) * raster_height(g.height as int)
    &&& forall|px: int, py: int|
        0 <= px < r.width && 0 <= py < r.height ==> r.pixels@[py * r.width + px] == pixel_color(
            g,
            px,
            py,
        )
}

/// Whether `t` occurs in `v`.
fn contains_index(v: &Vec<usize>, t: usize) -> (r: bool)
    ensures
        r == exists|k: int| 0 <= k < v@.len() && v@[k] == t,
{
    let mut k: usize = 0;
    let mut found = false;
    while k < v.len()
        invariant
            k <= v@.len(),
            found == exists|k2: int| 0 <= k2 < k && v@[k2] == t,
        decreases v@.len() - k,
    {
        if v[k] == t {
            found = true;
        }
        k += 1;
    }
    found
}

/// The color of the pixel at `(px, py)`.
fn pixel_at(g: &Grid, px: usize, py: usize) -> (c: u8)
    requires
        g.wf(),
        raster_width(g.width as int) <= usize::MAX,
        raster_height(g.height as int) <= usize::MAX,
        px < raster_width(g.width as int),
        py < raster_height(g.height as int),
    ensures
        c == pixel_color(*g, px as int, py as int),
{
    let w = g.width;
    let h = g.height;
    let grid_w = CELL_SIZE * w;
    let band_h = CELL_SIZE * h;
    let mut is_wall = false;
    if px >= PADDING && px < PADDING + BORDER && py >= PADDING && py < PADDING + band_h {
        is_wall = true;
    } else if px >= PADDING && px < PADDING + grid_w + BORDER && py >= PADDING + band_h && py
        < PADDING + band_h + BORDER {
        is_wall = true;
    } else if px >= PADDING + BORDER && px < PADDING + BORDER + grid_w && py >= PADDING && py
        < PADDING + band_h {
        let dx = px - PADDING - BORDER;
        let dy = py - PADDING;
        let x = dx / CELL_SIZE;
        let rx = dx % CELL_SIZE;
        let y = dy / CELL_SIZE;
        let ry = dy % CELL_SIZE;
        proof {
            vstd::arithmetic::div_mod::lemma_multiply_divide_lt(
                dx as int,
                CELL_SIZE as int,
                w as int,
            );
            vstd::arithmetic::div_mod::lemma_multiply_divide_lt(
                dy as int,
                CELL_SIZE as int,
                h as int,
            );
            assert(y as int * w as int + x < w as int * h as int) by (nonlinear_arith)
                requires
                    0 <= x < w as int,
                    0 <= y < h as int,
            ;
        }
        let cell = g.cells[y * w + x];
        is_wall = (ry < BORDER && !cell.0) || (rx >= CELL && !cell.1) || (ry < BORDER && rx
            >= CELL);
    }
    if is_wall {
        return COLOR_WALL;
    }
    if px >= PADDING + BORDER && px < PADDING + BORDER + grid_w && py >= PADDING + BORDER && py
        < PADDING + BORDER + band_h {
        let dx = px - PADDING - BORDER;
        let dy = py - PADDING - BORDER;
        let x = dx / CELL_SIZE;
        let y = dy / CELL_SIZE;
        proof {
            vstd::arithmetic::div_mod::lemma_multiply_divide_lt(
                dx as int,
                CELL_SIZE as int,
                w as int,
            );
            vstd::arithmetic::div_mod::lemma_multiply_divide_lt(
                dy as int,
                CELL_SIZE as int,
                h as int,
            );
            assert(y as int * w as int + x < w as int * h as int) by (nonlinear_arith)
                requires
                    0 <= x < w as int,
                    0 <= y < h as int,
            ;
        }
        let idx = y * w + x;
        if idx == g.current_cell_index {
            COLOR_CURRENT
        } else if contains_index(&g.highlights, idx) {
            COLOR_HIGHLIGHT
        } else {
            COLOR_BACKGROUND
        }
    } else {
        COLOR_BACKGROUND
    }
}

/// Rasterizes one snapshot. The buffer's dimensions are the fixed affine
/// functions `raster_width` and `raster_height` of the grid's dimensions,
/// and every pixel equals `pixel_color`, so two rasterizations of equal
/// grids are byte-identical.
pub fn rasterize(g: &Grid) -> (r: Raster)
    requires
        g.wf(),
        raster_width(g.width as int) * raster_height(g.height as int) <= usize::MAX,
    ensures
        raster_matches(*g, r),
        r.width == raster_width(g.width as int),
        r.height == raster_height(g.height as int),
        r.pixels@.len() == r.width * r.height,
{
    proof {
        assert(CELL_SIZE * g.width as int >= CELL_SIZE && CELL_SIZE * g.height as int
            >= CELL_SIZE) by (nonlinear_arith)
            requires
                g.width >= 1,
                g.height >= 1,
        ;
        assert(raster_width(g.width as int) <= raster_width(g.width as int) * raster_height(
            g.height as int,
        ) && raster_height(g.height as int) <= raster_width(g.width as int) * raster_height(
            g.height as int,
        )) by (nonlinear_arith)
            requires
                raster_width(g.width as int) >= 1,
                raster_height(g.height as int) >= 1,
        ;
    }
    let cols = PADDING + BORDER + CELL_SIZE * g.width + PADDING;
    let rows = PADDING + CELL_SIZE * g.height + BORDER + PADDING;
    let mut pixels: Vec<u8> = Vec::new();
    let mut py: usize = 0;
    while py < rows
        invariant
            g.wf(),
            cols == raster_width(g.width as int),
            rows == raster_height(g.height as int),
            cols * rows <= usize::MAX,
            py <= rows,
            pixels@.len() == py * cols,
            forall|k: int|
                0 <= k < pixels@.len() ==> pixels@[k] == pixel_color(
                    *g,
                    k % cols as int,
                    k / cols as int,
                ),
        decreases rows - py,
    {
        let mut px: usize = 0;
        proof {
            assert((py + 1) * cols == py * cols + cols) by (nonlinear_arith);
            assert((py + 1) * cols <= rows * cols) by (nonlinear_arith)
                requires
                    py + 1 <= rows,
                    cols >= 0,
            ;
            assert(rows * cols == cols * rows) by (nonlinear_arith);
        }
        while px < cols
            invariant
                g.wf(),
                cols == raster_width(g.width as int),
                rows == raster_height(g.height as int),
                cols * rows <= usize::MAX,
                py < rows,
                px <= cols,
                py * cols + cols <= cols * rows,
                pixels@.len() == py * cols + px,
                forall|k: int|
                    0 <= k < pixels@.len() ==> pixels@[k] == pixel_color(
                        *g,
                        k % cols as int,
                        k / cols as int,
                    ),
            decreases cols - px,
        {
            let c = pixel_at(g, px, py);
            pixels.push(c);
            proof {
                let k = py * cols + px;
                vstd::arithmetic::div_mod::lemma_fundamental_div_mod_converse(
                    k as int,
                    cols as int,
                    py as int,
                    px as int,
                );
            }
            px += 1;
        }
        py += 1;
    }
    let r = Raster { width: cols, height: rows, pixels };
    proof {
        assert(rows as int * cols as int == cols as int * rows as int) by (nonlinear_arith);
        assert(r.pixels@.len() == cols * rows);
        assert forall|px2: int, py2: int|
            0 <= px2 < r.width && 0 <= py2 < r.height implies r.pixels@[py2 * r.width + px2]
            == pixel_color(*g, px2, py2) by {
            let k = py2 * cols + px2;
            assert((py2 + 1) * cols <= rows * cols) by (nonlinear_arith)
                requires
                    py2 + 1 <= rows,
                    cols >= 0,
            ;
            assert((py2 + 1) * cols == py2 * cols + cols) by (nonlinear_arith);
            assert(py2 * cols >= 0) by (nonlinear_arith)
                requires
                    py2 >= 0,
                    cols >= 0,
            ;
            assert(rows * cols == cols * rows) by (nonlinear_arith);
            assert(0 <= k < pixels@.len());
            vstd::arithmetic::div_mod::lemma_fundamental_div_mod_converse(
                k,
                cols as int,
                py2,
                px2,
            );
        }
    }
    r
}

/// Rasterization is deterministic: any two buffers that match the same
/// grid are byte-identical.
pub proof fn lemma_rasterize_deterministic(g: Grid, r1: Raster, r2: Raster)
    requires
        raster_matches(g, r1),
        raster_matches(g, r2),
    ensures
        r1.pixels@ == r2.pixels@,
{
    let cols = raster_width(g.width as int);
    let rows = raster_height(g.height as int);
    assert(CELL_SIZE * g.width as int >= 0 && CELL_SIZE * g.height as int >= 0)
        by (nonlinear_arith);
    assert forall|k: int| 0 <= k < r1.pixels@.len() implies r1.pixels@[k] == r2.pixels@[k] by {
        let py = k / cols;
        let px = k % cols;
        vstd::arithmetic::div_mod::lemma_fundamental_div_mod(k, cols);
        vstd::arithmetic::div_mod::lemma_mod_division_less_than_divisor(k, cols);
        vstd::arithmetic::div_mod::lemma_multiply_divide_lt(k, cols, rows);
        assert(py >= 0) by (nonlinear_arith)
            requires
                k >= 0,
                cols >= 1,
                py == k / cols,
        ;
        assert(r1.pixels@[py * cols + px] == pixel_color(g, px, py));
        assert(r2.pixels@[py * cols + px] == pixel_color(g, px, py));
    }
    assert(r1.pixels@ =~= r2.pixels@);
}

} // verus!
