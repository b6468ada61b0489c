use maze::bintree;
use maze::grid::{Grid, GridCell};
use maze::raster::{rasterize, Raster};

fn closed_grid(width: usize, height: usize, current: usize, highlights: Vec<usize>) -> Grid {
    let cells = vec![GridCell(false, false); width * height];
    Grid::new(width, height, cells, current, highlights)
}

fn pixel(r: &Raster, px: usize, py: usize) -> u8 {
    r.pixels[py * r.width + px]
}

#[test]
fn raster_dimensions_are_affine_in_grid_size() {
    let r1 = rasterize(&closed_grid(1, 1, 0, vec![]));
    assert_eq!(r1.width, 54);
    assert_eq!(r1.height, 54);
    assert_eq!(r1.pixels.len(), 54 * 54);

    let r2 = rasterize(&closed_grid(5, 3, 0, vec![]));
    assert_eq!(r2.width, 102);
    assert_eq!(r2.height, 78);
    assert_eq!(r2.pixels.len(), 102 * 78);
}

#[test]
fn raster_is_deterministic() {
    let mut m = bintree::Maze::new(4, 3);
    let mut last = None;
    while let Some(g) = m.next() {
        last = Some(g);
    }
    let g = last.unwrap();
    let r1 = rasterize(&g);
    let r2 = rasterize(&g);
    assert_eq!(r1.width, r2.width);
    assert_eq!(r1.height, r2.height);
    assert_eq!(r1.pixels, r2.pixels);
}

#[test]
fn raster_paints_borders_walls_and_fills() {
    // a single closed cell, currently under the cursor
    let r = rasterize(&closed_grid(1, 1, 0, vec![]));
    // outer padding is background
    assert_eq!(pixel(&r, 0, 0), 1);
    assert_eq!(pixel(&r, 19, 30), 1);
    // left border strip
    assert_eq!(pixel(&r, 20, 20), 0);
    assert_eq!(pixel(&r, 21, 31), 0);
    // closed north wall along the cell's top strip
    assert_eq!(pixel(&r, 22, 20), 0);
    assert_eq!(pixel(&r, 31, 21), 0);
    // closed east wall along the cell's right strip
    assert_eq!(pixel(&r, 32, 25), 0);
    assert_eq!(pixel(&r, 33, 22), 0);
    // bottom border strip
    assert_eq!(pixel(&r, 20, 32), 0);
    assert_eq!(pixel(&r, 33, 33), 0);
    // the cell body is filled with the current-cell color
    assert_eq!(pixel(&r, 25, 25), 2);
    assert_eq!(pixel(&r, 22, 31), 2);
    // right of the maze is background again
    assert_eq!(pixel(&r, 34, 25), 1);
}

#[test]
fn raster_highlight_fill_loses_to_current_fill() {
    // cell 0 highlighted while the cursor sits past the end: highlight shows
    let r = rasterize(&closed_grid(1, 1, 1, vec![0]));
    assert_eq!(pixel(&r, 25, 25), 3);
    // cursor on the same cell: the current color wins over the highlight
    let r2 = rasterize(&closed_grid(1, 1, 0, vec![0]));
    assert_eq!(pixel(&r2, 25, 25), 2);
}

#[test]
fn raster_open_walls_leave_gaps() {
    // two cells side by side with the shared wall open
    let cells = vec![GridCell(false, true), GridCell(false, false)];
    let g = Grid::new(2, 1, cells, 2, vec![]);
    let r = rasterize(&g);
    assert_eq!(r.width, 66);
    // cell 0's east strip is open: background shows between the cells
    assert_eq!(pixel(&r, 32, 25), 1);
    // but the corner post at the top of that strip is still drawn
    assert_eq!(pixel(&r, 32, 20), 0);
    // cell 1's east strip is the maze's right edge and stays closed
    assert_eq!(pixel(&r, 44, 25), 0);
}

#[test]
fn raster_open_north_wall_shows_fill_of_cell_above() {
    // a 1-wide, 2-tall grid: the lower cell's north wall is open and the
    // upper cell is highlighted, so its fill bleeds into the gap
    let cells = vec![GridCell(false, false), GridCell(true, false)];
    let g = Grid::new(1, 2, cells, 2, vec![0]);
    let r = rasterize(&g);
    assert_eq!(r.height, 66);
    // upper cell body is highlighted
    assert_eq!(pixel(&r, 25, 25), 3);
    // the open gap where the lower cell's north wall would be shows the
    // upper cell's fill, which extends one wall thickness downward
    assert_eq!(pixel(&r, 25, 32), 3);
    assert_eq!(pixel(&r, 25, 33), 3);
    // below the gap the lower cell's body is plain background
    assert_eq!(pixel(&r, 25, 35), 1);
}
