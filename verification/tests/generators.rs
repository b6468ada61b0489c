use maze::aldousbroder;
use maze::aldousbroder::Direction;
use maze::bintree;
use maze::grid::Grid;
use maze::sidewinder;

fn collect_bintree(width: usize, height: usize) -> Vec<Grid> {
    let mut m = bintree::Maze::new(width, height);
    let mut snaps = Vec::new();
    while let Some(g) = m.next() {
        snaps.push(g);
    }
    snaps
}

fn collect_sidewinder(width: usize, height: usize) -> Vec<Grid> {
    let mut m = sidewinder::Maze::new(width, height);
    let mut snaps = Vec::new();
    while let Some(g) = m.next() {
        snaps.push(g);
    }
    snaps
}

fn collect_aldousbroder(width: usize, height: usize) -> Vec<Grid> {
    let mut m = aldousbroder::Maze::new(width, height);
    let mut snaps = Vec::new();
    while let Some(g) = m.next() {
        snaps.push(g);
    }
    snaps
}

fn open_wall_count(g: &Grid) -> usize {
    let mut edges = 0;
    for cell in &g.cells {
        if cell.0 {
            edges += 1;
        }
        if cell.1 {
            edges += 1;
        }
    }
    edges
}

/// Breadth-first search over open walls, counting reachable cells.
fn reachable_cells(g: &Grid) -> usize {
    let total = g.width * g.height;
    let mut adjacency = vec![Vec::new(); total];
    for i in 0..total {
        if g.cells[i].0 {
            adjacency[i].push(i - g.width);
            adjacency[i - g.width].push(i);
        }
        if g.cells[i].1 {
            adjacency[i].push(i + 1);
            adjacency[i + 1].push(i);
        }
    }
    let mut seen = vec![false; total];
    let mut queue = vec![0];
    seen[0] = true;
    let mut count = 0;
    while let Some(i) = queue.pop() {
        count += 1;
        for &n in &adjacency[i] {
            if !seen[n] {
                seen[n] = true;
                queue.push(n);
            }
        }
    }
    count
}

fn assert_spanning_tree(g: &Grid) {
    let total = g.width * g.height;
    assert_eq!(open_wall_count(g), total - 1);
    assert_eq!(reachable_cells(g), total);
}

fn assert_no_walls_to_nowhere(g: &Grid) {
    for y in 0..g.height {
        for x in 0..g.width {
            let cell = g.at(x, y).unwrap();
            if y == 0 {
                assert!(!cell.0, "north flag on a row-0 cell");
            }
            if x == g.width - 1 {
                assert!(!cell.1, "east flag on a rightmost-column cell");
            }
        }
    }
}

#[test]
fn bintree_snapshot_count_is_cells_plus_one() {
    assert_eq!(collect_bintree(2, 2).len(), 5);
    assert_eq!(collect_bintree(3, 2).len(), 7);
    assert_eq!(collect_bintree(1, 4).len(), 5);
}

#[test]
fn sidewinder_snapshot_count_is_cells_plus_one() {
    assert_eq!(collect_sidewinder(2, 2).len(), 5);
    assert_eq!(collect_sidewinder(4, 3).len(), 13);
    assert_eq!(collect_sidewinder(5, 1).len(), 6);
}

#[test]
fn bintree_final_grid_is_spanning_tree() {
    for &(w, h) in &[(1, 1), (2, 1), (1, 2), (4, 3), (5, 5)] {
        let snaps = collect_bintree(w, h);
        assert_spanning_tree(snaps.last().unwrap());
    }
}

#[test]
fn sidewinder_final_grid_is_spanning_tree() {
    for &(w, h) in &[(1, 1), (2, 1), (1, 2), (4, 3), (5, 5)] {
        let snaps = collect_sidewinder(w, h);
        assert_spanning_tree(snaps.last().unwrap());
    }
}

#[test]
fn aldousbroder_final_grid_is_spanning_tree() {
    for &(w, h) in &[(2, 1), (1, 2), (3, 3), (4, 2)] {
        let snaps = collect_aldousbroder(w, h);
        assert_spanning_tree(snaps.last().unwrap());
    }
}

#[test]
fn no_generator_builds_walls_to_nowhere() {
    for g in collect_bintree(4, 3) {
        assert_no_walls_to_nowhere(&g);
    }
    for g in collect_sidewinder(4, 3) {
        assert_no_walls_to_nowhere(&g);
    }
    for g in collect_aldousbroder(3, 3) {
        assert_no_walls_to_nowhere(&g);
    }
}

#[test]
fn bintree_two_by_one_opens_exactly_the_shared_wall() {
    let snaps = collect_bintree(2, 1);
    assert_eq!(snaps.len(), 3);
    let last = snaps.last().unwrap();
    assert!(!last.cells[0].0);
    assert!(last.cells[0].1);
    assert!(!last.cells[1].0);
    assert!(!last.cells[1].1);
}

#[test]
fn single_cell_bintree_emits_two_all_closed_snapshots() {
    let snaps = collect_bintree(1, 1);
    assert_eq!(snaps.len(), 2);
    let last = snaps.last().unwrap();
    assert!(!last.cells[0].0);
    assert!(!last.cells[0].1);
}

#[test]
fn single_cell_sidewinder_emits_two_all_closed_snapshots() {
    let snaps = collect_sidewinder(1, 1);
    assert_eq!(snaps.len(), 2);
    let last = snaps.last().unwrap();
    assert!(!last.cells[0].0);
    assert!(!last.cells[0].1);
}

#[test]
fn single_cell_aldousbroder_has_no_edges() {
    let snaps = collect_aldousbroder(1, 1);
    assert!(!snaps.is_empty());
    let last = snaps.last().unwrap();
    assert!(!last.cells[0].0);
    assert!(!last.cells[0].1);
    assert_eq!(last.current_cell_index, 0);
}

#[test]
fn bintree_interior_cell_opens_exactly_one_wall() {
    let snaps = collect_bintree(2, 2);
    let last = snaps.last().unwrap();
    // the cell with both neighbors must open exactly one of its two walls
    let flags = (last.cells[2].0 as usize) + (last.cells[2].1 as usize);
    assert_eq!(flags, 1);
    // the rightmost cell of the lower row must open north
    assert!(last.cells[3].0);
    assert!(!last.cells[3].1);
}

#[test]
fn aldousbroder_visited_count_is_monotone_and_complete() {
    let mut m = aldousbroder::Maze::new(3, 3);
    let mut last_count = 0;
    while let Some(g) = m.next() {
        assert!(m.visited_count >= last_count);
        assert!(m.visited_count <= 9);
        assert!(g.current_cell_index < 9);
        last_count = m.visited_count;
    }
    assert_eq!(m.visited_count, 9);
}

#[test]
fn sidewinder_highlights_name_cells_of_the_run() {
    let snaps = collect_sidewinder(4, 4);
    for g in &snaps {
        for &h in &g.highlights {
            assert!(h < 16);
        }
    }
    // the very first snapshot precedes any step and highlights nothing
    assert!(snaps[0].highlights.is_empty());
}

#[test]
fn initial_snapshots_are_all_closed() {
    for snaps in [collect_bintree(3, 2), collect_sidewinder(3, 2), collect_aldousbroder(2, 2)] {
        let first = &snaps[0];
        for cell in &first.cells {
            assert!(!cell.0);
            assert!(!cell.1);
        }
    }
}

#[test]
fn grid_at_returns_cells_in_range_only() {
    let snaps = collect_bintree(3, 2);
    let g = snaps.last().unwrap();
    assert!(g.at(0, 0).is_some());
    assert!(g.at(2, 1).is_some());
    assert!(g.at(0, 2).is_none());
    let direct = g.cells[1 * 3 + 2];
    let via_at = g.at(2, 1).unwrap();
    assert_eq!(via_at.0, direct.0);
    assert_eq!(via_at.1, direct.1);
}

#[test]
fn neighbours_lists_existing_directions_in_order() {
    let m = aldousbroder::Maze::new(2, 2);
    assert_eq!(m.neighbours(0), vec![Direction::East(1), Direction::South(2)]);
    assert_eq!(m.neighbours(1), vec![Direction::South(3), Direction::West(0)]);
    assert_eq!(m.neighbours(3), vec![Direction::North(1), Direction::West(2)]);
    let single = aldousbroder::Maze::new(1, 1);
    assert!(single.neighbours(0).is_empty());
}
