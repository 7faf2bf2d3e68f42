use wfc_terrain::grid::Grid;
use wfc_terrain::terrain::{Terrain, Window};

fn band_rules() -> Vec<Vec<usize>> {
    vec![
        vec![0, 1],
        vec![0, 1, 2],
        vec![1, 2, 3],
        vec![2, 3, 4],
        vec![3, 4, 5],
        vec![4, 5],
    ]
}

fn check_invariants(g: &Grid) {
    assert_eq!(g.cells.len(), g.total_cells);
    assert_eq!(g.total_cells, g.rows * g.cols);
    for cell in &g.cells {
        for &v in &cell.domain {
            assert!(v < g.max_domains);
        }
        if cell.is_collapsed {
            assert_eq!(cell.domain.len(), 1);
            assert_eq!(cell.collapsed_domain, Some(cell.domain[0]));
        }
    }
}

fn assert_adjacent_within_band(g: &Grid) {
    for t in 0..g.total_cells {
        let a = match g.cells[t].collapsed_domain {
            Some(v) => v,
            None => continue,
        };
        for n in g.generate_valid_neighbor_for_tile(t) {
            if let Some(b) = g.cells[n].collapsed_domain {
                let diff = if a > b { a - b } else { b - a };
                assert!(diff <= 1, "cells {} and {} hold {} and {}", t, n, a, b);
            }
        }
    }
}

#[test]
fn new_terrain_starts_open() {
    let t = Terrain::new(3, band_rules());
    assert_eq!(t.size, 3);
    assert_eq!(t.grid.rows, 3);
    assert_eq!(t.grid.cols, 3);
    assert_eq!(t.grid.total_cells, 9);
    for cell in &t.grid.cells {
        assert!(!cell.is_collapsed);
    }
    check_invariants(&t.grid);
}

#[test]
fn init_collapses_whole_three_by_three() {
    let mut t = Terrain::new(3, band_rules());
    let r = t.init(3);
    assert!(r.is_ok());
    assert_eq!(t.size, 3);
    assert_eq!(t.grid.cells.len(), 9);
    for cell in &t.grid.cells {
        assert!(cell.is_collapsed);
    }
    assert_adjacent_within_band(&t.grid);
    check_invariants(&t.grid);
}

#[test]
fn init_grows_to_target_size() {
    let mut t = Terrain::new(3, band_rules());
    let r = t.init(7);
    assert!(r.is_ok());
    assert_eq!(t.size, 7);
    assert_eq!(t.grid.rows, 7);
    assert_eq!(t.grid.cells.len(), 49);
    assert_adjacent_within_band(&t.grid);
    check_invariants(&t.grid);
}

#[test]
fn init_rounds_expansion_count_up() {
    let mut t = Terrain::new(3, band_rules());
    let r = t.init(6);
    assert!(r.is_ok());
    // ceil((6 - 3) / 2) = 2 expansions: 3 -> 5 -> 7
    assert_eq!(t.size, 7);
}

#[test]
fn expand_adds_two_and_keeps_collapsed_values() {
    let mut t = Terrain::new(3, band_rules());
    t.init(3).unwrap();
    let before = t.grid.clone();
    let r = t.expand();
    assert!(r.is_ok());
    assert_eq!(t.size, 5);
    assert_eq!(t.grid.cells.len(), 25);
    for i in 0..9 {
        if before.cells[i].is_collapsed {
            let target = (i / 3 + 1) * 5 + (i % 3 + 1);
            assert!(t.grid.cells[target].is_collapsed);
            assert_eq!(
                t.grid.cells[target].collapsed_domain,
                before.cells[i].collapsed_domain
            );
        }
    }
    assert_adjacent_within_band(&t.grid);
    check_invariants(&t.grid);
}

#[test]
fn expand_full_collapses_the_whole_ring() {
    let mut t = Terrain::new(3, band_rules());
    t.init(3).unwrap();
    let before = t.grid.clone();
    let r = t.expand_full();
    assert!(r.is_ok());
    assert_eq!(t.size, 5);
    for cell in &t.grid.cells {
        assert!(cell.is_collapsed);
    }
    for i in 0..9 {
        let target = (i / 3 + 1) * 5 + (i % 3 + 1);
        assert_eq!(
            t.grid.cells[target].collapsed_domain,
            before.cells[i].collapsed_domain
        );
    }
    assert_adjacent_within_band(&t.grid);
}

#[test]
fn window_inside_grid_equals_range() {
    let mut t = Terrain::new(3, band_rules());
    t.init(3).unwrap();
    let grid_copy = t.grid.clone();
    let w = Window(t, 1, 0, 2, 2).unwrap();
    let direct = grid_copy.range(1, 0, 2, 2).unwrap();
    assert_eq!(w.rows, 2);
    assert_eq!(w.cols, 2);
    for i in 0..4 {
        assert_eq!(w.cells[i].collapsed_domain, direct.cells[i].collapsed_domain);
        assert_eq!(w.cells[i].domain, direct.cells[i].domain);
        assert_eq!(w.cells[i].id, direct.cells[i].id);
    }
}

#[test]
fn window_beyond_grid_expands_first() {
    let mut t = Terrain::new(3, band_rules());
    t.init(3).unwrap();
    let w = Window(t, 0, 0, 5, 5).unwrap();
    assert_eq!(w.rows, 5);
    assert_eq!(w.cols, 5);
    assert_eq!(w.cells.len(), 25);
    check_invariants(&w);
}
