use wfc_terrain::cell::{new_cell, Cell};
use wfc_terrain::grid::Grid;
use wfc_terrain::{build_rule_table, WfcError};

fn band_rules() -> Vec<Vec<usize>> {
    vec![
        vec![0, 1],
        vec![0, 1, 2],
        vec![1, 2, 3],
        vec![2, 3, 4],
        vec![3, 4, 5],
        vec![4, 5],
    ]
}

fn collapsed_cell(id: usize, value: usize) -> Cell {
    Cell {
        id,
        domain: vec![value],
        collapsed_domain: Some(value),
        is_propagated: true,
        is_collapsed: true,
    }
}

fn check_invariants(g: &Grid) {
    assert_eq!(g.cells.len(), g.total_cells);
    assert_eq!(g.total_cells, g.rows * g.cols);
    for cell in &g.cells {
        for &v in &cell.domain {
            assert!(v < g.max_domains);
        }
        if cell.is_collapsed {
            assert_eq!(cell.domain.len(), 1);
            assert_eq!(cell.collapsed_domain, Some(cell.domain[0]));
            assert!(cell.domain.contains(&cell.collapsed_domain.unwrap()));
        }
    }
}

fn sorted(mut v: Vec<usize>) -> Vec<usize> {
    v.sort();
    v
}

#[test]
fn build_rule_table_accepts_closed_table() {
    let rules = band_rules();
    let r = build_rule_table(rules.clone());
    assert_eq!(r, Some(rules));
}

#[test]
fn build_rule_table_rejects_out_of_range_value() {
    let rules = vec![vec![0, 1], vec![2]];
    assert_eq!(build_rule_table(rules), None);
}

#[test]
fn new_cell_starts_unconstrained() {
    let c = new_cell(3, vec![0, 1, 2]);
    assert_eq!(c.id, 3);
    assert_eq!(c.domain, vec![0, 1, 2]);
    assert_eq!(c.collapsed_domain, None);
    assert!(!c.is_collapsed);
    assert!(!c.is_propagated);
}

#[test]
fn collapse_picks_a_candidate() {
    let mut c = new_cell(0, vec![2, 9, 4]);
    let r = c.collapse();
    assert!(r.is_ok());
    assert!(c.is_collapsed);
    assert!(c.is_propagated);
    assert_eq!(c.domain.len(), 1);
    let v = c.collapsed_domain.unwrap();
    assert_eq!(c.domain, vec![v]);
    assert!([2, 9, 4].contains(&v));
}

#[test]
fn collapse_reports_empty_domain() {
    let mut c = new_cell(7, vec![]);
    let r = c.collapse();
    assert_eq!(r, Err(WfcError::EmptyDomainCollapse(7)));
    assert!(!c.is_collapsed);
}

#[test]
fn fresh_grid_cells_are_fully_open() {
    let g = Grid::new(2, 3, band_rules());
    assert_eq!(g.rows, 2);
    assert_eq!(g.cols, 3);
    assert_eq!(g.total_cells, 6);
    assert_eq!(g.max_domains, 6);
    assert_eq!(g.cells.len(), 6);
    for (i, cell) in g.cells.iter().enumerate() {
        assert_eq!(cell.id, i);
        assert_eq!(cell.domain, vec![0, 1, 2, 3, 4, 5]);
        assert_eq!(cell.collapsed_domain, None);
        assert!(!cell.is_collapsed);
        assert!(!cell.is_propagated);
    }
    check_invariants(&g);
}

#[test]
fn adjacency_on_three_by_three() {
    let g = Grid::new(3, 3, band_rules());
    assert_eq!(sorted(g.generate_valid_neighbor_for_tile(4)), vec![1, 3, 5, 7]);
    assert_eq!(sorted(g.generate_valid_neighbor_for_tile(0)), vec![1, 3]);
    assert_eq!(sorted(g.generate_valid_neighbor_for_tile(2)), vec![1, 5]);
    assert_eq!(sorted(g.generate_valid_neighbor_for_tile(8)), vec![5, 7]);
    assert_eq!(sorted(g.generate_valid_neighbor_for_tile(3)), vec![0, 4, 6]);
}

#[test]
fn adjacency_never_crosses_a_row() {
    let g = Grid::new(4, 1, band_rules());
    assert_eq!(sorted(g.generate_valid_neighbor_for_tile(0)), vec![1]);
    assert_eq!(sorted(g.generate_valid_neighbor_for_tile(2)), vec![1, 3]);
    assert_eq!(sorted(g.generate_valid_neighbor_for_tile(3)), vec![2]);
}

#[test]
fn propagate_intersects_reachable_domains() {
    let mut g = Grid::new(3, 3, band_rules());
    g.cells[1] = collapsed_cell(1, 2);
    // Neighbors of 0 are 1 (now fixed at 2) and 3 (fully open): reachable
    // sets are {1, 2, 3} and everything, so 0 keeps exactly {1, 2, 3}.
    let unpropagated = g.propagate(0);
    assert_eq!(sorted(g.cells[0].domain.clone()), vec![1, 2, 3]);
    assert!(g.cells[0].is_propagated);
    assert!(!g.cells[0].is_collapsed);
    assert_eq!(sorted(unpropagated), vec![3]);
    check_invariants(&g);
}

#[test]
fn propagate_is_noop_on_collapsed_cell() {
    let mut g = Grid::new(3, 3, band_rules());
    g.cells[4] = collapsed_cell(4, 3);
    let unpropagated = g.propagate(4);
    assert!(unpropagated.is_empty());
    assert_eq!(g.cells[4].domain, vec![3]);
    assert_eq!(g.cells[4].collapsed_domain, Some(3));
}

#[test]
fn propagate_twice_is_idempotent() {
    let mut g = Grid::new(3, 3, band_rules());
    g.cells[1] = collapsed_cell(1, 4);
    let first = g.propagate(0);
    let domain_after_first = g.cells[0].domain.clone();
    let second = g.propagate(0);
    assert_eq!(g.cells[0].domain, domain_after_first);
    assert_eq!(sorted(first), sorted(second));
}

#[test]
fn propagate_to_contradiction_and_failing_collapse() {
    let mut g = Grid::new(3, 3, band_rules());
    // Force the two horizontal neighbors of the center to incompatible
    // collapsed values: 0 can only sit next to {0, 1}, 5 only next to
    // {4, 5}, so the center's propagated domain must come out empty.
    g.cells[3] = collapsed_cell(3, 0);
    g.cells[5] = collapsed_cell(5, 5);
    g.propagate(4);
    assert!(g.cells[4].domain.is_empty());
    let r = g.cells[4].collapse();
    assert_eq!(r, Err(WfcError::EmptyDomainCollapse(4)));
}

#[test]
fn propagate_neighbors_runs_the_wave() {
    let mut g = Grid::new(3, 3, band_rules());
    g.cells[4] = collapsed_cell(4, 0);
    g.propagate_neighbors(g.generate_valid_neighbor_for_tile(4));
    // The edge cells see the collapsed center: their domains shrink to
    // the band around 0; the wave reaches the corners through them.
    for &edge in &[1usize, 3, 5, 7] {
        assert_eq!(sorted(g.cells[edge].domain.clone()), vec![0, 1]);
        assert!(g.cells[edge].is_propagated);
    }
    for &corner in &[0usize, 2, 6, 8] {
        assert_eq!(sorted(g.cells[corner].domain.clone()), vec![0, 1, 2]);
        assert!(g.cells[corner].is_propagated);
    }
    check_invariants(&g);
}

#[test]
fn build_collapses_connected_grid() {
    let mut g = Grid::new(3, 3, band_rules());
    let r = g.build(4);
    assert!(r.is_ok());
    assert!(g.cells[4].is_collapsed);
    check_invariants(&g);
}

#[test]
fn collapse_remaining_collapses_every_cell() {
    let mut g = Grid::new(4, 4, band_rules());
    let r = g.collapse_remaining();
    assert!(r.is_ok());
    for cell in &g.cells {
        assert!(cell.is_collapsed);
    }
    check_invariants(&g);
}

#[test]
fn merge_places_subgrid_and_leaves_border_open() {
    let values = vec![0, 1, 2, 1, 2, 3, 2, 3, 4];
    let mut sub = Grid::new(3, 3, band_rules());
    for i in 0..9 {
        sub.cells[i] = collapsed_cell(i, values[i]);
    }
    let mut g = Grid::new(5, 5, band_rules());
    g.merge(sub, 1, 1);
    check_invariants(&g);
    for r in 0..3 {
        for c in 0..3 {
            let t = (r + 1) * 5 + (c + 1);
            assert!(g.cells[t].is_collapsed);
            assert_eq!(g.cells[t].collapsed_domain, Some(values[r * 3 + c]));
            assert_eq!(g.cells[t].id, t);
        }
    }
    for t in 0..25 {
        let (tr, tc) = (t / 5, t % 5);
        if tr == 0 || tr == 4 || tc == 0 || tc == 4 {
            assert!(!g.cells[t].is_collapsed);
            assert_eq!(g.cells[t].domain, vec![0, 1, 2, 3, 4, 5]);
        }
    }
}

#[test]
fn merge_skips_cells_landing_out_of_bounds() {
    let mut sub = Grid::new(2, 2, band_rules());
    for i in 0..4 {
        sub.cells[i] = collapsed_cell(i, 1);
    }
    let mut g = Grid::new(3, 3, band_rules());
    g.merge(sub, 2, 2);
    // Only the subgrid's top-left cell lands inside the 3x3 grid.
    assert!(g.cells[8].is_collapsed);
    for t in 0..8 {
        assert!(!g.cells[t].is_collapsed);
    }
}

#[test]
fn range_extracts_window() {
    let mut g = Grid::new(3, 3, band_rules());
    for i in 0..9 {
        g.cells[i] = collapsed_cell(i, i % 6);
    }
    let w = g.range(1, 1, 2, 2).unwrap();
    assert_eq!(w.rows, 2);
    assert_eq!(w.cols, 2);
    let expect = vec![4 % 6, 5 % 6, 7 % 6, 8 % 6];
    for i in 0..4 {
        assert_eq!(w.cells[i].collapsed_domain, Some(expect[i]));
    }
}

#[test]
fn range_rejects_window_beyond_extent() {
    let g = Grid::new(3, 3, band_rules());
    assert_eq!(g.range(2, 0, 2, 3).err(), Some(WfcError::OutOfBoundsRequest));
    assert_eq!(g.range(0, 1, 3, 3).err(), Some(WfcError::OutOfBoundsRequest));
    assert!(g.range(0, 0, 3, 3).is_ok());
}

#[test]
fn range_after_merge_round_trips() {
    let values = vec![5, 4, 3, 4, 3, 2, 3, 2, 1];
    let mut sub = Grid::new(3, 3, band_rules());
    for i in 0..9 {
        sub.cells[i] = collapsed_cell(i, values[i]);
    }
    let saved = sub.clone();
    let mut g = Grid::new(5, 5, band_rules());
    g.merge(sub, 1, 1);
    let back = g.range(1, 1, 3, 3).unwrap();
    for i in 0..9 {
        assert_eq!(back.cells[i].domain, saved.cells[i].domain);
        assert_eq!(back.cells[i].collapsed_domain, saved.cells[i].collapsed_domain);
        assert_eq!(back.cells[i].is_collapsed, saved.cells[i].is_collapsed);
        assert_eq!(back.cells[i].is_propagated, saved.cells[i].is_propagated);
        // ids are renumbered to the merged positions
        assert_eq!(back.cells[i].id, (i / 3 + 1) * 5 + (i % 3 + 1));
    }
}

#[test]
fn accessors_report_cell_state() {
    let mut g = Grid::new(2, 2, band_rules());
    g.cells[2] = collapsed_cell(2, 3);
    assert_eq!(g.collapsed_value(2), Some(3));
    assert_eq!(g.collapsed_value(0), None);
    assert_eq!(g.domain_values(2), vec![3]);
    assert_eq!(g.domain_values(1), vec![0, 1, 2, 3, 4, 5]);
}
