use hexgrid::{Grid, Hex};

fn edges_of(g: &Grid, q: i32, r: i32) -> [u8; 6] {
    g.get_hex(q, r).unwrap().active_edges
}

fn coords(g: &Grid) -> Vec<(i32, i32, i32)> {
    g.get_all_hexes().iter().map(|h| (h.q, h.r, h.s)).collect()
}

#[test]
fn generate_radius_zero() {
    let g = Grid::new(0);
    assert_eq!(g.radius(), 0);
    let all = g.get_all_hexes();
    assert_eq!(all.len(), 1);
    assert_eq!((all[0].q, all[0].r, all[0].s), (0, 0, 0));
}

#[test]
fn generate_radius_one_exact_cells() {
    let g = Grid::new(1);
    let mut cs = coords(&g);
    cs.sort();
    let mut expected = vec![
        (-1, 0, 1),
        (-1, 1, 0),
        (0, -1, 1),
        (0, 0, 0),
        (0, 1, -1),
        (1, -1, 0),
        (1, 0, -1),
    ];
    expected.sort();
    assert_eq!(cs, expected);
}

#[test]
fn generate_cell_count_and_invariants() {
    for radius in 0..6i32 {
        let g = Grid::new(radius);
        let all = g.get_all_hexes();
        assert_eq!(all.len() as i32, 3 * radius * radius + 3 * radius + 1);
        for h in &all {
            assert_eq!(h.q + h.r + h.s, 0);
            assert!(h.q.abs().max(h.r.abs()).max(h.s.abs()) <= radius);
            assert_eq!(h.active, 0);
            assert_eq!(h.target_count, None);
            assert!(!h.show_number);
            assert_eq!(h.active_edges, [0u8; 6]);
        }
    }
}

#[test]
fn get_hex_present_and_absent() {
    let g = Grid::new(1);
    let h = g.get_hex(1, -1).unwrap();
    assert_eq!((h.q, h.r, h.s), (1, -1, 0));
    assert!(g.get_hex(2, 0).is_none());
    assert!(g.get_hex(1, 1).is_none());
}

#[test]
fn get_neighbor_follows_direction_table() {
    let g = Grid::new(1);
    let table = [(1, 0), (0, 1), (-1, 1), (-1, 0), (0, -1), (1, -1)];
    for d in 0..6usize {
        let n = g.get_neighbor(0, 0, d).unwrap();
        assert_eq!((n.q, n.r), table[d]);
    }
    assert!(g.get_neighbor(1, 0, 0).is_none());
}

#[test]
fn set_hex_active_writes_region() {
    let mut g = Grid::new(1);
    g.set_hex_active(0, 1, 2);
    assert_eq!(g.get_hex(0, 1).unwrap().active, 2);
    g.set_hex_active(0, 1, 1);
    assert_eq!(g.get_hex(0, 1).unwrap().active, 1);
}

#[test]
fn set_hex_active_never_touches_edges() {
    let mut g = Grid::new(1);
    g.set_edge_state(0, 0, 0, 1);
    let before: Vec<Hex> = g.get_all_hexes();
    g.set_hex_active(0, 0, 1);
    g.set_hex_active(1, 0, 2);
    let after = g.get_all_hexes();
    for (a, b) in before.iter().zip(after.iter()) {
        assert_eq!(a.active_edges, b.active_edges);
        assert_eq!((a.q, a.r, a.s), (b.q, b.r, b.s));
        assert_eq!(a.target_count, b.target_count);
        assert_eq!(a.show_number, b.show_number);
    }
}

#[test]
fn set_hex_active_absent_is_noop() {
    let mut g = Grid::new(1);
    let before = g.get_all_hexes();
    g.set_hex_active(5, 5, 1);
    assert_eq!(before, g.get_all_hexes());
}

#[test]
fn edge_write_mirrors_onto_neighbor() {
    let mut g = Grid::new(1);
    g.set_edge_state(0, 0, 0, 1);
    assert_eq!(edges_of(&g, 0, 0)[0], 1);
    assert_eq!(edges_of(&g, 1, 0)[3], 1);
    let mut g2 = Grid::new(1);
    g2.set_edge_state(-1, 1, 2, 2);
    assert!(g2.get_hex(-2, 2).is_none());
    assert_eq!(edges_of(&g2, -1, 1)[2], 2);
}

#[test]
fn edge_write_absent_is_noop() {
    let mut g = Grid::new(1);
    let before = g.get_all_hexes();
    g.set_edge_state(3, 3, 0, 1);
    assert_eq!(before, g.get_all_hexes());
}

#[test]
fn edge_write_idempotent() {
    let mut g = Grid::new(2);
    g.set_edge_state(0, 0, 5, 1);
    g.set_edge_state(0, 0, 0, 1);
    let once = g.get_all_hexes();
    g.set_edge_state(0, 0, 0, 1);
    assert_eq!(once, g.get_all_hexes());
    g.set_edge_state(0, 0, 5, 1);
    assert_eq!(once, g.get_all_hexes());
}

#[test]
fn resolution_two_active_forces_third_off() {
    let mut g = Grid::new(1);
    g.set_edge_state(0, 0, 5, 1);
    g.set_edge_state(0, 0, 0, 1);
    assert_eq!(edges_of(&g, 0, 0)[5], 1);
    assert_eq!(edges_of(&g, 0, 0)[0], 1);
    assert_eq!(edges_of(&g, 1, -1)[1], 3);
    assert_eq!(edges_of(&g, 1, 0)[4], 3);
}

#[test]
fn resolution_two_inactive_forces_third_off() {
    let mut g = Grid::new(1);
    g.set_edge_state(0, 0, 5, 2);
    g.set_edge_state(0, 0, 0, 2);
    assert_eq!(edges_of(&g, 1, -1)[1], 3);
    assert_eq!(edges_of(&g, 1, 0)[4], 3);
}

#[test]
fn resolution_forced_off_and_inactive_force_third_off() {
    let mut g = Grid::new(1);
    g.set_edge_state(0, 0, 5, 3);
    g.set_edge_state(0, 0, 0, 2);
    assert_eq!(edges_of(&g, 1, -1)[1], 3);
    assert_eq!(edges_of(&g, 1, 0)[4], 3);
}

#[test]
fn resolution_disagreement_changes_nothing() {
    let mut g = Grid::new(1);
    g.set_edge_state(0, 0, 5, 1);
    g.set_edge_state(0, 0, 0, 2);
    assert_eq!(edges_of(&g, 1, -1)[1], 0);
    assert_eq!(edges_of(&g, 0, 0)[5], 1);
    assert_eq!(edges_of(&g, 0, 0)[0], 2);
}

#[test]
fn boundary_counts_as_determined_off() {
    // On a single-cell board every third edge is missing and counts as
    // ForcedOff, so one Inactive edge cascades all the way around the hex.
    let mut g = Grid::new(0);
    g.set_edge_state(0, 0, 5, 2);
    assert_eq!(edges_of(&g, 0, 0), [3, 3, 3, 3, 3, 2]);
}

#[test]
fn cascade_terminates_on_radius_eight() {
    let mut g = Grid::new(8);
    for d in 0..6usize {
        g.set_edge_state(8, -4, d, 2);
    }
    for q in -8..=8i32 {
        g.set_edge_state(q, 0, 1, 1);
        g.set_edge_state(q, 0, 4, 1);
    }
    g.set_edge_state(0, -8, 0, 2);
    g.set_edge_state(0, 8, 3, 2);
    assert_eq!(g.get_all_hexes().len(), 217);
}

#[test]
fn load_binary_map_decodes_fields() {
    let mut g = Grid::new(0);
    // radius 1; cells in generation order:
    // (-1,0) (-1,1) (0,-1) (0,0) (0,1) (1,-1) (1,0)
    let data: Vec<u8> = vec![1, 1, 6, 31, 16, 5, 10, 19];
    g.load_binary_map(&data);
    assert_eq!(g.radius(), 1);
    let all = g.get_all_hexes();
    assert_eq!(all.len(), 7);
    let expected = [
        (1u8, 0u8, false),
        (2, 3, false),
        (1, 7, true),
        (2, 0, true),
        (1, 2, false),
        (2, 5, false),
        (1, 1, true),
    ];
    for (h, &(active, count, show)) in all.iter().zip(expected.iter()) {
        assert_eq!(h.active, active);
        assert_eq!(h.target_count, Some(count));
        assert_eq!(h.show_number, show);
        assert_eq!(h.active_edges, [0u8; 6]);
    }
}

#[test]
fn load_binary_map_round_trip() {
    let mut g = Grid::new(0);
    let data: Vec<u8> = vec![1, 1, 6, 31, 16, 5, 10, 19];
    g.load_binary_map(&data);
    // re-encode the loaded board and expect the original bytes back
    let mut encoded: Vec<u8> = vec![g.radius() as u8];
    for h in g.get_all_hexes() {
        let bit = if h.active == 1 { 1u8 } else { 0u8 };
        let count = h.target_count.unwrap();
        let show = if h.show_number { 16u8 } else { 0u8 };
        encoded.push(bit | (count << 1) | show);
    }
    assert_eq!(encoded, data);
}

#[test]
fn load_binary_map_truncated_keeps_defaults() {
    let mut g = Grid::new(1);
    g.set_edge_state(0, 0, 0, 1);
    g.set_hex_active(0, 0, 1);
    // radius 2 has 19 cells but only 3 cell bytes follow
    let data: Vec<u8> = vec![2, 3, 17, 4];
    g.load_binary_map(&data);
    assert_eq!(g.radius(), 2);
    let all = g.get_all_hexes();
    assert_eq!(all.len(), 19);
    assert_eq!(all[0].active, 1);
    assert_eq!(all[0].target_count, Some(1));
    assert!(!all[0].show_number);
    assert_eq!(all[1].active, 1);
    assert_eq!(all[1].target_count, Some(0));
    assert!(all[1].show_number);
    assert_eq!(all[2].active, 2);
    assert_eq!(all[2].target_count, Some(2));
    for h in &all[3..] {
        assert_eq!(h.active, 0);
        assert_eq!(h.target_count, None);
        assert!(!h.show_number);
    }
    for h in &all {
        assert_eq!(h.active_edges, [0u8; 6]);
    }
}

#[test]
fn load_binary_map_replaces_radius() {
    let mut g = Grid::new(3);
    assert_eq!(g.get_all_hexes().len(), 37);
    let data: Vec<u8> = vec![1];
    g.load_binary_map(&data);
    assert_eq!(g.radius(), 1);
    let all = g.get_all_hexes();
    assert_eq!(all.len(), 7);
    for h in &all {
        assert_eq!(h.active, 0);
        assert_eq!(h.target_count, None);
    }
}

#[test]
fn check_vertex_leaves_ambiguous_vertex_alone() {
    // all three edges of every vertex are Neutral, so no corner may fire
    let mut g = Grid::new(1);
    let before = g.get_all_hexes();
    for corner in 0..6usize {
        g.check_vertex(0, 0, corner);
    }
    assert_eq!(before, g.get_all_hexes());
}

#[test]
fn get_neighbor_at_extreme_coordinates() {
    let g = Grid::new(1);
    assert!(g.get_neighbor(i32::MAX, 0, 0).is_none());
    assert!(g.get_neighbor(i32::MIN, i32::MIN, 3).is_none());
    assert!(g.get_hex(i32::MAX, i32::MIN).is_none());
}
