use photonical::network::rebuild_networks;

fn grid(w: usize, h: usize, placed: &[(usize, usize, u32)]) -> Vec<Option<u32>> {
    let mut cells = vec![None; w * h];
    for &(x, y, slot) in placed {
        cells[y * w + x] = Some(slot);
    }
    cells
}

#[test]
fn adjacent_blocks_of_one_wavelength_share_a_network() {
    let cells = grid(4, 1, &[(0, 0, 0), (1, 0, 1)]);
    let nodes = vec![Some(7), Some(7)];
    let nets = rebuild_networks(4, 1, &cells, &nodes, 3);
    assert_eq!(nets, vec![Some(0), Some(0)]);
}

#[test]
fn different_wavelengths_stay_apart() {
    let cells = grid(4, 1, &[(0, 0, 0), (1, 0, 1)]);
    let nodes = vec![Some(7), Some(8)];
    let nets = rebuild_networks(4, 1, &cells, &nodes, 3);
    assert_eq!(nets, vec![Some(0), Some(1)]);
}

#[test]
fn beam_reach_is_limited_by_radius() {
    // two empty cells lie between the blocks
    let cells = grid(4, 1, &[(0, 0, 0), (3, 0, 1)]);
    let nodes = vec![Some(5), Some(5)];
    assert_eq!(rebuild_networks(4, 1, &cells, &nodes, 2), vec![Some(0), Some(1)]);
    assert_eq!(rebuild_networks(4, 1, &cells, &nodes, 3), vec![Some(0), Some(0)]);
}

#[test]
fn zero_radius_links_nothing() {
    let cells = grid(2, 1, &[(0, 0, 0), (1, 0, 1)]);
    let nodes = vec![Some(5), Some(5)];
    assert_eq!(rebuild_networks(2, 1, &cells, &nodes, 0), vec![Some(0), Some(1)]);
}

#[test]
fn a_block_of_another_wavelength_blocks_the_beam() {
    let cells = grid(3, 1, &[(0, 0, 0), (1, 0, 1), (2, 0, 2)]);
    let nodes = vec![Some(1), Some(2), Some(1)];
    assert_eq!(rebuild_networks(3, 1, &cells, &nodes, 5), vec![Some(0), Some(1), Some(2)]);
}

#[test]
fn blocks_outside_networks_let_beams_through() {
    let cells = grid(3, 1, &[(0, 0, 0), (1, 0, 1), (2, 0, 2)]);
    let nodes = vec![Some(1), None, Some(1)];
    assert_eq!(rebuild_networks(3, 1, &cells, &nodes, 5), vec![Some(0), None, Some(0)]);
}

#[test]
fn links_chain_into_one_network() {
    // 0 - 1 vertically, 1 - 2 horizontally; 3 is alone
    let cells = grid(3, 3, &[(0, 0, 0), (0, 2, 1), (2, 2, 2), (2, 0, 3)]);
    let nodes = vec![Some(4), Some(4), Some(4), Some(9)];
    let nets = rebuild_networks(3, 3, &cells, &nodes, 2);
    assert_eq!(nets, vec![Some(0), Some(0), Some(0), Some(1)]);
}

#[test]
fn large_blocks_link_from_every_cell() {
    // slot 0 covers a 2x2 square; slot 1 sits right of its lower row
    let cells = grid(4, 2, &[(0, 0, 0), (1, 0, 0), (0, 1, 0), (1, 1, 0), (3, 1, 1)]);
    let nodes = vec![Some(2), Some(2)];
    assert_eq!(rebuild_networks(4, 2, &cells, &nodes, 1), vec![Some(0), Some(1)]);
    assert_eq!(rebuild_networks(4, 2, &cells, &nodes, 2), vec![Some(0), Some(0)]);
}

#[test]
fn slots_without_cells_or_wavelength_get_no_network() {
    let cells = grid(2, 1, &[(0, 0, 1)]);
    let nodes = vec![Some(3), Some(3), None];
    assert_eq!(rebuild_networks(2, 1, &cells, &nodes, 4), vec![None, Some(0), None]);
}

#[test]
fn ids_follow_slot_order() {
    let cells = grid(5, 1, &[(0, 0, 2), (2, 0, 0), (4, 0, 1)]);
    let nodes = vec![Some(1), Some(1), Some(6)];
    // with radius 1 no beam crosses the empty cells; with radius 2 slot 2
    // reaches slot 0 but has another wavelength
    let nets = rebuild_networks(5, 1, &cells, &nodes, 1);
    assert_eq!(nets, vec![Some(0), Some(1), Some(2)]);
    let nets = rebuild_networks(5, 1, &cells, &nodes, 2);
    assert_eq!(nets, vec![Some(0), Some(0), Some(1)]);
}

#[test]
fn empty_world_has_no_networks() {
    let cells = grid(3, 3, &[]);
    let nodes: Vec<Option<u32>> = vec![];
    assert_eq!(rebuild_networks(3, 3, &cells, &nodes, 4), Vec::<Option<u32>>::new());
}

#[test]
fn each_network_has_one_wavelength() {
    let cells = grid(
        5,
        5,
        &[(0, 0, 0), (2, 0, 1), (4, 0, 2), (0, 2, 3), (2, 2, 4), (4, 4, 5), (1, 4, 6)],
    );
    let nodes = vec![Some(3), Some(3), Some(6), Some(6), Some(3), Some(6), Some(3)];
    let nets = rebuild_networks(5, 5, &cells, &nodes, 4);
    for a in 0..nodes.len() {
        for b in 0..nodes.len() {
            if nets[a] == nets[b] {
                assert_eq!(nodes[a], nodes[b]);
            }
        }
    }
}
