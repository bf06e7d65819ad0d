use novel_quantum_structures::network::{bundle, overlay, wave_weave, weave, Network};
use novel_quantum_structures::zigzag;

fn crossings(net: &Network, edges: &[((usize, usize), (usize, usize))], cut: usize) -> usize {
    edges
        .iter()
        .filter(|&&(a, b)| {
            let (pa, pb) = (net.global(a.0, a.1), net.global(b.0, b.1));
            (pa <= cut) != (pb <= cut)
        })
        .count()
}

#[test]
fn network_positions_invert_the_order() {
    let strands = vec![vec![2, 3], vec![4]];
    let order = vec![(1, 0), (0, 1), (0, 0)];
    let net = Network::new(strands, order);
    assert_eq!(net.len(), 3);
    assert!(!net.is_empty());
    assert_eq!(net.dims(), vec![4, 3, 2]);
    assert_eq!(net.global(1, 0), 0);
    assert_eq!(net.global(0, 1), 1);
    assert_eq!(net.global(0, 0), 2);
    assert_eq!(net.dim((0, 1)), 3);
}

#[test]
fn bundle_rungs_are_contiguous() {
    let (net, rungs) = bundle(&zigzag::diamond(1, 3), 3);
    assert_eq!(net.len(), 15);
    // Sites of dimension 1 carry no rung.
    assert_eq!(rungs.len(), 3);
    for rung in &rungs {
        let mut ps: Vec<usize> = rung.iter().map(|&(s, i)| net.global(s, i)).collect();
        ps.sort();
        assert_eq!(ps[ps.len() - 1] - ps[0], ps.len() - 1);
    }
    assert_eq!(net.dims(), vec![1, 1, 1, 2, 2, 2, 3, 3, 3, 2, 2, 2, 1, 1, 1]);
}

#[test]
fn overlay_cuts_cross_at_most_two_edges() {
    let profile = zigzag::diamond(2, 5);
    let (net, edges) = overlay(&profile);
    assert_eq!(net.len(), 14);
    let worst = (0..net.len() - 1).map(|c| crossings(&net, &edges, c)).max().unwrap();
    assert_eq!(worst, 2);
}

#[test]
fn weave_counts_lattice_edges() {
    let (net, edges) = weave(2, 3, 4);
    assert_eq!(net.len(), 12);
    // 3 rows × 3 along-edges + 4 columns × 2 across-edges.
    assert_eq!(edges.len(), 3 * 3 + 4 * 2);
    // Column boundaries are crossed by exactly one edge per row.
    for c in [2usize, 5, 8] {
        assert_eq!(crossings(&net, &edges, c), 3);
    }
}

#[test]
fn wave_weave_drops_trivial_sites() {
    let profile = zigzag::diamond(1, 3); // [1, 2, 3, 2, 1]
    let (net, edges) = wave_weave(&profile, 2);
    assert_eq!(net.len(), 10);
    for &(a, b) in &edges {
        assert!(net.dim(a) > 1 && net.dim(b) > 1);
    }
    // Along-wave edges between the three non-trivial columns, per row, plus
    // one across edge per non-trivial column.
    assert_eq!(edges.len(), 2 * 2 + 3);
}

#[test]
fn wave_weave_column_cuts_follow_the_profile() {
    let profile = zigzag::diamond(1, 3); // [1, 2, 3, 2, 1]
    let rows = 3;
    let (net, edges) = wave_weave(&profile, rows);
    let cuts: Vec<usize> = (0..profile.len() - 1)
        .map(|c| crossings(&net, &edges, (c + 1) * rows - 1))
        .collect();
    assert_eq!(cuts, vec![0, 3, 3, 0]);
}
