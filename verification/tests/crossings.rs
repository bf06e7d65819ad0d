use novel_quantum_structures::crossing::{Crossing, Layout};
use novel_quantum_structures::zigzag;

#[test]
fn interleaved_couplings_are_nearest_neighbour() {
    // Every crossing pair is adjacent in interleaved layout — the reason it
    // is cheap (no long-range threading).
    let xi = Crossing::twin(&zigzag::diamond(1, 5), true).with_layout(Layout::Interleaved);
    for (ga, gb, _) in xi.pairs() {
        assert_eq!(ga.abs_diff(gb), 1, "pair {}~{} not adjacent", ga, gb);
    }
}

#[test]
fn block_layout_pairs_and_cut() {
    let x = Crossing::twin(&[2, 3, 4], true);
    assert_eq!(x.n(), 3);
    assert_eq!(x.dims(), vec![2, 3, 4, 2, 3, 4]);
    assert_eq!(x.ab_cut(), 2);
    // Antiparallel: A[i] ~ B[2-i]; only the middle pair has equal dims.
    assert_eq!(x.pairs(), vec![(1, 4, 3)]);
    let ladder = Crossing::twin(&[2, 3, 4], false);
    assert_eq!(ladder.pairs(), vec![(0, 3, 2), (1, 4, 3), (2, 5, 4)]);
}

#[test]
fn interleaved_layout_places_partners_side_by_side() {
    let x = Crossing::new(&[2, 3, 4], &[4, 3, 2], true).with_layout(Layout::Interleaved);
    assert_eq!(x.ga(0), 0);
    assert_eq!(x.gb(2), 1);
    assert_eq!(x.gb(0), 5);
    assert_eq!(x.dims(), vec![2, 2, 3, 3, 4, 4]);
    assert_eq!(x.pairs(), vec![(0, 1, 2), (2, 3, 3), (4, 5, 4)]);
}

#[test]
fn bell_rank_is_the_product_of_active_pairs() {
    let xb = Crossing::twin(&zigzag::diamond(1, 4), true);
    assert_eq!(xb.bell_rank(&[1, 2, 3, 4]), 144);
    assert_eq!(xb.pairs_at(&[4]), vec![(3, 10, 4)]);
    assert_eq!(xb.bell_rank(&[4]), 4);
    assert_eq!(xb.bell_rank(&[2, 3]), 36);
    assert_eq!(xb.bell_rank(&[]), 1);
}
