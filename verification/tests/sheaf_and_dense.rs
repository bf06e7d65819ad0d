use novel_quantum_structures::dense::{flat_index, index_digits, strides, total_dim};
use novel_quantum_structures::sheaf::{deinterleave_choi, split_groups, uniform_partition, LayerStats};
use novel_quantum_structures::zigzag;

#[test]
fn uniform_partition_of_the_diamond() {
    let profile = zigzag::diamond(2, 5);
    let (sizes, groups) = uniform_partition(&profile, 2);
    assert_eq!(sizes, vec![2, 2, 2, 1]);
    assert_eq!(groups, vec![vec![2, 3], vec![4, 5], vec![4, 3], vec![2]]);
    let fused: Vec<usize> = groups.iter().map(|g| g.iter().product()).collect();
    assert_eq!(fused, vec![6, 20, 12, 2]);
    let (sizes3, groups3) = uniform_partition(&profile, 3);
    assert_eq!(sizes3, vec![3, 3, 1]);
    assert_eq!(groups3.concat(), profile);
    let (big, g) = uniform_partition(&profile, 100);
    assert_eq!(big, vec![7]);
    assert_eq!(g, vec![profile.clone()]);
    let (none, empty) = uniform_partition(&[], 2);
    assert!(none.is_empty() && empty.is_empty());
}

#[test]
fn split_groups_follows_sizes() {
    let groups = split_groups(&[2, 3, 4, 5, 6], &[1, 3, 1]);
    assert_eq!(groups, vec![vec![2], vec![3, 4, 5], vec![6]]);
}

#[test]
fn deinterleaving_regroups_out_and_in_legs() {
    // Group (2, 3): interleaved radices (2, 2, 3, 3).
    // idx = ((o0·2 + i0)·3 + o1)·3 + i1.
    let group = [2usize, 3];
    for o0 in 0..2 {
        for i0 in 0..2 {
            for o1 in 0..3 {
                for i1 in 0..3 {
                    let idx = ((o0 * 2 + i0) * 3 + o1) * 3 + i1;
                    let (out, inn) = deinterleave_choi(idx, &group);
                    assert_eq!(out, o0 * 3 + o1);
                    assert_eq!(inn, i0 * 3 + i1);
                }
            }
        }
    }
    assert_eq!(deinterleave_choi(0, &[]), (0, 0));
}

#[test]
fn layer_stats_summarise_dims() {
    let st = LayerStats::new(vec![6, 20, 12, 2], 8, 100);
    assert_eq!(st.num_sites, 4);
    assert_eq!(st.max_local_dim, 20);
    assert_eq!(st.max_bond, 8);
    assert_eq!(st.state_params, 100);
    assert_eq!(LayerStats::new(vec![], 1, 0).max_local_dim, 1);
}

#[test]
fn dense_index_arithmetic() {
    let dims = [2usize, 3, 4];
    assert_eq!(total_dim(&dims), 24);
    assert_eq!(total_dim(&[]), 1);
    assert_eq!(strides(&dims), vec![12, 4, 1]);
    assert_eq!(strides(&[]), Vec::<usize>::new());
    assert_eq!(flat_index(&dims, &[1, 2, 3]), 23);
    assert_eq!(flat_index(&dims, &[1, 0, 2]), 14);
    for idx in 0..24 {
        let ds = index_digits(&dims, idx);
        assert_eq!(flat_index(&dims, &ds), idx);
        let st = strides(&dims);
        let via_strides: usize = ds.iter().zip(&st).map(|(x, s)| x * s).sum();
        assert_eq!(via_strides, idx);
    }
    assert_eq!(index_digits(&dims, 14), vec![1, 0, 2]);
}

#[test]
fn strides_form_only_the_products_right_of_each_site() {
    // The full product of these dimensions overflows; the strides do not.
    assert_eq!(strides(&[3, 1 << 63]), vec![1 << 63, 1]);
}
