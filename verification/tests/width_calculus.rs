use novel_quantum_structures::cut_rank::perm_cut_gram;
use novel_quantum_structures::width::{
    foreign_mult, mult_cut_width, mult_width_profile, perm_cut_keys, profile_cuts, Width,
};
use novel_quantum_structures::zigzag;
use std::collections::HashSet;

/// Direct enumeration, used to pin the closed-form branch.
fn enumerated(k: u128, l: u128, s: u128) -> u128 {
    let k = k % (l * s);
    let mut seen: HashSet<u128> = HashSet::new();
    for b in 0..s {
        seen.insert((k * b / s) % l);
    }
    seen.len() as u128
}

fn mod_inverse(k: u128, n: u128) -> u128 {
    let (mut old_r, mut r) = (k as i128, n as i128);
    let (mut old_s, mut s) = (1i128, 0i128);
    while r != 0 {
        let q = old_r / r;
        (old_r, r) = (r, old_r - q * r);
        (old_s, s) = (s, old_s - q * s);
    }
    assert_eq!(old_r, 1, "gcd(k, n) must be 1");
    old_s.rem_euclid(n as i128) as u128
}

#[test]
fn closed_form_matches_enumeration_when_k_is_small() {
    for l in [2u128, 6, 24, 120] {
        for s in [6u128, 24, 120] {
            for k in [1u128, 2, 3, 5, s - 1, s] {
                assert_eq!(
                    mult_cut_width(k, l, s).value(),
                    enumerated(k, l, s),
                    "k={} l={} s={}",
                    k,
                    l,
                    s
                );
            }
        }
    }
}

#[test]
fn known_resonances_at_the_diamond_waist() {
    // (L, S) = (24, 120): the waist cut of diamond(2, 5); widths 7 → 24 → 6 → 3
    // along the squaring orbit of 7, and 7 for the inverse multiplier 823.
    for (k, expect) in [(7u128, 7u128), (49, 24), (2401, 6), (1921, 3), (823, 7)] {
        let w = mult_cut_width(k, 24, 120);
        assert!(w.is_exact());
        assert_eq!(w.value(), expect, "k={}", k);
    }
}

#[test]
fn width_is_symmetric_under_inversion() {
    // rank(A) = rank(A†) and M_k† = M_{k⁻¹}: the count must agree.
    let n = 2880u128;
    for k in [7u128, 11, 49, 121, 823, 2401] {
        let ki = mod_inverse(k, n);
        assert_eq!(
            mult_cut_width(k, 24, 120).value(),
            mult_cut_width(ki, 24, 120).value(),
            "k={} k⁻¹={}",
            k,
            ki
        );
    }
}

#[test]
fn reduction_mod_n_is_sound() {
    // c(b) changes by L·b ≡ 0 (mod L) when k gains a multiple of N.
    for k in [5u128, 49, 823] {
        assert_eq!(
            mult_cut_width(k, 24, 120).value(),
            mult_cut_width(k + 2880, 24, 120).value()
        );
    }
}

#[test]
fn enumeration_branch_matches_direct_count_for_large_k() {
    for (k, l, s) in [(49u128, 24u128, 120u128), (2401, 24, 120), (131, 6, 20), (1000, 7, 11)] {
        let w = mult_cut_width(k, l, s);
        assert!(w.is_exact());
        assert_eq!(w.value(), enumerated(k, l, s), "k={} l={} s={}", k, l, s);
    }
}

#[test]
fn counts_stay_exact_where_k_times_s_exceeds_the_word() {
    // Here k·(s−1) > u128::MAX although N = l·s fits.
    let l = 1u128 << 118;
    let s = 1000u128;
    for (k, expected) in [(250 * l, 4u128), (250 * l + 1, 4), (125 * l + 7, 56)] {
        assert!(k.checked_mul(s - 1).is_none());
        assert_eq!(mult_cut_width(k, l, s), Width::Exact(expected));
    }
    let ws = mult_width_profile(&[1 << 59, 1 << 59, 1000], 250 * l);
    assert_eq!(ws[1], Width::Exact(4));
}

#[test]
fn single_site_profiles_have_no_bonds() {
    assert!(mult_width_profile(&[0], 5).is_empty());
    assert!(mult_width_profile(&[7], 5).is_empty());
}

#[test]
fn multiples_of_the_ring_are_the_identity() {
    assert_eq!(mult_cut_width(0, 24, 120), Width::Exact(1));
    assert_eq!(mult_cut_width(2880, 24, 120), Width::Exact(1));
}

#[test]
fn huge_unenumerable_cuts_report_the_bound() {
    let s = 10_000_000u128;
    let w = mult_cut_width(s + 12_345, 5, s);
    assert_eq!(w, Width::UpperBound(5));
    assert!(!w.is_exact());
    assert_eq!(w.value(), 5);
}

#[test]
fn width_text_marks_bounds() {
    assert_eq!(Width::Exact(24).to_string(), "24");
    assert_eq!(Width::Exact(0).to_string(), "0");
    assert_eq!(Width::UpperBound(1234567).to_string(), "≤1234567");
    assert_eq!(Width::Exact(u128::MAX).to_string(), u128::MAX.to_string());
}

#[test]
fn width_profile_of_the_diamond() {
    let profile = zigzag::diamond(2, 4);
    let ws: Vec<u128> = mult_width_profile(&profile, 7).iter().map(|w| w.value()).collect();
    assert_eq!(ws, vec![2, 6, 6, 2]);
    let ws49: Vec<u128> = mult_width_profile(&profile, 49).iter().map(|w| w.value()).collect();
    assert_eq!(ws49, vec![2, 3, 3, 2]);
    assert!(mult_width_profile(&[5], 3).is_empty());
}

#[test]
fn foreign_multiplier_permutes_the_ring() {
    let f = foreign_mult(100, 7, 97);
    let mut seen = vec![false; 100];
    for x in 0..100 {
        let y = f.apply(x);
        assert!(!seen[y]);
        seen[y] = true;
    }
    assert_eq!(f.apply(1), 7);
    assert_eq!(f.apply(14), 1);
    assert_eq!(f.apply(98), 98);
}

#[test]
fn cut_keys_detect_non_permutations() {
    assert!(perm_cut_keys(2, 3, &[0, 1, 2, 3, 4, 4]).is_none());
    assert!(perm_cut_keys(2, 3, &[0, 1, 2, 3, 4, 6]).is_none());
    assert!(perm_cut_keys(2, 3, &[0, 1, 2, 3, 4]).is_none());
    let keys = perm_cut_keys(2, 3, &[0, 1, 2, 3, 4, 5]).unwrap();
    // Identity: x = a·3 + b ↦ itself; small side (l = 2) key a·2 + a.
    assert_eq!(keys, vec![(0, 0), (0, 4), (0, 8), (3, 0), (3, 4), (3, 8)]);
}

#[test]
fn gram_of_the_identity_and_of_the_swap() {
    // Identity on 2 × 3: two rows (small keys 0 and 3), every large key
    // shared by one transition of each, so G is the all-threes 2 × 2.
    assert_eq!(perm_cut_gram(2, 3, &[0, 1, 2, 3, 4, 5]), Some(vec![vec![3, 3], vec![3, 3]]));
    // The swap of two qubits: four rows, no large key shared, G = 1.
    let g = perm_cut_gram(2, 2, &[0, 2, 1, 3]).unwrap();
    assert_eq!(g, vec![vec![1, 0, 0, 0], vec![0, 1, 0, 0], vec![0, 0, 1, 0], vec![0, 0, 0, 1]]);
    assert!(perm_cut_gram(2, 3, &[0, 1, 2, 3, 4, 4]).is_none());
    assert!(perm_cut_gram(2, 3, &[0, 1, 2]).is_none());
}

#[test]
fn gram_matrices_are_symmetric() {
    for (l, s, k, m) in [(4usize, 6usize, 7usize, 23usize), (6, 4, 5, 24), (3, 10, 11, 29)] {
        let f = foreign_mult(l * s, k, m);
        let table: Vec<usize> = (0..l * s).map(|x| f.apply(x)).collect();
        let g = perm_cut_gram(l, s, &table).unwrap();
        for r1 in 0..g.len() {
            for r2 in 0..g.len() {
                assert_eq!(g[r1][r2], g[r2][r1]);
            }
            assert!(g[r1][r1] >= 1);
        }
    }
}

#[test]
fn cuts_of_a_profile() {
    assert_eq!(profile_cuts(&[2, 3, 4]), vec![(2, 12), (6, 4)]);
    assert!(profile_cuts(&[0]).is_empty());
}

/// Rank of a small integer PSD matrix by Gaussian elimination with partial
/// pivoting.
fn gram_rank(g: &[Vec<u128>]) -> usize {
    let n = g.len();
    let mut m: Vec<Vec<f64>> = g.iter().map(|row| row.iter().map(|&v| v as f64).collect()).collect();
    let mut rank = 0;
    let mut row = 0;
    for col in 0..n {
        if row == n {
            break;
        }
        let (piv, best) = (row..n)
            .map(|i| (i, m[i][col].abs()))
            .fold((row, 0.0), |acc, x| if x.1 > acc.1 { x } else { acc });
        if best < 1e-9 {
            continue;
        }
        m.swap(row, piv);
        for i in 0..n {
            if i != row && m[i][col] != 0.0 {
                let f = m[i][col] / m[row][col];
                for j in col..n {
                    m[i][j] -= f * m[row][j];
                }
            }
        }
        row += 1;
        rank += 1;
    }
    rank
}

/// Operator Schmidt rank of the permutation `f` of `Z_{l·s}` across the
/// cut: the rank of the library's Gram matrix, here by exact-enough
/// elimination on these small matrices (the spectral reading of the same
/// matrix is the instrument in `app/`).
fn perm_rank(l: usize, s: usize, f: &dyn Fn(usize) -> usize) -> usize {
    let table: Vec<usize> = (0..l * s).map(f).collect();
    gram_rank(&perm_cut_gram(l, s, &table).expect("a permutation"))
}

/// The rank on the permutation side is that of the library's Gram matrix
/// (`perm_cut_gram`), the matrix whose spectrum the app's `perm_cut_rank`
/// reads; the cuts are the library's `profile_cuts`.
#[test]
fn perm_rank_reproduces_the_native_counting_theorem() {
    // On ring-native multiplication the rank of the transition matrix must
    // agree with the crossing-set count, bond for bond.
    let cases: Vec<(Vec<usize>, Vec<usize>)> = vec![
        (vec![2, 3, 4], vec![5, 7, 11]),
        (vec![2, 3, 4, 3], vec![5, 7, 29]),
        (zigzag::diamond(2, 4), vec![7, 11, 49]),
    ];
    for (profile, ks) in cases {
        let n: usize = profile.iter().product();
        for k in ks {
            let counted: Vec<usize> = mult_width_profile(&profile, k as u128)
                .into_iter()
                .map(|w| w.value() as usize)
                .collect();
            let f = foreign_mult(n, k, n);
            let grammed: Vec<usize> = profile_cuts(&profile)
                .into_iter()
                .map(|(left, right)| perm_rank(left, right, &|x| f.apply(x)))
                .collect();
            assert_eq!(grammed, counted, "profile {:?} k {}", profile, k);
        }
    }
}

/// As above, the rank is that of the library's Gram matrix of the cut.
#[test]
fn small_foreign_rings_are_screened_by_the_cut() {
    // A modulus that fits inside the right block never crosses the cut:
    // the operator is (perm inside the block) ⊕ identity, rank 1 + 1
    // regardless of k. Foreign cost comes from straddling.
    let f = foreign_mult(2880, 7, 97);
    let r = perm_rank(24, 120, &|x| f.apply(x));
    assert_eq!(r, 2);
}

#[test]
fn widths_stay_within_the_a_priori_bound() {
    for (l, s) in [(24u128, 120u128), (6, 20), (7, 11), (120, 24)] {
        for k in 1..(l * s).min(400) {
            let w = mult_cut_width(k, l, s).value();
            assert!(w <= k.min(l).min(s), "k={} l={} s={}", k, l, s);
        }
    }
}

#[test]
fn resonances_follow_the_gcd_with_the_left_ring() {
    fn gcd(a: u128, b: u128) -> u128 {
        if b == 0 { a } else { gcd(b, a % b) }
    }
    let (l, s) = (24u128, 120u128);
    for j in 0..24u128 {
        for e in 0..2u128 {
            let k = j * s + e;
            if k == 0 {
                continue;
            }
            assert_eq!(mult_cut_width(k, l, s).value(), l / gcd(j, l), "j={} e={}", j, e);
        }
    }
}
