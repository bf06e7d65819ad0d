use novel_quantum_structures::radix::is_palindromic;
use novel_quantum_structures::zigzag::{
    ascii_profile, diamond, mirror_pairs, valley_positions, waist_positions, wave,
};

#[test]
fn diamond_and_wave_shapes() {
    assert_eq!(diamond(2, 5), vec![2, 3, 4, 5, 4, 3, 2]);
    assert_eq!(diamond(2, 2), vec![2]);
    let w = wave(2, 5, 3);
    assert_eq!(w.len(), 3 * 6 + 1);
    assert_eq!(w[0], 2);
    assert_eq!(w[w.len() - 1], 2);
    // Palindromic:
    let rev: Vec<usize> = w.iter().rev().cloned().collect();
    assert_eq!(w, rev);
    assert_eq!(waist_positions(&w), vec![3, 9, 15]);
    assert_eq!(valley_positions(&w), vec![0, 6, 12, 18]);
}

#[test]
fn mirror_pairs_have_equal_dims_on_palindromes() {
    for profile in [diamond(2, 5), wave(2, 4, 2), wave(3, 6, 2)] {
        for (i, j) in mirror_pairs(&profile) {
            assert_eq!(profile[i], profile[j]);
        }
    }
}

#[test]
fn diamond_from_one_includes_the_trivial_ends() {
    assert_eq!(diamond(1, 5), vec![1, 2, 3, 4, 5, 4, 3, 2, 1]);
    assert_eq!(diamond(1, 1), vec![1]);
}

#[test]
fn wave_glues_periods_at_the_valleys() {
    assert_eq!(wave(1, 3, 2), vec![1, 2, 3, 2, 1, 2, 3, 2, 1]);
    assert_eq!(wave(2, 4, 1), diamond(2, 4));
    // A flat diamond stays a single site however many periods.
    assert_eq!(wave(3, 3, 4), vec![3]);
    assert_eq!(wave(2, 6, 4).len(), 2 * 4 * 4 + 1);
}

#[test]
fn waves_and_diamonds_are_palindromic() {
    for lo in 1..4 {
        for hi in lo..7 {
            assert!(is_palindromic(&diamond(lo, hi)));
            for periods in 1..4 {
                assert!(is_palindromic(&wave(lo, hi, periods)));
            }
        }
    }
    assert!(!is_palindromic(&[2, 3, 4]));
    assert!(is_palindromic(&[]));
    assert!(is_palindromic(&[7]));
    assert!(!is_palindromic(&[1, 2, 3, 1]));
}

#[test]
fn mirror_pairs_skip_the_middle_site() {
    assert_eq!(mirror_pairs(&[2, 3, 4, 3, 2]), vec![(0, 4), (1, 3)]);
    assert_eq!(mirror_pairs(&[2, 3, 3, 2]), vec![(0, 3), (1, 2)]);
    assert_eq!(mirror_pairs(&[5]), vec![]);
    assert_eq!(mirror_pairs(&[]), vec![]);
}

#[test]
fn waists_and_valleys_of_irregular_profiles() {
    let p = [3, 1, 4, 1, 5, 9, 2, 6, 9];
    assert_eq!(waist_positions(&p), vec![5, 8]);
    assert_eq!(valley_positions(&p), vec![1, 3]);
    assert_eq!(waist_positions(&[4]), vec![0]);
    assert_eq!(valley_positions(&[4, 4]), vec![0, 1]);
}

#[test]
fn ascii_sketch_of_a_small_diamond() {
    let s = ascii_profile(&[2, 3, 2]);
    let expect = "  3     ●    \n  2  ●     ● \n     0  1  2 \n";
    assert_eq!(s, expect);
}

#[test]
fn ascii_sketch_ruler_wraps_at_one_hundred() {
    let p = vec![2usize; 101];
    let s = ascii_profile(&p);
    let lines: Vec<&str> = s.lines().collect();
    assert_eq!(lines.len(), 2);
    assert!(lines[1].starts_with("     0  1  2 "));
    assert!(lines[1].ends_with(" 98 99  0 "));
    assert!(lines[0].starts_with("  2  ● "));
}
