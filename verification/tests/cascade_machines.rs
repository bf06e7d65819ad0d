use novel_quantum_structures::cascade::{Boundary, Direction, Transducer};

/// Digits of `x` over `profile`, site 0 most significant.
fn digits(profile: &[usize], mut x: usize) -> Vec<usize> {
    let mut out = vec![0; profile.len()];
    for i in (0..profile.len()).rev() {
        out[i] = x % profile[i];
        x /= profile[i];
    }
    out
}

fn value(profile: &[usize], ds: &[usize]) -> usize {
    ds.iter().zip(profile).fold(0, |acc, (&x, &d)| acc * d + x)
}

/// Run the transducer classically from entry message `entry`; returns the
/// output digits and the exit message.
fn run(t: &Transducer, x: &[usize], entry: usize) -> (Vec<usize>, usize) {
    let n = t.profile.len();
    let mut out = vec![0; n];
    let mut msg = entry;
    let order: Vec<usize> = match t.direction {
        Direction::RightToLeft => (0..n).rev().collect(),
        Direction::LeftToRight => (0..n).collect(),
    };
    for i in order {
        let (m, p) = t.rules[i][msg * t.profile[i] + x[i]];
        out[i] = p;
        msg = m;
    }
    (out, msg)
}

#[test]
fn adder_adds_mod_n() {
    let profile = [2usize, 3, 4, 5, 4, 3, 2];
    let n: usize = profile.iter().product();
    let t = Transducer::adder(&profile, 250);
    assert_eq!(t.msg_dim, 2);
    for x in [0usize, 1, 987, 2629, 2879] {
        let (y, _) = run(&t, &digits(&profile, x), 0);
        assert_eq!(value(&profile, &y), (x + 250) % n);
    }
}

#[test]
fn multiplier_multiplies_mod_n() {
    let profile = [2usize, 3, 4, 3];
    let n: usize = profile.iter().product();
    let t = Transducer::mult(&profile, 7);
    assert_eq!(t.msg_dim, 7);
    assert_eq!(t.direction, Direction::RightToLeft);
    for x in 0..n {
        let (y, _) = run(&t, &digits(&profile, x), 0);
        assert_eq!(value(&profile, &y), 7 * x % n);
    }
}

#[test]
fn multipliers_compose() {
    let profile = [2usize, 3, 4, 5];
    let n: usize = profile.iter().product();
    let m7 = Transducer::mult(&profile, 7);
    let m11 = Transducer::mult(&profile, 11);
    let m77 = Transducer::mult(&profile, 77);
    for x in 0..n {
        let (a, _) = run(&m7, &digits(&profile, x), 0);
        let (b, _) = run(&m11, &a, 0);
        let (c, _) = run(&m77, &digits(&profile, x), 0);
        assert_eq!(b, c);
    }
}

#[test]
fn division_has_one_surviving_branch() {
    let profile = [2usize, 3, 4, 5, 4, 3, 2];
    let n: usize = profile.iter().product();
    let k = 7;
    let t = Transducer::div(&profile, k);
    assert_eq!(t.direction, Direction::LeftToRight);
    for x in [0usize, 1, 5, 100, 2879] {
        let ds = digits(&profile, x);
        let survivors: Vec<Vec<usize>> = (0..k)
            .map(|m| run(&t, &ds, m))
            .filter(|(_, exit)| *exit == 0)
            .map(|(y, _)| y)
            .collect();
        assert_eq!(survivors.len(), 1, "x={}", x);
        let y = value(&profile, &survivors[0]);
        assert_eq!(k * y % n, x);
        // ÷7 = ×823 on Z_2880.
        assert_eq!(y, 823 * x % n);
    }
}

#[test]
fn directed_multiplier_reads_site_zero_as_least_significant() {
    let profile = [3usize, 4, 5];
    let n: usize = profile.iter().product();
    let t = Transducer::mult_directed(&profile, 5, Direction::LeftToRight);
    for x in 0..n {
        // Reversed place value: x = x_0 + 3·(x_1 + 4·x_2).
        let ds = vec![x % 3, (x / 3) % 4, x / 12];
        let (y, _) = run(&t, &ds, 0);
        let v = y[0] + 3 * (y[1] + 4 * y[2]);
        assert_eq!(v, 5 * x % n);
    }
}

#[test]
fn skipping_multiplier_leaves_the_control_site_alone() {
    let profile = [2usize, 3, 4];
    let t = Transducer::mult_skipping(&profile, 1, 5);
    // ×5 on the digits of sites 0 and 2 (ring 2·4 = 8), site 1 untouched.
    for x0 in 0..2 {
        for x1 in 0..3 {
            for x2 in 0..4 {
                let (y, _) = run(&t, &[x0, x1, x2], 0);
                assert_eq!(y[1], x1);
                let v = y[0] * 4 + y[2];
                assert_eq!(v, 5 * (x0 * 4 + x2) % 8);
            }
        }
    }
}

#[test]
fn adder_after_multiplier_is_affine() {
    let profile = [2usize, 3, 4, 5];
    let n: usize = profile.iter().product();
    let m = Transducer::mult(&profile, 7);
    let a = Transducer::adder(&profile, 1000);
    for x in 0..n {
        let (y, _) = run(&m, &digits(&profile, x), 0);
        let (z, _) = run(&a, &y, 0);
        assert_eq!(value(&profile, &z), (7 * x + 1000) % n);
    }
}

#[test]
fn opposed_fronts_annihilate() {
    let profile = [2usize, 3, 4, 5, 4, 3, 2];
    let n: usize = profile.iter().product();
    let m = Transducer::mult(&profile, 7);
    let d = Transducer::div(&profile, 7);
    for x in (0..n).step_by(37) {
        let ds = digits(&profile, x);
        let (y, _) = run(&m, &ds, 0);
        let back: Vec<Vec<usize>> = (0..7)
            .map(|e| run(&d, &y, e))
            .filter(|(_, exit)| *exit == 0)
            .map(|(z, _)| z)
            .collect();
        assert_eq!(back, vec![ds]);
    }
}

#[test]
fn adder_wraps_large_constants() {
    let profile = [3usize, 4];
    let t = Transducer::adder(&profile, 12 * 1000 + 5);
    let (y, _) = run(&t, &digits(&profile, 9), 0);
    assert_eq!(value(&profile, &y), (9 + 5) % 12);
}

#[test]
fn complement_then_increment_negates() {
    let profile = [2usize, 3, 4, 5, 4, 3, 2];
    let n: usize = profile.iter().product();
    let inc = Transducer::adder(&profile, 1);
    assert_eq!(inc.msg_dim, 2);
    for x in (0..n).step_by(53) {
        let ds = digits(&profile, x);
        let reflected: Vec<usize> = ds.iter().zip(&profile).map(|(&a, &d)| d - 1 - a).collect();
        assert_eq!(value(&profile, &reflected), n - 1 - x);
        let (y, _) = run(&inc, &reflected, 0);
        assert_eq!(value(&profile, &y), (n - x) % n);
    }
}

#[test]
fn looped_boundary_selects_the_ring_below() {
    let profile = [2usize, 3, 4, 5];
    let n: usize = profile.iter().product();
    let m = Transducer::mult(&profile, 7);
    let a = Transducer::adder(&profile, 50);
    for x in 0..n {
        let ds = digits(&profile, x);
        let mut branches = 0;
        for e in 0..7 {
            let (y, exit) = run(&m, &ds, e);
            if exit == e {
                branches += 1;
                assert_eq!(value(&profile, &y) % (n - 1), 7 * x % (n - 1));
            }
        }
        assert!(branches >= 1);
        for e in 0..2 {
            let (y, exit) = run(&a, &ds, e);
            if exit == e {
                assert_eq!(value(&profile, &y) % (n - 1), (x + 50) % (n - 1));
            }
        }
    }
}

#[test]
fn reversal_twist_selects_the_ring_above() {
    let profile = [2usize, 3, 4, 5];
    let n: usize = profile.iter().product();
    let k = 7;
    let m = Transducer::mult(&profile, k);
    let a = Transducer::adder(&profile, 50);
    for x in 0..n {
        let ds = digits(&profile, x);
        for e in 0..k {
            let (y, exit) = run(&m, &ds, e);
            if exit == k - 1 - e {
                assert_eq!((value(&profile, &y) + 1) % (n + 1), k * (x + 1) % (n + 1));
            }
        }
        for e in 0..2 {
            let (y, exit) = run(&a, &ds, e);
            if exit == 1 - e {
                assert_eq!((value(&profile, &y) + 1) % (n + 1), (x + 1 + 50 + 1) % (n + 1));
            }
        }
    }
}

#[test]
fn lifted_sites_carry_the_rules() {
    let t = Transducer::mult(&[2, 3], 5);
    let (dl, dr, entries) = t.lift_site(1, Boundary::Fixed(0), Boundary::SumAll);
    assert_eq!((dl, dr), (5, 1));
    assert_eq!(entries, vec![(0, 0, 0), (1, 7, 0), (3, 5, 0)]);
    let (dl0, dr0, entries0) = t.lift_site(0, Boundary::Fixed(0), Boundary::SumAll);
    assert_eq!((dl0, dr0), (1, 5));
    assert_eq!(entries0.len(), 10);
    for &(l, q, r) in &entries0 {
        assert_eq!(l, 0);
        let (p_out, p_in) = (q / 2, q % 2);
        assert_eq!(p_out, (5 * p_in + r) % 2);
    }
    // Postselecting the exit message keeps only the matching rules.
    let (_, _, kept) = t.lift_site(0, Boundary::Fixed(0), Boundary::Fixed(0));
    assert_eq!(kept.len(), 2);
    // A division machine entering in superposition lifts every remainder.
    let d = Transducer::div(&[2, 3], 3);
    let (dl, dr, all) = d.lift_site(0, Boundary::SumAll, Boundary::Fixed(0));
    assert_eq!((dl, dr), (1, 3));
    assert_eq!(all.len(), 3 * 2);
}
