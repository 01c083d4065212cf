use permsearch::cycles::cycles;
use permsearch::perm::{identity, random};

/// Applies a list of cycles as a permutation of `0 .. n`: each entry of
/// a cycle moves to the next, the last wrapping to the first.
fn apply_cycle_list(cs: &Vec<Vec<usize>>, n: usize) -> Vec<usize> {
    let mut a: Vec<usize> = (0..n).collect();
    for c in cs {
        for k in 0..c.len() {
            a[c[k]] = c[(k + 1) % c.len()];
        }
    }
    a
}

#[test]
fn cycles_of_two_disjoint_swaps() {
    let a = vec![1, 0, 3, 2];
    assert_eq!(cycles(&a), vec![vec![0, 1], vec![2, 3]]);
}

#[test]
fn cycles_of_identity_is_empty() {
    assert_eq!(cycles(&identity(5)), Vec::<Vec<usize>>::new());
    assert_eq!(cycles(&identity(0)), Vec::<Vec<usize>>::new());
}

#[test]
fn cycles_of_a_three_cycle() {
    let a = vec![1, 2, 0];
    assert_eq!(cycles(&a), vec![vec![0, 1, 2]]);
}

#[test]
fn fixed_points_are_omitted() {
    let a = vec![0, 2, 1];
    assert_eq!(cycles(&a), vec![vec![1, 2]]);
    let b = vec![0, 1, 2, 4, 3, 5];
    assert_eq!(cycles(&b), vec![vec![3, 4]]);
}

#[test]
fn cycles_follow_the_permutation() {
    let a = vec![4, 3, 0, 1, 2, 6, 5];
    let cs = cycles(&a);
    for c in &cs {
        for k in 0..c.len() {
            assert_eq!(a[c[k]], c[(k + 1) % c.len()]);
        }
    }
}

#[test]
fn cycles_are_canonical() {
    for _ in 0..10 {
        let a = random(12);
        let cs = cycles(&a);
        // Each cycle starts at its minimum and has at least two entries.
        for c in &cs {
            assert!(c.len() >= 2);
            for k in 1..c.len() {
                assert!(c[0] < c[k]);
            }
        }
        // The list is sorted by first elements, which orders it
        // lexicographically since the cycles are disjoint.
        for w in cs.windows(2) {
            assert!(w[0][0] < w[1][0]);
            assert!(w[0] < w[1]);
        }
    }
}

#[test]
fn cycles_cover_moved_indices_exactly_once() {
    for _ in 0..10 {
        let a = random(10);
        let cs = cycles(&a);
        let mut count = vec![0usize; 10];
        for c in &cs {
            for &v in c {
                count[v] += 1;
            }
        }
        for i in 0..10 {
            if a[i] != i {
                assert_eq!(count[i], 1);
            } else {
                assert_eq!(count[i], 0);
            }
        }
    }
}

#[test]
fn composing_the_cycles_reconstructs_the_permutation() {
    let a = vec![1, 0, 3, 2];
    assert_eq!(apply_cycle_list(&cycles(&a), 4), a);
    for _ in 0..10 {
        let b = random(15);
        assert_eq!(apply_cycle_list(&cycles(&b), 15), b);
    }
}
