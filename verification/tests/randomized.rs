#![allow(non_snake_case)]

use permsearch::perm::{
    alter, alterK, compose, dist, halfRandomSwap, identity, inverse, makeDelta, power, random,
    randomSwap, support, swap, weight,
};

fn is_permutation(a: &Vec<usize>) -> bool {
    let n = a.len();
    let mut seen = vec![false; n];
    for &v in a {
        if v >= n || seen[v] {
            return false;
        }
        seen[v] = true;
    }
    true
}

#[test]
fn random_draws_a_permutation() {
    for n in [0usize, 1, 2, 8, 30] {
        let a = random(n);
        assert_eq!(a.len(), n);
        assert!(is_permutation(&a));
    }
}

#[test]
fn randomSwap_is_a_transposition_or_identity() {
    for _ in 0..20 {
        let r = randomSwap(5);
        assert!(is_permutation(&r));
        assert_eq!(compose(&r, &r), identity(5));
        let w = weight(&r);
        assert!(w == 0 || w == 2);
    }
}

#[test]
fn halfRandomSwap_draws_from_the_support() {
    for _ in 0..20 {
        let sup = vec![2];
        let r = halfRandomSwap(5, &sup);
        assert!(is_permutation(&r));
        // One leg of the transposition is the only support element.
        assert!(r == identity(5) || r[2] != 2);
    }
}

#[test]
fn halfRandomSwap_with_empty_support_still_swaps() {
    for _ in 0..10 {
        let r = halfRandomSwap(4, &Vec::new());
        assert!(is_permutation(&r));
        assert_eq!(compose(&r, &r), identity(4));
    }
}

#[test]
fn alter_moves_by_one_transposition() {
    for _ in 0..20 {
        let a = random(6);
        let r = alter(&a);
        assert!(is_permutation(&r));
        let d = dist(&a, &r);
        assert!(d == 0 || d == 2);
    }
}

#[test]
fn alterK_keeps_a_permutation() {
    let a = random(6);
    let r = alterK(&a, 4);
    assert!(is_permutation(&r));
    assert_eq!(r.len(), 6);
    assert_eq!(alterK(&a, 0), a);
}

#[test]
fn alterK_stays_within_two_per_step() {
    // Each step right-composes one transposition, which moves at most
    // two indices, so the distance from the start is at most twice the
    // number of steps.
    let a = random(8);
    for k in 0..5u32 {
        let r = alterK(&a, k);
        assert!(dist(&a, &r) <= 2 * k as i32);
    }
}

#[test]
fn makeDelta_is_inverse_or_three_fixing_transpositions() {
    // A five-cycle: its support is everything, so each draw is either
    // the inverse or a product of three transpositions swap(n, i, a[i])
    // with i taken from the support.
    let a = vec![1, 2, 3, 4, 0];
    let n = a.len();
    let inv = inverse(&a);
    let sup = support(&a);
    let mut candidates: Vec<Vec<usize>> = Vec::new();
    for &i1 in &sup {
        for &i2 in &sup {
            for &i3 in &sup {
                let p = compose(
                    &compose(&swap(n, i1, a[i1]), &swap(n, i2, a[i2])),
                    &swap(n, i3, a[i3]),
                );
                candidates.push(p);
            }
        }
    }
    for _ in 0..20 {
        let d = makeDelta(&a);
        assert!(d == inv || candidates.contains(&d));
    }
}

#[test]
fn makeDelta_keeps_a_permutation() {
    for _ in 0..20 {
        let a = random(6);
        let d = makeDelta(&a);
        assert!(is_permutation(&d));
        assert_eq!(d.len(), 6);
    }
}

#[test]
fn makeDelta_of_identity_is_identity_or_its_inverse() {
    // The identity has empty support, so the only outcomes are the
    // inverse of the identity and the identity itself: both the identity.
    for _ in 0..10 {
        assert_eq!(makeDelta(&identity(5)), identity(5));
    }
}

#[test]
fn random_round_trips_through_inverse() {
    let a = random(12);
    assert_eq!(inverse(&inverse(&a)), a);
    assert_eq!(compose(&a, &inverse(&a)), identity(12));
    assert_eq!(power(&a, 2), compose(&a, &a));
}
