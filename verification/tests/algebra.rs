use permsearch::perm::{
    compose, conj, dist, identity, inverse, power, support, swap, weight,
};

#[test]
fn identity_maps_each_index() {
    assert_eq!(identity(5), vec![0, 1, 2, 3, 4]);
    assert_eq!(identity(0), Vec::<usize>::new());
}

#[test]
fn compose_applies_left_operand_first() {
    let a = vec![1, 2, 0];
    let b = vec![2, 0, 1];
    // c[i] == b[a[i]]
    assert_eq!(compose(&a, &b), vec![0, 1, 2]);
    let c = vec![1, 0, 2];
    assert_eq!(compose(&a, &c), vec![0, 2, 1]);
    assert_eq!(compose(&c, &a), vec![2, 1, 0]);
}

#[test]
fn inverse_example() {
    let a = vec![2, 0, 1];
    assert_eq!(inverse(&a), vec![1, 2, 0]);
    let b = vec![3, 1, 0, 2];
    let binv = inverse(&b);
    for i in 0..4 {
        assert_eq!(binv[b[i]], i);
    }
}

#[test]
fn compose_is_associative() {
    let a = vec![1, 2, 0, 3];
    let b = vec![3, 1, 0, 2];
    let c = vec![0, 3, 2, 1];
    assert_eq!(compose(&compose(&a, &b), &c), compose(&a, &compose(&b, &c)));
}

#[test]
fn identity_is_neutral() {
    let a = vec![1, 2, 0, 3];
    let e = identity(4);
    assert_eq!(compose(&a, &e), a);
    assert_eq!(compose(&e, &a), a);
}

#[test]
fn inverse_cancels_on_both_sides() {
    let a = vec![3, 1, 0, 2];
    assert_eq!(compose(&a, &inverse(&a)), identity(4));
    assert_eq!(compose(&inverse(&a), &a), identity(4));
}

#[test]
fn inverse_involution() {
    let a = vec![2, 3, 1, 0];
    assert_eq!(inverse(&inverse(&a)), a);
}

#[test]
fn conjugation_of_identity_is_identity() {
    let a = vec![1, 2, 0, 3];
    assert_eq!(conj(&a, &identity(4)), identity(4));
}

#[test]
fn conjugation_by_identity_is_neutral() {
    let b = vec![3, 1, 0, 2];
    assert_eq!(conj(&identity(4), &b), b);
}

#[test]
fn conjugation_matches_definition() {
    let a = vec![1, 2, 0, 3];
    let b = vec![3, 1, 0, 2];
    assert_eq!(conj(&a, &b), compose(&compose(&inverse(&a), &b), &a));
}

#[test]
fn power_zero_is_identity() {
    let a = vec![1, 2, 0, 3];
    assert_eq!(power(&a, 0), identity(4));
}

#[test]
fn power_one_is_the_permutation() {
    let a = vec![1, 2, 0, 3];
    assert_eq!(power(&a, 1), a);
}

#[test]
fn powers_add() {
    let a = vec![1, 2, 3, 4, 0];
    assert_eq!(power(&a, 5), compose(&power(&a, 2), &power(&a, 3)));
    assert_eq!(power(&a, 4), compose(&power(&a, 0), &power(&a, 4)));
    // a is a 5-cycle, so its fifth power is the identity
    assert_eq!(power(&a, 5), identity(5));
}

#[test]
fn weight_counts_moved_indices() {
    assert_eq!(weight(&vec![1, 0, 2]), 2);
    assert_eq!(weight(&identity(7)), 0);
    assert_eq!(weight(&vec![1, 2, 0]), 3);
}

#[test]
fn weight_equals_support_length() {
    let a = vec![1, 0, 2, 4, 3];
    assert_eq!(weight(&a) as usize, support(&a).len());
    let e = identity(6);
    assert_eq!(weight(&e) as usize, support(&e).len());
}

#[test]
fn weight_zero_only_for_identity() {
    assert_eq!(weight(&identity(4)), 0);
    assert!(weight(&vec![0, 1, 3, 2]) > 0);
}

#[test]
fn support_lists_moved_indices_sorted() {
    assert_eq!(support(&vec![1, 0, 2, 4, 3]), vec![0, 1, 3, 4]);
    assert_eq!(support(&identity(3)), Vec::<usize>::new());
}

#[test]
fn dist_of_equal_permutations_is_zero() {
    let a = vec![3, 1, 0, 2];
    assert_eq!(dist(&a, &a), 0);
}

#[test]
fn dist_is_symmetric() {
    let a = vec![3, 1, 0, 2];
    let b = vec![1, 2, 0, 3];
    assert_eq!(dist(&a, &b), dist(&b, &a));
}

#[test]
fn dist_zero_only_when_equal() {
    let a = vec![3, 1, 0, 2];
    let b = vec![1, 2, 0, 3];
    assert!(dist(&a, &b) > 0);
    assert_eq!(dist(&a, &a), 0);
}

#[test]
fn dist_matches_definition() {
    let a = vec![3, 1, 0, 2];
    let b = vec![1, 2, 0, 3];
    assert_eq!(dist(&a, &b), weight(&compose(&inverse(&a), &b)));
}

#[test]
fn swap_builds_a_transposition() {
    assert_eq!(swap(4, 1, 3), vec![0, 3, 2, 1]);
    assert_eq!(swap(4, 2, 2), identity(4));
}

#[test]
fn swap_is_self_inverse() {
    for x in 0..5 {
        for y in 0..5 {
            let s = swap(5, x, y);
            assert_eq!(compose(&s, &s), identity(5));
        }
    }
}
