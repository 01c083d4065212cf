use permsearch::perm::{dist, identity, power, random};
use permsearch::search::{run_search, search_step};

#[test]
fn squaring_two_disjoint_swaps_gives_identity() {
    let a = vec![1, 0, 3, 2];
    assert_eq!(power(&a, 2), identity(4));
    // Any involution's square sits at distance zero from the identity.
    assert_eq!(dist(&power(&a, 2), &identity(4)), 0);
    let b = vec![0, 1, 3, 2];
    assert_eq!(dist(&power(&b, 2), &identity(4)), 0);
}

#[test]
fn search_step_never_regresses() {
    let a = random(8);
    let a2 = power(&a, 2);
    let mut x = random(8);
    let mut wx = dist(&power(&x, 2), &a2);
    for _ in 0..200 {
        let (nx, w, improved) = search_step(&x, &a2);
        assert!(w <= wx);
        assert_eq!(improved, w < wx);
        x = nx;
        wx = w;
    }
}

#[test]
fn run_search_distances_are_monotone() {
    let a = random(30);
    let a2 = power(&a, 2);
    let x0 = random(30);
    let w0 = dist(&power(&x0, 2), &a2);
    let (x, progress) = run_search(&x0, &a2, 1233);
    let wfinal = dist(&power(&x, 2), &a2);
    assert!(wfinal <= w0);
    // Strict improvements are logged with increasing iteration numbers
    // and strictly decreasing distances.
    for w in progress.windows(2) {
        assert!(w[0].0 < w[1].0);
        assert!(w[0].1 > w[1].1);
    }
    for p in &progress {
        assert!(1 <= p.0 && p.0 <= 1233);
        assert!(wfinal <= p.1);
    }
}

#[test]
fn run_search_toward_an_involution_square() {
    // Two disjoint two-cycles square to the identity; a search against
    // that square can only walk the distance down.
    let a = vec![1, 0, 3, 2];
    let a2 = power(&a, 2);
    assert_eq!(a2, identity(4));
    let x0 = random(4);
    let w0 = dist(&power(&x0, 2), &a2);
    let (x, progress) = run_search(&x0, &a2, 300);
    let wfinal = dist(&power(&x, 2), &a2);
    assert!(wfinal <= w0);
    for w in progress.windows(2) {
        assert!(w[0].1 > w[1].1);
    }
    // The identity itself is an exact square root of the identity, so a
    // candidate that already squares to it stays at distance zero.
    let (y, _) = run_search(&identity(4), &a2, 50);
    assert_eq!(dist(&power(&y, 2), &a2), 0);
}
