//! The algebraic laws of the permutation operations: the group axioms,
//! inverse involution, conjugation identities, power laws, the
//! weight/support relation, the distance metric, and the transposition's
//! self-inverse.

use vstd::prelude::*;

use crate::perm::{
    alter_chain, is_perm, lemma_identity_is_perm, lemma_inverse_props, lemma_perm_len_bound,
    lemma_support_upto, lemma_support_upto_congruent, lemma_swap_is_perm, spec_compose,
    spec_conj, spec_dist, spec_identity, spec_inverse, spec_power, spec_support, spec_swap,
    spec_weight, support_upto,
};

verus! {

/// Composition is associative on permutations of equal length.
pub proof fn lemma_compose_assoc(a: Seq<usize>, b: Seq<usize>, c: Seq<usize>)
    requires
        is_perm(a),
        is_perm(b),
        is_perm(c),
        a.len() == b.len(),
        b.len() == c.len(),
    ensures
        spec_compose(spec_compose(a, b), c) == spec_compose(a, spec_compose(b, c)),
{
    let lhs = spec_compose(spec_compose(a, b), c);
    let rhs = spec_compose(a, spec_compose(b, c));
    assert forall|i: int| 0 <= i < a.len() implies lhs[i] == rhs[i] by {
        assert(a[i] < b.len());
        assert(b[a[i] as int] < c.len());
    }
    assert(lhs =~= rhs);
}

/// The identity is neutral on both sides of composition.
pub proof fn lemma_compose_identity(a: Seq<usize>)
    requires
        is_perm(a),
    ensures
        spec_compose(a, spec_identity(a.len())) == a,
        spec_compose(spec_identity(a.len()), a) == a,
{
    lemma_perm_len_bound(a);
    let n = a.len();
    let id = spec_identity(n);
    assert forall|i: int| 0 <= i < n implies spec_compose(a, id)[i] == a[i] by {
        assert(a[i] < n);
        assert(id[a[i] as int] == a[i]);
    }
    assert(spec_compose(a, id) =~= a);
    assert forall|i: int| 0 <= i < n implies spec_compose(id, a)[i] == a[i] by {
        assert(id[i] == i as usize);
    }
    assert(spec_compose(id, a) =~= a);
}

/// A permutation composed with its inverse, on either side, is the
/// identity.
pub proof fn lemma_compose_inverse(a: Seq<usize>)
    requires
        is_perm(a),
    ensures
        spec_compose(a, spec_inverse(a)) == spec_identity(a.len()),
        spec_compose(spec_inverse(a), a) == spec_identity(a.len()),
{
    lemma_perm_len_bound(a);
    lemma_inverse_props(a);
    let n = a.len();
    let inv = spec_inverse(a);
    let id = spec_identity(n);
    assert forall|i: int| 0 <= i < n implies spec_compose(a, inv)[i] == id[i] by {
        assert(inv[a[i] as int] == i);
    }
    assert(spec_compose(a, inv) =~= id);
    assert forall|i: int| 0 <= i < n implies spec_compose(inv, a)[i] == id[i] by {
        assert(a[inv[i] as int] == i);
    }
    assert(spec_compose(inv, a) =~= id);
}

/// Inverting twice gives the original permutation back.
pub proof fn lemma_inverse_involution(a: Seq<usize>)
    requires
        is_perm(a),
    ensures
        spec_inverse(spec_inverse(a)) == a,
{
    lemma_inverse_props(a);
    let inv = spec_inverse(a);
    lemma_inverse_props(inv);
    let inv2 = spec_inverse(inv);
    let n = a.len();
    assert forall|i: int| 0 <= i < n implies inv2[i] == a[i] by {
        let x = a[i] as int;
        assert(inv[a[i] as int] == i);
        assert(inv2[inv[x] as int] == x);
    }
    assert(inv2 =~= a);
}

/// The identity is its own inverse.
pub proof fn lemma_inverse_identity(n: nat)
    requires
        n <= usize::MAX + 1,
    ensures
        spec_inverse(spec_identity(n)) == spec_identity(n),
{
    lemma_identity_is_perm(n);
    let id = spec_identity(n);
    lemma_inverse_props(id);
    let inv = spec_inverse(id);
    assert forall|j: int| 0 <= j < n implies inv[j] == id[j] by {
        assert(id[inv[j] as int] == j);
        assert(id[inv[j] as int] == inv[j]);
    }
    assert(inv =~= id);
}

/// Conjugating the identity yields the identity.
pub proof fn lemma_conj_of_identity(a: Seq<usize>)
    requires
        is_perm(a),
    ensures
        spec_conj(a, spec_identity(a.len())) == spec_identity(a.len()),
{
    lemma_inverse_props(a);
    lemma_compose_identity(spec_inverse(a));
    assert(spec_compose(spec_inverse(a), spec_identity(a.len())) == spec_inverse(a));
    lemma_compose_inverse(a);
}

/// Conjugating by the identity changes nothing.
pub proof fn lemma_conj_by_identity(b: Seq<usize>)
    requires
        is_perm(b),
    ensures
        spec_conj(spec_identity(b.len()), b) == b,
{
    let n = b.len();
    lemma_perm_len_bound(b);
    lemma_identity_is_perm(n);
    lemma_inverse_identity(n);
    lemma_compose_identity(b);
    assert(spec_compose(spec_identity(n), b) == b);
}

/// Every power of a permutation is a permutation of the same length.
pub proof fn lemma_power_is_perm(a: Seq<usize>, k: nat)
    requires
        is_perm(a),
    ensures
        is_perm(spec_power(a, k)),
        spec_power(a, k).len() == a.len(),
    decreases k,
{
    lemma_perm_len_bound(a);
    if k == 0 {
        lemma_identity_is_perm(a.len());
    } else {
        lemma_power_is_perm(a, (k - 1) as nat);
        crate::perm::lemma_compose_is_perm(spec_power(a, (k - 1) as nat), a);
    }
}

/// The zeroth power is the identity.
pub proof fn lemma_power_zero(a: Seq<usize>)
    ensures
        spec_power(a, 0) == spec_identity(a.len()),
{
}

/// Powers add: the `(j + k)`-th power is the `j`-th power followed by the
/// `k`-th power.
pub proof fn lemma_power_add(a: Seq<usize>, j: nat, k: nat)
    requires
        is_perm(a),
    ensures
        spec_power(a, j + k) == spec_compose(spec_power(a, j), spec_power(a, k)),
    decreases k,
{
    lemma_power_is_perm(a, j);
    if k == 0 {
        lemma_compose_identity(spec_power(a, j));
    } else {
        lemma_power_is_perm(a, (k - 1) as nat);
        lemma_power_add(a, j, (k - 1) as nat);
        assert(spec_power(a, j + k) == spec_compose(spec_power(a, (j + k - 1) as nat), a));
        lemma_compose_assoc(spec_power(a, j), spec_power(a, (k - 1) as nat), a);
    }
}

/// The weight of a permutation is the size of its support.
pub proof fn lemma_weight_eq_support_len(s: Seq<usize>)
    ensures
        spec_weight(s) == spec_support(s).len(),
{
}

/// A sequence has weight zero exactly when it is the identity of its
/// length.
pub proof fn lemma_weight_zero_iff_identity(s: Seq<usize>)
    requires
        s.len() <= usize::MAX + 1,
    ensures
        spec_weight(s) == 0 <==> s == spec_identity(s.len()),
{
    let n = s.len();
    lemma_support_upto(s, n);
    if spec_weight(s) == 0 {
        assert forall|i: int| 0 <= i < n implies s[i] == spec_identity(n)[i] by {
            if s[i] != i {
                assert(support_upto(s, n).contains(i as usize));
            }
            assert(s[i] == i);
        }
        assert(s =~= spec_identity(n));
    }
    if s == spec_identity(n) {
        if spec_weight(s) != 0 {
            let e = support_upto(s, n)[0];
            assert(s[e as int] != e);
            assert(s[e as int] == e);
        }
    }
}

/// The identity has weight zero.
pub proof fn lemma_weight_identity(n: nat)
    requires
        n <= usize::MAX + 1,
    ensures
        spec_weight(spec_identity(n)) == 0,
{
    lemma_weight_zero_iff_identity(spec_identity(n));
}

/// The distance from a permutation to itself is zero.
pub proof fn lemma_dist_self(a: Seq<usize>)
    requires
        is_perm(a),
    ensures
        spec_dist(a, a) == 0,
{
    lemma_perm_len_bound(a);
    lemma_compose_inverse(a);
    lemma_weight_identity(a.len());
}

/// The distance is symmetric.
pub proof fn lemma_dist_symmetric(a: Seq<usize>, b: Seq<usize>)
    requires
        is_perm(a),
        is_perm(b),
        a.len() == b.len(),
    ensures
        spec_dist(a, b) == spec_dist(b, a),
{
    let n = a.len();
    lemma_inverse_props(a);
    lemma_inverse_props(b);
    let c = spec_compose(spec_inverse(a), b);
    let d = spec_compose(spec_inverse(b), a);
    assert forall|i: int| 0 <= i < n implies ((#[trigger] c[i] == i) <==> (#[trigger] d[i]
        == i)) by {
        if c[i] == i {
            let j = spec_inverse(a)[i];
            assert(a[j as int] == i);
            assert(b[j as int] == i);
            assert(spec_inverse(b)[b[j as int] as int] == j);
            assert(d[i] == a[j as int]);
        }
        if d[i] == i {
            let j = spec_inverse(b)[i];
            assert(b[j as int] == i);
            assert(a[j as int] == i);
            assert(spec_inverse(a)[a[j as int] as int] == j);
            assert(c[i] == b[j as int]);
        }
    }
    lemma_support_upto_congruent(c, d, n);
}

/// The distance is zero exactly when the two permutations are equal.
pub proof fn lemma_dist_zero_iff_eq(a: Seq<usize>, b: Seq<usize>)
    requires
        is_perm(a),
        is_perm(b),
        a.len() == b.len(),
    ensures
        spec_dist(a, b) == 0 <==> a == b,
{
    let n = a.len();
    lemma_perm_len_bound(a);
    lemma_inverse_props(a);
    let c = spec_compose(spec_inverse(a), b);
    lemma_weight_zero_iff_identity(c);
    if spec_dist(a, b) == 0 {
        assert(c == spec_identity(n));
        assert forall|i: int| 0 <= i < n implies a[i] == b[i] by {
            let j = a[i] as int;
            assert(c[j] == spec_identity(n)[j]);
            assert(spec_inverse(a)[j] == i);
            assert(b[i] == j);
        }
        assert(a =~= b);
    }
    if a == b {
        lemma_dist_self(a);
    }
}

/// If every index moved by `s1` below `k` is moved by `s2` or is one of
/// the two positions `x`, `y`, then `s1`'s support below `k` is at most
/// two entries longer than `s2`'s.
proof fn lemma_support_bound_two(s1: Seq<usize>, s2: Seq<usize>, x: usize, y: usize, k: nat)
    requires
        forall|i: int| 0 <= i < k && #[trigger] s1[i] != i ==> (s2[i] != i || i == x || i == y),
    ensures
        support_upto(s1, k).len() <= support_upto(s2, k).len() + (if x < k {
            1int
        } else {
            0int
        }) + (if y < k {
            1int
        } else {
            0int
        }),
    decreases k,
{
    if k > 0 {
        lemma_support_bound_two(s1, s2, x, y, (k - 1) as nat);
    }
}

/// Right-composing one transposition onto a permutation moves at most
/// two more indices.
proof fn lemma_weight_compose_swap(c: Seq<usize>, x: usize, y: usize)
    requires
        is_perm(c),
        x < c.len(),
        y < c.len(),
    ensures
        spec_weight(spec_compose(c, spec_swap(c.len(), x, y))) <= spec_weight(c) + 2,
{
    lemma_perm_len_bound(c);
    let n = c.len();
    let s = spec_swap(n, x, y);
    let cs = spec_compose(c, s);
    assert forall|i: int| 0 <= i < n && #[trigger] cs[i] != i implies (c[i] != i || i == x || i
        == y) by {
        if c[i] == i && i != x && i != y {
            assert(s[i] == i as usize);
        }
    }
    lemma_support_bound_two(cs, c, x, y, n);
}

/// A chain of `k` right-composed transpositions keeps a permutation a
/// permutation and moves it at most `2 * k` away from its start.
pub proof fn lemma_alter_chain_props(a: Seq<usize>, r: Seq<usize>, k: nat)
    requires
        is_perm(a),
        alter_chain(a, r, k),
    ensures
        is_perm(r),
        r.len() == a.len(),
        spec_dist(a, r) <= 2 * k,
    decreases k,
{
    if k == 0 {
        assert(r == a);
        lemma_dist_self(a);
    } else {
        let (b, x, y) = choose|b: Seq<usize>, x: usize, y: usize|
            x < a.len() && y < a.len() && alter_chain(a, b, (k - 1) as nat) && r
                == #[trigger] spec_compose(b, spec_swap(a.len(), x, y));
        lemma_alter_chain_props(a, b, (k - 1) as nat);
        lemma_perm_len_bound(a);
        let n = a.len();
        let s = spec_swap(n, x, y);
        lemma_swap_is_perm(n, x, y);
        crate::perm::lemma_compose_is_perm(b, s);
        lemma_inverse_props(a);
        let c = spec_compose(spec_inverse(a), b);
        crate::perm::lemma_compose_is_perm(spec_inverse(a), b);
        lemma_compose_assoc(spec_inverse(a), b, s);
        lemma_weight_compose_swap(c, x, y);
        assert(spec_dist(a, r) == spec_weight(spec_compose(c, s)));
        assert(spec_dist(a, b) == spec_weight(c));
    }
}

/// An involution's square sits at distance zero from the identity: the
/// exact target of the search whenever the goal permutation squares to
/// the identity.
pub proof fn lemma_involution_square_dist_zero(x: Seq<usize>)
    requires
        is_perm(x),
        spec_compose(x, x) == spec_identity(x.len()),
    ensures
        spec_dist(spec_power(x, 2), spec_identity(x.len())) == 0,
{
    lemma_perm_len_bound(x);
    lemma_identity_is_perm(x.len());
    lemma_compose_identity(x);
    assert(spec_power(x, 1) == spec_compose(spec_power(x, 0), x));
    assert(spec_power(x, 0) == spec_identity(x.len()));
    assert(spec_power(x, 1) == x);
    assert(spec_power(x, 2) == spec_compose(x, x));
    lemma_dist_self(spec_identity(x.len()));
}

/// A transposition is its own inverse under composition.
pub proof fn lemma_swap_self_inverse(n: nat, x: usize, y: usize)
    requires
        x < n,
        y < n,
        n <= usize::MAX + 1,
    ensures
        spec_compose(spec_swap(n, x, y), spec_swap(n, x, y)) == spec_identity(n),
{
    lemma_swap_is_perm(n, x, y);
    let s = spec_swap(n, x, y);
    let id = spec_identity(n);
    assert forall|i: int| 0 <= i < n implies spec_compose(s, s)[i] == id[i] by {
        assert(s[i] < n);
    }
    assert(spec_compose(s, s) =~= id);
}

} // verus!
