//! The permutation algebra: identity, composition, inversion, conjugation,
//! powers, transpositions, fixed-point weight, support and the distance
//! metric derived from it.
//!
//! A permutation of length `n` is a `Vec<usize>` whose entries are a
//! bijection on the indices `0 .. n`.

use vstd::prelude::*;

verus! {

/// A permutation is represented as a vector `a` where `a[i]` is the image
/// of index `i`.
pub type Perm = Vec<usize>;

/// Some index of `s` is sent to the value `v`.
pub open spec fn has_image(s: Seq<usize>, v: int) -> bool {
    exists|i: int| 0 <= i < s.len() && #[trigger] s[i] == v
}

/// `s` is a bijection on the indices `0 .. s.len()`: every entry is in
/// range, no entry repeats, and every index occurs as an entry.
pub open spec fn is_perm(s: Seq<usize>) -> bool {
    &&& forall|i: int| 0 <= i < s.len() ==> #[trigger] s[i] < s.len()
    &&& forall|i: int, j: int|
        0 <= i < s.len() && 0 <= j < s.len() && i != j ==> #[trigger] s[i] != #[trigger] s[j]
    &&& forall|v: int| 0 <= v < s.len() ==> #[trigger] has_image(s, v)
}

/// The identity permutation of length `n`.
pub open spec fn spec_identity(n: nat) -> Seq<usize> {
    Seq::new(n, |i: int| i as usize)
}

/// `a` followed by `b`: index `i` goes to `b[a[i]]`.
pub open spec fn spec_compose(a: Seq<usize>, b: Seq<usize>) -> Seq<usize> {
    Seq::new(a.len(), |i: int| b[a[i] as int])
}

/// The inverse of `a`: the entry at `j` is the index that `a` sends to `j`.
pub open spec fn spec_inverse(a: Seq<usize>) -> Seq<usize> {
    Seq::new(a.len(), |j: int| choose|i: usize| i < a.len() && a[i as int] == j)
}

/// A permutation's entries are `usize` values, so its length cannot go
/// past `usize::MAX + 1`.
pub proof fn lemma_perm_len_bound(s: Seq<usize>)
    requires
        is_perm(s),
    ensures
        s.len() <= usize::MAX + 1,
{
    if s.len() > usize::MAX + 1 {
        let v = usize::MAX as int + 1;
        assert(has_image(s, v));
        let i = choose|i: int| 0 <= i < s.len() && #[trigger] s[i] == v;
        assert(s[i] <= usize::MAX);
        assert(false);
    }
}

pub proof fn lemma_identity_is_perm(n: nat)
    requires
        n <= usize::MAX + 1,
    ensures
        is_perm(spec_identity(n)),
{
    let s = spec_identity(n);
    assert forall|v: int| 0 <= v < s.len() implies #[trigger] has_image(s, v) by {
        assert(s[v] == v);
    }
}

/// The basic facts about the inverse of a permutation: it is itself a
/// permutation, and it undoes `a` on both sides.
pub proof fn lemma_inverse_props(a: Seq<usize>)
    requires
        is_perm(a),
    ensures
        spec_inverse(a).len() == a.len(),
        is_perm(spec_inverse(a)),
        forall|j: int| 0 <= j < a.len() ==> #[trigger] spec_inverse(a)[j] < a.len(),
        forall|j: int| 0 <= j < a.len() ==> a[#[trigger] spec_inverse(a)[j] as int] == j,
        forall|i: int| 0 <= i < a.len() ==> #[trigger] spec_inverse(a)[a[i] as int] == i,
{
    let inv = spec_inverse(a);
    let n = a.len();
    lemma_perm_len_bound(a);
    assert forall|j: int| 0 <= j < n implies inv[j] < n && a[#[trigger] inv[j] as int] == j by {
        assert(has_image(a, j));
        let w = choose|i: int| 0 <= i < a.len() && #[trigger] a[i] == j;
        assert(a[w] == j);
        assert(w <= usize::MAX);
        let wu = w as usize;
        assert(wu < n && a[wu as int] == j);
        let c = choose|i: usize| i < a.len() && a[i as int] == j;
        assert(c < n && a[c as int] == j);
    }
    assert forall|i: int| 0 <= i < n implies #[trigger] inv[a[i] as int] == i by {
        let j = a[i] as int;
        assert(a[inv[j] as int] == j);
        assert(inv[j] as int == i);
    }
    assert forall|v: int| 0 <= v < n implies #[trigger] has_image(inv, v) by {
        assert(0 <= a[v] < n);
        assert(inv[a[v] as int] == v);
    }
}

fn identity_impl(n: usize) -> (r: Perm)
    ensures
        r@ == spec_identity(n as nat),
{
    let mut c: Vec<usize> = Vec::new();
    let mut i: usize = 0;
    while i < n
        invariant
            i <= n,
            c@.len() == i,
            forall|k: int| 0 <= k < i ==> #[trigger] c@[k] == k,
        decreases n - i,
    {
        c.push(i);
        i = i + 1;
    }
    proof {
        assert(c@ =~= spec_identity(n as nat));
    }
    c
}

/// The identity permutation of length `n` as a vector.
pub fn identity(n: usize) -> (r: Perm)
    ensures
        r@ == spec_identity(n as nat),
        is_perm(r@),
        r@.len() == n,
{
    proof {
        lemma_identity_is_perm(n as nat);
    }
    identity_impl(n)
}

/// Composition of permutations is a permutation.
pub proof fn lemma_compose_is_perm(a: Seq<usize>, b: Seq<usize>)
    requires
        is_perm(a),
        is_perm(b),
        a.len() == b.len(),
    ensures
        is_perm(spec_compose(a, b)),
{
    let c = spec_compose(a, b);
    let n = a.len();
    assert forall|v: int| 0 <= v < n implies #[trigger] has_image(c, v) by {
        assert(has_image(b, v));
        let j = choose|j: int| 0 <= j < b.len() && #[trigger] b[j] == v;
        assert(b[j] == v);
        assert(has_image(a, j));
        let i = choose|i: int| 0 <= i < a.len() && #[trigger] a[i] == j;
        assert(a[i] == j);
        assert(c[i] == v);
    }
}

/// `a` followed by `b`: returns the permutation sending `i` to `b[a[i]]`.
/// Both operands must be permutations of the same length.
pub fn compose(a: &Perm, b: &Perm) -> (r: Perm)
    requires
        is_perm(a@),
        is_perm(b@),
        a@.len() == b@.len(),
    ensures
        r@ == spec_compose(a@, b@),
        is_perm(r@),
        r@.len() == a@.len(),
{
    let n = a.len();
    let mut c: Vec<usize> = Vec::new();
    let mut i: usize = 0;
    while i < n
        invariant
            i <= n,
            n == a@.len(),
            n == b@.len(),
            is_perm(a@),
            c@.len() == i,
            forall|k: int| 0 <= k < i ==> #[trigger] c@[k] == b@[a@[k] as int],
        decreases n - i,
    {
        let ai = a[i];
        c.push(b[ai]);
        i = i + 1;
    }
    proof {
        assert(c@ =~= spec_compose(a@, b@));
        lemma_compose_is_perm(a@, b@);
    }
    c
}

/// Inverse of `a`: returns the permutation `c` with `c[a[i]] == i` for
/// every index `i`.
pub fn inverse(a: &Perm) -> (r: Perm)
    requires
        is_perm(a@),
    ensures
        r@ == spec_inverse(a@),
        is_perm(r@),
        r@.len() == a@.len(),
{
    let n = a.len();
    let mut c: Vec<usize> = Vec::new();
    while c.len() < n
        invariant
            c@.len() <= n,
        decreases n - c@.len(),
    {
        c.push(0);
    }
    let mut i: usize = 0;
    while i < n
        invariant
            i <= n,
            n == a@.len(),
            is_perm(a@),
            c@.len() == n,
            forall|k: int| 0 <= k < i ==> #[trigger] c@[a@[k] as int] == k,
        decreases n - i,
    {
        let j = a[i];
        c.set(j, i);
        i = i + 1;
    }
    proof {
        lemma_inverse_props(a@);
        let inv = spec_inverse(a@);
        assert forall|j: int| 0 <= j < n implies c@[j] == inv[j] by {
            let k = inv[j] as int;
            assert(a@[k] == j);
            assert(c@[a@[k] as int] == k);
        }
        assert(c@ =~= inv);
    }
    c
}

/// The transposition of `x` and `y` inside `0 .. n`: `x` goes to `y`, `y`
/// goes to `x`, everything else stays put. For `x == y` it is the identity.
pub open spec fn spec_swap(n: nat, x: usize, y: usize) -> Seq<usize> {
    Seq::new(n, |i: int| if i == x { y } else if i == y { x } else { i as usize })
}

pub proof fn lemma_swap_is_perm(n: nat, x: usize, y: usize)
    requires
        x < n,
        y < n,
        n <= usize::MAX + 1,
    ensures
        is_perm(spec_swap(n, x, y)),
{
    let s = spec_swap(n, x, y);
    assert forall|v: int| 0 <= v < n implies #[trigger] has_image(s, v) by {
        if v == y {
            assert(s[x as int] == v);
        } else if v == x {
            assert(s[y as int] == v);
        } else {
            assert(s[v] == v);
        }
    }
}

/// The transposition exchanging positions `x` and `y` of the identity on
/// `0 .. n` (the identity itself when `x == y`).
pub fn swap(n: usize, x: usize, y: usize) -> (r: Perm)
    requires
        x < n,
        y < n,
    ensures
        r@ == spec_swap(n as nat, x, y),
        is_perm(r@),
        r@.len() == n,
{
    let mut a = identity(n);
    a.set(x, y);
    a.set(y, x);
    proof {
        assert(a@ =~= spec_swap(n as nat, x, y));
        lemma_swap_is_perm(n as nat, x, y);
    }
    a
}

/// Conjugation of `b` by `a`: `inverse(a)`, then `b`, then `a`, in the
/// composition order used throughout.
pub open spec fn spec_conj(a: Seq<usize>, b: Seq<usize>) -> Seq<usize> {
    spec_compose(spec_compose(spec_inverse(a), b), a)
}

/// Conjugation of `b` by `a`: `compose(compose(inverse(a), b), a)`.
pub fn conj(a: &Perm, b: &Perm) -> (r: Perm)
    requires
        is_perm(a@),
        is_perm(b@),
        a@.len() == b@.len(),
    ensures
        r@ == spec_conj(a@, b@),
        is_perm(r@),
        r@.len() == a@.len(),
{
    proof {
        lemma_inverse_props(a@);
    }
    compose(&compose(&inverse(a), b), a)
}

/// `a` composed with itself `k` times; the empty product is the identity.
pub open spec fn spec_power(a: Seq<usize>, k: nat) -> Seq<usize>
    decreases k,
{
    if k == 0 {
        spec_identity(a.len())
    } else {
        spec_compose(spec_power(a, (k - 1) as nat), a)
    }
}

/// `a` composed with itself `k` times, built by iterated composition;
/// `k == 0` yields the identity.
pub fn power(a: &Perm, k: u32) -> (r: Perm)
    requires
        is_perm(a@),
    ensures
        r@ == spec_power(a@, k as nat),
        is_perm(r@),
        r@.len() == a@.len(),
{
    let n = a.len();
    let mut b = identity(n);
    let mut t: u32 = 0;
    while t < k
        invariant
            t <= k,
            is_perm(a@),
            n == a@.len(),
            b@ == spec_power(a@, t as nat),
            is_perm(b@),
            b@.len() == n,
        decreases k - t,
    {
        b = compose(&b, a);
        t = t + 1;
    }
    b
}

/// The non-fixed indices of `s` below `k`, in increasing order.
pub open spec fn support_upto(s: Seq<usize>, k: nat) -> Seq<usize>
    decreases k,
{
    if k == 0 {
        Seq::empty()
    } else if s[k - 1] != k - 1 {
        support_upto(s, (k - 1) as nat).push((k - 1) as usize)
    } else {
        support_upto(s, (k - 1) as nat)
    }
}

/// The support of `s`: all indices that `s` moves, in increasing order.
pub open spec fn spec_support(s: Seq<usize>) -> Seq<usize> {
    support_upto(s, s.len())
}

/// The weight of `s`: how many indices `s` moves.
pub open spec fn spec_weight(s: Seq<usize>) -> nat {
    spec_support(s).len()
}

/// What `support_upto` yields: a sorted list of exactly the non-fixed
/// indices below `k`.
pub proof fn lemma_support_upto(s: Seq<usize>, k: nat)
    requires
        k <= s.len(),
        k <= usize::MAX + 1,
    ensures
        support_upto(s, k).len() <= k,
        forall|m: int|
            0 <= m < support_upto(s, k).len() ==> #[trigger] support_upto(s, k)[m] < k
                && s[support_upto(s, k)[m] as int] != support_upto(s, k)[m],
        forall|m1: int, m2: int|
            0 <= m1 < m2 < support_upto(s, k).len() ==> support_upto(s, k)[m1]
                < support_upto(s, k)[m2],
        forall|v: usize| v < k && s[v as int] != v ==> #[trigger] support_upto(s, k).contains(v),
    decreases k,
{
    if k > 0 {
        let prev = support_upto(s, (k - 1) as nat);
        let cur = support_upto(s, k);
        lemma_support_upto(s, (k - 1) as nat);
        assert forall|v: usize| v < k && s[v as int] != v implies #[trigger] cur.contains(v) by {
            if v < k - 1 {
                assert(prev.contains(v));
                let m = choose|m: int| 0 <= m < prev.len() && prev[m] == v;
                assert(cur[m] == v);
            } else {
                assert(s[k - 1] != k - 1);
                assert(cur[cur.len() - 1] == v);
            }
        }
    }
}

/// Two sequences with the same fixed points below `k` have the same
/// support there.
pub proof fn lemma_support_upto_congruent(s1: Seq<usize>, s2: Seq<usize>, k: nat)
    requires
        forall|i: int| 0 <= i < k ==> ((#[trigger] s1[i] == i) <==> (#[trigger] s2[i] == i)),
    ensures
        support_upto(s1, k) == support_upto(s2, k),
    decreases k,
{
    if k > 0 {
        lemma_support_upto_congruent(s1, s2, (k - 1) as nat);
    }
}

/// The number of indices that `a` moves: its length minus its count of
/// fixed points.
pub fn weight(a: &Perm) -> (r: i32)
    requires
        a@.len() <= i32::MAX,
    ensures
        r == spec_weight(a@),
        0 <= r <= a@.len(),
{
    let n = a.len();
    let mut fixed: i32 = 0;
    let mut i: usize = 0;
    while i < n
        invariant
            i <= n,
            n == a@.len(),
            n <= i32::MAX,
            0 <= fixed <= i,
            fixed == i - support_upto(a@, i as nat).len(),
            support_upto(a@, i as nat).len() <= i,
        decreases n - i,
    {
        proof {
            lemma_support_upto(a@, (i + 1) as nat);
        }
        if a[i] == i {
            fixed = fixed + 1;
        }
        i = i + 1;
    }
    (n as i32) - fixed
}

/// The sorted list of indices where `a` differs from the identity.
pub fn support(a: &Perm) -> (r: Vec<usize>)
    ensures
        r@ == spec_support(a@),
{
    let n = a.len();
    let mut c: Vec<usize> = Vec::new();
    let mut i: usize = 0;
    while i < n
        invariant
            i <= n,
            n == a@.len(),
            c@ == support_upto(a@, i as nat),
        decreases n - i,
    {
        if a[i] != i {
            c.push(i);
        }
        i = i + 1;
    }
    c
}

/// The right-invariant distance between `a` and `b`: the weight of
/// `compose(inverse(a), b)`. It is zero exactly when `a == b`.
pub open spec fn spec_dist(a: Seq<usize>, b: Seq<usize>) -> nat {
    spec_weight(spec_compose(spec_inverse(a), b))
}

/// Distance from `a` to `b`: the weight of `compose(inverse(a), b)`.
pub fn dist(a: &Perm, b: &Perm) -> (r: i32)
    requires
        is_perm(a@),
        is_perm(b@),
        a@.len() == b@.len(),
        a@.len() <= i32::MAX,
    ensures
        r == spec_dist(a@, b@),
        0 <= r <= a@.len(),
{
    proof {
        lemma_inverse_props(a@);
    }
    weight(&compose(&inverse(a), b))
}

/// A rearrangement of a permutation's entries is again a permutation:
/// equality of multisets keeps every index present exactly once.
pub proof fn lemma_rearranged_perm(s1: Seq<usize>, s2: Seq<usize>)
    requires
        is_perm(s1),
        s2.to_multiset() == s1.to_multiset(),
        s2.len() == s1.len(),
    ensures
        is_perm(s2),
{
    broadcast use vstd::seq_lib::group_to_multiset_ensures;

    let n = s1.len();
    s1.lemma_multiset_has_no_duplicates();
    s2.lemma_multiset_has_no_duplicates_conv();
    assert forall|i: int| 0 <= i < n implies #[trigger] s2[i] < n by {
        assert(s2.contains(s2[i]));
        assert(s2.to_multiset().count(s2[i]) > 0);
        assert(s1.to_multiset().count(s2[i]) > 0);
        assert(s1.contains(s2[i]));
        let j = choose|j: int| 0 <= j < s1.len() && s1[j] == s2[i];
        assert(s1[j] < n);
    }
    assert forall|v: int| 0 <= v < n implies #[trigger] has_image(s2, v) by {
        assert(has_image(s1, v));
        let i = choose|i: int| 0 <= i < s1.len() && #[trigger] s1[i] == v;
        assert(s1.contains(s1[i]));
        assert(s1.to_multiset().count(s1[i]) > 0);
        assert(s2.to_multiset().count(s1[i]) > 0);
        assert(s2.contains(s1[i]));
        let j = choose|j: int| 0 <= j < s2.len() && s2[j] == s1[i];
        assert(s2[j] == v);
    }
}

/// A uniformly random permutation of length `n`, drawn by shuffling the
/// identity.
pub fn random(n: usize) -> (r: Perm)
    ensures
        is_perm(r@),
        r@.len() == n,
{
    let mut a = identity(n);
    let ghost id = a@;
    crate::rng::rand_shuffle(&mut a);
    proof {
        lemma_rearranged_perm(id, a@);
    }
    a
}

/// A transposition of two positions drawn independently and uniformly
/// from `0 .. n`; the two draws may coincide, yielding the identity.
#[allow(non_snake_case)]
pub fn randomSwap(n: usize) -> (r: Perm)
    requires
        n > 0,
    ensures
        is_perm(r@),
        r@.len() == n,
        exists|x: usize, y: usize| x < n && y < n && r@ == spec_swap(n as nat, x, y),
{
    let x = crate::rng::rand_below(n);
    let y = crate::rng::rand_below(n);
    let r = swap(n, x, y);
    proof {
        assert(x < n && y < n && r@ == spec_swap(n as nat, x, y));
    }
    r
}

/// A transposition whose first leg is drawn from the given support set
/// when that set is non-empty, and whose second leg is uniform over
/// `0 .. n`; with an empty support set it falls back to `randomSwap`.
#[allow(non_snake_case)]
pub fn halfRandomSwap(n: usize, support: &Vec<usize>) -> (r: Perm)
    requires
        n > 0,
        forall|k: int| 0 <= k < support@.len() ==> #[trigger] support@[k] < n,
    ensures
        is_perm(r@),
        r@.len() == n,
        exists|x: usize, y: usize| x < n && y < n && r@ == spec_swap(n as nat, x, y),
        support@.len() > 0 ==> exists|x: usize, y: usize|
            support@.contains(x) && y < n && r@ == spec_swap(n as nat, x, y),
{
    if support.len() == 0 {
        randomSwap(n)
    } else {
        let s = crate::rng::rand_element(support);
        proof {
            let m = choose|m: int| 0 <= m < support@.len() && support@[m] == s;
            assert(support@[m] < n);
        }
        let y = crate::rng::rand_below(n);
        let r = swap(n, s, y);
        proof {
            assert(support@.contains(s) && y < n && r@ == spec_swap(n as nat, s, y));
        }
        r
    }
}

/// Right-multiplies `a` by a random transposition.
pub fn alter(a: &Perm) -> (r: Perm)
    requires
        is_perm(a@),
        a@.len() > 0,
    ensures
        is_perm(r@),
        r@.len() == a@.len(),
        exists|x: usize, y: usize|
            x < a@.len() && y < a@.len() && r@ == spec_compose(
                a@,
                spec_swap(a@.len(), x, y),
            ),
{
    let d = randomSwap(a.len());
    let r = compose(a, &d);
    proof {
        let (x, y) = choose|x: usize, y: usize|
            x < a@.len() && y < a@.len() && d@ == spec_swap(a@.len(), x, y);
        assert(x < a@.len() && y < a@.len() && r@ == spec_compose(a@, spec_swap(a@.len(), x, y)));
    }
    r
}

/// `r` comes from `a` by right-composing `k` transpositions of
/// `0 .. a.len()` in sequence, each possibly the identity when its two
/// legs coincide.
pub open spec fn alter_chain(a: Seq<usize>, r: Seq<usize>, k: nat) -> bool
    decreases k,
{
    if k == 0 {
        r == a
    } else {
        exists|b: Seq<usize>, x: usize, y: usize|
            x < a.len() && y < a.len() && alter_chain(a, b, (k - 1) as nat) && r
                == #[trigger] spec_compose(b, spec_swap(a.len(), x, y))
    }
}

/// Applies `alter` to `a` a total of `k` times in sequence: the result
/// is `a` right-composed with `k` random transpositions.
#[allow(non_snake_case)]
pub fn alterK(a: &Perm, k: u32) -> (r: Perm)
    requires
        is_perm(a@),
        k > 0 ==> a@.len() > 0,
    ensures
        is_perm(r@),
        r@.len() == a@.len(),
        alter_chain(a@, r@, k as nat),
        k == 0 ==> r@ == a@,
{
    let mut b = a.clone();
    proof {
        assert(b@ =~= a@);
    }
    let mut t: u32 = 0;
    while t < k
        invariant
            t <= k,
            is_perm(b@),
            b@.len() == a@.len(),
            k > 0 ==> a@.len() > 0,
            k == 0 ==> b@ == a@,
            alter_chain(a@, b@, t as nat),
        decreases k - t,
    {
        let ghost b0 = b@;
        b = alter(&b);
        proof {
            let (x, y) = choose|x: usize, y: usize|
                x < b0.len() && y < b0.len() && b@ == spec_compose(b0, spec_swap(b0.len(), x, y));
            assert(b@ == spec_compose(b0, spec_swap(a@.len(), x, y)));
            assert(alter_chain(a@, b@, (t + 1) as nat));
        }
        t = t + 1;
    }
    b
}

/// A perturbation biased toward undoing `a`: with one chance in ten the
/// exact inverse of `a`; otherwise a product of three transpositions,
/// each exchanging a randomly drawn moved index `i` with its image
/// `a[i]`; the identity when `a` moves nothing.
#[allow(non_snake_case)]
pub fn makeDelta(a: &Perm) -> (r: Perm)
    requires
        is_perm(a@),
    ensures
        is_perm(r@),
        r@.len() == a@.len(),
        r@ == spec_inverse(a@) || (spec_support(a@).len() == 0 && r@ == spec_identity(a@.len()))
            || exists|i1: usize, i2: usize, i3: usize|
            {
                &&& #[trigger] spec_support(a@).contains(i1)
                &&& #[trigger] spec_support(a@).contains(i2)
                &&& #[trigger] spec_support(a@).contains(i3)
                &&& r@ == spec_compose(
                    spec_compose(
                        spec_swap(a@.len(), i1, a@[i1 as int]),
                        spec_swap(a@.len(), i2, a@[i2 as int]),
                    ),
                    spec_swap(a@.len(), i3, a@[i3 as int]),
                )
            },
{
    let n = a.len();
    if crate::rng::rand_below(10) < 1 {
        return inverse(a);
    }
    let sup = support(a);
    proof {
        lemma_support_upto(a@, n as nat);
    }
    if sup.len() > 0 {
        let mut delta = identity(n);
        let ghost mut w1: usize = 0;
        let ghost mut w2: usize = 0;
        let ghost mut w3: usize = 0;
        let mut t: u32 = 0;
        while t < 3
            invariant
                t <= 3,
                n == a@.len(),
                is_perm(a@),
                is_perm(delta@),
                delta@.len() == n,
                sup@ == spec_support(a@),
                sup@.len() > 0,
                forall|m: int| 0 <= m < sup@.len() ==> #[trigger] sup@[m] < n,
                t == 0 ==> delta@ == spec_identity(n as nat),
                t >= 1 ==> sup@.contains(w1),
                t == 1 ==> delta@ == spec_swap(n as nat, w1, a@[w1 as int]),
                t >= 2 ==> sup@.contains(w2),
                t == 2 ==> delta@ == spec_compose(
                    spec_swap(n as nat, w1, a@[w1 as int]),
                    spec_swap(n as nat, w2, a@[w2 as int]),
                ),
                t >= 3 ==> sup@.contains(w3),
                t == 3 ==> delta@ == spec_compose(
                    spec_compose(
                        spec_swap(n as nat, w1, a@[w1 as int]),
                        spec_swap(n as nat, w2, a@[w2 as int]),
                    ),
                    spec_swap(n as nat, w3, a@[w3 as int]),
                ),
            decreases 3 - t,
        {
            let i = crate::rng::rand_element(&sup);
            proof {
                let m = choose|m: int| 0 <= m < sup@.len() && sup@[m] == i;
                assert(sup@[m] < n);
            }
            delta = compose(&delta, &swap(n, i, a[i]));
            proof {
                if t == 0 {
                    w1 = i;
                    let s = spec_swap(n as nat, i, a@[i as int]);
                    assert forall|q: int| 0 <= q < n implies spec_compose(
                        spec_identity(n as nat),
                        s,
                    )[q] == s[q] by {
                        assert(spec_identity(n as nat)[q] == q as usize);
                    }
                    assert(spec_compose(spec_identity(n as nat), s) =~= s);
                } else if t == 1 {
                    w2 = i;
                } else {
                    w3 = i;
                }
            }
            t = t + 1;
        }
        proof {
            assert(spec_support(a@).contains(w1) && spec_support(a@).contains(w2)
                && spec_support(a@).contains(w3) && delta@ == spec_compose(
                spec_compose(
                    spec_swap(a@.len(), w1, a@[w1 as int]),
                    spec_swap(a@.len(), w2, a@[w2 as int]),
                ),
                spec_swap(a@.len(), w3, a@[w3 as int]),
            ));
        }
        delta
    } else {
        identity(n)
    }
}

} // verus!
