//! Cycle decomposition of a permutation in canonical form: each cycle
//! starts at its smallest index, fixed points are omitted, and the cycles
//! are ordered by their first (smallest) elements, which orders them
//! lexicographically as well.

use vstd::prelude::*;

use crate::perm::{is_perm, lemma_perm_len_bound, Perm};
use vstd::relations::injective;
use vstd::set_lib::{lemma_int_range, lemma_len_subset, set_int_range};

verus! {

/// `c` is one cycle of `a`: at least two indices, each sent to the next
/// and the last back to the first, no index repeated, and the smallest
/// index placed first.
pub open spec fn cycle_of(a: Seq<usize>, c: Seq<usize>) -> bool {
    &&& c.len() >= 2
    &&& forall|k: int| 0 <= k < c.len() ==> #[trigger] c[k] < a.len()
    &&& forall|k: int| 0 <= k < c.len() - 1 ==> a[(#[trigger] c[k]) as int] == c[k + 1]
    &&& a[c[c.len() - 1] as int] == c[0]
    &&& c.no_duplicates()
    &&& forall|k: int| 0 < k < c.len() ==> c[0] < #[trigger] c[k]
}

/// Some cycle in the list contains the index `v`.
pub open spec fn in_some_cycle(cs: Seq<Seq<usize>>, v: usize) -> bool {
    exists|ci: int| 0 <= ci < cs.len() && #[trigger] cs[ci].contains(v)
}

/// `cs` is the canonical cycle decomposition of `a`: disjoint cycles of
/// `a` that cover exactly the indices `a` moves, ordered by their first
/// elements.
pub open spec fn cycles_of(a: Seq<usize>, cs: Seq<Seq<usize>>) -> bool {
    &&& forall|ci: int| 0 <= ci < cs.len() ==> cycle_of(a, #[trigger] cs[ci])
    &&& forall|v: usize| v < a.len() ==> (#[trigger] in_some_cycle(cs, v) <==> a[v as int] != v)
    &&& forall|ci: int, cj: int, v: usize|
        0 <= ci < cj < cs.len() && #[trigger] cs[ci].contains(v) ==> !(#[trigger] cs[cj].contains(
            v,
        ))
    &&& forall|ci: int, cj: int|
        0 <= ci < cj < cs.len() ==> #[trigger] cs[ci][0] < #[trigger] cs[cj][0]
}

/// A sequence of distinct values below `n` has at most `n` entries.
pub proof fn lemma_distinct_bounded(s: Seq<usize>, n: nat)
    requires
        s.no_duplicates(),
        forall|k: int| 0 <= k < s.len() ==> #[trigger] s[k] < n,
    ensures
        s.len() <= n,
{
    broadcast use vstd::seq_lib::seq_to_set_is_finite;

    let f = |x: usize| x as int;
    assert(injective(f));
    let t = s.map_values(f);
    s.lemma_no_duplicates_injective(f);
    t.unique_seq_to_set();
    assert forall|x: int| t.to_set().contains(x) implies set_int_range(0, n as int).contains(
        x,
    ) by {
        let k = choose|k: int| 0 <= k < t.len() && t[k] == x;
        assert(s[k] < n);
    }
    assert(t.to_set().subset_of(set_int_range(0, n as int)));
    lemma_int_range(0, n as int);
    lemma_len_subset(t.to_set(), set_int_range(0, n as int));
}

/// Every index in a cycle of `a` is moved by `a`.
pub proof fn lemma_cycle_member_moved(a: Seq<usize>, c: Seq<usize>, k: int)
    requires
        cycle_of(a, c),
        0 <= k < c.len(),
    ensures
        a[c[k] as int] != c[k],
{
    if k < c.len() - 1 {
        assert(a[c[k] as int] == c[k + 1]);
        assert(c[k + 1] != c[k]);
    } else {
        assert(a[c[k] as int] == c[0]);
        assert(c[0] != c[k]);
    }
}

/// Only one index of `a` is sent into each member of a cycle, and it is
/// the cycle's own predecessor of that member.
pub proof fn lemma_cycle_closed_under_predecessor(a: Seq<usize>, c: Seq<usize>, u: usize, k: int)
    requires
        is_perm(a),
        cycle_of(a, c),
        0 <= k < c.len(),
        u < a.len(),
        a[u as int] == c[k],
    ensures
        c.contains(u),
{
    if k == 0 {
        assert(a[c[c.len() - 1] as int] == c[0]);
        assert(u == c[c.len() - 1]);
    } else {
        assert(a[c[k - 1] as int] == c[k]);
        assert(u == c[k - 1]);
    }
}

/// Decomposes `a` into its canonical list of disjoint cycles: within a
/// cycle each index is followed by its image under `a`, every moved index
/// appears in exactly one cycle, fixed points appear nowhere, each cycle
/// leads with its smallest index, and the cycles come sorted by those
/// leading indices.
#[verifier::rlimit(100)]
pub fn cycles(a: &Perm) -> (r: Vec<Vec<usize>>)
    requires
        is_perm(a@),
    ensures
        cycles_of(a@, r.deep_view()),
{
    let n = a.len();
    let mut visited: Vec<bool> = Vec::new();
    while visited.len() < n
        invariant
            visited@.len() <= n,
            forall|k: int| 0 <= k < visited@.len() ==> !(#[trigger] visited@[k]),
        decreases n - visited@.len(),
    {
        visited.push(false);
    }
    let mut cs: Vec<Vec<usize>> = Vec::new();
    let ghost mut gcs: Seq<Seq<usize>> = Seq::empty();
    let mut i: usize = 0;
    while i < n
        invariant
            i <= n,
            n == a@.len(),
            is_perm(a@),
            visited@.len() == n,
            gcs.len() == cs@.len(),
            forall|ci: int| 0 <= ci < gcs.len() ==> #[trigger] gcs[ci] == cs@[ci]@,
            forall|ci: int| 0 <= ci < gcs.len() ==> cycle_of(a@, #[trigger] gcs[ci]),
            forall|v: usize| v < n ==> (#[trigger] visited@[v as int] <==> in_some_cycle(gcs, v)),
            forall|v: usize| v < i ==> #[trigger] visited@[v as int] || a@[v as int] == v,
            forall|ci: int| 0 <= ci < gcs.len() ==> #[trigger] gcs[ci][0] < i,
            forall|ci: int, cj: int|
                0 <= ci < cj < gcs.len() ==> #[trigger] gcs[ci][0] < #[trigger] gcs[cj][0],
            forall|ci: int, cj: int, v: usize|
                0 <= ci < cj < gcs.len() && #[trigger] gcs[ci].contains(v) ==> !(
                #[trigger] gcs[cj].contains(v)),
        decreases n - i,
    {
        if !visited[i] && a[i] != i {
            let ghost vis0 = visited@;
            let mut cycle: Vec<usize> = Vec::new();
            cycle.push(i);
            visited.set(i, true);
            let mut j: usize = a[i];
            proof {
                assert forall|v: usize| v < n implies (#[trigger] visited@[v as int] <==> (
                vis0[v as int] || cycle@.contains(v))) by {
                    if cycle@.contains(v) {
                        assert(cycle@[0] == v);
                    }
                    if visited@[v as int] && v != i {
                        assert(vis0[v as int]);
                    }
                    if v == i {
                        assert(cycle@[0] == i);
                        assert(cycle@.contains(v));
                    }
                }
                if j != i && visited@[j as int] {
                    assert(vis0[j as int]);
                    let ci = choose|ci: int| 0 <= ci < gcs.len() && #[trigger] gcs[ci].contains(j);
                    let k = choose|k: int| 0 <= k < gcs[ci].len() && gcs[ci][k] == j;
                    lemma_cycle_closed_under_predecessor(a@, gcs[ci], i, k);
                    assert(in_some_cycle(gcs, i));
                    assert(false);
                }
            }
            while j != i
                invariant
                    n == a@.len(),
                    is_perm(a@),
                    visited@.len() == n,
                    i < n,
                    j < n,
                    a@[i as int] != i,
                    !vis0[i as int],
                    cycle@.len() >= 1,
                    cycle@.len() <= n,
                    cycle@[0] == i,
                    cycle@.no_duplicates(),
                    forall|k: int| 0 <= k < cycle@.len() ==> #[trigger] cycle@[k] < n,
                    forall|k: int|
                        0 <= k < cycle@.len() - 1 ==> a@[(#[trigger] cycle@[k]) as int] == cycle@[k
                            + 1],
                    a@[cycle@[cycle@.len() - 1] as int] == j,
                    forall|k: int| 0 < k < cycle@.len() ==> i < #[trigger] cycle@[k],
                    forall|v: usize| #[trigger] cycle@.contains(v) ==> !vis0[v as int],
                    forall|v: usize|
                        v < n ==> (#[trigger] visited@[v as int] <==> (vis0[v as int]
                            || cycle@.contains(v))),
                    j == i || !visited@[j as int],
                    vis0.len() == n,
                    forall|v: usize| v < i ==> #[trigger] vis0[v as int] || a@[v as int] == v,
                    forall|ci: int| 0 <= ci < gcs.len() ==> cycle_of(a@, #[trigger] gcs[ci]),
                    forall|v: usize| v < n ==> (#[trigger] vis0[v as int] <==> in_some_cycle(
                        gcs,
                        v,
                    )),
                decreases n - cycle@.len(),
            {
                proof {
                    // `j` is new: it joins the cycle, so the count of
                    // distinct indices below `n` grows.
                    assert(!cycle@.contains(j));
                    assert(cycle@.push(j).no_duplicates());
                    assert forall|k: int|
                        0 <= k < cycle@.push(j).len() implies #[trigger] cycle@.push(j)[k]
                        < n by {}
                    lemma_distinct_bounded(cycle@.push(j), n as nat);
                    // `j` is above `i`: indices below `i` are either in an
                    // old cycle (but `j` is unvisited) or fixed (but the
                    // cycle's last entry maps onto `j`, so `j` is not).
                    if j < i {
                        if a@[j as int] == j {
                            assert(a@[cycle@[cycle@.len() - 1] as int] == j);
                            assert(cycle@[cycle@.len() - 1] == j);
                            assert(cycle@.contains(j));
                        }
                        assert(false);
                    }
                }
                let j2 = a[j];
                proof {
                    // The next index either closes the cycle at `i` or is
                    // fresh: not in an old cycle, not walked yet, not `j`.
                    if j2 != i {
                        if vis0[j2 as int] {
                            let ci = choose|ci: int|
                                0 <= ci < gcs.len() && #[trigger] gcs[ci].contains(j2);
                            let k = choose|k: int| 0 <= k < gcs[ci].len() && gcs[ci][k] == j2;
                            lemma_cycle_closed_under_predecessor(a@, gcs[ci], j, k);
                            assert(in_some_cycle(gcs, j));
                            assert(false);
                        }
                        if cycle@.contains(j2) {
                            let k = choose|k: int| 0 <= k < cycle@.len() && cycle@[k] == j2;
                            if k > 0 {
                                assert(a@[(cycle@[k - 1]) as int] == cycle@[k]);
                                assert(cycle@[k - 1] == j);
                                assert(cycle@.contains(j));
                                assert(false);
                            } else {
                                assert(cycle@[0] == i);
                                assert(false);
                            }
                        }
                        if j2 == j {
                            let last = cycle@[cycle@.len() - 1];
                            assert(a@[last as int] == j);
                            assert(cycle@.contains(last));
                            assert(last != j);
                            assert(a@[j as int] == j2);
                            assert(false);
                        }
                    }
                }
                let ghost c0 = cycle@;
                cycle.push(j);
                visited.set(j, true);
                proof {
                    assert forall|v: usize| v < n implies (#[trigger] visited@[v as int] <==> (
                    vis0[v as int] || cycle@.contains(v))) by {
                        if cycle@.contains(v) {
                            let k = choose|k: int| 0 <= k < cycle@.len() && cycle@[k] == v;
                            if k < cycle@.len() - 1 {
                                assert(c0[k] == v);
                                assert(c0.contains(v));
                            } else {
                                assert(v == j);
                            }
                        }
                        if v != j && visited@[v as int] {
                            assert(vis0[v as int] || c0.contains(v));
                            if c0.contains(v) {
                                let k = choose|k: int| 0 <= k < c0.len() && c0[k] == v;
                                assert(cycle@[k] == v);
                                assert(cycle@.contains(v));
                            }
                        }
                        if v == j {
                            assert(cycle@[cycle@.len() - 1] == j);
                            assert(cycle@.contains(v));
                        }
                    }
                    assert forall|v: usize| #[trigger]
                        cycle@.contains(v) implies !vis0[v as int] by {
                        let k = choose|k: int| 0 <= k < cycle@.len() && cycle@[k] == v;
                        if k < cycle@.len() - 1 {
                            assert(c0[k] == v);
                            assert(c0.contains(v));
                        } else {
                            assert(v == j);
                        }
                    }
                }
                j = j2;
            }
            proof {
                // The walk closed at `i`, so the list is a genuine cycle.
                assert(a@[cycle@[cycle@.len() - 1] as int] == cycle@[0]);
                if cycle@.len() < 2 {
                    assert(cycle@[cycle@.len() - 1] == i);
                    assert(a@[i as int] == i);
                    assert(false);
                }
                assert(cycle_of(a@, cycle@));
            }
            let ghost oldgcs = gcs;
            proof {
                gcs = gcs.push(cycle@);
            }
            cs.push(cycle);
            proof {
                assert forall|v: usize| v < n implies (#[trigger] visited@[v as int]
                    <==> in_some_cycle(gcs, v)) by {
                    if visited@[v as int] {
                        if vis0[v as int] {
                            let ci = choose|ci: int|
                                0 <= ci < oldgcs.len() && #[trigger] oldgcs[ci].contains(v);
                            assert(gcs[ci].contains(v));
                        } else {
                            assert(cycle@.contains(v));
                            assert(gcs[gcs.len() - 1].contains(v));
                        }
                    }
                    if in_some_cycle(gcs, v) {
                        let ci = choose|ci: int| 0 <= ci < gcs.len() && #[trigger] gcs[ci].contains(
                            v,
                        );
                        if ci < oldgcs.len() {
                            assert(oldgcs[ci].contains(v));
                            assert(in_some_cycle(oldgcs, v));
                        } else {
                            assert(cycle@.contains(v));
                        }
                    }
                }
                assert forall|ci: int, cj: int, v: usize|
                    0 <= ci < cj < gcs.len() && #[trigger] gcs[ci].contains(v) implies !(
                #[trigger] gcs[cj].contains(v)) by {
                    if cj == gcs.len() - 1 {
                        if gcs[cj].contains(v) {
                            assert(cycle@.contains(v));
                            assert(oldgcs[ci].contains(v));
                            assert(in_some_cycle(oldgcs, v));
                            assert(vis0[v as int]);
                        }
                    }
                }
            }
        }
        i = i + 1;
    }
    proof {
        // The scan covered everything: moved indices sit in cycles, and
        // cycle members are moved.
        assert forall|v: usize| v < n implies (#[trigger] in_some_cycle(gcs, v) <==> a@[v as int]
            != v) by {
            if in_some_cycle(gcs, v) {
                let ci = choose|ci: int| 0 <= ci < gcs.len() && #[trigger] gcs[ci].contains(v);
                let k = choose|k: int| 0 <= k < gcs[ci].len() && gcs[ci][k] == v;
                lemma_cycle_member_moved(a@, gcs[ci], k);
            }
            if a@[v as int] != v {
                assert(visited@[v as int]);
            }
        }
        assert forall|ci: int| 0 <= ci < gcs.len() implies #[trigger] cs.deep_view()[ci]
            == gcs[ci] by {
            assert(cs.deep_view()[ci] =~= cs@[ci]@);
        }
        assert(cs.deep_view() =~= gcs);
        assert(cycles_of(a@, cs.deep_view()));
    }
    cs
}

/// Where a cycle sends `v`: the entry after `v`, wrapping from the last
/// entry back to the first.
pub open spec fn cycle_next(c: Seq<usize>, v: usize) -> usize {
    let k = choose|k: int| 0 <= k < c.len() && c[k] == v;
    if k == c.len() - 1 {
        c[0]
    } else {
        c[k + 1]
    }
}

/// The permutation of `0 .. n` that a list of cycles describes: an index
/// inside a cycle moves to that cycle's next entry, every other index
/// stays put.
pub open spec fn apply_cycles(cs: Seq<Seq<usize>>, n: nat) -> Seq<usize> {
    Seq::new(
        n,
        |v: int|
            if in_some_cycle(cs, v as usize) {
                let ci = choose|ci: int| 0 <= ci < cs.len() && #[trigger] cs[ci].contains(
                    v as usize,
                );
                cycle_next(cs[ci], v as usize)
            } else {
                v as usize
            },
    )
}

/// Applying the cycles of the canonical decomposition reconstructs the
/// permutation they were taken from, exactly.
pub proof fn lemma_cycles_reconstruct(a: Seq<usize>, cs: Seq<Seq<usize>>)
    requires
        is_perm(a),
        cycles_of(a, cs),
    ensures
        apply_cycles(cs, a.len()) == a,
{
    lemma_perm_len_bound(a);
    let n = a.len();
    let b = apply_cycles(cs, n);
    assert forall|v: int| 0 <= v < n implies b[v] == a[v] by {
        let vu = v as usize;
        if in_some_cycle(cs, vu) {
            let ci = choose|ci: int| 0 <= ci < cs.len() && #[trigger] cs[ci].contains(vu);
            let c = cs[ci];
            assert(cycle_of(a, c));
            let k = choose|k: int| 0 <= k < c.len() && c[k] == vu;
            if k == c.len() - 1 {
                assert(a[c[c.len() - 1] as int] == c[0]);
                assert(cycle_next(c, vu) == c[0]);
            } else {
                assert(a[(c[k]) as int] == c[k + 1]);
                assert(cycle_next(c, vu) == c[k + 1]);
            }
        } else {
            assert(a[v] == vu);
        }
    }
    assert(b =~= a);
}

} // verus!
