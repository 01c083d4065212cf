//! The local search driver: starting from a candidate `x`, repeatedly
//! propose a single-transposition perturbation aimed at the residual
//! between `x * x` and the target square, and accept it whenever the
//! distance to the target square does not grow. Greedy descent with
//! sideways moves: a proposal is never accepted when it would regress.

use vstd::prelude::*;

use crate::perm::{
    compose, dist, inverse, is_perm, lemma_support_upto, power, spec_compose, spec_dist,
    spec_inverse, spec_power, spec_support, spec_swap, support, swap, Perm,
};

verus! {

/// The residual of a candidate `x` against the target square `a2`: the
/// permutation by which `x * x` deviates from `a2`.
pub open spec fn spec_residual(x: Seq<usize>, a2: Seq<usize>) -> Seq<usize> {
    spec_compose(spec_power(x, 2), spec_inverse(a2))
}

/// One iteration of the square-root search. Scores the candidate `x`
/// against the target square `a2`, perturbs it by a transposition taken
/// from the residual's support, and keeps whichever of the two scores no
/// worse. Returns the next candidate, its distance to `a2`, and whether
/// the move strictly improved.
pub fn search_step(x: &Perm, a2: &Perm) -> (r: (Perm, i32, bool))
    requires
        is_perm(x@),
        is_perm(a2@),
        x@.len() == a2@.len(),
        x@.len() <= i32::MAX,
    ensures
        is_perm(r.0@),
        r.0@.len() == x@.len(),
        r.1 == spec_dist(spec_power(r.0@, 2), a2@),
        spec_dist(spec_power(r.0@, 2), a2@) <= spec_dist(spec_power(x@, 2), a2@),
        r.2 <==> spec_dist(spec_power(r.0@, 2), a2@) < spec_dist(spec_power(x@, 2), a2@),
        r.0@ == x@ || exists|i: usize|
            {
                &&& i < x@.len()
                &&& #[trigger] spec_support(spec_residual(x@, a2@)).contains(i)
                &&& spec_residual(x@, a2@)[i as int] < x@.len()
                &&& r.0@ == spec_compose(
                    spec_swap(x@.len(), i, spec_residual(x@, a2@)[i as int]),
                    x@,
                )
            },
{
    let n = x.len();
    let x2 = power(x, 2);
    let wx = dist(&x2, a2);
    let err = compose(&x2, &inverse(a2));
    let sup = support(&err);
    if sup.len() == 0 {
        // The residual moves nothing: the candidate's square already
        // matches the target square, and the candidate stands.
        return (x.clone(), wx, false);
    }
    let i = crate::rng::rand_element(&sup);
    proof {
        lemma_support_upto(err@, err@.len());
        let m = choose|m: int| 0 <= m < sup@.len() && sup@[m] == i;
        assert(sup@[m] < err@.len() && err@[sup@[m] as int] != sup@[m]);
    }
    let delta = swap(n, i, err[i]);
    let y = compose(&delta, x);
    let y2 = power(&y, 2);
    let wy = dist(&y2, a2);
    if wy <= wx {
        proof {
            let ei = err@[i as int];
            assert(err@ == spec_residual(x@, a2@));
            assert(i < x@.len() && spec_support(spec_residual(x@, a2@)).contains(i) && ei
                < x@.len() && y@ == spec_compose(spec_swap(x@.len(), i, ei), x@));
        }
        (y, wy, wy < wx)
    } else {
        (x.clone(), wx, false)
    }
}

/// Runs the square-root search for `iters` iterations from the candidate
/// `x0`, recording `(iteration, distance)` at every strict improvement.
/// The distance of the candidate to `a2`'s side never increases along the
/// run, so the recorded distances are strictly decreasing and the final
/// candidate scores no worse than the recorded ones or the start.
pub fn run_search(x0: &Perm, a2: &Perm, iters: u32) -> (r: (Perm, Vec<(u32, i32)>))
    requires
        is_perm(x0@),
        is_perm(a2@),
        x0@.len() == a2@.len(),
        x0@.len() <= i32::MAX,
    ensures
        is_perm(r.0@),
        r.0@.len() == x0@.len(),
        spec_dist(spec_power(r.0@, 2), a2@) <= spec_dist(spec_power(x0@, 2), a2@),
        forall|k1: int, k2: int| 0 <= k1 < k2 < r.1@.len() ==> r.1@[k1].1 > r.1@[k2].1,
        forall|k1: int, k2: int| 0 <= k1 < k2 < r.1@.len() ==> r.1@[k1].0 < r.1@[k2].0,
        forall|k: int| 0 <= k < r.1@.len() ==> 1 <= #[trigger] r.1@[k].0 <= iters,
        r.1@.len() > 0 ==> spec_dist(spec_power(r.0@, 2), a2@) <= r.1@[r.1@.len() - 1].1,
{
    let mut x = x0.clone();
    let mut progress: Vec<(u32, i32)> = Vec::new();
    let mut wcur = dist(&power(&x, 2), a2);
    let ghost d0 = spec_dist(spec_power(x0@, 2), a2@);
    let mut c: u32 = 0;
    while c < iters
        invariant
            c <= iters,
            is_perm(x@),
            is_perm(a2@),
            x@.len() == a2@.len(),
            x@.len() == x0@.len(),
            x@.len() <= i32::MAX,
            wcur == spec_dist(spec_power(x@, 2), a2@),
            spec_dist(spec_power(x@, 2), a2@) <= d0,
            d0 == spec_dist(spec_power(x0@, 2), a2@),
            forall|k1: int, k2: int|
                0 <= k1 < k2 < progress@.len() ==> progress@[k1].1 > progress@[k2].1,
            forall|k1: int, k2: int|
                0 <= k1 < k2 < progress@.len() ==> progress@[k1].0 < progress@[k2].0,
            forall|k: int| 0 <= k < progress@.len() ==> 1 <= #[trigger] progress@[k].0 <= c,
            progress@.len() > 0 ==> wcur <= progress@[progress@.len() - 1].1,
        decreases iters - c,
    {
        let step = search_step(&x, a2);
        let improved = step.2;
        let w = step.1;
        x = step.0;
        if improved {
            progress.push((c + 1, w));
        }
        wcur = w;
        c = c + 1;
    }
    (x, progress)
}

/// Across a whole run, the recorded distances are non-increasing: once
/// no single step raises the distance — which is what `search_step`
/// guarantees of the acceptance rule — no later value of the sequence
/// exceeds any earlier one.
pub proof fn lemma_run_distances_non_increasing(ws: Seq<int>, t1: int, t2: int)
    requires
        forall|t: int| 0 < t < ws.len() ==> #[trigger] ws[t] <= ws[t - 1],
        0 <= t1 <= t2 < ws.len(),
    ensures
        ws[t2] <= ws[t1],
    decreases t2 - t1,
{
    if t2 > t1 {
        lemma_run_distances_non_increasing(ws, t1, t2 - 1);
    }
}

} // verus!
