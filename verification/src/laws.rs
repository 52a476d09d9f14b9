use vstd::prelude::*;

use crate::engine::{fit_post, matches_state, seeds_ok, Config, Error, Init, MAX_ITERS};
use crate::geometry::{Centroid, Point, RCent, RFrac, c_wf, d2_frac, f_wf, frac_le, frac_lt};
use crate::model::{
    cents_wf, cm, converged_at, data_wf, init_state, iter_state, lab, lemma_d2_wf, lemma_iter_wf,
    lemma_mul_le_mono, lemma_pass_wf, lemma_scan_nearest, lemma_upd_center_wf, pass_dists, scan,
    step, success_at, upd_centers,
};

verus! {

/// Determinism under a fixed initialization: any two label/centroid pairs
/// that `fit`'s contract admits for the same data and the same seed
/// centroids are identical, because the first converged iteration is
/// unique and the iteration itself is a function of its inputs.
pub proof fn lemma_fit_deterministic(
    data: Seq<Point>,
    c0: Seq<RCent>,
    m1: nat,
    m2: nat,
    l1: Seq<usize>,
    cs1: Seq<Centroid>,
    l2: Seq<usize>,
    cs2: Seq<Centroid>,
)
    requires
        success_at(data, c0, m1),
        matches_state(l1, cs1, iter_state(data, c0, m1)),
        success_at(data, c0, m2),
        matches_state(l2, cs2, iter_state(data, c0, m2)),
    ensures
        l1 == l2,
        cs1 == cs2,
{
    if m1 < m2 {
        assert(!converged_at(data, c0, m1));
        assert(false);
    }
    if m2 < m1 {
        assert(!converged_at(data, c0, m2));
        assert(false);
    }
    let s = iter_state(data, c0, m1);
    assert(l1.len() == lab(l1).len() && l2.len() == lab(l2).len());
    assert(l1.len() == s.labels.len() && l2.len() == s.labels.len());
    assert forall|i: int| 0 <= i < l1.len() implies l1[i] == l2[i] by {
        assert(lab(l1)[i] == l1[i] as int);
        assert(lab(l2)[i] == l2[i] as int);
    }
    assert(l1 =~= l2);
    assert(cs1.len() == cm(cs1).len() && cs2.len() == cm(cs2).len());
    assert(cs1.len() == s.cs.len() && cs2.len() == s.cs.len());
    assert forall|i: int| 0 <= i < cs1.len() implies cs1[i] == cs2[i] by {
        assert(cm(cs1)[i] == cs1[i]@);
        assert(cm(cs2)[i] == cs2[i]@);
    }
    assert(cs1 =~= cs2);
}

/// Success is owed on the deterministic path: with valid inputs and a
/// fixed initialization whose iteration converges within the bound,
/// `fit`'s contract forces a success.
pub proof fn lemma_fixed_init_success_owed(
    config: Config,
    data: Seq<Point>,
    r: Result<(Vec<usize>, Vec<Centroid>), Error>,
    seeds: Vec<Centroid>,
    m: nat,
)
    requires
        fit_post(config, data, r),
        config.init == Init::Fixed(seeds),
        config.n_clusters >= 1,
        data.len() >= config.n_clusters,
        m < MAX_ITERS,
        converged_at(data, cm(seeds@), m),
    ensures
        r is Ok,
{
    if !(r is Ok) {
        assert(r == Result::<(Vec<usize>, Vec<Centroid>), Error>::Err(Error::IterationLimit));
        let c0 = choose|c0: Seq<RCent>|
            #[trigger] seeds_ok(config.init, data, config.n_clusters as int, c0) && forall|j: nat|
                j < MAX_ITERS ==> !#[trigger] converged_at(data, c0, j);
        assert(c0 == cm(seeds@));
        assert(!converged_at(data, c0, m));
        assert(false);
    }
}

/// The initial assignment picks, for every point, the earliest centroid
/// achieving the smallest distance, and records that exact distance.
pub proof fn lemma_initial_assignment_nearest(data: Seq<Point>, c0: Seq<RCent>, i: int)
    requires
        data_wf(data),
        cents_wf(c0),
        c0.len() >= 1,
        0 <= i < data.len(),
    ensures
        ({
            let s = init_state(data, c0);
            let l = s.labels[i];
            &&& 0 <= l < c0.len()
            &&& s.dists[i] == d2_frac(data[i], c0[l])
            &&& forall|j: int|
                0 <= j < c0.len() ==> !frac_lt(#[trigger] d2_frac(data[i], c0[j]), d2_frac(data[i], c0[l]))
            &&& forall|j: int|
                0 <= j < l ==> frac_lt(d2_frac(data[i], c0[l]), #[trigger] d2_frac(data[i], c0[j]))
        }),
{
    let p = data[i];
    let seed = d2_frac(p, c0[0]);
    lemma_d2_wf(p, c0[0]);
    lemma_scan_nearest(p, c0, 0, 0, seed.num, seed.den);
    let r = scan(p, c0, 0, 0, seed.num, seed.den);
    let s = init_state(data, c0);
    assert(s.labels[i] == r.0);
    assert(s.dists[i] == RFrac { num: r.1, den: r.2 });
    if !(exists|j: int| 0 <= j < c0.len() && frac_lt(#[trigger] d2_frac(p, c0[j]), seed)) {
        assert(s.dists[i] == seed);
    }
}

/// One reassignment pass changes a point's label only when some freshly
/// updated centroid strictly beats the point's recorded distance, and then
/// to the earliest centroid achieving the smallest distance; otherwise the
/// label and the recorded distance stay exactly as they were.
pub proof fn lemma_reassignment_nearest(data: Seq<Point>, c0: Seq<RCent>, m: nat, i: int)
    requires
        data_wf(data),
        cents_wf(c0),
        c0.len() >= 1,
        0 <= i < data.len(),
    ensures
        ({
            let s = iter_state(data, c0, m);
            let nc = upd_centers(data, s.labels, s.cs);
            let t = iter_state(data, c0, m + 1);
            let l = t.labels[i];
            if exists|j: int|
                0 <= j < nc.len() && frac_lt(#[trigger] d2_frac(data[i], nc[j]), s.dists[i]) {
                &&& 0 <= l < nc.len()
                &&& t.dists[i] == d2_frac(data[i], nc[l])
                &&& frac_lt(t.dists[i], s.dists[i])
                &&& forall|j: int|
                    0 <= j < nc.len() ==> !frac_lt(
                        #[trigger] d2_frac(data[i], nc[j]),
                        d2_frac(data[i], nc[l]),
                    )
                &&& forall|j: int|
                    0 <= j < l ==> frac_lt(d2_frac(data[i], nc[l]), #[trigger] d2_frac(data[i], nc[j]))
            } else {
                t.labels[i] == s.labels[i] && t.dists[i] == s.dists[i]
            }
        }),
{
    lemma_iter_wf(data, c0, m);
    let s = iter_state(data, c0, m);
    let nc = upd_centers(data, s.labels, s.cs);
    assert forall|c: int| 0 <= c < nc.len() implies c_wf(#[trigger] nc[c]) by {
        lemma_upd_center_wf(data, s.labels, s.cs[c], c);
    }
    lemma_scan_nearest(data[i], nc, 0, s.labels[i], s.dists[i].num, s.dists[i].den);
    assert(iter_state(data, c0, m + 1) == step(data, s));
    let r = scan(data[i], nc, 0, s.labels[i], s.dists[i].num, s.dists[i].den);
    assert(step(data, s).labels[i] == r.0);
    assert(step(data, s).dists[i] == RFrac { num: r.1, den: r.2 });
}

/// The exact sum of two fractions with positive denominators.
pub open spec fn frac_add(a: RFrac, b: RFrac) -> RFrac {
    RFrac { num: a.num * b.den + b.num * a.den, den: a.den * b.den }
}

/// The total assignment cost of a state: the sum, as an exact fraction, of
/// the recorded squared distances from each point to its centroid.
pub open spec fn total_cost(ds: Seq<RFrac>) -> RFrac
    decreases ds.len(),
{
    if ds.len() == 0 {
        RFrac { num: 0, den: 1 }
    } else {
        frac_add(ds.last(), total_cost(ds.drop_last()))
    }
}

/// A ring identity used to regroup the cross-multiplied sum of two
/// fractions.
#[verifier::rlimit(100)]
proof fn lemma_regroup(an: int, ad: int, bn: int, bd: int, cd: int, dd: int)
    ensures
        (an * bd + bn * ad) * (cd * dd) == (an * cd) * (bd * dd) + (bn * dd) * (ad * cd),
{
    assert((an * bd + bn * ad) * (cd * dd) == (an * bd) * (cd * dd) + (bn * ad) * (cd * dd))
        by (nonlinear_arith);
    assert((an * bd) * (cd * dd) == (an * cd) * (bd * dd)) by (nonlinear_arith);
    assert((bn * ad) * (cd * dd) == (bn * dd) * (ad * cd)) by (nonlinear_arith);
}

/// Commutativity of multiplication.
proof fn lemma_mul_comm(x: int, y: int)
    by (nonlinear_arith)
    ensures
        x * y == y * x,
{
}

/// Adding no-worse summands gives a no-worse sum.
proof fn lemma_add_le(a: RFrac, b: RFrac, c: RFrac, d: RFrac)
    requires
        0 < a.den,
        0 < b.den,
        0 < c.den,
        0 < d.den,
        frac_le(a, c),
        frac_le(b, d),
    ensures
        frac_le(frac_add(a, b), frac_add(c, d)),
        0 < frac_add(a, b).den,
        0 < frac_add(c, d).den,
{
    lemma_regroup(a.num, a.den, b.num, b.den, c.den, d.den);
    lemma_regroup(c.num, c.den, d.num, d.den, a.den, b.den);
    lemma_mul_comm(b.den, d.den);
    lemma_mul_comm(a.den, c.den);
    assert(0 < b.den * d.den) by (nonlinear_arith)
        requires
            0 < b.den,
            0 < d.den,
    ;
    assert(0 < a.den * c.den) by (nonlinear_arith)
        requires
            0 < a.den,
            0 < c.den,
    ;
    lemma_mul_le_mono(a.num * c.den, c.num * a.den, b.den * d.den);
    lemma_mul_le_mono(b.num * d.den, d.num * b.den, a.den * c.den);
    assert(0 < a.den * b.den) by (nonlinear_arith)
        requires
            0 < a.den,
            0 < b.den,
    ;
    assert(0 < c.den * d.den) by (nonlinear_arith)
        requires
            0 < c.den,
            0 < d.den,
    ;
}

/// A sum of pointwise no-worse fractions is no worse.
pub proof fn lemma_cost_mono(d1: Seq<RFrac>, d2: Seq<RFrac>)
    requires
        d1.len() == d2.len(),
        forall|i: int| 0 <= i < d1.len() ==> 0 < (#[trigger] d1[i]).den,
        forall|i: int| 0 <= i < d2.len() ==> 0 < (#[trigger] d2[i]).den,
        forall|i: int| 0 <= i < d1.len() ==> frac_le(#[trigger] d1[i], d2[i]),
    ensures
        frac_le(total_cost(d1), total_cost(d2)),
        0 < total_cost(d1).den,
        0 < total_cost(d2).den,
    decreases d1.len(),
{
    if d1.len() > 0 {
        lemma_cost_mono(d1.drop_last(), d2.drop_last());
        lemma_add_le(
            d1.last(),
            total_cost(d1.drop_last()),
            d2.last(),
            total_cost(d2.drop_last()),
        );
    }
}

/// Monotonic improvement: one full iteration (update step, then seeded
/// reassignment) never increases the total of the recorded squared
/// distances from the points to their assigned centroids, because each
/// point only changes its label for a strictly smaller distance.
pub proof fn lemma_cost_nonincreasing(data: Seq<Point>, c0: Seq<RCent>, m: nat)
    requires
        data_wf(data),
        cents_wf(c0),
        c0.len() >= 1,
    ensures
        frac_le(
            total_cost(iter_state(data, c0, m + 1).dists),
            total_cost(iter_state(data, c0, m).dists),
        ),
{
    lemma_iter_wf(data, c0, m);
    let s = iter_state(data, c0, m);
    let nc = upd_centers(data, s.labels, s.cs);
    assert forall|c: int| 0 <= c < nc.len() implies c_wf(#[trigger] nc[c]) by {
        lemma_upd_center_wf(data, s.labels, s.cs[c], c);
    }
    lemma_pass_wf(data, nc, s.labels, s.dists);
    assert(iter_state(data, c0, m + 1) == step(data, s));
    let dn = step(data, s).dists;
    assert(dn == pass_dists(data, nc, s.labels, s.dists));
    assert forall|i: int| 0 <= i < dn.len() implies 0 < (#[trigger] dn[i]).den by {
        assert(f_wf(pass_dists(data, nc, s.labels, s.dists)[i]));
    }
    assert forall|i: int| 0 <= i < s.dists.len() implies 0 < (#[trigger] s.dists[i]).den by {
        assert(f_wf(s.dists[i]));
    }
    assert forall|i: int| 0 <= i < dn.len() implies frac_le(#[trigger] dn[i], s.dists[i]) by {
        assert(frac_le(pass_dists(data, nc, s.labels, s.dists)[i], s.dists[i]));
    }
    lemma_cost_mono(dn, s.dists);
}

} // verus!
