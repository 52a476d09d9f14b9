use vstd::prelude::*;

use crate::geometry::{
    Centroid, Dist2, Point, RCent, RFrac, c_wf, d2_den, d2_frac, d2n, f_wf, frac_le, frac_lt,
    lemma_abs_mul, lemma_sq_nonneg, lemma_sq_pos, p_bounded, r_eq, COORD_BOUND, DIFF_BOUND,
    LEN_BOUND, SUM_BOUND,
};

verus! {

/// The evolving state of one fit invocation, in exact terms: per-point
/// labels, per-point recorded squared distances, and the centroids the
/// labels were assigned against.
pub struct St {
    pub labels: Seq<int>,
    pub dists: Seq<RFrac>,
    pub cs: Seq<RCent>,
}

/// The labels held in a label vector, as mathematical integers.
pub open spec fn lab(ls: Seq<usize>) -> Seq<int> {
    ls.map_values(|l: usize| l as int)
}

/// The recorded squared distances of a distance vector, as fractions.
pub open spec fn fr(ds: Seq<Dist2>) -> Seq<RFrac> {
    ds.map_values(|d: Dist2| d@)
}

/// The values of a centroid vector.
pub open spec fn cm(cs: Seq<Centroid>) -> Seq<RCent> {
    cs.map_values(|c: Centroid| c@)
}

/// One scan of the centroid collection from index `i`, seeded with a
/// current best label `bl` and squared distance `bn/bd`: a centroid wins
/// only if its distance is strictly smaller than the best seen, so on ties
/// the earliest-encountered index is retained.
pub open spec fn scan(p: Point, cs: Seq<RCent>, i: int, bl: int, bn: int, bd: int) -> (int, int, int)
    decreases cs.len() - i,
{
    if i < 0 || i >= cs.len() {
        (bl, bn, bd)
    } else {
        let dn = d2n(p, cs[i]);
        let dd = d2_den(cs[i]);
        if dn * bd < bn * dd {
            scan(p, cs, i + 1, i, dn, dd)
        } else {
            scan(p, cs, i + 1, bl, bn, bd)
        }
    }
}

/// The labels after one assignment pass over all points, seeded per point
/// with its previous label and recorded distance.
pub open spec fn pass_labels(data: Seq<Point>, cs: Seq<RCent>, l0: Seq<int>, d0: Seq<RFrac>) -> Seq<int> {
    Seq::new(data.len(), |i: int| scan(data[i], cs, 0, l0[i], d0[i].num, d0[i].den).0)
}

/// The recorded distances after one assignment pass over all points.
pub open spec fn pass_dists(data: Seq<Point>, cs: Seq<RCent>, l0: Seq<int>, d0: Seq<RFrac>) -> Seq<RFrac> {
    Seq::new(
        data.len(),
        |i: int|
            {
                let r = scan(data[i], cs, 0, l0[i], d0[i].num, d0[i].den);
                RFrac { num: r.1, den: r.2 }
            },
    )
}

/// How many of the first `n` labels equal `c`.
pub open spec fn count_to(ls: Seq<int>, c: int, n: int) -> int
    decreases n,
{
    if n <= 0 {
        0
    } else {
        count_to(ls, c, n - 1) + if ls[n - 1] == c {
            1int
        } else {
            0int
        }
    }
}

/// How many points carry label `c`.
pub open spec fn count(ls: Seq<int>, c: int) -> int {
    count_to(ls, c, ls.len() as int)
}

/// Sum of the x coordinates of the points among the first `n` whose label
/// is `c`.
pub open spec fn sum_x_to(data: Seq<Point>, ls: Seq<int>, c: int, n: int) -> int
    decreases n,
{
    if n <= 0 {
        0
    } else {
        sum_x_to(data, ls, c, n - 1) + if ls[n - 1] == c {
            data[n - 1].x as int
        } else {
            0int
        }
    }
}

/// Sum of the x coordinates of the points with label `c`.
pub open spec fn sum_x(data: Seq<Point>, ls: Seq<int>, c: int) -> int {
    sum_x_to(data, ls, c, data.len() as int)
}

/// Sum of the y coordinates of the points among the first `n` whose label
/// is `c`.
pub open spec fn sum_y_to(data: Seq<Point>, ls: Seq<int>, c: int, n: int) -> int
    decreases n,
{
    if n <= 0 {
        0
    } else {
        sum_y_to(data, ls, c, n - 1) + if ls[n - 1] == c {
            data[n - 1].y as int
        } else {
            0int
        }
    }
}

/// Sum of the y coordinates of the points with label `c`.
pub open spec fn sum_y(data: Seq<Point>, ls: Seq<int>, c: int) -> int {
    sum_y_to(data, ls, c, data.len() as int)
}

/// The centroid of cluster `c` after one update step: the unreduced mean of
/// its member points, or the previous centroid when the cluster is empty.
pub open spec fn upd_center(data: Seq<Point>, ls: Seq<int>, old_c: RCent, c: int) -> RCent {
    if count(ls, c) > 0 {
        RCent { sx: sum_x(data, ls, c), sy: sum_y(data, ls, c), den: count(ls, c) }
    } else {
        old_c
    }
}

/// All centroids after one update step.
pub open spec fn upd_centers(data: Seq<Point>, ls: Seq<int>, cs: Seq<RCent>) -> Seq<RCent> {
    Seq::new(cs.len(), |c: int| upd_center(data, ls, cs[c], c))
}

/// Convergence: recomputing the centroids from the current labels
/// reproduces, value for value, the centroids the labels were assigned to.
pub open spec fn converged(data: Seq<Point>, ls: Seq<int>, cs: Seq<RCent>) -> bool {
    forall|c: int| 0 <= c < cs.len() ==> r_eq(#[trigger] upd_centers(data, ls, cs)[c], cs[c])
}

/// The state after the initial assignment pass: every point is seeded with
/// label 0 and its distance to centroid 0, then scanned over all centroids.
pub open spec fn init_state(data: Seq<Point>, c0: Seq<RCent>) -> St {
    let l0 = Seq::new(data.len(), |i: int| 0int);
    let d0 = Seq::new(data.len(), |i: int| d2_frac(data[i], c0[0]));
    St { labels: pass_labels(data, c0, l0, d0), dists: pass_dists(data, c0, l0, d0), cs: c0 }
}

/// One full iteration: the update step, then the seeded reassignment pass.
pub open spec fn step(data: Seq<Point>, s: St) -> St {
    let nc = upd_centers(data, s.labels, s.cs);
    St {
        labels: pass_labels(data, nc, s.labels, s.dists),
        dists: pass_dists(data, nc, s.labels, s.dists),
        cs: nc,
    }
}

/// The state after `m` full iterations.
pub open spec fn iter_state(data: Seq<Point>, c0: Seq<RCent>, m: nat) -> St
    decreases m,
{
    if m == 0 {
        init_state(data, c0)
    } else {
        step(data, iter_state(data, c0, (m - 1) as nat))
    }
}

/// The iteration is converged after exactly `m` steps.
pub open spec fn converged_at(data: Seq<Point>, c0: Seq<RCent>, m: nat) -> bool {
    let s = iter_state(data, c0, m);
    converged(data, s.labels, s.cs)
}

/// `m` is the first step count at which the iteration is converged.
pub open spec fn success_at(data: Seq<Point>, c0: Seq<RCent>, m: nat) -> bool {
    converged_at(data, c0, m) && forall|j: nat| j < m ==> !#[trigger] converged_at(data, c0, j)
}

/// Well-formedness of a data set.
pub open spec fn data_wf(data: Seq<Point>) -> bool {
    data.len() <= LEN_BOUND && forall|i: int| 0 <= i < data.len() ==> p_bounded(#[trigger] data[i])
}

/// Well-formedness of a centroid collection.
pub open spec fn cents_wf(cs: Seq<RCent>) -> bool {
    forall|c: int| 0 <= c < cs.len() ==> c_wf(#[trigger] cs[c])
}

/// Well-formedness of a fit state for `k` clusters.
pub open spec fn st_wf(data: Seq<Point>, k: int, s: St) -> bool {
    &&& s.labels.len() == data.len()
    &&& s.dists.len() == data.len()
    &&& s.cs.len() == k
    &&& cents_wf(s.cs)
    &&& forall|i: int| 0 <= i < data.len() ==> 0 <= #[trigger] s.labels[i] < k
    &&& forall|i: int| 0 <= i < data.len() ==> f_wf(#[trigger] s.dists[i])
}

/// Transitivity of `<=` on fractions with positive denominators, stated
/// over the cross-multiplied integers.
pub proof fn lemma_cross_le_trans(an: int, ad: int, bn: int, bd: int, cn: int, cd: int)
    by (nonlinear_arith)
    requires
        0 < ad,
        0 < bd,
        0 < cd,
        an * bd <= bn * ad,
        bn * cd <= cn * bd,
    ensures
        an * cd <= cn * ad,
{
}

/// A squared distance between well-formed arguments is a well-formed
/// fraction.
pub proof fn lemma_d2_wf(p: Point, c: RCent)
    requires
        p_bounded(p),
        c_wf(c),
    ensures
        f_wf(d2_frac(p, c)),
{
    lemma_abs_mul(p.x as int, c.den, COORD_BOUND as int, LEN_BOUND as int);
    lemma_abs_mul(p.y as int, c.den, COORD_BOUND as int, LEN_BOUND as int);
    let dx = (p.x as int) * c.den - c.sx;
    let dy = (p.y as int) * c.den - c.sy;
    lemma_abs_mul(dx, dx, DIFF_BOUND as int, DIFF_BOUND as int);
    lemma_abs_mul(dy, dy, DIFF_BOUND as int, DIFF_BOUND as int);
    lemma_sq_nonneg(dx);
    lemma_sq_nonneg(dy);
    lemma_abs_mul(c.den, c.den, LEN_BOUND as int, LEN_BOUND as int);
    lemma_sq_pos(c.den);
}

/// The scan keeps its result label in range, keeps the recorded distance
/// well formed, and never records a worse distance than its seed.
pub proof fn lemma_scan_props(p: Point, cs: Seq<RCent>, i: int, bl: int, bn: int, bd: int)
    requires
        p_bounded(p),
        cents_wf(cs),
        0 <= i,
        0 <= bl < cs.len(),
        f_wf(RFrac { num: bn, den: bd }),
    ensures
        ({
            let r = scan(p, cs, i, bl, bn, bd);
            &&& 0 <= r.0 < cs.len()
            &&& f_wf(RFrac { num: r.1, den: r.2 })
            &&& frac_le(RFrac { num: r.1, den: r.2 }, RFrac { num: bn, den: bd })
        }),
    decreases cs.len() - i,
{
    if i < cs.len() {
        let dn = d2n(p, cs[i]);
        let dd = d2_den(cs[i]);
        lemma_d2_wf(p, cs[i]);
        if dn * bd < bn * dd {
            lemma_scan_props(p, cs, i + 1, i, dn, dd);
            let r = scan(p, cs, i + 1, i, dn, dd);
            lemma_cross_le_trans(r.1, r.2, dn, dd, bn, bd);
        } else {
            lemma_scan_props(p, cs, i + 1, bl, bn, bd);
        }
    }
}

/// Strict/non-strict transitivity of the fraction order, stated over the
/// cross-multiplied integers.
pub proof fn lemma_cross_lt_le_trans(an: int, ad: int, bn: int, bd: int, cn: int, cd: int)
    by (nonlinear_arith)
    requires
        0 < ad,
        0 < bd,
        0 < cd,
        an * bd < bn * ad,
        bn * cd <= cn * bd,
    ensures
        an * cd < cn * ad,
{
}

/// What one scan computes, in closed form: when some centroid is strictly
/// closer than the seeded distance, the result is the earliest centroid
/// achieving the smallest distance, with its exact squared distance;
/// otherwise the seed label and distance are kept unchanged.
pub proof fn lemma_scan_nearest(p: Point, cs: Seq<RCent>, i: int, bl: int, bn: int, bd: int)
    requires
        p_bounded(p),
        cents_wf(cs),
        0 <= i,
        0 <= bl < cs.len(),
        f_wf(RFrac { num: bn, den: bd }),
    ensures
        ({
            let r = scan(p, cs, i, bl, bn, bd);
            let seed = RFrac { num: bn, den: bd };
            if exists|j: int| i <= j < cs.len() && frac_lt(#[trigger] d2_frac(p, cs[j]), seed) {
                &&& i <= r.0 < cs.len()
                &&& RFrac { num: r.1, den: r.2 } == d2_frac(p, cs[r.0])
                &&& frac_lt(d2_frac(p, cs[r.0]), seed)
                &&& forall|j: int|
                    i <= j < cs.len() ==> !frac_lt(
                        #[trigger] d2_frac(p, cs[j]),
                        d2_frac(p, cs[r.0]),
                    )
                &&& forall|j: int|
                    i <= j < r.0 ==> frac_lt(d2_frac(p, cs[r.0]), #[trigger] d2_frac(p, cs[j]))
            } else {
                r == (bl, bn, bd)
            }
        }),
    decreases cs.len() - i,
{
    if i < cs.len() {
        let seed = RFrac { num: bn, den: bd };
        let di = d2_frac(p, cs[i]);
        lemma_d2_wf(p, cs[i]);
        if frac_lt(di, seed) {
            lemma_scan_nearest(p, cs, i + 1, i, di.num, di.den);
            let r = scan(p, cs, i + 1, i, di.num, di.den);
            if exists|j: int| i + 1 <= j < cs.len() && frac_lt(#[trigger] d2_frac(p, cs[j]), di) {
                let dr = d2_frac(p, cs[r.0]);
                lemma_d2_wf(p, cs[r.0]);
                lemma_cross_lt_le_trans(dr.num, dr.den, di.num, di.den, seed.num, seed.den);
            }
        } else {
            lemma_scan_nearest(p, cs, i + 1, bl, bn, bd);
            let r = scan(p, cs, i + 1, bl, bn, bd);
            if exists|j: int| i + 1 <= j < cs.len() && frac_lt(#[trigger] d2_frac(p, cs[j]), seed) {
                let dr = d2_frac(p, cs[r.0]);
                lemma_d2_wf(p, cs[r.0]);
                lemma_cross_lt_le_trans(dr.num, dr.den, seed.num, seed.den, di.num, di.den);
            }
        }
    }
}

/// One assignment pass preserves well-formedness, and each point's recorded
/// distance does not increase.
pub proof fn lemma_pass_wf(data: Seq<Point>, cs: Seq<RCent>, l0: Seq<int>, d0: Seq<RFrac>)
    requires
        data_wf(data),
        cents_wf(cs),
        cs.len() >= 1,
        l0.len() == data.len(),
        d0.len() == data.len(),
        forall|i: int| 0 <= i < data.len() ==> 0 <= #[trigger] l0[i] < cs.len(),
        forall|i: int| 0 <= i < data.len() ==> f_wf(#[trigger] d0[i]),
    ensures
        pass_labels(data, cs, l0, d0).len() == data.len(),
        pass_dists(data, cs, l0, d0).len() == data.len(),
        forall|i: int|
            0 <= i < data.len() ==> 0 <= #[trigger] pass_labels(data, cs, l0, d0)[i] < cs.len(),
        forall|i: int| 0 <= i < data.len() ==> f_wf(#[trigger] pass_dists(data, cs, l0, d0)[i]),
        forall|i: int|
            0 <= i < data.len() ==> frac_le(#[trigger] pass_dists(data, cs, l0, d0)[i], d0[i]),
{
    assert forall|i: int|
        0 <= i < data.len() implies 0 <= #[trigger] pass_labels(data, cs, l0, d0)[i]
        < cs.len() by {
        lemma_scan_props(data[i], cs, 0, l0[i], d0[i].num, d0[i].den);
    }
    assert forall|i: int| 0 <= i < data.len() implies f_wf(
        #[trigger] pass_dists(data, cs, l0, d0)[i],
    ) by {
        lemma_scan_props(data[i], cs, 0, l0[i], d0[i].num, d0[i].den);
    }
    assert forall|i: int| 0 <= i < data.len() implies frac_le(
        #[trigger] pass_dists(data, cs, l0, d0)[i],
        d0[i],
    ) by {
        lemma_scan_props(data[i], cs, 0, l0[i], d0[i].num, d0[i].den);
    }
}

/// Bounds on a label count.
pub proof fn lemma_count_to_bounds(ls: Seq<int>, c: int, n: int)
    requires
        n <= ls.len(),
    ensures
        0 <= count_to(ls, c, n) <= if n <= 0 {
            0int
        } else {
            n
        },
    decreases n,
{
    if n > 0 {
        lemma_count_to_bounds(ls, c, n - 1);
    }
}

/// Bounds on the coordinate sums of a cluster.
pub proof fn lemma_sum_to_bounds(data: Seq<Point>, ls: Seq<int>, c: int, n: int)
    requires
        0 <= n <= data.len(),
        forall|i: int| 0 <= i < data.len() ==> p_bounded(#[trigger] data[i]),
    ensures
        -(n * (COORD_BOUND as int)) <= sum_x_to(data, ls, c, n) <= n * (COORD_BOUND as int),
        -(n * (COORD_BOUND as int)) <= sum_y_to(data, ls, c, n) <= n * (COORD_BOUND as int),
    decreases n,
{
    if n > 0 {
        lemma_sum_to_bounds(data, ls, c, n - 1);
        assert((n - 1) * (COORD_BOUND as int) + COORD_BOUND == n * (COORD_BOUND as int))
            by (nonlinear_arith);
    }
}

/// Multiplying both sides of an inequality by a non-negative factor.
pub proof fn lemma_mul_le_mono(a: int, b: int, m: int)
    by (nonlinear_arith)
    requires
        a <= b,
        0 <= m,
    ensures
        a * m <= b * m,
{
}

/// An updated centroid is well formed.
pub proof fn lemma_upd_center_wf(data: Seq<Point>, ls: Seq<int>, old_c: RCent, c: int)
    requires
        data_wf(data),
        ls.len() == data.len(),
        c_wf(old_c),
    ensures
        c_wf(upd_center(data, ls, old_c, c)),
{
    lemma_count_to_bounds(ls, c, ls.len() as int);
    if count(ls, c) > 0 {
        lemma_sum_to_bounds(data, ls, c, data.len() as int);
        lemma_mul_le_mono(data.len() as int, LEN_BOUND as int, COORD_BOUND as int);
        assert((LEN_BOUND as int) * (COORD_BOUND as int) == SUM_BOUND) by (nonlinear_arith);
    }
}

/// The initial state is well formed.
pub proof fn lemma_init_wf(data: Seq<Point>, c0: Seq<RCent>)
    requires
        data_wf(data),
        cents_wf(c0),
        c0.len() >= 1,
    ensures
        st_wf(data, c0.len() as int, init_state(data, c0)),
{
    let l0 = Seq::new(data.len(), |i: int| 0int);
    let d0 = Seq::new(data.len(), |i: int| d2_frac(data[i], c0[0]));
    assert forall|i: int| 0 <= i < data.len() implies f_wf(#[trigger] d0[i]) by {
        lemma_d2_wf(data[i], c0[0]);
    }
    lemma_pass_wf(data, c0, l0, d0);
}

/// One full iteration preserves well-formedness.
pub proof fn lemma_step_wf(data: Seq<Point>, k: int, s: St)
    requires
        data_wf(data),
        k >= 1,
        st_wf(data, k, s),
    ensures
        st_wf(data, k, step(data, s)),
{
    let nc = upd_centers(data, s.labels, s.cs);
    assert forall|c: int| 0 <= c < nc.len() implies c_wf(#[trigger] nc[c]) by {
        lemma_upd_center_wf(data, s.labels, s.cs[c], c);
    }
    lemma_pass_wf(data, nc, s.labels, s.dists);
}

/// Every iteration state is well formed.
pub proof fn lemma_iter_wf(data: Seq<Point>, c0: Seq<RCent>, m: nat)
    requires
        data_wf(data),
        cents_wf(c0),
        c0.len() >= 1,
    ensures
        st_wf(data, c0.len() as int, iter_state(data, c0, m)),
    decreases m,
{
    if m == 0 {
        lemma_init_wf(data, c0);
    } else {
        lemma_iter_wf(data, c0, (m - 1) as nat);
        lemma_step_wf(data, c0.len() as int, iter_state(data, c0, (m - 1) as nat));
    }
}

} // verus!
