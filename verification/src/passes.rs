use vstd::prelude::*;

use crate::geometry::{
    dist2, frac_lt_exec, Centroid, Dist2, Point, c_wf, d2_den, d2n, f_wf, frac_lt, p_bounded,
    r_eq, COORD_BOUND, LEN_BOUND, SUM_BOUND,
};
use crate::model::{
    cents_wf, cm, count_to, data_wf, fr, lab, lemma_mul_le_mono, pass_dists, pass_labels, scan,
    sum_x_to, sum_y_to, upd_center, upd_centers,
};

verus! {

/// One scan of the centroid collection for a single point, seeded with the
/// point's current label and recorded squared distance: a centroid takes
/// over only when its distance is strictly smaller than the best seen.
pub(crate) fn scan_exec(p: &Point, centers: &Vec<Centroid>, l0: usize, d0: Dist2) -> (res: (
    usize,
    Dist2,
))
    requires
        p_bounded(*p),
        cents_wf(cm(centers@)),
        (l0 as int) < centers@.len(),
        f_wf(d0@),
    ensures
        ({
            let r = scan(*p, cm(centers@), 0, l0 as int, d0@.num, d0@.den);
            &&& res.0 as int == r.0
            &&& res.1@.num == r.1
            &&& res.1@.den == r.2
        }),
{
    let ghost cs = cm(centers@);
    let mut bl: usize = l0;
    let mut bd: Dist2 = d0;
    let mut j: usize = 0;
    while j < centers.len()
        invariant
            p_bounded(*p),
            cents_wf(cs),
            cs == cm(centers@),
            j <= centers@.len(),
            (bl as int) < cs.len(),
            f_wf(bd@),
            scan(*p, cs, 0, l0 as int, d0@.num, d0@.den) == scan(
                *p,
                cs,
                j as int,
                bl as int,
                bd@.num,
                bd@.den,
            ),
        decreases centers@.len() - j,
    {
        proof {
            assert(cs[j as int] == centers@[j as int]@);
        }
        let cand = dist2(p, &centers[j]);
        let better = frac_lt_exec(&cand, &bd);
        proof {
            assert(d2n(*p, cs[j as int]) == cand@.num);
            assert(d2_den(cs[j as int]) == cand@.den);
            assert(scan(*p, cs, j as int, bl as int, bd@.num, bd@.den) == (if frac_lt(
                cand@,
                bd@,
            ) {
                scan(*p, cs, j as int + 1, j as int, cand@.num, cand@.den)
            } else {
                scan(*p, cs, j as int + 1, bl as int, bd@.num, bd@.den)
            }));
        }
        if better {
            bl = j;
            bd = cand;
        }
        j += 1;
    }
    (bl, bd)
}

/// One assignment pass over all points, in place: each point's label and
/// recorded distance are rescanned against `centers`, seeded with their
/// previous values.
pub(crate) fn assign_pass(
    data: &Vec<Point>,
    centers: &Vec<Centroid>,
    labels: &mut Vec<usize>,
    dists: &mut Vec<Dist2>,
)
    requires
        data_wf(data@),
        cents_wf(cm(centers@)),
        centers@.len() >= 1,
        old(labels)@.len() == data@.len(),
        old(dists)@.len() == data@.len(),
        forall|i: int|
            0 <= i < data@.len() ==> (#[trigger] old(labels)@[i] as int) < centers@.len(),
        forall|i: int| 0 <= i < data@.len() ==> f_wf(#[trigger] old(dists)@[i]@),
    ensures
        final(labels)@.len() == data@.len(),
        final(dists)@.len() == data@.len(),
        lab(final(labels)@) == pass_labels(data@, cm(centers@), lab(old(labels)@), fr(old(dists)@)),
        fr(final(dists)@) == pass_dists(data@, cm(centers@), lab(old(labels)@), fr(old(dists)@)),
{
    let ghost l0 = lab(old(labels)@);
    let ghost d0 = fr(old(dists)@);
    let ghost cs = cm(centers@);
    let mut i: usize = 0;
    while i < data.len()
        invariant
            data_wf(data@),
            cents_wf(cs),
            cs == cm(centers@),
            centers@.len() >= 1,
            l0 == lab(old(labels)@),
            d0 == fr(old(dists)@),
            old(labels)@.len() == data@.len(),
            old(dists)@.len() == data@.len(),
            labels@.len() == data@.len(),
            dists@.len() == data@.len(),
            i <= data@.len(),
            forall|j: int|
                0 <= j < data@.len() ==> (#[trigger] old(labels)@[j] as int) < centers@.len(),
            forall|j: int| 0 <= j < data@.len() ==> f_wf(#[trigger] old(dists)@[j]@),
            forall|j: int|
                i <= j < data@.len() ==> #[trigger] labels@[j] == old(labels)@[j] && dists@[j]
                    == old(dists)@[j],
            forall|j: int|
                0 <= j < i ==> (#[trigger] labels@[j] as int) == pass_labels(data@, cs, l0, d0)[j],
            forall|j: int| 0 <= j < i ==> (#[trigger] dists@[j]@) == pass_dists(data@, cs, l0, d0)[j],
        decreases data@.len() - i,
    {
        let (nl, nd) = scan_exec(&data[i], centers, labels[i], dists[i]);
        labels.set(i, nl);
        dists.set(i, nd);
        i += 1;
    }
    proof {
        assert(lab(labels@) =~= pass_labels(data@, cs, l0, d0));
        assert(fr(dists@) =~= pass_dists(data@, cs, l0, d0));
    }
}

/// One update step: the centroid of every cluster that received at least
/// one point becomes the unreduced mean of its members; an empty cluster
/// keeps its previous centroid.
pub(crate) fn update_centers(
    data: &Vec<Point>,
    labels: &Vec<usize>,
    centers: &Vec<Centroid>,
) -> (res: Vec<Centroid>)
    requires
        data_wf(data@),
        labels@.len() == data@.len(),
        forall|i: int| 0 <= i < data@.len() ==> (#[trigger] labels@[i] as int) < centers@.len(),
        cents_wf(cm(centers@)),
    ensures
        res@.len() == centers@.len(),
        cm(res@) == upd_centers(data@, lab(labels@), cm(centers@)),
        cents_wf(cm(res@)),
{
    let ghost ls = lab(labels@);
    let k = centers.len();
    let n = data.len();
    let mut counts: Vec<i64> = Vec::new();
    let mut xs: Vec<i64> = Vec::new();
    let mut ys: Vec<i64> = Vec::new();
    let mut c: usize = 0;
    while c < k
        invariant
            c <= k,
            counts@.len() == c,
            xs@.len() == c,
            ys@.len() == c,
            forall|j: int| 0 <= j < c ==> #[trigger] counts@[j] == 0,
            forall|j: int| 0 <= j < c ==> #[trigger] xs@[j] == 0,
            forall|j: int| 0 <= j < c ==> #[trigger] ys@[j] == 0,
        decreases k - c,
    {
        counts.push(0);
        xs.push(0);
        ys.push(0);
        c += 1;
    }
    let mut i: usize = 0;
    while i < n
        invariant
            n == data@.len(),
            labels@.len() == n,
            ls == lab(labels@),
            data_wf(data@),
            i <= n,
            counts@.len() == k,
            xs@.len() == k,
            ys@.len() == k,
            forall|j: int| 0 <= j < n ==> (#[trigger] labels@[j] as int) < k as int,
            forall|cc: int|
                0 <= cc < k ==> #[trigger] counts@[cc] as int == count_to(ls, cc, i as int),
            forall|cc: int|
                0 <= cc < k ==> #[trigger] xs@[cc] as int == sum_x_to(data@, ls, cc, i as int),
            forall|cc: int|
                0 <= cc < k ==> #[trigger] ys@[cc] as int == sum_y_to(data@, ls, cc, i as int),
            forall|cc: int| 0 <= cc < k ==> 0 <= #[trigger] counts@[cc] as int <= i as int,
            forall|cc: int|
                0 <= cc < k ==> -((i as int) * (COORD_BOUND as int)) <= #[trigger] xs@[cc] as int
                    <= (i as int) * (COORD_BOUND as int),
            forall|cc: int|
                0 <= cc < k ==> -((i as int) * (COORD_BOUND as int)) <= #[trigger] ys@[cc] as int
                    <= (i as int) * (COORD_BOUND as int),
        decreases n - i,
    {
        let idx = labels[i];
        let p = data[i];
        proof {
            assert(ls[i as int] == labels@[i as int] as int);
            lemma_mul_le_mono(i as int, LEN_BOUND as int, COORD_BOUND as int);
            assert((LEN_BOUND as int) * (COORD_BOUND as int) == SUM_BOUND) by (nonlinear_arith);
            assert((i as int + 1) * (COORD_BOUND as int) == (i as int) * (COORD_BOUND as int)
                + COORD_BOUND) by (nonlinear_arith);
        }
        let cv = counts[idx];
        counts.set(idx, cv + 1);
        let xv = xs[idx];
        xs.set(idx, xv + p.x);
        let yv = ys[idx];
        ys.set(idx, yv + p.y);
        i += 1;
    }
    let mut res: Vec<Centroid> = Vec::new();
    let mut c: usize = 0;
    while c < k
        invariant
            c <= k,
            res@.len() == c,
            n == data@.len(),
            labels@.len() == n,
            ls == lab(labels@),
            ls.len() == n,
            data_wf(data@),
            centers@.len() == k,
            cents_wf(cm(centers@)),
            counts@.len() == k,
            xs@.len() == k,
            ys@.len() == k,
            forall|cc: int| 0 <= cc < k ==> #[trigger] counts@[cc] as int == count_to(ls, cc, n as int),
            forall|cc: int|
                0 <= cc < k ==> #[trigger] xs@[cc] as int == sum_x_to(data@, ls, cc, n as int),
            forall|cc: int|
                0 <= cc < k ==> #[trigger] ys@[cc] as int == sum_y_to(data@, ls, cc, n as int),
            forall|cc: int| 0 <= cc < k ==> 0 <= #[trigger] counts@[cc] as int <= n as int,
            forall|cc: int|
                0 <= cc < k ==> -((n as int) * (COORD_BOUND as int)) <= #[trigger] xs@[cc] as int
                    <= (n as int) * (COORD_BOUND as int),
            forall|cc: int|
                0 <= cc < k ==> -((n as int) * (COORD_BOUND as int)) <= #[trigger] ys@[cc] as int
                    <= (n as int) * (COORD_BOUND as int),
            forall|j: int|
                0 <= j < c ==> #[trigger] res@[j]@ == upd_center(data@, ls, cm(centers@)[j], j)
                    && c_wf(res@[j]@),
        decreases k - c,
    {
        proof {
            lemma_mul_le_mono(n as int, LEN_BOUND as int, COORD_BOUND as int);
            assert((LEN_BOUND as int) * (COORD_BOUND as int) == SUM_BOUND) by (nonlinear_arith);
            assert(cm(centers@)[c as int] == centers@[c as int]@);
        }
        let cnt = counts[c];
        let nc = if cnt > 0 {
            Centroid { sx: xs[c], sy: ys[c], den: cnt }
        } else {
            centers[c]
        };
        res.push(nc);
        c += 1;
    }
    proof {
        assert(cm(res@) =~= upd_centers(data@, ls, cm(centers@)));
        assert forall|j: int| 0 <= j < k implies c_wf(#[trigger] cm(res@)[j]) by {
            assert(cm(res@)[j] == res@[j]@);
        }
    }
    res
}

/// Element-wise value equality of two centroid collections.
pub(crate) fn centers_eq(a: &Vec<Centroid>, b: &Vec<Centroid>) -> (r: bool)
    requires
        a@.len() == b@.len(),
        cents_wf(cm(a@)),
        cents_wf(cm(b@)),
    ensures
        r == (forall|c: int| 0 <= c < a@.len() ==> r_eq(#[trigger] cm(a@)[c], cm(b@)[c])),
{
    let mut c: usize = 0;
    while c < a.len()
        invariant
            a@.len() == b@.len(),
            c <= a@.len(),
            cents_wf(cm(a@)),
            cents_wf(cm(b@)),
            forall|j: int| 0 <= j < c ==> r_eq(#[trigger] cm(a@)[j], cm(b@)[j]),
        decreases a@.len() - c,
    {
        proof {
            assert(cm(a@)[c as int] == a@[c as int]@);
            assert(cm(b@)[c as int] == b@[c as int]@);
        }
        if !a[c].eq_value(&b[c]) {
            return false;
        }
        c += 1;
    }
    true
}

} // verus!
