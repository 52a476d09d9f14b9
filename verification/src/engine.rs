use vstd::prelude::*;

use crate::geometry::{
    dist2, Centroid, Dist2, Point, RCent, c_wf, d2_frac, f_wf, p_bounded, point_cent,
};
use crate::model::{
    cents_wf, cm, converged, converged_at, data_wf, fr, init_state, iter_state, lab,
    lemma_iter_wf, step, success_at, upd_centers, St,
};
use crate::passes::{assign_pass, centers_eq, update_centers};
use crate::sampling::sample_indices;

verus! {

/// Safety bound on the number of update/reassign iterations.
pub const MAX_ITERS: usize = 300;

/// How the initial centroid collection is produced.
pub enum Init {
    /// Draw `n_clusters` distinct points uniformly at random from the data.
    Random,
    /// Use the given centroids as they are; their number must equal
    /// `n_clusters` and each must be well formed.
    Fixed(Vec<Centroid>),
}

/// The engine's configuration: the desired cluster count and the
/// initialization strategy.
pub struct Config {
    pub n_clusters: usize,
    pub init: Init,
}

/// A failure surfaced by `fit` instead of a crash.
#[derive(Clone, Copy, PartialEq, Eq, Structural, Debug)]
pub enum Error {
    /// The configured cluster count is zero.
    InvalidClusterCount,
    /// Fewer data points than clusters.
    InsufficientData,
    /// No convergence within `MAX_ITERS` iterations.
    IterationLimit,
}

impl Config {
    /// The default configuration: eight clusters, random initialization.
    pub fn default() -> (c: Config)
        ensures
            c.n_clusters == 8,
            c.init == Init::Random,
    {
        Config { n_clusters: 8, init: Init::Random }
    }

    /// Returns the configuration with the cluster count replaced.
    pub fn n_clusters(self, n_clusters: usize) -> (c: Config)
        ensures
            c.n_clusters == n_clusters,
            c.init == self.init,
    {
        Config { n_clusters, init: self.init }
    }

    /// Returns the configuration with the initialization strategy replaced.
    pub fn init(self, init: Init) -> (c: Config)
        ensures
            c.n_clusters == self.n_clusters,
            c.init == init,
    {
        Config { n_clusters: self.n_clusters, init }
    }
}

/// Well-formedness of an initialization strategy for `k` clusters.
pub open spec fn init_wf(init: Init, k: usize) -> bool {
    match init {
        Init::Random => true,
        Init::Fixed(cs) => cs@.len() == k && cents_wf(cm(cs@)),
    }
}

/// The seed centroids `c0` are `k` distinct data points.
pub open spec fn sampled_from(data: Seq<Point>, idx: Seq<int>, c0: Seq<RCent>) -> bool {
    &&& idx.len() == c0.len()
    &&& forall|i: int| 0 <= i < idx.len() ==> 0 <= #[trigger] idx[i] < data.len()
    &&& forall|i: int, j: int|
        #![trigger idx[i], idx[j]]
        0 <= i < j < idx.len() ==> idx[i] != idx[j]
    &&& forall|i: int| 0 <= i < idx.len() ==> #[trigger] c0[i] == point_cent(data[idx[i]])
}

/// How the initial centroid collection `c0` may arise from the strategy:
/// exactly the given centroids for `Fixed`, and some `k` distinct data
/// points for `Random`.
pub open spec fn seeds_ok(init: Init, data: Seq<Point>, k: int, c0: Seq<RCent>) -> bool {
    match init {
        Init::Random => c0.len() == k && exists|idx: Seq<int>| #[trigger] sampled_from(data, idx, c0),
        Init::Fixed(cs) => c0 == cm(cs@),
    }
}

/// The returned labels and centroids are exactly the model state `s`.
pub open spec fn matches_state(ls: Seq<usize>, cs: Seq<Centroid>, s: St) -> bool {
    &&& lab(ls) == s.labels
    &&& cm(cs) == s.cs
}

/// What `fit` guarantees of a successful result: the returned labels and
/// centroids are the model's state after the first converged iteration,
/// reached within the iteration bound; in particular one more update step
/// reproduces the centroids, every point has a valid label, and the counts
/// are as configured.
pub open spec fn fit_ok(config: Config, data: Seq<Point>, ls: Vec<usize>, cs: Vec<Centroid>) -> bool {
    let k = config.n_clusters as int;
    &&& k >= 1 && data.len() >= k
    &&& ls@.len() == data.len()
    &&& cs@.len() == k
    &&& forall|i: int| 0 <= i < ls@.len() ==> (#[trigger] ls@[i] as int) < k
    &&& cents_wf(cm(cs@))
    &&& converged(data, lab(ls@), cm(cs@))
    &&& exists|c0: Seq<RCent>|
        #[trigger] seeds_ok(config.init, data, k, c0) && exists|m: nat|
            m < MAX_ITERS && #[trigger] success_at(data, c0, m) && matches_state(
                ls@,
                cs@,
                iter_state(data, c0, m),
            )
}

/// What holds when `fit` gives up at the iteration bound: valid inputs, and
/// no iteration up to the bound converged.
pub open spec fn fit_exhausted(config: Config, data: Seq<Point>) -> bool {
    let k = config.n_clusters as int;
    &&& k >= 1 && data.len() >= k
    &&& exists|c0: Seq<RCent>|
        #[trigger] seeds_ok(config.init, data, k, c0) && forall|m: nat|
            m < MAX_ITERS ==> !#[trigger] converged_at(data, c0, m)
}

/// The full contract of `fit`: each error comes exactly on the stated
/// inputs, and a success carries the converged clustering.
pub open spec fn fit_post(
    config: Config,
    data: Seq<Point>,
    r: Result<(Vec<usize>, Vec<Centroid>), Error>,
) -> bool {
    let k = config.n_clusters as int;
    &&& (r == Result::<(Vec<usize>, Vec<Centroid>), Error>::Err(Error::InvalidClusterCount) <==> k
        == 0)
    &&& (r == Result::<(Vec<usize>, Vec<Centroid>), Error>::Err(Error::InsufficientData) <==> (k
        >= 1 && data.len() < k))
    &&& (k >= 1 && data.len() >= k ==> (r is Ok || r == Result::<
        (Vec<usize>, Vec<Centroid>),
        Error,
    >::Err(Error::IterationLimit)))
    &&& (r matches Ok(out) ==> fit_ok(config, data, out.0, out.1))
    &&& (r == Result::<(Vec<usize>, Vec<Centroid>), Error>::Err(Error::IterationLimit)
        ==> fit_exhausted(config, data))
}

/// The clustering engine, bound to a configuration.
pub struct KMeans {
    pub config: Config,
}

impl KMeans {
    /// Binds an engine instance to a configuration.
    pub fn new(config: Config) -> (km: KMeans)
        ensures
            km.config == config,
    {
        KMeans { config }
    }

    /// Runs Lloyd's algorithm on `data` and returns the per-point labels
    /// and the final centroids.
    pub fn fit(self, data: Vec<Point>) -> (r: Result<(Vec<usize>, Vec<Centroid>), Error>)
        requires
            data_wf(data@),
            init_wf(self.config.init, self.config.n_clusters),
        ensures
            fit_post(self.config, data@, r),
    {
        let ghost init0 = self.config.init;
        let k = self.config.n_clusters;
        if k == 0 {
            return Err(Error::InvalidClusterCount);
        }
        if data.len() < k {
            return Err(Error::InsufficientData);
        }
        let mut centers: Vec<Centroid> = match self.config.init {
            Init::Fixed(cs) => {
                proof {
                    assert(init0 == Init::Fixed(cs));
                    assert(seeds_ok(init0, data@, k as int, cm(cs@)));
                }
                cs
            },
            Init::Random => {
                let idxs = sample_indices(data.len(), k);
                let mut cs: Vec<Centroid> = Vec::new();
                let mut i: usize = 0;
                while i < k
                    invariant
                        idxs@.len() == k,
                        k <= data@.len(),
                        i <= k,
                        cs@.len() == i,
                        forall|j: int| 0 <= j < k ==> #[trigger] idxs@[j] < data@.len(),
                        forall|a: int, b: int|
                            #![trigger idxs@[a], idxs@[b]]
                            0 <= a < b < k ==> idxs@[a] != idxs@[b],
                        forall|j: int|
                            0 <= j < i ==> #[trigger] cs@[j]@ == point_cent(
                                data@[idxs@[j] as int],
                            ),
                    decreases k - i,
                {
                    let p = data[idxs[i]];
                    cs.push(Centroid::from_point(&p));
                    i += 1;
                }
                proof {
                    let w = idxs@.map_values(|u: usize| u as int);
                    assert forall|j: int| 0 <= j < w.len() implies #[trigger] cm(cs@)[j]
                        == point_cent(data@[w[j]]) by {
                        assert(cm(cs@)[j] == cs@[j]@);
                    }
                    assert(sampled_from(data@, w, cm(cs@)));
                    assert(seeds_ok(init0, data@, k as int, cm(cs@)));
                    assert forall|j: int| 0 <= j < cm(cs@).len() implies c_wf(
                        #[trigger] cm(cs@)[j],
                    ) by {
                        assert(cm(cs@)[j] == cs@[j]@);
                        assert(p_bounded(data@[idxs@[j] as int]));
                    }
                }
                cs
            },
        };
        let ghost c0 = cm(centers@);
        proof {
            assert(seeds_ok(init0, data@, k as int, c0));
            assert(cents_wf(c0));
        }
        let n = data.len();
        let mut labels: Vec<usize> = Vec::new();
        let mut i: usize = 0;
        while i < n
            invariant
                i <= n,
                labels@.len() == i,
                forall|j: int| 0 <= j < i ==> #[trigger] labels@[j] == 0usize,
            decreases n - i,
        {
            labels.push(0);
            i += 1;
        }
        let mut dists: Vec<Dist2> = Vec::new();
        let mut i: usize = 0;
        while i < n
            invariant
                i <= n,
                n == data@.len(),
                dists@.len() == i,
                data_wf(data@),
                centers@.len() >= 1,
                cents_wf(cm(centers@)),
                c0 == cm(centers@),
                forall|j: int|
                    0 <= j < i ==> #[trigger] dists@[j]@ == d2_frac(data@[j], c0[0]) && f_wf(
                        dists@[j]@,
                    ),
            decreases n - i,
        {
            proof {
                assert(cm(centers@)[0] == centers@[0]@);
            }
            let d = dist2(&data[i], &centers[0]);
            dists.push(d);
            i += 1;
        }
        proof {
            let l0s = Seq::new(data@.len(), |j: int| 0int);
            let d0s = Seq::new(data@.len(), |j: int| d2_frac(data@[j], c0[0]));
            assert(lab(labels@) =~= l0s);
            assert(fr(dists@) =~= d0s);
        }
        assign_pass(&data, &centers, &mut labels, &mut dists);
        proof {
            assert(lab(labels@) == init_state(data@, c0).labels);
            assert(fr(dists@) == init_state(data@, c0).dists);
        }
        let ghost mut m: nat = 0;
        let mut iters: usize = 0;
        while iters < MAX_ITERS
            invariant
                data_wf(data@),
                k == self.config.n_clusters,
                init0 == self.config.init,
                1 <= k,
                k as int <= data@.len(),
                cents_wf(c0),
                c0.len() == k as int,
                seeds_ok(init0, data@, k as int, c0),
                m == iters as nat,
                iters <= MAX_ITERS,
                labels@.len() == data@.len(),
                dists@.len() == data@.len(),
                centers@.len() == k,
                lab(labels@) == iter_state(data@, c0, m).labels,
                fr(dists@) == iter_state(data@, c0, m).dists,
                cm(centers@) == iter_state(data@, c0, m).cs,
                forall|j: nat| j < m ==> !#[trigger] converged_at(data@, c0, j),
            decreases MAX_ITERS - iters,
        {
            let ghost st = iter_state(data@, c0, m);
            proof {
                lemma_iter_wf(data@, c0, m);
                assert forall|j: int| 0 <= j < data@.len() implies (#[trigger] labels@[j] as int)
                    < centers@.len() by {
                    assert(lab(labels@)[j] == labels@[j] as int);
                }
                assert forall|j: int| 0 <= j < data@.len() implies f_wf(#[trigger] dists@[j]@) by {
                    assert(fr(dists@)[j] == dists@[j]@);
                }
            }
            let new_centers = update_centers(&data, &labels, &centers);
            let done = centers_eq(&new_centers, &centers);
            proof {
                assert(cm(new_centers@) == upd_centers(data@, st.labels, st.cs));
                assert(done == converged(data@, st.labels, st.cs));
            }
            if done {
                proof {
                    assert(converged_at(data@, c0, m));
                    assert(success_at(data@, c0, m));
                    assert(matches_state(labels@, centers@, iter_state(data@, c0, m)));
                }
                return Ok((labels, centers));
            }
            assign_pass(&data, &new_centers, &mut labels, &mut dists);
            centers = new_centers;
            proof {
                assert(lab(labels@) == step(data@, st).labels);
                assert(fr(dists@) == step(data@, st).dists);
                assert(cm(centers@) == step(data@, st).cs);
                m = m + 1;
                assert(iter_state(data@, c0, m) == step(data@, st));
            }
            iters += 1;
        }
        proof {
            assert(fit_exhausted(self.config, data@));
        }
        Err(Error::IterationLimit)
    }
}

} // verus!
