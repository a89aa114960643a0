use crate::distance::{
    check_pair, is_zero, is_zero_vector, pair_outcome, DistanceError, DistanceMetric, VectorSpace,
};
use crate::graph::{EdgeWeight, VectorGraph, VectorNode, HANDLE_LIMIT};
use std::collections::HashSet;
use vstd::prelude::*;

verus! {

broadcast use vstd::std_specs::hash::group_hash_axioms;

#[verifier::external_type_specification]
#[verifier::external_body]
pub struct ExRng(fastrand::Rng);

/// Relies on fastrand's `Rng::new`: a generator seeded from the thread's
/// generator; nothing is known of its state.
#[verifier::external_body]
fn rng_new() -> (r: fastrand::Rng) {
    fastrand::Rng::new()
}

/// Relies on fastrand's `Rng::with_seed`: a generator whose sequence the
/// seed fixes; nothing more is claimed of it.
#[verifier::external_body]
fn rng_with_seed(seed: u64) -> (r: fastrand::Rng) {
    fastrand::Rng::with_seed(seed)
}

/// Relies on fastrand's `Rng::bool`: a fair coin; nothing is known of the
/// outcome.
#[verifier::external_body]
fn rng_coin(rng: &mut fastrand::Rng) -> (r: bool) {
    rng.bool()
}

/// The highest layer a node can be assigned.
pub const MAX_LAYER: usize = 16;

/// The bit pattern of the default layer-generation factor, `1 / ln 2`, as a
/// double-precision value.
pub const DEFAULT_ML_BITS: u64 = 0x3ff7_1547_652b_82fe;

/// Configuration parameters for HNSW index construction.
#[derive(Clone, Copy, Debug, PartialEq, Eq, Structural)]
pub struct HnswConfig {
    /// Maximum number of connections for each node at layer 0.
    pub m: usize,
    /// Maximum number of connections for each node at layers above 0.
    pub max_m: usize,
    /// Maximum number of connections during construction.
    pub max_m_l: usize,
    /// Bit pattern of the double-precision layer-generation factor; it is
    /// kept with the configuration, and the layer draw does not read it.
    pub ml: u64,
    /// Beam width of the searches made while inserting.
    pub ef_construction: usize,
    /// Distance metric to use.
    pub metric: DistanceMetric,
}

/// The default configuration: caps of 16, a beam of 200 while inserting,
/// and the Euclidean metric.
pub open spec fn default_config() -> HnswConfig {
    HnswConfig {
        m: 16,
        max_m: 16,
        max_m_l: 16,
        ml: DEFAULT_ML_BITS,
        ef_construction: 200,
        metric: DistanceMetric::Euclidean,
    }
}

impl Default for HnswConfig {
    fn default() -> (r: Self)
        ensures
            r == default_config(),
    {
        HnswConfig {
            m: 16,
            max_m: 16,
            max_m_l: 16,
            ml: DEFAULT_ML_BITS,
            ef_construction: 200,
            metric: DistanceMetric::Euclidean,
        }
    }
}

/// A search result or candidate: a node id and the order key of its distance.
pub type Scored = (u64, u32);

/// Distances never decrease along `s`.
pub open spec fn sorted_by_distance(s: Seq<Scored>) -> bool {
    forall|i: int, j: int| 0 <= i <= j < s.len() ==> #[trigger] s[i].1 <= #[trigger] s[j].1
}

/// No id occurs twice in `s`.
pub open spec fn distinct_ids(s: Seq<Scored>) -> bool {
    forall|i: int, j: int|
        0 <= i < s.len() && 0 <= j < s.len() && i != j ==> #[trigger] s[i].0 != #[trigger] s[j].0
}

/// The set of ids in `s`.
pub open spec fn ids_of(s: Seq<Scored>) -> Set<u64> {
    Set::new(|x: u64| exists|i: int| 0 <= i < s.len() && #[trigger] s[i].0 == x)
}

/// A sequence of distinct ids, all drawn from a finite set, is no longer
/// than that set.
pub proof fn lemma_distinct_len_bound(s: Seq<Scored>, ids: Set<u64>)
    requires
        distinct_ids(s),
        ids.finite(),
        forall|i: int| 0 <= i < s.len() ==> ids.contains(#[trigger] s[i].0),
    ensures
        s.len() <= ids.len(),
{
    let t = s.map_values(|c: Scored| c.0);
    assert forall|i: int, j: int|
        0 <= i < t.len() && 0 <= j < t.len() && i != j implies t[i] != t[j] by {
        assert(s[i].0 != s[j].0);
    }
    assert(t.no_duplicates());
    t.unique_seq_to_set();
    assert(t.to_set().subset_of(ids)) by {
        assert forall|x: u64| t.to_set().contains(x) implies ids.contains(x) by {
            let i = choose|i: int| 0 <= i < t.len() && t[i] == x;
            assert(s[i].0 == x);
        }
    }
    vstd::set_lib::lemma_len_subset(t.to_set(), ids);
}

/// Sorts `v` by ascending distance, keeping its elements.
pub fn sort_by_distance(v: &mut Vec<Scored>)
    ensures
        final(v)@.len() == old(v)@.len(),
        sorted_by_distance(final(v)@),
        forall|x: Scored| #[trigger] final(v)@.contains(x) <==> old(v)@.contains(x),
        ids_of(final(v)@) == ids_of(old(v)@),
        distinct_ids(old(v)@) ==> distinct_ids(final(v)@),
{
    let n = v.len();
    let mut i: usize = 0;
    while i < n
        invariant
            v@.len() == n,
            i <= n,
            forall|a: int, b: int| 0 <= a <= b < i ==> #[trigger] v@[a].1 <= #[trigger] v@[b].1,
            forall|a: int, b: int| 0 <= a < i <= b < n ==> #[trigger] v@[a].1 <= #[trigger] v@[b].1,
            forall|x: Scored| #[trigger] v@.contains(x) <==> old(v)@.contains(x),
            distinct_ids(old(v)@) ==> distinct_ids(v@),
        decreases n - i,
    {
        let mut best: usize = i;
        let mut j: usize = i + 1;
        while j < n
            invariant
                v@.len() == n,
                i <= best < n,
                i < j <= n,
                forall|b: int| i <= b < j ==> v@[best as int].1 <= #[trigger] v@[b].1,
            decreases n - j,
        {
            if v[j].1 < v[best].1 {
                best = j;
            }
            j += 1;
        }
        let ghost s0 = v@;
        let a = v[i];
        let b = v[best];
        v.set(i, b);
        v.set(best, a);
        proof {
            let s = v@;
            assert forall|k: int| 0 <= k < n implies #[trigger] s[k] == s0[if k == i {
                best as int
            } else if k == best {
                i as int
            } else {
                k
            }] by {}
            assert forall|x: Scored| #[trigger] s.contains(x) <==> s0.contains(x) by {
                if s.contains(x) {
                    let k = choose|k: int| 0 <= k < n && s[k] == x;
                    if k == i {
                        assert(s0[best as int] == x);
                    } else if k == best {
                        assert(s0[i as int] == x);
                    } else {
                        assert(s0[k] == x);
                    }
                }
                if s0.contains(x) {
                    let k = choose|k: int| 0 <= k < n && s0[k] == x;
                    if k == i {
                        assert(s[best as int] == x);
                    } else if k == best {
                        assert(s[i as int] == x);
                    } else {
                        assert(s[k] == x);
                    }
                }
            }
            if distinct_ids(old(v)@) {
                assert forall|p: int, q: int|
                    0 <= p < n && 0 <= q < n && p != q implies #[trigger] s[p].0 != #[trigger] s[q].0 by {
                    let p0 = if p == i {
                        best as int
                    } else if p == best {
                        i as int
                    } else {
                        p
                    };
                    let q0 = if q == i {
                        best as int
                    } else if q == best {
                        i as int
                    } else {
                        q
                    };
                    assert(s[p] == s0[p0] && s[q] == s0[q0]);
                }
            }
        }
        i += 1;
    }
    proof {
        assert(ids_of(v@) =~= ids_of(old(v)@)) by {
            assert forall|x: u64| ids_of(v@).contains(x) <==> ids_of(old(v)@).contains(x) by {
                if ids_of(v@).contains(x) {
                    let k = choose|k: int| 0 <= k < v@.len() && #[trigger] v@[k].0 == x;
                    assert(v@.contains(v@[k]));
                    let k0 = choose|k0: int| 0 <= k0 < old(v)@.len() && old(v)@[k0] == v@[k];
                    assert(old(v)@[k0].0 == x);
                }
                if ids_of(old(v)@).contains(x) {
                    let k = choose|k: int| 0 <= k < old(v)@.len() && #[trigger] old(v)@[k].0 == x;
                    assert(old(v)@.contains(old(v)@[k]));
                    assert(v@.contains(old(v)@[k]));
                    let k0 = choose|k0: int| 0 <= k0 < v@.len() && v@[k0] == old(v)@[k];
                    assert(v@[k0].0 == x);
                }
            }
        }
    }
}


/// A copy of `v`.
fn copy_vector(v: &Vec<u32>) -> (r: Vec<u32>)
    ensures
        r@ == v@,
{
    let mut r: Vec<u32> = Vec::new();
    let mut i: usize = 0;
    while i < v.len()
        invariant
            i <= v@.len(),
            r@ == v@.subrange(0, i as int),
        decreases v@.len() - i,
    {
        r.push(v[i]);
        i += 1;
    }
    assert(r@ =~= v@);
    r
}

/// The (at most) `m` closest candidates whose id is not `exclude`, closest
/// first: every candidate left out is at least as far as every one kept.
pub fn select_neighbors_simple(candidates: &Vec<Scored>, m: usize, exclude: u64) -> (r: Vec<
    Scored,
>)
    ensures
        r@.len() <= m,
        sorted_by_distance(r@),
        distinct_ids(candidates@) ==> distinct_ids(r@),
        forall|i: int|
            0 <= i < r@.len() ==> (#[trigger] r@[i]).0 != exclude && candidates@.contains(r@[i]),
        forall|c: Scored|
            #[trigger] candidates@.contains(c) && c.0 != exclude && !r@.contains(c) ==> r@.len()
                == m && forall|i: int| 0 <= i < r@.len() ==> (#[trigger] r@[i]).1 <= c.1,
{
    let mut f: Vec<Scored> = Vec::new();
    let mut i: usize = 0;
    while i < candidates.len()
        invariant
            i <= candidates@.len(),
            forall|c: Scored|
                #[trigger] f@.contains(c) <==> (exists|j: int|
                    0 <= j < i && candidates@[j] == c) && c.0 != exclude,
            distinct_ids(candidates@) ==> distinct_ids(f@),
            forall|j: int|
                0 <= j < f@.len() ==> exists|k: int| 0 <= k < i && #[trigger] f@[j] == candidates@[k],
        decreases candidates@.len() - i,
    {
        let c = candidates[i];
        if c.0 != exclude {
            let ghost f0 = f@;
            f.push(c);
            proof {
                assert forall|x: Scored| #[trigger] f@.contains(x) <==> (exists|j: int|
                    0 <= j < i + 1 && candidates@[j] == x) && x.0 != exclude by {
                    if f@.contains(x) {
                        let k = choose|k: int| 0 <= k < f@.len() && f@[k] == x;
                        if k < f0.len() {
                            assert(f0[k] == x);
                            assert(f0.contains(x));
                        }
                    }
                    if (exists|j: int| 0 <= j < i + 1 && candidates@[j] == x) && x.0 != exclude {
                        let j = choose|j: int| 0 <= j < i + 1 && candidates@[j] == x;
                        if j < i {
                            assert(f0.contains(x));
                            let k = choose|k: int| 0 <= k < f0.len() && f0[k] == x;
                            assert(f@[k] == x);
                        } else {
                            assert(f@[f0.len() as int] == x);
                        }
                    }
                }
                assert forall|j: int| 0 <= j < f@.len() implies exists|k: int|
                    0 <= k < i + 1 && #[trigger] f@[j] == candidates@[k] by {
                    if j < f0.len() {
                        assert(f@[j] == f0[j]);
                    } else {
                        assert(f@[j] == candidates@[i as int]);
                    }
                }
                if distinct_ids(candidates@) {
                    assert forall|p: int, q: int|
                        0 <= p < f@.len() && 0 <= q < f@.len() && p != q implies #[trigger] f@[p].0
                        != #[trigger] f@[q].0 by {
                        if p < f0.len() && q < f0.len() {
                            assert(f@[p] == f0[p] && f@[q] == f0[q]);
                        } else if p < f0.len() {
                            let k = choose|k: int| 0 <= k < i && #[trigger] f0[p] == candidates@[k];
                            assert(f@[p] == f0[p]);
                            assert(candidates@[k].0 != candidates@[i as int].0);
                        } else {
                            let k = choose|k: int| 0 <= k < i && #[trigger] f0[q] == candidates@[k];
                            assert(f@[q] == f0[q]);
                            assert(candidates@[k].0 != candidates@[i as int].0);
                        }
                    }
                }
            }
        }
        i += 1;
    }
    sort_by_distance(&mut f);
    let ghost sorted = f@;
    f.truncate(m);
    proof {
        assert forall|i: int| 0 <= i < f@.len() implies (#[trigger] f@[i]).0 != exclude
            && candidates@.contains(f@[i]) by {
            assert(f@[i] == sorted[i]);
            assert(sorted.contains(sorted[i]));
            let j = choose|j: int| 0 <= j < candidates@.len() && candidates@[j] == sorted[i];
        }
        assert forall|a: int, b: int| 0 <= a <= b < f@.len() implies #[trigger] f@[a].1
            <= #[trigger] f@[b].1 by {
            assert(f@[a] == sorted[a] && f@[b] == sorted[b]);
        }
        if distinct_ids(candidates@) {
            assert forall|a: int, b: int|
                0 <= a < f@.len() && 0 <= b < f@.len() && a != b implies #[trigger] f@[a].0
                != #[trigger] f@[b].0 by {
                assert(f@[a] == sorted[a] && f@[b] == sorted[b]);
            }
        }
        assert forall|c: Scored|
            #[trigger] candidates@.contains(c) && c.0 != exclude && !f@.contains(c) implies f@.len()
            == m && forall|i: int| 0 <= i < f@.len() ==> (#[trigger] f@[i]).1 <= c.1 by {
            let j = choose|j: int| 0 <= j < candidates@.len() && candidates@[j] == c;
            assert(sorted.contains(c));
            let k = choose|k: int| 0 <= k < sorted.len() && sorted[k] == c;
            if k < m {
                assert(f@[k] == c);
            }
            assert forall|i: int| 0 <= i < f@.len() implies (#[trigger] f@[i]).1 <= c.1 by {
                assert(f@[i] == sorted[i]);
            }
        }
    }
    f
}

/// The distinct ids among `(id, vector)` pairs.
pub open spec fn pair_ids(pairs: Seq<(u64, Vec<u32>)>) -> Set<u64> {
    Set::new(|x: u64| exists|i: int| 0 <= i < pairs.len() && #[trigger] pairs[i].0 == x)
}

/// What inserting `v` gives when the indexed vectors have length `dim`
/// (`None` while the index is empty): a length mismatch first, then a zero
/// vector under cosine.
pub open spec fn admit_outcome(metric: DistanceMetric, dim: Option<nat>, v: Seq<u32>) -> Result<
    (),
    DistanceError,
> {
    if dim matches Some(d) && v.len() != d {
        Err(DistanceError::DimensionMismatch { len1: v.len() as usize, len2: dim->Some_0 as usize })
    } else if metric == DistanceMetric::Cosine && is_zero_vector(v) {
        Err(DistanceError::ZeroMagnitude)
    } else {
        Ok(())
    }
}

/// What inserting `pairs` in order gives, from an index holding `ids` with
/// vectors of length `dim`: a pair whose id is held is skipped; the first
/// pair that is not admitted ends it with its error.
pub open spec fn build_outcome(
    metric: DistanceMetric,
    ids: Set<u64>,
    dim: Option<nat>,
    pairs: Seq<(u64, Vec<u32>)>,
) -> Result<(), DistanceError>
    decreases pairs.len(),
{
    if pairs.len() == 0 {
        Ok(())
    } else {
        let id = pairs[0].0;
        let v = pairs[0].1@;
        if ids.contains(id) {
            build_outcome(metric, ids, dim, pairs.drop_first())
        } else {
            match admit_outcome(metric, dim, v) {
                Err(e) => Err(e),
                Ok(_) => build_outcome(
                    metric,
                    ids.insert(id),
                    Some(
                        match dim {
                            Some(d) => d,
                            None => v.len(),
                        },
                    ),
                    pairs.drop_first(),
                ),
            }
        }
    }
}

/// The nodes linked to `x` in `g`.
pub open spec fn neighbor_set(g: VectorGraph, x: u64) -> Set<u64> {
    Set::new(|y: u64| g.linked(x, y))
}

/// Arithmetic on the edge budget of an insertion: `k` layers of at most
/// `n` edges each.
proof fn lemma_budget(k: int, l: int, n: int)
    requires
        0 <= k <= l,
        0 <= n,
    ensures
        k * n <= l * n,
        k * n + n == (k + 1) * n,
{
    assert(k * n <= l * n) by (nonlinear_arith)
        requires
            0 <= k <= l,
            0 <= n,
    ;
    assert(k * n + n == (k + 1) * n) by (nonlinear_arith);
}

/// Draws a layer by fair coin flips: one more layer per head, at most
/// [`MAX_LAYER`].
fn random_layer(rng: &mut fastrand::Rng) -> (r: usize)
    ensures
        r <= MAX_LAYER,
{
    let mut layer: usize = 0;
    while layer < MAX_LAYER && rng_coin(rng)
        invariant
            layer <= MAX_LAYER,
        decreases MAX_LAYER - layer,
    {
        layer += 1;
    }
    layer
}

/// An HNSW index over the vectors of a [`VectorSpace`].
pub struct HnswIndex<S: VectorSpace> {
    graph: VectorGraph,
    config: HnswConfig,
    entry_point: Option<u64>,
    rng: fastrand::Rng,
    space: S,
}

impl<S: VectorSpace> HnswIndex<S> {
    /// The proximity graph.
    pub closed spec fn graph_view(&self) -> VectorGraph {
        self.graph
    }

    /// The ids of the indexed vectors.
    pub open spec fn ids(&self) -> Set<u64> {
        self.graph_view().ids()
    }

    /// The indexed nodes, by id.
    pub open spec fn nodes(&self) -> Map<u64, VectorNode> {
        self.graph_view().nodes()
    }

    /// The entry point.
    pub closed spec fn entry(&self) -> Option<u64> {
        self.entry_point
    }

    /// The layer of the entry point, the highest layer of any node.
    pub closed spec fn top_layer(&self) -> usize {
        match self.entry_point {
            Some(ep) => self.graph.nodes()[ep].layer,
            None => 0,
        }
    }

    /// The configuration.
    pub closed spec fn cfg(&self) -> HnswConfig {
        self.config
    }

    /// The length every indexed vector has (zero while the index is empty).
    pub open spec fn dimension(&self) -> nat {
        match self.entry() {
            Some(ep) => self.nodes()[ep].vector@.len(),
            None => 0,
        }
    }

    /// The length of the indexed vectors, or `None` while the index is empty.
    pub open spec fn held_dimension(&self) -> Option<nat> {
        if self.ids().len() > 0 {
            Some(self.dimension())
        } else {
            None
        }
    }

    /// What comparing `v` with the indexed vectors gives: once a vector is
    /// indexed the lengths must agree, and under cosine `v` must not be zero.
    /// A zero vector is refused under cosine even by an empty index: once
    /// stored, every later comparison with it would fail, so refusing it at
    /// once keeps insertion free of partial failures.
    pub open spec fn admits(&self, v: Seq<u32>) -> Result<(), DistanceError> {
        if self.ids().len() > 0 && v.len() != self.dimension() {
            Err(
                DistanceError::DimensionMismatch {
                    len1: v.len() as usize,
                    len2: self.dimension() as usize,
                },
            )
        } else if self.cfg().metric == DistanceMetric::Cosine && is_zero_vector(v) {
            Err(DistanceError::ZeroMagnitude)
        } else {
            Ok(())
        }
    }

    /// The entry point exists exactly when a node does, and has the highest
    /// layer; every node's vector has the index's dimension and, under
    /// cosine, is not zero.
    pub closed spec fn wf(&self) -> bool {
        &&& self.graph.wf()
        &&& (self.entry_point is None <==> self.graph.ids().len() == 0)
        &&& match self.entry_point {
            Some(ep) => self.graph.nodes().contains_key(ep) && forall|x: u64|
                #[trigger] self.graph.nodes().contains_key(x) ==> self.graph.nodes()[x].layer
                    <= self.graph.nodes()[ep].layer,
            None => true,
        }
        &&& forall|x: u64| #[trigger]
            self.graph.nodes().contains_key(x) ==> {
                let n = self.graph.nodes()[x];
                &&& n.layer <= MAX_LAYER
                &&& n.vector@.len() == self.dimension()
                &&& (self.config.metric == DistanceMetric::Cosine ==> !is_zero_vector(n.vector@))
            }
    }

    /// Creates an empty index with the given configuration and vector space.
    pub fn new(config: HnswConfig, space: S) -> (r: Self)
        ensures
            r.wf(),
            r.cfg() == config,
            r.ids() == Set::<u64>::empty(),
            r.ids().len() == 0,
            r.entry() is None,
    {
        let graph = VectorGraph::new(config.metric, config.m);
        proof {
            graph.lemma_ids();
        }
        HnswIndex { graph, config, entry_point: None, rng: rng_new(), space }
    }

    /// Creates an empty index whose layer draws follow from `seed`.
    pub fn with_seed(config: HnswConfig, space: S, seed: u64) -> (r: Self)
        ensures
            r.wf(),
            r.cfg() == config,
            r.ids() == Set::<u64>::empty(),
            r.ids().len() == 0,
            r.entry() is None,
    {
        let graph = VectorGraph::new(config.metric, config.m);
        proof {
            graph.lemma_ids();
        }
        HnswIndex { graph, config, entry_point: None, rng: rng_with_seed(seed), space }
    }

    /// Creates an empty index with the default configuration.
    pub fn with_default_config(space: S) -> (r: Self)
        ensures
            r.wf(),
            r.cfg() == default_config(),
            r.ids() == Set::<u64>::empty(),
            r.ids().len() == 0,
            r.entry() is None,
    {
        Self::new(HnswConfig::default(), space)
    }

    /// The number of indexed vectors.
    pub fn len(&self) -> (r: usize)
        requires
            self.wf(),
        ensures
            r == self.ids().len(),
    {
        self.graph.node_count()
    }

    /// Whether no vector is indexed.
    pub fn is_empty(&self) -> (r: bool)
        requires
            self.wf(),
        ensures
            r == (self.ids().len() == 0),
    {
        self.graph.node_count() == 0
    }

    /// The proximity graph.
    pub fn graph(&self) -> (r: &VectorGraph)
        requires
            self.wf(),
        ensures
            *r == self.graph_view(),
            r.wf(),
    {
        &self.graph
    }

    /// The entry point: `None` exactly when the index is empty.
    pub fn entry_point(&self) -> (r: Option<u64>)
        requires
            self.wf(),
        ensures
            r == self.entry(),
            r is None <==> self.ids().len() == 0,
            r matches Some(ep) ==> self.ids().contains(ep),
    {
        proof {
            self.graph.lemma_ids();
        }
        self.entry_point
    }

    /// The configuration.
    pub fn config(&self) -> (r: &HnswConfig)
        ensures
            *r == self.cfg(),
    {
        &self.config
    }

    /// A well-formed index: its graph is well formed, and a vector that it
    /// admits can be compared with every indexed vector.
    proof fn lemma_admitted(&self, v: Seq<u32>)
        requires
            self.wf(),
            self.ids().len() > 0,
            self.admits(v) is Ok,
        ensures
            self.graph.wf(),
            self.ids().finite(),
            self.nodes().dom() == self.ids(),
            forall|x: u64| #[trigger]
                self.nodes().contains_key(x) ==> pair_outcome(
                    self.config.metric,
                    v,
                    self.nodes()[x].vector@,
                ) is Ok,
    {
        self.graph.lemma_ids();
    }

    /// The order key of the distance between two comparable vectors.
    fn dist(&self, a: &Vec<u32>, b: &Vec<u32>) -> (r: u32)
        requires
            pair_outcome(self.cfg().metric, a@, b@) is Ok,
    {
        self.space.distance(self.config.metric, a, b)
    }

    /// Whether node `x` exists and takes part in `layer`.
    pub open spec fn at_layer(&self, x: u64, layer: usize) -> bool {
        self.nodes().contains_key(x) && self.nodes()[x].layer >= layer
    }

    /// The position of the closest element of a non-empty `v`.
    fn closest_index(v: &Vec<Scored>) -> (r: usize)
        requires
            v@.len() > 0,
        ensures
            r < v@.len(),
            forall|j: int| 0 <= j < v@.len() ==> v@[r as int].1 <= #[trigger] v@[j].1,
    {
        let mut best: usize = 0;
        let mut j: usize = 1;
        while j < v.len()
            invariant
                best < v@.len(),
                1 <= j <= v@.len(),
                forall|b: int| 0 <= b < j ==> v@[best as int].1 <= #[trigger] v@[b].1,
            decreases v@.len() - j,
        {
            if v[j].1 < v[best].1 {
                best = j;
            }
            j += 1;
        }
        best
    }

    /// The position of the farthest element of a non-empty `v`.
    fn farthest_index(v: &Vec<Scored>) -> (r: usize)
        requires
            v@.len() > 0,
        ensures
            r < v@.len(),
            forall|j: int| 0 <= j < v@.len() ==> #[trigger] v@[j].1 <= v@[r as int].1,
    {
        let mut best: usize = 0;
        let mut j: usize = 1;
        while j < v.len()
            invariant
                best < v@.len(),
                1 <= j <= v@.len(),
                forall|b: int| 0 <= b < j ==> #[trigger] v@[b].1 <= v@[best as int].1,
            decreases v@.len() - j,
        {
            if v[j].1 > v[best].1 {
                best = j;
            }
            j += 1;
        }
        best
    }

    /// Beam search at `layer` from `entry_points`, keeping at most
    /// `num_closest` results beyond the entry points themselves: a frontier is
    /// explored closest first, and expansion stops once the closest
    /// unexplored node is farther than the worst kept result. Returns the kept
    /// results in no particular order.
    fn search_layer(
        &self,
        query: &Vec<u32>,
        entry_points: &Vec<u64>,
        num_closest: usize,
        layer: usize,
        exclude: Option<u64>,
    ) -> (r: Vec<Scored>)
        requires
            self.wf(),
            self.ids().len() > 0,
            self.admits(query@) is Ok,
        ensures
            distinct_ids(r@),
            forall|i: int| 0 <= i < r@.len() ==> self.at_layer(#[trigger] r@[i].0, layer),
            forall|i: int| 0 <= i < r@.len() ==> exclude != Some(#[trigger] r@[i].0),
            (exists|i: int|
                0 <= i < entry_points@.len() && self.at_layer(#[trigger] entry_points@[i], layer)
                    && exclude != Some(entry_points@[i])) ==> r@.len() > 0,
    {
        proof {
            self.lemma_admitted(query@);
        }
        let ghost ids = self.ids();
        let ghost n = ids.len();
        let mut visited: HashSet<u64> = HashSet::new();
        let mut candidates: Vec<Scored> = Vec::new();
        let mut w: Vec<Scored> = Vec::new();
        match exclude {
            Some(x) => {
                if self.graph.contains_node(x) {
                    visited.insert(x);
                }
            },
            None => {},
        }
        let mut i: usize = 0;
        while i < entry_points.len()
            invariant
                self.wf(),
                ids == self.ids(),
                ids.finite(),
                self.nodes().dom() == ids,
                forall|x: u64| #[trigger]
                    self.nodes().contains_key(x) ==> pair_outcome(
                        self.config.metric,
                        query@,
                        self.nodes()[x].vector@,
                    ) is Ok,
                i <= entry_points@.len(),
                visited@.finite(),
                visited@.subset_of(ids),
                candidates@.len() <= visited@.len(),
                forall|j: int| 0 <= j < candidates@.len() ==> ids.contains(#[trigger] candidates@[j].0),
                forall|x: u64| #[trigger] visited@.contains(x) <==> (ids_of(w@).contains(x) || (exclude == Some(x) && ids.contains(x))),
                forall|j: int|
                    0 <= j < w@.len() ==> self.at_layer(#[trigger] w@[j].0, layer),
                forall|j: int| 0 <= j < w@.len() ==> exclude != Some(#[trigger] w@[j].0),
                distinct_ids(w@),
                forall|j: int| 0 <= j < i && self.at_layer(#[trigger] entry_points@[j], layer) && exclude != Some(entry_points@[j]) ==> w@.len() > 0,
            decreases entry_points@.len() - i,
        {
            let ep = entry_points[i];
            if !visited.contains(&ep) {
                match self.graph.get_node(ep) {
                    Some(node) => {
                        if node.layer >= layer {
                            let d = self.dist(query, &node.vector);
                            let ghost w0 = w@;
                            candidates.push((ep, d));
                            w.push((ep, d));
                            visited.insert(ep);
                            proof {
                                assert(w@.last() == (ep, d));
                                assert forall|x: u64| #[trigger] visited@.contains(x) <==> (ids_of(w@).contains(x) || (exclude == Some(x) && ids.contains(x))) by {
                                    if ids_of(w@).contains(x) {
                                        let k = choose|k: int| 0 <= k < w@.len() && #[trigger] w@[k].0 == x;
                                        if k < w0.len() {
                                            assert(w0[k].0 == x);
                                            assert(ids_of(w0).contains(x));
                                        }
                                    }
                                    if visited@.contains(x) && x != ep && !(exclude == Some(x) && ids.contains(x)) {
                                        assert(ids_of(w0).contains(x));
                                        let k = choose|k: int| 0 <= k < w0.len() && #[trigger] w0[k].0 == x;
                                        assert(w@[k].0 == x);
                                    }
                                    if x == ep {
                                        assert(w@[w0.len() as int].0 == x);
                                    }
                                }
                                assert forall|p: int, q: int|
                                    0 <= p < w@.len() && 0 <= q < w@.len() && p != q implies #[trigger] w@[p].0 != #[trigger] w@[q].0 by {
                                    if p < w0.len() && q < w0.len() {
                                        assert(w@[p] == w0[p] && w@[q] == w0[q]);
                                    } else if p < w0.len() {
                                        assert(ids_of(w0).contains(w0[p].0));
                                    } else {
                                        assert(ids_of(w0).contains(w0[q].0));
                                    }
                                }
                                vstd::set_lib::lemma_len_subset(visited@, ids);
                            }
                        }
                    },
                    None => {},
                }
            } else {
                proof {
                    if exclude != Some(ep) {
                        assert(ids_of(w@).contains(ep));
                    }
                }
            }
            i += 1;
        }
        let ghost seeded = w@.len() > 0;
        while candidates.len() > 0
            invariant
                self.wf(),
                ids == self.ids(),
                ids.finite(),
                n == ids.len(),
                self.nodes().dom() == ids,
                forall|x: u64| #[trigger]
                    self.nodes().contains_key(x) ==> pair_outcome(
                        self.config.metric,
                        query@,
                        self.nodes()[x].vector@,
                    ) is Ok,
                visited@.finite(),
                visited@.subset_of(ids),
                forall|j: int| 0 <= j < w@.len() ==> visited@.contains(#[trigger] w@[j].0),
                forall|j: int| 0 <= j < w@.len() ==> self.at_layer(#[trigger] w@[j].0, layer),
                forall|j: int| 0 <= j < candidates@.len() ==> ids.contains(#[trigger] candidates@[j].0),
                forall|j: int| 0 <= j < w@.len() ==> exclude != Some(#[trigger] w@[j].0),
                forall|x: u64| exclude == Some(x) && ids.contains(x) ==> #[trigger] visited@.contains(x),
                distinct_ids(w@),
                seeded ==> w@.len() > 0,
            decreases 2 * (n - visited@.len()) + candidates@.len(),
        {
            proof {
                vstd::set_lib::lemma_len_subset(visited@, ids);
            }
            let ghost m0 = 2 * (n - visited@.len()) + candidates@.len();
            let bi = Self::closest_index(&candidates);
            let c = candidates.remove(bi);
            if w.len() > 0 {
                let wi = Self::farthest_index(&w);
                if c.1 > w[wi].1 {
                    break;
                }
            }
            match self.graph.get_neighbors(c.0) {
                None => {},
                Some(nbs) => {
                    proof {
                        self.graph.lemma_ids();
                    }
                    let mut t: usize = 0;
                    while t < nbs.len()
                        invariant
                            self.wf(),
                            ids == self.ids(),
                            ids.finite(),
                            n == ids.len(),
                            self.nodes().dom() == ids,
                            forall|x: u64| #[trigger]
                                self.nodes().contains_key(x) ==> pair_outcome(
                                    self.config.metric,
                                    query@,
                                    self.nodes()[x].vector@,
                                ) is Ok,
                            forall|x: u64| #[trigger] nbs@.contains(x) ==> ids.contains(x),
                            t <= nbs@.len(),
                            visited@.finite(),
                            visited@.subset_of(ids),
                            forall|j: int| 0 <= j < w@.len() ==> visited@.contains(#[trigger] w@[j].0),
                            forall|j: int| 0 <= j < w@.len() ==> self.at_layer(#[trigger] w@[j].0, layer),
                            forall|j: int| 0 <= j < candidates@.len() ==> ids.contains(#[trigger] candidates@[j].0),
                            forall|j: int| 0 <= j < w@.len() ==> exclude != Some(#[trigger] w@[j].0),
                            forall|x: u64| exclude == Some(x) && ids.contains(x) ==> #[trigger] visited@.contains(x),
                            distinct_ids(w@),
                            seeded ==> w@.len() > 0,
                            2 * (n - visited@.len()) + candidates@.len() < m0,
                        decreases nbs@.len() - t,
                    {
                        let nb = nbs[t];
                        proof {
                            assert(nbs@.contains(nb));
                        }
                        if !visited.contains(&nb) {
                            visited.insert(nb);
                            proof {
                                vstd::set_lib::lemma_len_subset(visited@, ids);
                            }
                            match self.graph.get_node(nb) {
                                Some(node) => {
                                    if node.layer >= layer {
                                        let d = self.dist(query, &node.vector);
                                        if w.len() < num_closest {
                                            let ghost w0 = w@;
                                            candidates.push((nb, d));
                                            w.push((nb, d));
                                            proof {
                                                assert forall|p: int, q: int|
                                                    0 <= p < w@.len() && 0 <= q < w@.len() && p != q implies #[trigger] w@[p].0 != #[trigger] w@[q].0 by {
                                                    if p < w0.len() && q < w0.len() {
                                                        assert(w@[p] == w0[p] && w@[q] == w0[q]);
                                                    } else if p < w0.len() {
                                                        assert(w@[p] == w0[p]);
                                                    } else {
                                                        assert(w@[q] == w0[q]);
                                                    }
                                                }
                                            }
                                        } else if w.len() > 0 {
                                            let wi = Self::farthest_index(&w);
                                            if d < w[wi].1 {
                                                let ghost w0 = w@;
                                                candidates.push((nb, d));
                                                w.set(wi, (nb, d));
                                                proof {
                                                    assert forall|p: int, q: int|
                                                        0 <= p < w@.len() && 0 <= q < w@.len() && p != q implies #[trigger] w@[p].0 != #[trigger] w@[q].0 by {
                                                        if p != wi && q != wi {
                                                            assert(w@[p] == w0[p] && w@[q] == w0[q]);
                                                        } else if p != wi {
                                                            assert(w@[p] == w0[p]);
                                                        } else {
                                                            assert(w@[q] == w0[q]);
                                                        }
                                                    }
                                                    assert forall|j: int| 0 <= j < w@.len() implies visited@.contains(#[trigger] w@[j].0) by {
                                                        if j != wi {
                                                            assert(w@[j] == w0[j]);
                                                        }
                                                    }
                                                    assert forall|j: int| 0 <= j < w@.len() implies self.at_layer(#[trigger] w@[j].0, layer) by {
                                                        if j != wi {
                                                            assert(w@[j] == w0[j]);
                                                        }
                                                    }
                                                    assert forall|j: int| 0 <= j < w@.len() implies exclude != Some(#[trigger] w@[j].0) by {
                                                        if j != wi {
                                                            assert(w@[j] == w0[j]);
                                                        }
                                                    }
                                                }
                                            }
                                        }
                                    }
                                },
                                None => {},
                            }
                        }
                        t += 1;
                    }
                },
            }
            proof {
                vstd::set_lib::lemma_len_subset(visited@, ids);
            }
        }
        proof {
            if exists|i: int|
                0 <= i < entry_points@.len() && self.at_layer(#[trigger] entry_points@[i], layer)
                    && exclude != Some(entry_points@[i]) {
                let i = choose|i: int|
                    0 <= i < entry_points@.len() && self.at_layer(#[trigger] entry_points@[i], layer)
                        && exclude != Some(entry_points@[i]);
                assert(seeded);
            }
        }
        w
    }

    /// The ids of `v`, in order.
    fn ids_in(v: &Vec<Scored>) -> (r: Vec<u64>)
        ensures
            r@.len() == v@.len(),
            forall|i: int| 0 <= i < v@.len() ==> #[trigger] r@[i] == v@[i].0,
    {
        let mut r: Vec<u64> = Vec::new();
        let mut i: usize = 0;
        while i < v.len()
            invariant
                i <= v@.len(),
                r@.len() == i,
                forall|j: int| 0 <= j < i ==> #[trigger] r@[j] == v@[j].0,
            decreases v@.len() - i,
        {
            r.push(v[i].0);
            i += 1;
        }
        r
    }

    /// Checks `v` against the indexed vectors through the entry point, whose
    /// vector has the index's dimension.
    fn check_admitted(&self, v: &Vec<u32>) -> (r: Result<(), DistanceError>)
        requires
            self.wf(),
        ensures
            r == self.admits(v@),
    {
        match self.entry_point {
            None => {
                proof {
                    self.graph.lemma_ids();
                    assert(self.ids().len() == 0);
                }
                if self.config.metric == DistanceMetric::Cosine && is_zero(v) {
                    Err(DistanceError::ZeroMagnitude)
                } else {
                    Ok(())
                }
            },
            Some(ep) => {
                proof {
                    self.graph.lemma_ids();
                    assert(self.ids().contains(ep));
                    assert(self.ids().len() > 0);
                }
                match self.graph.get_node(ep) {
                    Some(node) => check_pair(self.config.metric, v, &node.vector),
                    None => {
                        assert(false);
                        Ok(())
                    },
                }
            },
        }
    }

    /// Descends greedily, with a beam of one, from the entry point through
    /// the layers from the top down to `bottom + 1`; returns the ids to start
    /// from at `bottom`.
    fn descend(&self, query: &Vec<u32>, bottom: usize) -> (r: Vec<u64>)
        requires
            self.wf(),
            self.ids().len() > 0,
            self.admits(query@) is Ok,
        ensures
            exists|i: int|
                0 <= i < r@.len() && self.at_layer(
                    #[trigger] r@[i],
                    if bottom <= self.top_layer() {
                        bottom
                    } else {
                        self.top_layer()
                    },
                ),
            forall|i: int| 0 <= i < r@.len() ==> self.ids().contains(#[trigger] r@[i]),
    {
        proof {
            self.graph.lemma_ids();
        }
        let ep = match self.entry_point {
            Some(ep) => ep,
            None => {
                assert(false);
                0
            },
        };
        let top = match self.graph.max_layer() {
            Some(l) => l,
            None => 0,
        };
        let mut current: Vec<u64> = vec![ep];
        let mut lc: usize = top;
        proof {
            assert(self.at_layer(ep, top));
            assert(current@[0] == ep);
            assert(top == self.top_layer());
        }
        while lc > bottom
            invariant
                self.wf(),
                top == self.top_layer(),
                lc <= top,
                lc >= bottom || lc == top,
                self.ids().len() > 0,
                self.admits(query@) is Ok,
                self.nodes().dom() == self.ids(),
                exists|i: int| 0 <= i < current@.len() && self.at_layer(#[trigger] current@[i], lc),
                forall|i: int| 0 <= i < current@.len() ==> self.ids().contains(#[trigger] current@[i]),
            decreases lc,
        {
            let found = self.search_layer(query, &current, 1, lc, None);
            current = Self::ids_in(&found);
            lc -= 1;
            proof {
                assert(self.at_layer(current@[0], lc));
                assert forall|i: int| 0 <= i < current@.len() implies self.ids().contains(#[trigger] current@[i]) by {
                    assert(self.at_layer(found@[i].0, (lc + 1) as usize));
                }
            }
        }
        proof {
            let i = choose|i: int| 0 <= i < current@.len() && self.at_layer(#[trigger] current@[i], lc);
            assert(lc == (if bottom <= top { bottom } else { top }));
        }
        current
    }

    /// The `k` nearest neighbours of `query` that a beam of width
    /// `max(ef, k)` finds, closest first. An empty index gives no result
    /// whatever the query; otherwise the query must be comparable with the
    /// indexed vectors.
    pub fn search(&self, query: &Vec<u32>, k: usize, ef: usize) -> (r: Result<
        Vec<Scored>,
        DistanceError,
    >)
        requires
            self.wf(),
        ensures
            self.ids().len() == 0 ==> (r matches Ok(v) && v@.len() == 0),
            self.ids().len() > 0 ==> match self.admits(query@) {
                Ok(_) => r is Ok,
                Err(e) => r == Err::<Vec<Scored>, DistanceError>(e),
            },
            r matches Ok(v) ==> {
                &&& v@.len() <= k
                &&& v@.len() <= self.ids().len()
                &&& sorted_by_distance(v@)
                &&& distinct_ids(v@)
                &&& forall|i: int| 0 <= i < v@.len() ==> self.ids().contains(#[trigger] v@[i].0)
            },
            r matches Ok(v) ==> (self.ids().len() > 0 && k > 0 ==> v@.len() > 0),
    {
        proof {
            self.graph.lemma_ids();
        }
        if self.entry_point.is_none() {
            return Ok(Vec::new());
        }
        match self.check_admitted(query) {
            Err(e) => return Err(e),
            Ok(_) => {},
        }
        let current = self.descend(query, 0);
        let width = if ef > k {
            ef
        } else {
            k
        };
        let mut found = self.search_layer(query, &current, width, 0, None);
        let ghost unsorted = found@;
        sort_by_distance(&mut found);
        proof {
            assert forall|i: int| 0 <= i < found@.len() implies self.ids().contains(#[trigger] found@[i].0) by {
                assert(found@.contains(found@[i]));
                assert(unsorted.contains(found@[i]));
                let j = choose|j: int| 0 <= j < unsorted.len() && unsorted[j] == found@[i];
                assert(self.at_layer(unsorted[j].0, 0));
            }
        }
        let ghost sorted = found@;
        found.truncate(k);
        proof {
            assert(found@.len() <= k);
            assert forall|i: int| 0 <= i < found@.len() implies self.ids().contains(#[trigger] found@[i].0) by {
                assert(found@[i] == sorted[i]);
            }
            assert forall|i: int, j: int| 0 <= i < found@.len() && 0 <= j < found@.len() && i != j implies #[trigger] found@[i].0 != #[trigger] found@[j].0 by {
                assert(found@[i] == sorted[i] && found@[j] == sorted[j]);
            }
            assert forall|i: int, j: int| 0 <= i <= j < found@.len() implies #[trigger] found@[i].1 <= #[trigger] found@[j].1 by {
                assert(found@[i] == sorted[i] && found@[j] == sorted[j]);
            }
            lemma_distinct_len_bound(found@, self.ids());
        }
        Ok(found)
    }

    /// Two indexed vectors can always be compared.
    proof fn lemma_stored_pair(&self, a: u64, b: u64)
        requires
            self.wf(),
            self.nodes().contains_key(a),
            self.nodes().contains_key(b),
        ensures
            pair_outcome(self.config.metric, self.nodes()[a].vector@, self.nodes()[b].vector@) is Ok,
    {
    }

    /// Trims the connections of `nb` back to `m` when it has more: the
    /// `m - 1` closest of its other connections stay, and so does its
    /// connection to `new_id`.
    fn prune(&mut self, nb: u64, new_id: u64, m: usize)
        requires
            old(self).wf(),
        ensures
            final(self).wf(),
            final(self).graph_view().nodes() == old(self).graph_view().nodes(),
            final(self).graph_view().ids() == old(self).graph_view().ids(),
            final(self).entry() == old(self).entry(),
            final(self).cfg() == old(self).cfg(),
            final(self).top_layer() == old(self).top_layer(),
            forall|a: u64, b: u64| #[trigger]
                final(self).graph_view().linked(a, b) ==> old(self).graph_view().linked(a, b),
            forall|a: u64, b: u64|
                a != nb && b != nb ==> (#[trigger] final(self).graph_view().linked(a, b)
                    == old(self).graph_view().linked(a, b)),
            final(self).graph_view().linked(nb, new_id) == old(self).graph_view().linked(
                nb,
                new_id,
            ),
            final(self).graph_view().edge_seq().len() <= old(self).graph_view().edge_seq().len(),
            neighbor_set(final(self).graph_view(), nb).finite(),
            neighbor_set(final(self).graph_view(), nb).len() <= if m > 0 {
                m
            } else {
                1
            },
    {
        proof {
            self.graph.lemma_ids();
        }
        let conns = match self.graph.get_neighbors(nb) {
            Some(c) => c,
            None => {
                assert(neighbor_set(self.graph, nb) =~= Set::<u64>::empty());
                return ;
            },
        };
        if conns.len() <= m {
            proof {
                assert(neighbor_set(self.graph, nb) =~= conns@.to_set());
                vstd::seq_lib::seq_to_set_is_finite(conns@);
                conns@.lemma_cardinality_of_set();
            }
            return ;
        }
        let mut scored: Vec<Scored> = Vec::new();
        {
            let nb_node = match self.graph.get_node(nb) {
                Some(n) => n,
                None => {
                    assert(false);
                    return ;
                },
            };
            let mut i: usize = 0;
            while i < conns.len()
                invariant
                    self.wf(),
                    self.nodes().contains_key(nb),
                    *nb_node == self.nodes()[nb],
                    forall|x: u64| #[trigger] conns@.contains(x) ==> self.graph.linked(nb, x),
                    forall|x: u64, y: u64| #[trigger]
                        self.graph.linked(x, y) ==> self.ids().contains(x) && self.ids().contains(
                            y,
                        ),
                    self.nodes().dom() == self.ids(),
                    i <= conns@.len(),
                decreases conns@.len() - i,
            {
                let c = conns[i];
                if c != new_id {
                    assert(conns@.contains(c));
                    match self.graph.get_node(c) {
                        Some(cn) => {
                            proof {
                                self.lemma_stored_pair(nb, c);
                            }
                            let d = self.dist(&nb_node.vector, &cn.vector);
                            scored.push((c, d));
                        },
                        None => {},
                    }
                }
                i += 1;
            }
        }
        let keep_count: usize = if m > 0 {
            m - 1
        } else {
            0
        };
        let keep = select_neighbors_simple(&scored, keep_count, new_id);
        let ghost kept = keep@.map_values(|c: Scored| c.0);
        let mut keep_ids: HashSet<u64> = HashSet::new();
        let mut k: usize = 0;
        while k < keep.len()
            invariant
                k <= keep@.len(),
                kept == keep@.map_values(|c: Scored| c.0),
                forall|x: u64|
                    #[trigger] keep_ids@.contains(x) <==> exists|j: int|
                        0 <= j < k && kept[j] == x,
            decreases keep@.len() - k,
        {
            keep_ids.insert(keep[k].0);
            proof {
                assert(kept[k as int] == keep[k as int].0);
            }
            k += 1;
        }
        let mut i: usize = 0;
        while i < conns.len()
            invariant
                self.wf(),
                self.graph.nodes() == old(self).graph.nodes(),
                self.graph.ids() == old(self).graph.ids(),
                self.entry_point == old(self).entry_point,
                self.config == old(self).config,
                forall|a: u64, b: u64| #[trigger]
                    self.graph.linked(a, b) ==> old(self).graph.linked(a, b),
                forall|a: u64, b: u64|
                    a != nb && b != nb ==> (#[trigger] self.graph.linked(a, b) == old(
                        self,
                    ).graph.linked(a, b)),
                self.graph.linked(nb, new_id) == old(self).graph.linked(nb, new_id),
                self.graph.edge_seq().len() <= old(self).graph.edge_seq().len(),
                i <= conns@.len(),
                forall|j: int|
                    0 <= j < i && conns@[j] != new_id && !keep_ids@.contains(conns@[j]) ==> !self.graph.linked(
                        nb,
                        #[trigger] conns@[j],
                    ),
            decreases conns@.len() - i,
        {
            let c = conns[i];
            if c != new_id && !keep_ids.contains(&c) {
                self.graph.remove_edge(nb, c);
            }
            i += 1;
        }
        proof {
            let bound = kept.to_set().insert(new_id);
            vstd::seq_lib::seq_to_set_is_finite(kept);
            kept.lemma_cardinality_of_set();
            assert forall|y: u64| neighbor_set(self.graph, nb).contains(y) implies bound.contains(y) by {
                assert(old(self).graph.linked(nb, y));
                assert(conns@.contains(y));
                let j = choose|j: int| 0 <= j < conns@.len() && conns@[j] == y;
                if y != new_id {
                    assert(keep_ids@.contains(y));
                    let q = choose|q: int| 0 <= q < k && kept[q] == y;
                    assert(kept.contains(y));
                }
            }
            vstd::set_lib::lemma_len_subset(neighbor_set(self.graph, nb), bound);
        }
    }

    /// Inserts `vector` under `id` as a node whose top layer is `layer`.
    ///
    /// An id already present is a successful no-op, whatever the vector.
    /// Otherwise the vector must be admitted (see [`Self::admits`]; under
    /// cosine this refuses a zero vector even as the first one); then it
    /// is connected, layer by layer from `min(layer, top layer)` down, to the
    /// nearest nodes a beam search finds, and becomes the entry point when
    /// its layer is above every other.
    pub fn insert_at_layer(&mut self, id: u64, vector: Vec<u32>, layer: usize) -> (r: Result<
        (),
        DistanceError,
    >)
        requires
            old(self).wf(),
            old(self).ids().len() < HANDLE_LIMIT,
            layer <= MAX_LAYER,
        ensures
            final(self).wf(),
            final(self).cfg() == old(self).cfg(),
            final(self).dimension() == (if r is Ok && old(self).ids().len() == 0 {
                vector@.len()
            } else {
                old(self).dimension()
            }),
            r == (if old(self).ids().contains(id) {
                Ok(())
            } else {
                old(self).admits(vector@)
            }),
            r is Ok && !old(self).ids().contains(id) ==> {
                &&& final(self).ids() == old(self).ids().insert(id)
                &&& final(self).nodes()[id].vector@ == vector@
                &&& final(self).nodes()[id].layer == layer
                &&& (if layer > old(self).top_layer() || old(self).ids().len() == 0 {
                    final(self).entry() == Some(id)
                } else {
                    final(self).entry() == old(self).entry()
                })
            },
            final(self).ids().len() == old(self).ids().len() + (if r is Ok && !old(
                self,
            ).ids().contains(id) {
                1int
            } else {
                0int
            }),
            r is Ok && !old(self).ids().contains(id) ==> final(self).nodes()[id].max_connections
                == (if layer == 0 {
                old(self).cfg().m
            } else {
                old(self).cfg().max_m
            }),
            r is Ok && !old(self).ids().contains(id) && old(self).ids().len() > 0 && old(
                self,
            ).cfg().m > 0 && old(self).graph_view().edge_seq().len() + (MAX_LAYER + 1) * old(
                self,
            ).ids().len() < HANDLE_LIMIT ==> exists|x: u64| #[trigger]
                final(self).graph_view().linked(id, x),
            r is Err || old(self).ids().contains(id) ==> final(self).ids() == old(self).ids()
                && final(self).entry() == old(self).entry(),
            forall|x: u64| #[trigger]
                old(self).nodes().contains_key(x) ==> final(self).nodes().contains_key(x)
                    && final(self).nodes()[x] == old(self).nodes()[x],
    {
        proof {
            self.graph.lemma_ids();
        }
        if self.graph.contains_node(id) {
            return Ok(());
        }
        match self.check_admitted(&vector) {
            Err(e) => return Err(e),
            Ok(_) => {},
        }
        let max_connections = if layer == 0 {
            self.config.m
        } else {
            self.config.max_m
        };
        let node = VectorNode::new(id, copy_vector(&vector), layer, max_connections);
        let old_entry = self.entry_point;
        match old_entry {
            None => {
                self.graph.add_node(node);
                self.entry_point = Some(id);
                proof {
                    self.graph.lemma_ids();
                    assert(self.graph.ids() =~= old(self).graph.ids().insert(id));
                    assert(self.graph.nodes().dom() =~= set![id]);
                }
                return Ok(());
            },
            Some(_) => {},
        }
        let top = self.graph.max_layer();
        let top: usize = match top {
            Some(t) => t,
            None => 0,
        };
        proof {
            assert(top == self.top_layer());
        }
        let mut current = self.descend(&vector, layer);
        self.graph.add_node(node);
        if layer > top {
            self.entry_point = Some(id);
        }
        proof {
            self.graph.lemma_ids();
            old(self).graph.lemma_ids();
            assert(self.graph.ids() =~= old(self).graph.ids().insert(id));
            assert forall|x: u64| #[trigger] self.graph.nodes().contains_key(x) implies {
                let n = self.graph.nodes()[x];
                &&& n.layer <= MAX_LAYER
                &&& n.vector@.len() == self.dimension()
                &&& (self.config.metric == DistanceMetric::Cosine ==> !is_zero_vector(n.vector@))
            } by {
                if x != id {
                    assert(old(self).graph.nodes().contains_key(x));
                }
            }
        }
        let ghost nodes1 = self.nodes();
        let ghost entry1 = self.entry_point;
        let ghost n0 = old(self).ids().len();
        let ghost c0 = self.graph.edge_seq().len();
        let ghost budget = c0 + (MAX_LAYER + 1) * n0 < HANDLE_LIMIT;
        let start: usize = if layer < top {
            layer
        } else {
            top
        };
        proof {
            let k = choose|k: int|
                0 <= k < current@.len() && old(self).at_layer(
                    #[trigger] current@[k],
                    if layer <= old(self).top_layer() {
                        layer
                    } else {
                        old(self).top_layer()
                    },
                );
            assert(current@[k] != id);
            assert(self.at_layer(current@[k], start));
        }
        let mut lc: usize = start + 1;
        while lc > 0
            invariant
                self.wf(),
                self.nodes() == nodes1,
                self.entry_point == entry1,
                self.config == old(self).config,
                self.ids().len() > 0,
                self.ids().contains(id),
                self.ids() == old(self).ids().insert(id),
                old(self).ids().finite(),
                n0 == old(self).ids().len(),
                self.admits(vector@) is Ok,
                lc <= start + 1,
                start <= MAX_LAYER,
                lc > 0 ==> exists|k: int|
                    0 <= k < current@.len() && current@[k] != id && self.at_layer(
                        #[trigger] current@[k],
                        (lc - 1) as usize,
                    ),
                budget == (c0 + (MAX_LAYER + 1) * n0 < HANDLE_LIMIT),
                budget ==> self.graph.edge_seq().len() <= c0 + (start + 1 - lc) * n0,
                lc == 0 ==> (budget && self.config.m > 0 ==> exists|x: u64| #[trigger]
                    self.graph.linked(id, x)),
            decreases lc,
        {
            lc -= 1;
            let candidates = self.search_layer(
                &vector,
                &current,
                self.config.ef_construction,
                lc,
                Some(id),
            );
            let m = if lc == 0 {
                self.config.m
            } else {
                self.config.max_m
            };
            let selected = select_neighbors_simple(&candidates, m, id);
            proof {
                assert(candidates@.len() > 0);
                assert(candidates@.contains(candidates@[0]));
                if m > 0 {
                    assert(selected@.len() > 0);
                }
                assert forall|k: int| 0 <= k < selected@.len() implies old(self).ids().contains(
                    #[trigger] selected@[k].0,
                ) by {
                    let j = choose|j: int|
                        0 <= j < candidates@.len() && candidates@[j] == selected@[k];
                    assert(self.at_layer(candidates@[j].0, lc));
                }
                lemma_distinct_len_bound(selected@, old(self).ids());
                lemma_budget((start - lc) as int, (MAX_LAYER + 1) as int, n0 as int);
                lemma_budget((start - lc + 1) as int, (MAX_LAYER + 1) as int, n0 as int);
            }
            let mut i: usize = 0;
            while i < selected.len()
                invariant
                    self.wf(),
                    self.nodes() == nodes1,
                    self.entry_point == entry1,
                    self.config == old(self).config,
                    self.ids().len() > 0,
                    self.ids() == old(self).ids().insert(id),
                    self.admits(vector@) is Ok,
                    i <= selected@.len(),
                    selected@.len() <= n0,
                    forall|k: int| 0 <= k < selected@.len() ==> (#[trigger] selected@[k]).0 != id
                        && old(self).ids().contains(selected@[k].0),
                    (start - lc) * n0 + n0 == (start - lc + 1) * n0,
                    (start - lc + 1) * n0 <= (MAX_LAYER + 1) * n0,
                    budget == (c0 + (MAX_LAYER + 1) * n0 < HANDLE_LIMIT),
                    budget ==> self.graph.edge_seq().len() <= c0 + (start - lc) * n0 + i,
                    budget && i > 0 ==> self.graph.linked(id, selected@[0].0),
                decreases selected@.len() - i,
            {
                let (nb, d) = selected[i];
                if self.graph.edge_count() < HANDLE_LIMIT {
                    let weight = EdgeWeight::new(d, self.config.metric);
                    let ghost g0 = self.graph;
                    self.graph.add_edge(id, nb, weight);
                    proof {
                        self.graph.lemma_ids();
                        assert(g0.ids().contains(nb));
                        assert(self.graph.linked(id, nb));
                        assert(nb == selected@[i as int].0);
                        if i == 0 {
                            assert(self.graph.linked(id, selected@[0].0));
                        }
                        if budget && i > 0 {
                            assert(g0.linked(id, selected@[0].0));
                        }
                    }
                } else {
                    proof {
                        if budget {
                            assert(self.graph.edge_seq().len() < c0 + (start - lc + 1) * n0);
                        }
                    }
                }
                i += 1;
            }
            let mut i: usize = 0;
            while i < selected.len()
                invariant
                    self.wf(),
                    self.nodes() == nodes1,
                    self.entry_point == entry1,
                    self.config == old(self).config,
                    self.ids().len() > 0,
                    self.ids() == old(self).ids().insert(id),
                    self.admits(vector@) is Ok,
                    i <= selected@.len(),
                    forall|k: int| 0 <= k < selected@.len() ==> (#[trigger] selected@[k]).0 != id,
                    budget == (c0 + (MAX_LAYER + 1) * n0 < HANDLE_LIMIT),
                    budget ==> self.graph.edge_seq().len() <= c0 + (start - lc + 1) * n0,
                    budget && selected@.len() > 0 ==> self.graph.linked(id, selected@[0].0),
                decreases selected@.len() - i,
            {
                let (nb, _d) = selected[i];
                let ghost g0 = self.graph;
                self.prune(nb, id, m);
                proof {
                    self.graph.lemma_ids();
                    g0.lemma_ids();
                    if budget && selected@.len() > 0 {
                        let s0 = selected@[0].0;
                        if s0 == nb {
                            assert(g0.linked(nb, id));
                            assert(self.graph.linked(nb, id));
                        } else {
                            assert(self.graph.linked(id, s0) == g0.linked(id, s0));
                        }
                    }
                }
                i += 1;
            }
            current = Self::ids_in(&candidates);
            proof {
                if lc > 0 {
                    assert(current@[0] == candidates@[0].0);
                    assert(self.at_layer(current@[0], (lc - 1) as usize));
                }
                if lc == 0 && budget && self.config.m > 0 {
                    assert(self.graph.linked(id, selected@[0].0));
                }
            }
        }
        proof {
            self.graph.lemma_ids();
        }
        Ok(())
    }

    /// Inserts `vector` under `id`, at a layer drawn by coin flips: an id
    /// already present is a successful no-op; otherwise the vector must be
    /// comparable with the indexed ones.
    pub fn insert(&mut self, id: u64, vector: Vec<u32>) -> (r: Result<(), DistanceError>)
        requires
            old(self).wf(),
            old(self).ids().len() < HANDLE_LIMIT,
        ensures
            final(self).wf(),
            final(self).cfg() == old(self).cfg(),
            final(self).dimension() == (if r is Ok && old(self).ids().len() == 0 {
                vector@.len()
            } else {
                old(self).dimension()
            }),
            r == (if old(self).ids().contains(id) {
                Ok(())
            } else {
                old(self).admits(vector@)
            }),
            r is Ok && !old(self).ids().contains(id) ==> final(self).ids() == old(self).ids().insert(
                id,
            ) && final(self).nodes()[id].vector@ == vector@,
            final(self).ids().len() == old(self).ids().len() + (if r is Ok && !old(
                self,
            ).ids().contains(id) {
                1int
            } else {
                0int
            }),
            r is Err || old(self).ids().contains(id) ==> final(self).ids() == old(self).ids()
                && final(self).entry() == old(self).entry(),
            old(self).ids().len() == 0 && r is Ok ==> final(self).entry() == Some(id),
            r is Ok && !old(self).ids().contains(id) && old(self).ids().len() > 0 && old(
                self,
            ).cfg().m > 0 && old(self).graph_view().edge_seq().len() + (MAX_LAYER + 1) * old(
                self,
            ).ids().len() < HANDLE_LIMIT ==> exists|x: u64| #[trigger]
                final(self).graph_view().linked(id, x),
            forall|x: u64| #[trigger]
                old(self).nodes().contains_key(x) ==> final(self).nodes().contains_key(x)
                    && final(self).nodes()[x] == old(self).nodes()[x],
    {
        proof {
            self.graph.lemma_ids();
        }
        if self.graph.contains_node(id) {
            return Ok(());
        }
        let layer = random_layer(&mut self.rng);
        assert(self.nodes() == old(self).nodes());
        assert(self.ids() == old(self).ids());
        assert(self.top_layer() == old(self).top_layer());
        assert(self.graph_view() == old(self).graph_view());
        self.insert_at_layer(id, vector, layer)
    }

    /// Inserts every `(id, vector)` pair in order, stopping at the first
    /// error. On success the index holds exactly its former ids and those of
    /// the pairs.
    pub fn build_from_vectors(&mut self, vectors: Vec<(u64, Vec<u32>)>) -> (r: Result<
        (),
        DistanceError,
    >)
        requires
            old(self).wf(),
            old(self).ids().len() + vectors@.len() < HANDLE_LIMIT,
        ensures
            final(self).wf(),
            final(self).cfg() == old(self).cfg(),
            r is Ok ==> final(self).ids() == old(self).ids().union(pair_ids(vectors@)),
            r is Ok && old(self).ids().len() == 0 ==> final(self).ids().len() == pair_ids(
                vectors@,
            ).len(),
            r == build_outcome(
                old(self).cfg().metric,
                old(self).ids(),
                old(self).held_dimension(),
                vectors@,
            ),
    {
        let ghost ids0 = self.ids();
        let n = vectors.len();
        let mut remaining = vectors;
        let ghost all = remaining@;
        let mut i: usize = 0;
        proof {
            self.graph.lemma_ids();
            assert(all.subrange(0, n as int) =~= all);
        }
        while i < n
            invariant
                self.wf(),
                self.cfg() == old(self).cfg(),
                n == all.len(),
                i <= n,
                ids0.finite(),
                ids0.len() + n < HANDLE_LIMIT,
                self.ids() == ids0.union(
                    Set::new(|x: u64| exists|j: int| 0 <= j < i && #[trigger] all[j].0 == x),
                ),
                self.ids().finite(),
                self.ids().len() <= ids0.len() + i,
                remaining@.len() == n - i,
                all == vectors@,
                ids0 == old(self).ids(),
                forall|j: int| 0 <= j < remaining@.len() ==> #[trigger] remaining@[j] == all[i + j],
                build_outcome(old(self).cfg().metric, ids0, old(self).held_dimension(), all)
                    == build_outcome(
                    self.cfg().metric,
                    self.ids(),
                    self.held_dimension(),
                    all.subrange(i as int, n as int),
                ),
            decreases n - i,
        {
            let ghost before = self.ids();
            let ghost held = self.held_dimension();
            let (id, vector) = remaining.remove(0);
            proof {
                assert(all[i as int] == (id, vector));
                let rest = all.subrange(i as int, n as int);
                assert(rest.drop_first() =~= all.subrange(i + 1, n as int));
                assert(rest[0] == (id, vector));
                assert(self.admits(vector@) == admit_outcome(self.cfg().metric, held, vector@));
            }
            let ghost rest = all.subrange(i as int, n as int);
            let ghost metric = self.cfg().metric;
            let ghost v = vector@;
            match self.insert(id, vector) {
                Ok(_) => {},
                Err(e) => {
                    proof {
                        assert(!before.contains(id));
                        assert(admit_outcome(metric, held, v) == Err::<(), DistanceError>(e));
                        assert(build_outcome(metric, before, held, rest) == Err::<(), DistanceError>(e));
                    }
                    return Err(e);
                },
            }
            proof {
                self.graph.lemma_ids();
                if !before.contains(id) {
                    assert(self.ids().len() > 0);
                }
                assert(self.ids() =~= before.insert(id));
                assert(self.ids() =~= ids0.union(
                    Set::new(|x: u64| exists|j: int| 0 <= j < i + 1 && #[trigger] all[j].0 == x),
                )) by {
                    assert forall|x: u64| self.ids().contains(x) <==> ids0.union(
                        Set::new(|x: u64| exists|j: int| 0 <= j < i + 1 && #[trigger] all[j].0 == x),
                    ).contains(x) by {
                        if x == id {
                            assert(all[i as int].0 == x);
                        }
                    }
                }
                assert forall|j: int| 0 <= j < remaining@.len() implies #[trigger] remaining@[j] == all[i
                    + 1 + j] by {}
            }
            i += 1;
        }
        proof {
            assert(Set::new(|x: u64| exists|j: int| 0 <= j < i && #[trigger] all[j].0 == x) =~= pair_ids(
                all,
            ));
            if ids0.len() == 0 {
                assert(ids0 =~= Set::<u64>::empty());
                assert(self.ids() =~= pair_ids(all));
            }
            assert(all.subrange(n as int, n as int).len() == 0);
        }
        Ok(())
    }
}

} // verus!
