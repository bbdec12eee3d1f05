//! The derived inputs of each configuration, grouped by time.
//!
//! The run of a configuration is cut into clusters of equal width. The
//! first cluster starts when the configuration first executed a derived
//! input; a cluster is named by the time at which it ends, shown relative
//! to the anchor.

use crate::app_state::AppState;
use crate::custom_types::InputId;
use crate::custom_types::InputMeta;
use crate::inputs_database::run_times;
use crate::inputs_database::InputsDatabase;
use crate::responders::lemma_run_times_bound;
use crate::responders::lemma_run_times_ordered;
use vstd::arithmetic::div_mod::lemma_div_is_ordered;
use vstd::arithmetic::div_mod::lemma_div_pos_is_pos;
use vstd::arithmetic::mul::lemma_mul_inequality;
use vstd::prelude::*;

verus! {

/// The coverage that the fuzzer reported for an input.
#[derive(Clone, Copy, Debug, PartialEq, Eq, Structural)]
pub struct UILineAndBitmapCoverage {
    pub fuzzer_coverage: u32,
}

/// The width of the clusters that are asked for. The number counts
/// minutes.
#[derive(Clone, Copy, Debug, PartialEq, Eq, Structural)]
pub struct UIInputClustersRequest {
    pub cluster_threshold_seconds: i64,
}

/// What an input contributes to an initial seed that it descends from: the
/// coverage of the input is shared equally among its `ancestors` seeds.
#[derive(Clone, Copy, Debug, PartialEq, Eq, Structural)]
pub struct SeedShare {
    pub seed_fuzz_input_id: u32,
    pub fuzzer_coverage: u32,
    pub ancestors: usize,
}

/// The derived inputs of a configuration that were executed within one
/// cluster of its run.
#[derive(Debug)]
pub struct UIInputClusters {
    /// The time at which the cluster ends, relative to the anchor
    pub key: i64,
    /// For each input of the cluster and each seed it descends from, what
    /// the input contributes to the seed
    pub initial_seeds: Vec<SeedShare>,
    /// The inputs of the cluster, in the order of their ids
    pub inputs: Vec<(InputId, UILineAndBitmapCoverage)>,
    /// The sum of the coverage of the inputs
    pub total_fuzzer_coverage: u64,
    /// The number of inputs
    pub total_inputs: usize,
}

/// Mathematical content of a [`UIInputClusters`].
pub struct ClusterView {
    pub key: i64,
    pub initial_seeds: Seq<SeedShare>,
    pub inputs: Seq<(InputId, UILineAndBitmapCoverage)>,
    pub total_fuzzer_coverage: int,
    pub total_inputs: int,
}

impl View for UIInputClusters {
    type V = ClusterView;

    open spec fn view(&self) -> ClusterView {
        ClusterView {
            key: self.key,
            initial_seeds: self.initial_seeds@,
            inputs: self.inputs@,
            total_fuzzer_coverage: self.total_fuzzer_coverage as int,
            total_inputs: self.total_inputs as int,
        }
    }
}

impl UIInputClusters {
    /// A cluster without inputs.
    pub fn new() -> (r: Self)
        ensures
            r@ == empty_cluster(0),
    {
        UIInputClusters {
            key: 0,
            initial_seeds: Vec::new(),
            inputs: Vec::new(),
            total_fuzzer_coverage: 0,
            total_inputs: 0,
        }
    }
}

/// The clusters of one configuration, in the order of time.
#[derive(Debug)]
pub struct ConfigurationClusters {
    pub fuzzer_configuration_id: u32,
    pub clusters: Vec<UIInputClusters>,
}

/// The cluster that ends at `key` and holds no input.
pub open spec fn empty_cluster(key: i64) -> ClusterView {
    ClusterView {
        key,
        initial_seeds: Seq::empty(),
        inputs: Seq::empty(),
        total_fuzzer_coverage: 0,
        total_inputs: 0,
    }
}

/// The width of the clusters in milliseconds.
pub open spec fn width(request: UIInputClustersRequest) -> int {
    request.cluster_threshold_seconds * 60 * 1000
}

/// The cluster that an input falls into, counted from zero: the number of
/// whole widths between the start of the run and its execution.
pub open spec fn slot_of(m: InputMeta, lo: i64, w: int) -> int {
    (m.executed_on - lo) / w
}

/// What an input with the coverage `coverage` contributes to the first `n`
/// of the seeds it descends from.
pub open spec fn shares_of(db: &InputsDatabase, coverage: u32, seeds: Seq<InputId>, n: int) -> Seq<
    SeedShare,
>
    decreases n,
{
    if n <= 0 {
        Seq::empty()
    } else {
        shares_of(db, coverage, seeds, n - 1).push(
            SeedShare {
                seed_fuzz_input_id: db.inputs()[seeds[n - 1].0 - 1].fuzz_input_id,
                fuzzer_coverage: coverage,
                ancestors: seeds.len() as usize,
            },
        )
    }
}

/// The cluster `cluster` with one more input.
pub open spec fn with_input(db: &InputsDatabase, c: u32, cluster: ClusterView, id: InputId)
    -> ClusterView {
    let m = db.inputs()[id.0 - 1];
    let seeds = db.ancestor_seeds(c, id, db.inputs().len() as int);
    ClusterView {
        key: cluster.key,
        initial_seeds: cluster.initial_seeds + shares_of(
            db,
            m.fuzzer_coverage,
            seeds,
            seeds.len() as int,
        ),
        inputs: cluster.inputs.push(
            (id, UILineAndBitmapCoverage { fuzzer_coverage: m.fuzzer_coverage }),
        ),
        total_fuzzer_coverage: cluster.total_fuzzer_coverage + m.fuzzer_coverage,
        total_inputs: cluster.total_inputs + 1,
    }
}

/// The cluster number `slot` of configuration `c`, with those of the first
/// `n` inputs that fall into it.
pub open spec fn cluster_upto(
    db: &InputsDatabase,
    c: u32,
    lo: i64,
    w: int,
    anchor: i64,
    slot: int,
    n: int,
) -> ClusterView
    decreases n,
{
    if n <= 0 {
        empty_cluster((anchor + (slot + 1) * w) as i64)
    } else {
        let rest = cluster_upto(db, c, lo, w, anchor, slot, n - 1);
        let m = db.inputs()[n - 1];
        if !m.is_initial_seed && m.fuzzer_configuration == c && slot_of(m, lo, w) == slot {
            with_input(db, c, rest, InputId(n as usize))
        } else {
            rest
        }
    }
}

/// The number of clusters of a run from `lo` to `hi`: one more than the
/// number of whole widths in the run.
pub open spec fn cluster_count(lo: i64, hi: i64, w: int) -> int {
    (hi - lo) / w + 1
}

/// The clusters of configuration `c`; none if it has no derived input.
pub open spec fn clusters_of(db: &InputsDatabase, c: u32, w: int, anchor: i64) -> Seq<ClusterView> {
    match run_times(db.inputs(), c, db.inputs().len() as int) {
        None => Seq::empty(),
        Some((lo, hi)) => Seq::new(
            cluster_count(lo, hi, w) as nat,
            |slot: int| cluster_upto(db, c, lo, w, anchor, slot, db.inputs().len() as int),
        ),
    }
}

/// The clusters of a run can be numbered and named.
pub open spec fn run_fits(bounds: Option<(i64, i64)>, w: int, anchor: i64) -> bool {
    match bounds {
        Some((lo, hi)) => cluster_count(lo, hi, w) <= usize::MAX && anchor + cluster_count(
            lo,
            hi,
            w,
        ) * w <= i64::MAX,
        None => true,
    }
}

/// Clusters of the width asked for can be formed: the width is positive
/// and fits the range of times, the sums of coverage fit, and the clusters
/// of every configuration can be numbered and named.
pub open spec fn clusters_fit(db: &InputsDatabase, request: UIInputClustersRequest, anchor: i64)
    -> bool {
    &&& 0 < width(request) <= i64::MAX
    &&& db.inputs().len() <= u32::MAX
    &&& forall|k: int|
        0 <= k < db.configurations().len() ==> run_fits(
            run_times(
                db.inputs(),
                (#[trigger] db.configurations()[k]).fuzzer_configuration_id,
                db.inputs().len() as int,
            ),
            width(request),
            anchor,
        )
}

/// The mathematical content of a list of clusters.
pub open spec fn cluster_views(clusters: Seq<UIInputClusters>) -> Seq<ClusterView> {
    Seq::new(clusters.len(), |k: int| clusters[k]@)
}

/// A cluster holds no more inputs than have been looked at, and the sum of
/// their coverage is bounded accordingly.
pub proof fn lemma_cluster_bounds(
    db: &InputsDatabase,
    c: u32,
    lo: i64,
    w: int,
    anchor: i64,
    slot: int,
    n: int,
)
    requires
        0 <= n,
    ensures
        0 <= cluster_upto(db, c, lo, w, anchor, slot, n).total_inputs <= n,
        0 <= cluster_upto(db, c, lo, w, anchor, slot, n).total_fuzzer_coverage <= n * 0xffff_ffff,
        cluster_upto(db, c, lo, w, anchor, slot, n).key == (anchor + (slot + 1) * w) as i64,
    decreases n,
{
    if n > 0 {
        lemma_cluster_bounds(db, c, lo, w, anchor, slot, n - 1);
    }
}

/// The width asked for, if it is positive and fits the range of times.
fn width_of(request: &UIInputClustersRequest) -> (r: Option<i64>)
    ensures
        match r {
            Some(w) => w == width(*request) && w > 0,
            None => !(0 < width(*request) <= i64::MAX),
        },
{
    let w: i128 = (request.cluster_threshold_seconds as i128) * 60000;
    if w <= 0 || w > i64::MAX as i128 {
        None
    } else {
        Some(w as i64)
    }
}

/// Whether the clusters of a run can be numbered and named.
fn check_run(bounds: Option<(i64, i64)>, w: i64, anchor: i64) -> (r: bool)
    requires
        w > 0,
        bounds matches Some(t) ==> t.0 <= t.1,
    ensures
        r == run_fits(bounds, w as int, anchor),
{
    match bounds {
        Some((lo, hi)) => {
            let span: i128 = (hi as i128) - (lo as i128);
            let count: i128 = span / (w as i128) + 1;
            proof {
                lemma_div_pos_is_pos(span as int, w as int);
                lemma_div_is_ordered(span as int, 0x1_0000_0000_0000_0000, w as int);
                vstd::arithmetic::div_mod::lemma_div_is_ordered_by_denominator(
                    0x1_0000_0000_0000_0000,
                    1,
                    w as int,
                );
                assert(count <= 0x1_0000_0000_0000_0001);
            }
            if count > usize::MAX as i128 {
                return false;
            }
            proof {
                assert(0 <= count * (w as int) <= 0xffff_ffff_ffff_ffff * 0x7fff_ffff_ffff_ffff)
                    by (nonlinear_arith)
                    requires
                        0 <= count <= 0xffff_ffff_ffff_ffff,
                        0 < w <= 0x7fff_ffff_ffff_ffff,
                ;
            }
            (anchor as i128) + count * (w as i128) <= i64::MAX as i128
        },
        None => true,
    }
}

/// Whether clusters of the width asked for can be formed.
pub fn check_clusters(request: &UIInputClustersRequest, data: &AppState, anchor: i64) -> (r: bool)
    ensures
        r == clusters_fit(&data.inputs(), *request, anchor),
{
    let db = data.get_inputs_db();
    let w = match width_of(request) {
        Some(w) => w,
        None => {
            return false;
        },
    };
    if db.input_count() > 0xffff_ffff {
        return false;
    }
    let configs = db.get_all_fuzzer_configurations();
    let mut k: usize = 0;
    while k < configs.len()
        invariant
            k <= configs@.len(),
            *db == data.inputs(),
            configs@ == db.configurations(),
            w == width(*request),
            w > 0,
            db.inputs().len() <= u32::MAX,
            forall|j: int|
                0 <= j < k ==> run_fits(
                    run_times(
                        db.inputs(),
                        (#[trigger] db.configurations()[j]).fuzzer_configuration_id,
                        db.inputs().len() as int,
                    ),
                    w as int,
                    anchor,
                ),
        decreases configs@.len() - k,
    {
        let bounds = db.find_run_times(&configs[k].fuzzer_configuration_id);
        proof {
            lemma_run_times_ordered(
                db.inputs(),
                configs@[k as int].fuzzer_configuration_id,
                db.inputs().len() as int,
            );
        }
        if !check_run(bounds, w, anchor) {
            proof {
                assert(!run_fits(
                    run_times(
                        db.inputs(),
                        db.configurations()[k as int].fuzzer_configuration_id,
                        db.inputs().len() as int,
                    ),
                    width(*request),
                    anchor,
                ));
            }
            return false;
        }
        k = k + 1;
    }
    true
}

/// The clusters of one configuration.
fn clusters_for(db: &InputsDatabase, c: u32, w: i64, anchor: i64) -> (r: Vec<UIInputClusters>)
    requires
        db.wf(),
        w > 0,
        db.inputs().len() <= u32::MAX,
        run_fits(run_times(db.inputs(), c, db.inputs().len() as int), w as int, anchor),
    ensures
        cluster_views(r@) == clusters_of(db, c, w as int, anchor),
{
    let n = db.input_count();
    let mut clusters: Vec<UIInputClusters> = Vec::new();
    let (lo, hi) = match db.find_run_times(&c) {
        Some(bounds) => bounds,
        None => {
            proof {
                assert(cluster_views(clusters@) =~= clusters_of(db, c, w as int, anchor));
            }
            return clusters;
        },
    };
    proof {
        lemma_run_times_ordered(db.inputs(), c, n as int);
        lemma_div_pos_is_pos(hi - lo, w as int);
    }
    let count: usize = (((hi as i128) - (lo as i128)) / (w as i128) + 1) as usize;
    let mut slot: usize = 0;
    while slot < count
        invariant
            slot <= count,
            w > 0,
            count == cluster_count(lo, hi, w as int),
            anchor + count * w <= i64::MAX,
            clusters@.len() == slot,
            forall|s: int|
                0 <= s < slot ==> (#[trigger] clusters@[s])@ == cluster_upto(
                    db,
                    c,
                    lo,
                    w as int,
                    anchor,
                    s,
                    0,
                ),
        decreases count - slot,
    {
        proof {
            lemma_mul_inequality(slot + 1, count as int, w as int);
            assert(0 <= (slot + 1) * w) by (nonlinear_arith)
                requires
                    0 <= slot,
                    0 < w,
            ;
        }
        let mut cluster = UIInputClusters::new();
        cluster.key = ((anchor as i128) + ((slot as i128) + 1) * (w as i128)) as i64;
        clusters.push(cluster);
        slot = slot + 1;
    }
    let mut i: usize = 0;
    while i < n
        invariant
            i <= n,
            db.wf(),
            n == db.inputs().len(),
            n <= u32::MAX,
            w > 0,
            run_times(db.inputs(), c, n as int) == Some((lo, hi)),
            lo <= hi,
            count == cluster_count(lo, hi, w as int),
            clusters@.len() == count,
            forall|s: int|
                0 <= s < count ==> (#[trigger] clusters@[s])@ == cluster_upto(
                    db,
                    c,
                    lo,
                    w as int,
                    anchor,
                    s,
                    i as int,
                ),
        decreases n - i,
    {
        let id = InputId(i + 1);
        let m = db.get_meta(&id).unwrap();
        if !m.is_initial_seed && m.fuzzer_configuration == c {
            proof {
                lemma_run_times_bound(db.inputs(), c, n as int, i as int);
                lemma_div_is_ordered(m.executed_on - lo, hi - lo, w as int);
                lemma_div_pos_is_pos(m.executed_on - lo, w as int);
            }
            let at: usize = (((m.executed_on as i128) - (lo as i128)) / (w as i128)) as usize;
            let seeds = db.get_initial_seed_parents_for(&id, &c);
            let ghost before = clusters@;
            let ghost old_view = clusters@[at as int]@;
            proof {
                lemma_cluster_bounds(db, c, lo, w as int, anchor, at as int, i as int);
            }
            let coverage = m.fuzzer_coverage;
            proof {
                assert forall|q: int| 0 <= q < seeds@.len() implies db.knows(
                    #[trigger] seeds@[q],
                ) by {
                    assert(seeds@.contains(seeds@[q]));
                    assert(db.is_ancestor_seed(c, id, seeds@[q]));
                }
            }
            let mut j: usize = 0;
            while j < seeds.len()
                invariant
                    j <= seeds@.len(),
                    forall|q: int| 0 <= q < seeds@.len() ==> db.knows(#[trigger] seeds@[q]),
                    before.len() == count,
                    at < count,
                    clusters@.len() == count,
                    coverage == m.fuzzer_coverage,
                    forall|s: int|
                        0 <= s < count && s != at ==> (#[trigger] clusters@[s]) == before[s],
                    clusters@[at as int]@ == (ClusterView {
                        initial_seeds: old_view.initial_seeds + shares_of(
                            db,
                            coverage,
                            seeds@,
                            j as int,
                        ),
                        ..old_view
                    }),
                decreases seeds@.len() - j,
            {
                let f = match db.get_meta(&seeds[j]) {
                    Some(s) => s.fuzz_input_id,
                    None => 0,
                };
                clusters[at].initial_seeds.push(
                    SeedShare {
                        seed_fuzz_input_id: f,
                        fuzzer_coverage: coverage,
                        ancestors: seeds.len(),
                    },
                );
                proof {
                    assert(clusters@[at as int]@.initial_seeds =~= old_view.initial_seeds
                        + shares_of(db, coverage, seeds@, j + 1));
                }
                j = j + 1;
            }
            clusters[at].inputs.push((id, UILineAndBitmapCoverage { fuzzer_coverage: coverage }));
            let total: u64 = clusters[at].total_fuzzer_coverage + coverage as u64;
            clusters[at].total_fuzzer_coverage = total;
            let total_inputs: usize = clusters[at].total_inputs + 1;
            clusters[at].total_inputs = total_inputs;
            proof {
                assert(clusters@[at as int]@ == with_input(db, c, old_view, id));
                assert forall|s: int| 0 <= s < count implies (#[trigger] clusters@[s])@
                    == cluster_upto(db, c, lo, w as int, anchor, s, i + 1) by {
                    if s != at {
                        assert(clusters@[s] == before[s]);
                    }
                }
            }
        }
        i = i + 1;
    }
    proof {
        assert(cluster_views(clusters@) =~= clusters_of(db, c, w as int, anchor));
    }
    clusters
}

/// For each configuration, its derived inputs grouped by the cluster of
/// its run in which they were executed. A cluster holds its inputs in the
/// order of their ids, the sum of their coverage, and what each contributes
/// to the seeds it descends from.
pub fn get_all_input_clusters(request: &UIInputClustersRequest, data: &AppState, anchor: i64) -> (r:
    Vec<ConfigurationClusters>)
    requires
        data.inputs().wf(),
        clusters_fit(&data.inputs(), *request, anchor),
    ensures
        r@.len() == data.inputs().configurations().len(),
        forall|k: int|
            0 <= k < r@.len() ==> (#[trigger] r@[k]).fuzzer_configuration_id
                == data.inputs().configurations()[k].fuzzer_configuration_id && cluster_views(
                r@[k].clusters@,
            ) == clusters_of(&data.inputs(), r@[k].fuzzer_configuration_id, width(*request), anchor),
{
    let db = data.get_inputs_db();
    let configs = db.get_all_fuzzer_configurations();
    let w = match width_of(request) {
        Some(w) => w,
        None => 1,
    };
    let mut r: Vec<ConfigurationClusters> = Vec::new();
    let mut k: usize = 0;
    while k < configs.len()
        invariant
            k <= configs@.len(),
            *db == data.inputs(),
            db.wf(),
            configs@ == db.configurations(),
            w == width(*request),
            w > 0,
            clusters_fit(db, *request, anchor),
            r@.len() == k,
            forall|j: int|
                0 <= j < k ==> (#[trigger] r@[j]).fuzzer_configuration_id
                    == db.configurations()[j].fuzzer_configuration_id && cluster_views(
                    r@[j].clusters@,
                ) == clusters_of(db, r@[j].fuzzer_configuration_id, w as int, anchor),
        decreases configs@.len() - k,
    {
        let c = configs[k].fuzzer_configuration_id;
        proof {
            assert(run_fits(
                run_times(
                    db.inputs(),
                    db.configurations()[k as int].fuzzer_configuration_id,
                    db.inputs().len() as int,
                ),
                width(*request),
                anchor,
            ));
        }
        let clusters = clusters_for(db, c, w, anchor);
        r.push(ConfigurationClusters { fuzzer_configuration_id: c, clusters });
        k = k + 1;
    }
    r
}

} // verus!
