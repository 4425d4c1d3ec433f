//! Query-dependent graph start points.
//!
//! A graph search normally begins from a small, fixed set of start points. A start
//! point table is a coarse router in front of it: it holds the centroids of a
//! clustering of the data and, for each centroid, the graph vertex closest to it, its
//! entry vertex. A query is routed to the entry vertices of the centroids nearest to
//! it. Vertices are the row indices of the clustered data.
//!
//! Coordinates and distances are bit patterns of single-precision numbers.
use crate::bytes;
use crate::float_bits;
use crate::metric::Metric;
use crate::ranking;
use crate::text;
use vstd::prelude::*;

verus! {

/// Version of the table format.
pub const FILE_VERSION: u32 = 1;

/// Bytes of a table before its centroids.
pub const FILE_HEADER_LEN: usize = 40;

/// The bytes a table starts with: `DANNSTPT`.
pub open spec fn magic() -> Seq<u8> {
    seq![0x44u8, 0x41, 0x4e, 0x4e, 0x53, 0x54, 0x50, 0x54]
}

/// Configuration controlling how the start-point router is built and queried.
#[derive(Debug, Clone, Copy, PartialEq, Eq, Structural)]
pub struct StartPointsConfig {
    /// Whether the router is active.
    pub enabled: bool,
    /// Number of clusters.
    pub num_clusters: usize,
    /// Number of nearest centroids to probe per query.
    pub num_probes: usize,
    /// Maximum number of iterations to run during clustering.
    pub max_iters: usize,
    /// Seed for the initialization of the clustering.
    pub seed: u64,
    /// Distance metric. Must match the metric used by the index being routed.
    pub metric: Metric,
}

impl StartPointsConfig {
    /// The counts are positive.
    pub open spec fn wf(self) -> bool {
        self.num_clusters > 0 && self.num_probes > 0 && self.max_iters > 0
    }

    /// Create an enabled configuration.
    pub fn new(
        num_clusters: usize,
        num_probes: usize,
        max_iters: usize,
        seed: u64,
        metric: Metric,
    ) -> (config: Self)
        requires
            num_clusters > 0,
            num_probes > 0,
            max_iters > 0,
        ensures
            config == (StartPointsConfig {
                enabled: true,
                num_clusters,
                num_probes,
                max_iters,
                seed,
                metric,
            }),
            config.wf(),
    {
        StartPointsConfig { enabled: true, num_clusters, num_probes, max_iters, seed, metric }
    }

    /// Create a disabled configuration.
    pub fn disabled(metric: Metric) -> (config: Self)
        ensures
            config == (StartPointsConfig {
                enabled: false,
                num_clusters: 1,
                num_probes: 1,
                max_iters: 1,
                seed: 0,
                metric,
            }),
            config.wf(),
    {
        StartPointsConfig {
            enabled: false,
            num_clusters: 1,
            num_probes: 1,
            max_iters: 1,
            seed: 0,
            metric,
        }
    }
}

/// Errors that can occur while building a table.
#[derive(Debug)]
pub enum BuildError {
    /// The training data had zero rows or zero columns.
    EmptyData,
    /// The initialization of the clustering failed.
    Init(String),
    /// Clustering produced no non-empty clusters, so there are no entry vertices.
    NoEntryVertices,
}

impl BuildError {
    /// The text of the error.
    pub open spec fn text(self) -> Seq<char> {
        match self {
            BuildError::EmptyData => "training data is empty"@,
            BuildError::Init(reason) => "k-means initialization failed: "@ + reason@,
            BuildError::NoEntryVertices => "k-means produced no non-empty clusters"@,
        }
    }

    /// The text of the error.
    pub fn message(&self) -> (message: String)
        ensures
            message@ == self.text(),
    {
        match self {
            BuildError::EmptyData => "training data is empty".to_owned(),
            BuildError::Init(reason) => {
                let mut message = "k-means initialization failed: ".to_owned();
                message.append(reason.as_str());
                message
            },
            BuildError::NoEntryVertices => "k-means produced no non-empty clusters".to_owned(),
        }
    }
}

/// Errors that can occur while encoding or decoding a table.
#[derive(Debug, Clone, Copy, PartialEq, Eq, Structural)]
pub enum PersistenceError {
    /// The data do not begin with the magic bytes.
    InvalidMagic,
    /// The format version is not supported.
    UnsupportedVersion(u32),
    /// The metric number is invalid.
    InvalidMetric(i32),
    /// The dimension was zero.
    ZeroDimension,
    /// The table contained no centroids.
    NoCentroids,
    /// The probe count was zero.
    ZeroProbes,
    /// The dimensions could not be represented on this platform.
    SizeOverflow,
    /// The length does not match the dimensions in the header.
    InvalidLength { expected: usize, actual: usize },
    /// The centroid storage does not match the table dimensions.
    InvalidCentroidLayout { expected: usize, actual: usize },
    /// A centroid coordinate was not finite.
    NonFiniteCentroid,
}

impl PersistenceError {
    /// The text of the error.
    pub open spec fn text(self) -> Seq<char> {
        match self {
            PersistenceError::InvalidMagic => "invalid start-point table magic"@,
            PersistenceError::UnsupportedVersion(version) => {
                "unsupported start-point table version "@ + text::decimal(version as nat)
            },
            PersistenceError::InvalidMetric(metric) => {
                "invalid start-point table metric "@ + text::signed_decimal(metric as int)
            },
            PersistenceError::ZeroDimension => "start-point table dimension must be non-zero"@,
            PersistenceError::NoCentroids => {
                "start-point table must contain at least one centroid"@
            },
            PersistenceError::ZeroProbes => "start-point table probe count must be non-zero"@,
            PersistenceError::SizeOverflow => {
                "start-point table dimensions exceed platform limits"@
            },
            PersistenceError::InvalidLength { expected, actual } => {
                "invalid start-point table length: expected "@ + text::decimal(expected as nat)
                    + " bytes, got "@ + text::decimal(actual as nat)
            },
            PersistenceError::InvalidCentroidLayout { expected, actual } => {
                "invalid centroid layout: expected "@ + text::decimal(expected as nat)
                    + " coordinate values, got "@ + text::decimal(actual as nat)
            },
            PersistenceError::NonFiniteCentroid => {
                "start-point table contains a non-finite centroid"@
            },
        }
    }

    /// The text of the error.
    pub fn message(&self) -> (message: String)
        ensures
            message@ == self.text(),
    {
        match *self {
            PersistenceError::InvalidMagic => "invalid start-point table magic".to_owned(),
            PersistenceError::UnsupportedVersion(version) => text::one_number(
                "unsupported start-point table version ",
                version as u64,
                None,
            ),
            PersistenceError::InvalidMetric(metric) => {
                let mut message = "invalid start-point table metric ".to_owned();
                text::append_signed_decimal(&mut message, metric);
                message
            },
            PersistenceError::ZeroDimension => {
                "start-point table dimension must be non-zero".to_owned()
            },
            PersistenceError::NoCentroids => {
                "start-point table must contain at least one centroid".to_owned()
            },
            PersistenceError::ZeroProbes => {
                "start-point table probe count must be non-zero".to_owned()
            },
            PersistenceError::SizeOverflow => {
                "start-point table dimensions exceed platform limits".to_owned()
            },
            PersistenceError::InvalidLength { expected, actual } => text::two_numbers(
                "invalid start-point table length: expected ",
                expected as u64,
                " bytes, got ",
                actual as u64,
                None,
            ),
            PersistenceError::InvalidCentroidLayout { expected, actual } => text::two_numbers(
                "invalid centroid layout: expected ",
                expected as u64,
                " coordinate values, got ",
                actual as u64,
                None,
            ),
            PersistenceError::NonFiniteCentroid => {
                "start-point table contains a non-finite centroid".to_owned()
            },
        }
    }
}

/// A table of centroids and their entry vertices.
#[derive(Debug)]
pub struct StartPointTable {
    /// Vector dimensionality.
    pub dim: usize,
    /// Row-major centroids, aligned with `entry_vertices`.
    pub centroids: Vec<u32>,
    /// The graph vertex closest to each centroid.
    pub entry_vertices: Vec<u32>,
    /// Metric used for query-to-centroid comparisons.
    pub metric: Metric,
    /// Number of centroids to probe per query.
    pub num_probes: usize,
}

impl PartialEq for StartPointTable {
    fn eq(&self, other: &Self) -> (equal: bool) {
        self.dim == other.dim && float_bits::are_equal(
            self.centroids.as_slice(),
            other.centroids.as_slice(),
        ) && same_vertices(self.entry_vertices.as_slice(), other.entry_vertices.as_slice())
            && self.metric == other.metric && self.num_probes == other.num_probes
    }
}

/// Tables are equal if their parts are, the centroids as numbers.
impl vstd::std_specs::cmp::PartialEqSpecImpl for StartPointTable {
    open spec fn obeys_eq_spec() -> bool {
        true
    }

    open spec fn eq_spec(&self, other: &Self) -> bool {
        &&& self.dim == other.dim
        &&& float_bits::all_equal(self.centroids@, other.centroids@)
        &&& self.entry_vertices@ == other.entry_vertices@
        &&& self.metric == other.metric
        &&& self.num_probes == other.num_probes
    }
}

/// Whether two lists hold the same vertices in the same order.
fn same_vertices(left: &[u32], right: &[u32]) -> (same: bool)
    ensures
        same == (left@ == right@),
{
    if left.len() != right.len() {
        return false;
    }
    let mut at: usize = 0;
    while at < left.len()
        invariant
            at <= left@.len(),
            left@.len() == right@.len(),
            forall|i: int| 0 <= i < at ==> #[trigger] left@[i] == right@[i],
        decreases left@.len() - at,
    {
        if left[at] != right[at] {
            return false;
        }
        at += 1;
    }
    assert(left@ =~= right@);
    true
}

impl Clone for StartPointTable {
    fn clone(&self) -> (copy: Self)
        ensures
            copy.parts() == self.parts(),
    {
        StartPointTable {
            dim: self.dim,
            centroids: self.centroids.clone(),
            entry_vertices: self.entry_vertices.clone(),
            metric: self.metric,
            num_probes: self.num_probes,
        }
    }
}

/// How the initialization of a clustering ended.
#[derive(Debug)]
pub enum InitOutcome {
    /// The centers were initialized, if not with as much diversity as wanted.
    Usable,
    /// There are no centers.
    Failed(String),
}

/// The metric by which queries and centroids are compared: centroids are means and
/// not generally unit vectors.
pub open spec fn spec_routing_metric(metric: Metric) -> Metric {
    if metric == Metric::CosineNormalized {
        Metric::Cosine
    } else {
        metric
    }
}

/// The metric by which queries and centroids are compared.
pub fn routing_metric(metric: Metric) -> (routing: Metric)
    ensures
        routing == spec_routing_metric(metric),
{
    match metric {
        Metric::CosineNormalized => Metric::Cosine,
        metric => metric,
    }
}

/// The distance of a point to a cluster's centroid.
pub open spec fn point_distance(
    distances: Seq<u32>,
    num_clusters: int,
    point: int,
    cluster: int,
) -> u32 {
    distances[point * num_clusters + cluster]
}

/// Of the first `points` points, the first of those nearest to the centroid of a
/// cluster, if any has a distance below infinity.
pub open spec fn nearest_point(
    distances: Seq<u32>,
    num_clusters: int,
    points: nat,
    cluster: int,
) -> Option<int>
    decreases points,
{
    if points == 0 {
        None
    } else {
        let before = nearest_point(distances, num_clusters, (points - 1) as nat, cluster);
        if float_bits::less(
            point_distance(distances, num_clusters, points - 1, cluster),
            nearest_distance(distances, num_clusters, before, cluster),
        ) {
            Some(points - 1)
        } else {
            before
        }
    }
}

/// The distance of a nearest point, or infinity.
pub open spec fn nearest_distance(
    distances: Seq<u32>,
    num_clusters: int,
    nearest: Option<int>,
    cluster: int,
) -> u32 {
    match nearest {
        Some(point) => point_distance(distances, num_clusters, point, cluster),
        None => float_bits::INFINITY,
    }
}

/// No point is nearer to a centroid than the nearest one.
pub proof fn lemma_nearest_point(
    distances: Seq<u32>,
    num_clusters: int,
    points: nat,
    cluster: int,
    other: int,
)
    requires
        0 <= other < points,
    ensures
        ({
            let nearest = nearest_point(distances, num_clusters, points, cluster);
            &&& nearest is Some ==> 0 <= nearest->0 < points
            &&& !float_bits::less(
                point_distance(distances, num_clusters, other, cluster),
                nearest_distance(distances, num_clusters, nearest, cluster),
            )
        }),
    decreases points,
{
    if other < points - 1 {
        lemma_nearest_point(distances, num_clusters, (points - 1) as nat, cluster, other);
    } else if points > 1 {
        lemma_nearest_point(distances, num_clusters, (points - 1) as nat, cluster, 0);
    }
}

/// Points were assigned to the cluster.
pub open spec fn is_assigned(assignments: Seq<u32>, cluster: int) -> bool {
    exists|at: int| 0 <= at < assignments.len() && #[trigger] assignments[at] == cluster
}

/// The entry vertex of a cluster: the point nearest to its centroid, if points were
/// assigned to the cluster.
pub open spec fn entry_vertex(
    distances: Seq<u32>,
    num_clusters: int,
    points: nat,
    assignments: Seq<u32>,
    cluster: int,
) -> Option<u32> {
    if is_assigned(assignments, cluster) {
        match nearest_point(distances, num_clusters, points, cluster) {
            Some(point) => Some(point as u32),
            None => None,
        }
    } else {
        None
    }
}

/// The entry vertices of all clusters.
pub open spec fn entry_vertices_of(
    distances: Seq<u32>,
    num_clusters: nat,
    points: nat,
    assignments: Seq<u32>,
) -> Seq<Option<u32>> {
    Seq::new(
        num_clusters,
        |cluster: int|
            entry_vertex(distances, num_clusters as int, points, assignments, cluster),
    )
}

/// Finds the entry vertex of each cluster, given the distances of all points to all
/// centroids, row by row, and the clusters that points were assigned to.
pub fn nearest_entry_vertices(
    distances: &[u32],
    num_points: usize,
    num_clusters: usize,
    assignments: &[u32],
) -> (entries: Vec<Option<u32>>)
    requires
        distances@.len() == num_points * num_clusters,
        forall|at: int|
            0 <= at < assignments@.len() ==> #[trigger] assignments@[at] < num_clusters,
    ensures
        entries@ == entry_vertices_of(
            distances@,
            num_clusters as nat,
            num_points as nat,
            assignments@,
        ),
{
    let non_empty = find_non_empty(assignments, num_clusters);
    let mut entries: Vec<Option<u32>> = Vec::new();
    let mut cluster: usize = 0;
    while cluster < num_clusters
        invariant
            cluster <= num_clusters,
            distances@.len() == num_points * num_clusters,
            non_empty@.len() == num_clusters,
            forall|at: int|
                0 <= at < num_clusters ==> #[trigger] non_empty@[at] == is_assigned(
                    assignments@,
                    at,
                ),
            entries@.len() == cluster,
            forall|at: int|
                0 <= at < cluster ==> #[trigger] entries@[at] == entry_vertex(
                    distances@,
                    num_clusters as int,
                    num_points as nat,
                    assignments@,
                    at,
                ),
        decreases num_clusters - cluster,
    {
        let entry: Option<u32> = if non_empty[cluster] {
            find_nearest(distances, num_points, num_clusters, cluster)
        } else {
            None
        };
        entries.push(entry);
        cluster += 1;
    }
    assert(entries@ =~= entry_vertices_of(
        distances@,
        num_clusters as nat,
        num_points as nat,
        assignments@,
    ));
    entries
}

/// Which clusters points were assigned to.
fn find_non_empty(assignments: &[u32], num_clusters: usize) -> (non_empty: Vec<bool>)
    requires
        forall|at: int|
            0 <= at < assignments@.len() ==> #[trigger] assignments@[at] < num_clusters,
    ensures
        non_empty@.len() == num_clusters,
        forall|at: int|
            0 <= at < num_clusters ==> #[trigger] non_empty@[at] == is_assigned(assignments@, at),
{
    let mut non_empty: Vec<bool> = vec![false; num_clusters];
    let mut at: usize = 0;
    while at < assignments.len()
        invariant
            at <= assignments@.len(),
            non_empty@.len() == num_clusters,
            forall|at: int|
                0 <= at < assignments@.len() ==> #[trigger] assignments@[at] < num_clusters,
            forall|cluster: int|
                0 <= cluster < num_clusters ==> #[trigger] non_empty@[cluster] == is_assigned(
                    assignments@.take(at as int),
                    cluster,
                ),
        decreases assignments@.len() - at,
    {
        let assigned: u32 = assignments[at];
        let ghost before = non_empty@;
        let ghost taken = assignments@.take(at as int);
        let ghost grown = assignments@.take(at + 1);
        assert(assignments@[at as int] < num_clusters);
        non_empty[assigned as usize] = true;
        proof {
            assert forall|cluster: int| 0 <= cluster < num_clusters implies #[trigger] non_empty@[cluster]
                == is_assigned(grown, cluster) by {
                if cluster == assigned {
                    assert(grown[at as int] == cluster);
                } else {
                    assert(non_empty@[cluster] == before[cluster]);
                    if is_assigned(taken, cluster) {
                        let place = choose|place: int|
                            0 <= place < taken.len() && #[trigger] taken[place] == cluster;
                        assert(grown[place] == cluster);
                    }
                    if is_assigned(grown, cluster) {
                        let place = choose|place: int|
                            0 <= place < grown.len() && #[trigger] grown[place] == cluster;
                        assert(taken[place] == cluster);
                    }
                }
            }
        }
        at += 1;
    }
    assert(assignments@.take(at as int) =~= assignments@);
    non_empty
}

/// The point nearest to the centroid of a cluster.
fn find_nearest(distances: &[u32], num_points: usize, num_clusters: usize, cluster: usize) -> (nearest:
    Option<u32>)
    requires
        cluster < num_clusters,
        distances@.len() == num_points * num_clusters,
    ensures
        nearest == match nearest_point(
            distances@,
            num_clusters as int,
            num_points as nat,
            cluster as int,
        ) {
            Some(point) => Some(point as u32),
            None => None::<u32>,
        },
{
    let ghost width = num_clusters as int;
    let mut best: u32 = float_bits::INFINITY;
    let mut nearest: Option<u32> = None;
    let ghost mut found: Option<int> = None;
    let mut point: usize = 0;
    let mut place: usize = cluster;
    assert(distances.len() == distances@.len());
    while point < num_points
        invariant
            point <= num_points,
            width == num_clusters,
            cluster < num_clusters,
            distances@.len() == num_points * num_clusters,
            distances@.len() <= usize::MAX,
            point < num_points ==> place == point * num_clusters + cluster,
            found == nearest_point(distances@, width, point as nat, cluster as int),
            best == nearest_distance(distances@, width, found, cluster as int),
            nearest == match found {
                Some(point) => Some(point as u32),
                None => None::<u32>,
            },
        decreases num_points - point,
    {
        proof {
            let row = point as int;
            let rows = num_points as int;
            assert(0 <= row * width && row * width + width <= rows * width && (row + 1) * width
                == row * width + width) by (nonlinear_arith)
                requires
                    0 <= row < rows,
                    0 <= width,
            ;
            if row + 1 < rows {
                assert((row + 1) * width + width <= rows * width) by (nonlinear_arith)
                    requires
                        0 <= row,
                        row + 1 < rows,
                        0 <= width,
                ;
            }
        }
        let value: u32 = distances[place];
        if float_bits::is_less(value, best) {
            best = value;
            nearest = Some(point as u32);
            proof {
                found = Some(point as int);
            }
        }
        point += 1;
        if point < num_points {
            place = place + num_clusters;
        }
    }
    nearest
}

/// The rows of the clusters with an entry vertex.
pub open spec fn kept_rows(centroids: Seq<u32>, dim: int, entries: Seq<Option<u32>>) -> Seq<u32>
    decreases entries.len(),
{
    if entries.len() == 0 {
        Seq::empty()
    } else {
        let before = kept_rows(centroids, dim, entries.drop_last());
        let row = entries.len() - 1;
        if entries.last() is Some {
            before + centroids.subrange(row * dim, row * dim + dim)
        } else {
            before
        }
    }
}

/// The entry vertices that there are.
pub open spec fn kept_vertices(entries: Seq<Option<u32>>) -> Seq<u32>
    decreases entries.len(),
{
    if entries.len() == 0 {
        Seq::empty()
    } else {
        match entries.last() {
            Some(vertex) => kept_vertices(entries.drop_last()).push(vertex),
            None => kept_vertices(entries.drop_last()),
        }
    }
}

/// The number of clusters to form: as configured, at most one for each point.
pub open spec fn cluster_count(config: StartPointsConfig, num_points: usize) -> usize {
    if config.num_clusters < num_points {
        config.num_clusters
    } else {
        num_points
    }
}

/// Tells how many clusters to form, if the router is enabled.
pub fn plan_clusters(config: &StartPointsConfig, num_points: usize, dim: usize) -> (result: Result<
    Option<usize>,
    BuildError,
>)
    ensures
        result == if !config.enabled {
            Ok::<Option<usize>, BuildError>(None)
        } else if num_points == 0 || dim == 0 {
            Err(BuildError::EmptyData)
        } else {
            Ok(Some(cluster_count(*config, num_points)))
        },
{
    if !config.enabled {
        return Ok(None);
    }
    if num_points == 0 || dim == 0 {
        return Err(BuildError::EmptyData);
    }
    if config.num_clusters < num_points {
        Ok(Some(config.num_clusters))
    } else {
        Ok(Some(num_points))
    }
}

/// What a clustering of the data gave.
pub struct Clustering<'a> {
    /// How the initialization ended.
    pub init: InitOutcome,
    /// The final centroids, row by row.
    pub centroids: &'a [u32],
    /// The cluster that each point was assigned to before the last update.
    pub assignments: &'a [u32],
    /// The distances of all points to all final centroids, row by row.
    pub distances: &'a [u32],
}

impl StartPointTable {
    /// The parts of the table fit together.
    pub open spec fn wf(&self) -> bool {
        &&& self.dim > 0
        &&& self.entry_vertices@.len() > 0
        &&& self.centroids@.len() == self.entry_vertices@.len() * self.dim
        &&& self.num_probes > 0
    }

    /// Build the router from a clustering of the data; row `i` of the data
    /// corresponds to graph vertex `i`.
    pub fn build(
        config: &StartPointsConfig,
        num_points: usize,
        dim: usize,
        clustering: Clustering<'_>,
    ) -> (result: Result<Option<Self>, BuildError>)
        requires
            config.wf(),
            clustering.init is Usable ==> clustering.centroids@.len() == cluster_count(
                *config,
                num_points,
            ) * dim,
            clustering.init is Usable ==> clustering.distances@.len() == num_points * cluster_count(
                *config,
                num_points,
            ),
            clustering.init is Usable ==> forall|at: int|
                0 <= at < clustering.assignments@.len() ==> #[trigger] clustering.assignments@[at]
                    < cluster_count(*config, num_points),
        ensures
            ({
                let entries = entry_vertices_of(
                    clustering.distances@,
                    cluster_count(*config, num_points) as nat,
                    num_points as nat,
                    clustering.assignments@,
                );
                if !config.enabled {
                    result is Ok && result->Ok_0 is None
                } else if num_points == 0 || dim == 0 {
                    result is Err && result->Err_0 == BuildError::EmptyData
                } else if clustering.init is Failed {
                    result is Err && result->Err_0 == BuildError::Init(clustering.init->Failed_0)
                } else if kept_vertices(entries).len() == 0 {
                    result is Err && result->Err_0 == BuildError::NoEntryVertices
                } else {
                    &&& result is Ok && result->Ok_0 is Some
                    &&& result->Ok_0->0.wf()
                    &&& result->Ok_0->0.dim == dim
                    &&& result->Ok_0->0.centroids@ == kept_rows(
                        clustering.centroids@,
                        dim as int,
                        entries,
                    )
                    &&& result->Ok_0->0.entry_vertices@ == kept_vertices(entries)
                    &&& result->Ok_0->0.metric == spec_routing_metric(config.metric)
                    &&& result->Ok_0->0.num_probes == config.num_probes
                }
            }),
    {
        let num_clusters: usize = match plan_clusters(config, num_points, dim) {
            Ok(Some(num_clusters)) => num_clusters,
            Ok(None) => {
                return Ok(None);
            },
            Err(error) => {
                return Err(error);
            },
        };
        match clustering.init {
            InitOutcome::Usable => {},
            InitOutcome::Failed(reason) => {
                return Err(BuildError::Init(reason));
            },
        }
        let entries = nearest_entry_vertices(
            clustering.distances,
            num_points,
            num_clusters,
            clustering.assignments,
        );
        let (centroids, entry_vertices) = keep_non_empty(clustering.centroids, dim, &entries);
        if entry_vertices.len() == 0 {
            return Err(BuildError::NoEntryVertices);
        }
        Ok(
            Some(
                StartPointTable {
                    dim,
                    centroids,
                    entry_vertices,
                    metric: routing_metric(config.metric),
                    num_probes: config.num_probes,
                },
            ),
        )
    }

    /// The number of entry vertices that a query is routed to.
    pub open spec fn probe_count(&self) -> int {
        if self.num_probes < self.entry_vertices@.len() {
            self.num_probes as int
        } else {
            self.entry_vertices@.len() as int
        }
    }

    /// Return the entry vertices of the centroids nearest to a query, closest
    /// first, given the dimension of the query and its distance to each centroid.
    pub fn entry_points(&self, query_dimension: usize, distances: &[u32]) -> (vertices: Vec<u32>)
        requires
            query_dimension == self.dim,
            distances@.len() == self.entry_vertices@.len(),
            self.num_probes > 0,
        ensures
            exists|order: Seq<usize>| #[trigger]
                ranking::is_ranking(distances@, order) && vertices@ == Seq::new(
                    self.probe_count() as nat,
                    |at: int| self.entry_vertices@[order[at] as int],
                ),
            self.num_probes <= self.entry_vertices@.len() ==> vertices@.len() == self.num_probes,
            self.num_probes > self.entry_vertices@.len() ==> vertices@.len()
                == self.entry_vertices@.len(),
    {
        let order = ranking::rank_positions(distances);
        let probes: usize = if self.num_probes < self.entry_vertices.len() {
            self.num_probes
        } else {
            self.entry_vertices.len()
        };
        let mut vertices: Vec<u32> = Vec::new();
        let mut at: usize = 0;
        while at < probes
            invariant
                at <= probes,
                probes == self.probe_count(),
                probes <= order@.len(),
                order@.len() == self.entry_vertices@.len(),
                distances@.len() == self.entry_vertices@.len(),
                ranking::is_ranking(distances@, order@),
                vertices@.len() == at,
                forall|i: int|
                    0 <= i < at ==> #[trigger] vertices@[i]
                        == self.entry_vertices@[order@[i] as int],
            decreases probes - at,
        {
            assert(order@[at as int] < distances@.len());
            vertices.push(self.entry_vertices[order[at]]);
            at += 1;
        }
        assert(vertices@ =~= Seq::new(
            self.probe_count() as nat,
            |at: int| self.entry_vertices@[order@[at] as int],
        ));
        vertices
    }

    /// Number of centroids retained in the table.
    pub fn num_centroids(&self) -> (count: usize)
        ensures
            count == self.entry_vertices@.len(),
    {
        self.entry_vertices.len()
    }

    /// Number of centroids probed per query.
    pub fn num_probes(&self) -> (count: usize)
        ensures
            count == self.num_probes,
    {
        self.num_probes
    }

    /// Vector dimensionality expected by `entry_points`.
    pub fn dim(&self) -> (dim: usize)
        ensures
            dim == self.dim,
    {
        self.dim
    }

    /// The entry vertex for every retained centroid.
    pub fn entry_vertices(&self) -> (vertices: &[u32])
        ensures
            vertices@ == self.entry_vertices@,
    {
        self.entry_vertices.as_slice()
    }

    /// Metric used to compare queries and centroids.
    pub fn metric(&self) -> (metric: Metric)
        ensures
            metric == self.metric,
    {
        self.metric
    }

    /// The bytes of the table.
    pub open spec fn image(&self) -> Seq<u8> {
        magic() + bytes::le_bytes(FILE_VERSION as nat, 4) + bytes::le_bytes(
            self.metric.spec_code() as nat,
            4,
        ) + bytes::le_bytes(self.dim as nat, 8) + bytes::le_bytes(self.entry_vertices@.len(), 8)
            + bytes::le_bytes(self.num_probes as nat, 8) + bytes::u32s_bytes(self.centroids@)
            + bytes::u32s_bytes(self.entry_vertices@)
    }

    /// Why the table cannot be written.
    pub open spec fn encode_fault(&self) -> Option<PersistenceError> {
        let count = self.entry_vertices@.len();
        let values = count * self.dim;
        if values > usize::MAX {
            Some(PersistenceError::SizeOverflow)
        } else if self.centroids@.len() != values {
            Some(
                PersistenceError::InvalidCentroidLayout {
                    expected: values as usize,
                    actual: self.centroids@.len() as usize,
                },
            )
        } else if FILE_HEADER_LEN + values * 4 + count * 4 > usize::MAX {
            Some(PersistenceError::SizeOverflow)
        } else {
            None
        }
    }

    /// Serialize this table.
    pub fn to_bytes(&self) -> (result: Result<Vec<u8>, PersistenceError>)
        ensures
            match result {
                Ok(encoded) => self.encode_fault() is None && encoded@ == self.image(),
                Err(error) => self.encode_fault() == Some(error),
            },
    {
        let count: usize = self.entry_vertices.len();
        proof {
            assert(0 <= count * self.dim) by (nonlinear_arith)
                requires
                    count >= 0,
                    self.dim >= 0,
            ;
        }
        let Some(values) = count.checked_mul(self.dim) else {
            return Err(PersistenceError::SizeOverflow);
        };
        if values != self.centroids.len() {
            return Err(
                PersistenceError::InvalidCentroidLayout {
                    expected: values,
                    actual: self.centroids.len(),
                },
            );
        }
        if payload_end(values, count).is_none() {
            return Err(PersistenceError::SizeOverflow);
        }
        let expected_magic: [u8; 8] = [0x44, 0x41, 0x4e, 0x4e, 0x53, 0x54, 0x50, 0x54];
        let mut encoded: Vec<u8> = Vec::new();
        bytes::append_bytes(&mut encoded, &expected_magic);
        bytes::append_u32(&mut encoded, FILE_VERSION);
        bytes::append_u32(&mut encoded, self.metric.code());
        bytes::append_u64(&mut encoded, self.dim as u64);
        bytes::append_u64(&mut encoded, count as u64);
        bytes::append_u64(&mut encoded, self.num_probes as u64);
        bytes::append_u32s(&mut encoded, self.centroids.as_slice());
        bytes::append_u32s(&mut encoded, self.entry_vertices.as_slice());
        proof {
            assert(expected_magic@ =~= magic());
            assert(Seq::<u8>::empty() + magic() =~= magic());
        }
        Ok(encoded)
    }

    /// Deserialize a table encoded by `to_bytes`.
    pub fn from_bytes(encoded: &[u8]) -> (result: Result<Self, PersistenceError>)
        ensures
            match decode_outcome(encoded@) {
                Ok(table) => result is Ok && result->Ok_0.wf() && result->Ok_0.holds(table),
                Err(error) => result is Err && result->Err_0 == error,
            },
    {
        let actual: usize = encoded.len();
        if actual < FILE_HEADER_LEN {
            return Err(PersistenceError::InvalidLength { expected: FILE_HEADER_LEN, actual });
        }
        let expected_magic: [u8; 8] = [0x44, 0x41, 0x4e, 0x4e, 0x53, 0x54, 0x50, 0x54];
        assert(expected_magic@ =~= magic());
        if !bytes::bytes_equal(vstd::slice::slice_subrange(encoded, 0, 8), &expected_magic) {
            return Err(PersistenceError::InvalidMagic);
        }
        let version: u32 = bytes::read_u32_at(encoded, 8);
        if version != FILE_VERSION {
            return Err(PersistenceError::UnsupportedVersion(version));
        }
        let code: u32 = bytes::read_u32_at(encoded, 12);
        let metric = match Metric::from_code(code) {
            Some(metric) => metric,
            None => {
                return Err(PersistenceError::InvalidMetric(code as i32));
            },
        };
        let dim: u64 = bytes::read_u64_at(encoded, 16);
        let count: u64 = bytes::read_u64_at(encoded, 24);
        let probes: u64 = bytes::read_u64_at(encoded, 32);
        let most: u64 = usize::MAX as u64;
        if dim > most || count > most || probes > most {
            return Err(PersistenceError::SizeOverflow);
        }
        if dim == 0 {
            return Err(PersistenceError::ZeroDimension);
        }
        if count == 0 {
            return Err(PersistenceError::NoCentroids);
        }
        if probes == 0 {
            return Err(PersistenceError::ZeroProbes);
        }
        proof {
            assert(0 <= count * dim) by (nonlinear_arith)
                requires
                    count >= 0,
                    dim >= 0,
            ;
        }
        let Some(values) = (count as usize).checked_mul(dim as usize) else {
            return Err(PersistenceError::SizeOverflow);
        };
        let Some(expected) = payload_end(values, count as usize) else {
            return Err(PersistenceError::SizeOverflow);
        };
        if actual != expected {
            return Err(PersistenceError::InvalidLength { expected, actual });
        }
        let centroids = read_words(encoded, FILE_HEADER_LEN, values);
        if !all_finite(&centroids) {
            return Err(PersistenceError::NonFiniteCentroid);
        }
        let entry_vertices = read_words(encoded, FILE_HEADER_LEN + values * 4, count as usize);
        Ok(
            StartPointTable {
                dim: dim as usize,
                centroids,
                entry_vertices,
                metric,
                num_probes: probes as usize,
            },
        )
    }

    /// The table has these parts.
    pub open spec fn holds(&self, parts: TableParts) -> bool {
        &&& self.dim == parts.dim
        &&& self.centroids@ == parts.centroids
        &&& self.entry_vertices@ == parts.entry_vertices
        &&& self.metric == parts.metric
        &&& self.num_probes == parts.num_probes
    }

    /// The parts of the table.
    pub open spec fn parts(&self) -> TableParts {
        TableParts {
            dim: self.dim,
            centroids: self.centroids@,
            entry_vertices: self.entry_vertices@,
            metric: self.metric,
            num_probes: self.num_probes,
        }
    }
}

/// What a table consists of.
#[verifier::ext_equal]
pub struct TableParts {
    pub dim: usize,
    pub centroids: Seq<u32>,
    pub entry_vertices: Seq<u32>,
    pub metric: Metric,
    pub num_probes: usize,
}

/// The words that start at `offset`.
pub open spec fn words_at(encoded: Seq<u8>, offset: int, count: nat) -> Seq<u32> {
    Seq::new(count, |at: int| bytes::u32_at(encoded, offset + 4 * at))
}

/// Every coordinate is a finite number.
pub open spec fn finite_coordinates(values: Seq<u32>) -> bool {
    forall|at: int| 0 <= at < values.len() ==> float_bits::finite(#[trigger] values[at])
}

/// What decoding a table comes to: its parts or the error.
pub open spec fn decode_outcome(encoded: Seq<u8>) -> Result<TableParts, PersistenceError> {
    let version = bytes::u32_at(encoded, 8);
    let code = bytes::u32_at(encoded, 12);
    let dim = bytes::u64_at(encoded, 16);
    let count = bytes::u64_at(encoded, 24);
    let probes = bytes::u64_at(encoded, 32);
    let values = count * dim;
    let expected = FILE_HEADER_LEN + values * 4 + count * 4;
    let centroids = words_at(encoded, FILE_HEADER_LEN as int, values as nat);
    if encoded.len() < FILE_HEADER_LEN {
        Err(
            PersistenceError::InvalidLength {
                expected: FILE_HEADER_LEN,
                actual: encoded.len() as usize,
            },
        )
    } else if encoded.subrange(0, 8) != magic() {
        Err(PersistenceError::InvalidMagic)
    } else if version != FILE_VERSION {
        Err(PersistenceError::UnsupportedVersion(version))
    } else if Metric::of_code(code) is None {
        Err(PersistenceError::InvalidMetric(code as i32))
    } else if dim > usize::MAX || count > usize::MAX || probes > usize::MAX {
        Err(PersistenceError::SizeOverflow)
    } else if dim == 0 {
        Err(PersistenceError::ZeroDimension)
    } else if count == 0 {
        Err(PersistenceError::NoCentroids)
    } else if probes == 0 {
        Err(PersistenceError::ZeroProbes)
    } else if expected > usize::MAX {
        Err(PersistenceError::SizeOverflow)
    } else if encoded.len() != expected {
        Err(
            PersistenceError::InvalidLength {
                expected: expected as usize,
                actual: encoded.len() as usize,
            },
        )
    } else if !finite_coordinates(centroids) {
        Err(PersistenceError::NonFiniteCentroid)
    } else {
        Ok(
            TableParts {
                dim: dim as usize,
                centroids,
                entry_vertices: words_at(encoded, FILE_HEADER_LEN + values * 4, count as nat),
                metric: Metric::of_code(code)->0,
                num_probes: probes as usize,
            },
        )
    }
}

/// The length of an encoded table, if it is a `usize`.
fn payload_end(values: usize, count: usize) -> (length: Option<usize>)
    ensures
        length is Some <==> FILE_HEADER_LEN + values * 4 + count * 4 <= usize::MAX,
        length is Some ==> length->0 == FILE_HEADER_LEN + values * 4 + count * 4,
{
    let Some(values_len) = values.checked_mul(4) else {
        return None;
    };
    let Some(entries_len) = count.checked_mul(4) else {
        return None;
    };
    let Some(payload) = values_len.checked_add(entries_len) else {
        return None;
    };
    FILE_HEADER_LEN.checked_add(payload)
}

/// Reads the words that start at `offset`.
fn read_words(encoded: &[u8], offset: usize, count: usize) -> (words: Vec<u32>)
    requires
        offset + 4 * count <= encoded@.len(),
    ensures
        words@ == words_at(encoded@, offset as int, count as nat),
{
    assert(offset + 4 * count <= encoded.len());
    let mut words: Vec<u32> = Vec::new();
    let mut at: usize = 0;
    while at < count
        invariant
            at <= count,
            offset + 4 * count <= encoded@.len(),
            encoded@.len() <= usize::MAX,
            words@ == words_at(encoded@, offset as int, at as nat),
        decreases count - at,
    {
        words.push(bytes::read_u32_at(encoded, offset + 4 * at));
        assert(words@ =~= words_at(encoded@, offset as int, (at + 1) as nat));
        at += 1;
    }
    words
}

/// Whether every coordinate is a finite number.
fn all_finite(values: &Vec<u32>) -> (result: bool)
    ensures
        result == finite_coordinates(values@),
{
    let mut at: usize = 0;
    while at < values.len()
        invariant
            at <= values@.len(),
            forall|i: int| 0 <= i < at ==> float_bits::finite(#[trigger] values@[i]),
        decreases values@.len() - at,
    {
        if !float_bits::is_finite(values[at]) {
            assert(!float_bits::finite(values@[at as int]));
            return false;
        }
        at += 1;
    }
    true
}

/// Keeps the clusters with an entry vertex.
fn keep_non_empty(centroids: &[u32], dim: usize, entries: &Vec<Option<u32>>) -> (kept: (
    Vec<u32>,
    Vec<u32>,
))
    requires
        centroids@.len() == entries@.len() * dim,
    ensures
        kept.0@ == kept_rows(centroids@, dim as int, entries@),
        kept.1@ == kept_vertices(entries@),
        kept.0@.len() == kept.1@.len() * dim,
{
    let ghost width = dim as int;
    let mut rows: Vec<u32> = Vec::new();
    let mut vertices: Vec<u32> = Vec::new();
    let mut at: usize = 0;
    let mut start: usize = 0;
    proof {
        assert(entries@.take(0) =~= Seq::<Option<u32>>::empty());
        assert(0 * width == 0) by (nonlinear_arith);
        assert(centroids.len() == centroids@.len());
    }
    while at < entries.len()
        invariant
            at <= entries@.len(),
            width == dim,
            centroids@.len() == entries@.len() * width,
            centroids@.len() <= usize::MAX,
            start == at * width,
            rows@ == kept_rows(centroids@, width, entries@.take(at as int)),
            vertices@ == kept_vertices(entries@.take(at as int)),
            rows@.len() == vertices@.len() * width,
        decreases entries@.len() - at,
    {
        proof {
            let row = at as int;
            let total = entries@.len() as int;
            assert(0 <= row * width && row * width + width <= total * width && (row + 1) * width
                == row * width + width) by (nonlinear_arith)
                requires
                    0 <= row < total,
                    0 <= width,
            ;
            let kept = vertices@.len() as int;
            assert((kept + 1) * width == kept * width + width) by (nonlinear_arith);
            assert(entries@.take(at + 1).drop_last() =~= entries@.take(at as int));
        }
        if let Some(vertex) = entries[at] {
            let centroid = vstd::slice::slice_subrange(centroids, start, start + dim);
            let ghost before = rows@;
            rows.extend_from_slice(centroid);
            vertices.push(vertex);
            assert(rows@ =~= before + centroid@);
        }
        start = start + dim;
        at += 1;
    }
    assert(entries@.take(at as int) =~= entries@);
    (rows, vertices)
}

/// Decoding what was encoded gives the table back, if its coordinates are finite.
pub proof fn lemma_persistence_round_trip(table: &StartPointTable)
    requires
        table.wf(),
        table.encode_fault() is None,
        finite_coordinates(table.centroids@),
    ensures
        decode_outcome(table.image()) == Ok::<TableParts, PersistenceError>(table.parts()),
{
    let encoded = table.image();
    let centroids = table.centroids@;
    let vertices = table.entry_vertices@;
    let code = table.metric.spec_code();
    let dim = table.dim as nat;
    let count = vertices.len();
    let probes = table.num_probes as nat;
    let values = bytes::u32s_bytes(centroids);
    let tail = bytes::u32s_bytes(vertices);
    bytes::lemma_le_bytes_len(FILE_VERSION as nat, 4);
    bytes::lemma_le_bytes_len(code as nat, 4);
    bytes::lemma_le_bytes_len(dim, 8);
    bytes::lemma_le_bytes_len(count, 8);
    bytes::lemma_le_bytes_len(probes, 8);
    bytes::lemma_u32s_bytes(centroids);
    bytes::lemma_u32s_bytes(vertices);
    assert(count <= count * dim) by (nonlinear_arith)
        requires
            1 <= dim,
    ;
    assert(encoded.subrange(0, 8) =~= magic());
    assert(encoded.subrange(8, 12) =~= bytes::le_bytes(FILE_VERSION as nat, 4));
    assert(encoded.subrange(12, 16) =~= bytes::le_bytes(code as nat, 4));
    assert(encoded.subrange(16, 24) =~= bytes::le_bytes(dim, 8));
    assert(encoded.subrange(24, 32) =~= bytes::le_bytes(count, 8));
    assert(encoded.subrange(32, 40) =~= bytes::le_bytes(probes, 8));
    bytes::lemma_u32_at_written(encoded, 8, FILE_VERSION);
    bytes::lemma_u32_at_written(encoded, 12, code);
    bytes::lemma_u64_at_written(encoded, 16, dim as u64);
    bytes::lemma_u64_at_written(encoded, 24, count as u64);
    bytes::lemma_u64_at_written(encoded, 32, probes as u64);
    let offset = FILE_HEADER_LEN + centroids.len() * 4;
    assert forall|at: int| 0 <= at < centroids.len() implies bytes::u32_at(encoded, 40 + 4 * at)
        == #[trigger] centroids[at] by {
        assert(encoded.subrange(40 + 4 * at, 44 + 4 * at) =~= values.subrange(4 * at, 4 * at + 4));
        bytes::lemma_u32_at_written(encoded, 40 + 4 * at, centroids[at]);
    }
    assert forall|at: int| 0 <= at < vertices.len() implies bytes::u32_at(encoded, offset + 4 * at)
        == #[trigger] vertices[at] by {
        assert(encoded.subrange(offset + 4 * at, offset + 4 * at + 4) =~= tail.subrange(
            4 * at,
            4 * at + 4,
        ));
        bytes::lemma_u32_at_written(encoded, offset + 4 * at, vertices[at]);
    }
    assert(words_at(encoded, 40, centroids.len()) =~= centroids);
    assert(words_at(encoded, offset, count) =~= vertices);
}

/// Where a query is routed to: to `num_probes` entry vertices, or to all of them where there
/// are no more. They are the entry vertices of different centroids, closest first, and no
/// centroid that is passed over is closer than one that is taken.
pub proof fn lemma_entry_points_are_nearest(
    table: &StartPointTable,
    distances: Seq<u32>,
    order: Seq<usize>,
    vertices: Seq<u32>,
    first: int,
    second: int,
)
    requires
        distances.len() == table.entry_vertices@.len(),
        ranking::is_ranking(distances, order),
        vertices == Seq::new(
            table.probe_count() as nat,
            |at: int| table.entry_vertices@[order[at] as int],
        ),
        0 <= first < vertices.len(),
        first < second < distances.len(),
    ensures
        table.num_probes <= table.entry_vertices@.len() ==> vertices.len() == table.num_probes,
        table.num_probes > table.entry_vertices@.len() ==> vertices.len()
            == table.entry_vertices@.len(),
        order[first] != order[second],
        order[first] < distances.len(),
        order[second] < distances.len(),
        vertices[first] == table.entry_vertices@[order[first] as int],
        !float_bits::less(distances[order[second] as int], distances[order[first] as int]),
        distances[order[first] as int] == distances[order[second] as int] ==> order[first]
            < order[second],
{
    ranking::lemma_ranking_rises(distances, order, first, second);
}

/// The nearest point is the first of those whose distance no other undercuts, if any distance
/// is below infinity.
pub proof fn lemma_nearest_point_is_first(
    distances: Seq<u32>,
    num_clusters: int,
    points: nat,
    cluster: int,
    other: int,
)
    requires
        0 <= other < points,
    ensures
        ({
            let nearest = nearest_point(distances, num_clusters, points, cluster);
            let other_distance = distances[other * num_clusters + cluster];
            match nearest {
                Some(point) => {
                    let distance = distances[point * num_clusters + cluster];
                    &&& 0 <= point < points
                    &&& float_bits::less(distance, float_bits::INFINITY)
                    &&& !float_bits::less(other_distance, distance)
                    &&& other < point && !float_bits::is_nan(other_distance) ==> float_bits::less(
                        distance,
                        other_distance,
                    )
                },
                None => !float_bits::less(other_distance, float_bits::INFINITY),
            }
        }),
    decreases points,
{
    lemma_nearest_point(distances, num_clusters, points, cluster, other);
    if points > 0 {
        let before = nearest_point(distances, num_clusters, (points - 1) as nat, cluster);
        if other < points - 1 {
            lemma_nearest_point_is_first(
                distances,
                num_clusters,
                (points - 1) as nat,
                cluster,
                other,
            );
        } else if points > 1 {
            lemma_nearest_point_is_first(distances, num_clusters, (points - 1) as nat, cluster, 0);
        }
    }
}

/// A table keeps the clusters that have an entry vertex, in their order. Such a cluster
/// stands behind as many others as have one before it, with its entry vertex and its
/// centroid, and nothing else is kept.
pub proof fn lemma_kept_clusters(
    centroids: Seq<u32>,
    dim: int,
    entries: Seq<Option<u32>>,
    cluster: int,
)
    requires
        0 <= dim,
        entries.len() * dim <= centroids.len(),
        0 <= cluster < entries.len(),
    ensures
        ({
            let count = entries.filter(|entry: Option<u32>| entry is Some).len();
            let place = entries.take(cluster).filter(|entry: Option<u32>| entry is Some).len();
            let vertices = kept_vertices(entries);
            let rows = kept_rows(centroids, dim, entries);
            &&& vertices.len() == count
            &&& rows.len() == count * dim
            &&& entries[cluster] is Some ==> {
                &&& place < count
                &&& vertices[place as int] == entries[cluster]->0
                &&& rows.subrange(place * dim, place * dim + dim) == centroids.subrange(
                    cluster * dim,
                    cluster * dim + dim,
                )
            }
        }),
    decreases entries.len(),
{
    let fewer = entries.drop_last();
    let last = entries.len() - 1;
    let has_entry = |entry: Option<u32>| entry is Some;
    let count = entries.filter(has_entry).len();
    let fewer_count = fewer.filter(has_entry).len();
    let rows = kept_rows(centroids, dim, entries);
    let fewer_rows = kept_rows(centroids, dim, fewer);
    let place = entries.take(cluster).filter(has_entry).len();
    reveal(Seq::filter);
    assert(last * dim + dim == entries.len() * dim && 0 <= last * dim) by (nonlinear_arith)
        requires
            last == entries.len() - 1,
            0 <= last,
            0 <= dim,
    ;
    assert(fewer_count * dim + dim == (fewer_count + 1) * dim) by (nonlinear_arith);
    if fewer.len() == 0 {
        assert(entries.take(0) =~= Seq::<Option<u32>>::empty());
        assert(fewer_count == 0);
        assert(fewer_count * dim == 0) by (nonlinear_arith)
            requires
                fewer_count == 0,
        ;
        assert(fewer_rows.len() == 0);
    } else if cluster < last {
        lemma_kept_clusters(centroids, dim, fewer, cluster);
        assert(fewer.take(cluster) =~= entries.take(cluster));
    } else {
        lemma_kept_clusters(centroids, dim, fewer, 0);
    }
    assert(fewer_rows.len() == fewer_count * dim);
    assert(kept_vertices(fewer).len() == fewer_count);
    assert(count == fewer_count + if entries[last] is Some {
        1int
    } else {
        0int
    });
    assert(rows.len() == count * dim);
    assert(kept_vertices(entries).len() == count);
    if cluster == last {
        assert(entries.take(cluster) =~= fewer);
    }
    if entries[cluster] is Some {
        if cluster < last {
            assert(place * dim + dim <= fewer_count * dim && 0 <= place * dim) by (nonlinear_arith)
                requires
                    0 <= place < fewer_count,
                    0 <= dim,
            ;
            assert(rows.subrange(place * dim, place * dim + dim) =~= fewer_rows.subrange(
                place * dim,
                place * dim + dim,
            ));
        } else {
            assert(rows.subrange(place * dim, place * dim + dim) =~= centroids.subrange(
                cluster * dim,
                cluster * dim + dim,
            ));
        }
    }
}

/// As many clusters are formed as were asked for, but no more than there are points.
pub proof fn lemma_cluster_count_is_least(config: StartPointsConfig, num_points: usize)
    ensures
        cluster_count(config, num_points) <= config.num_clusters,
        cluster_count(config, num_points) <= num_points,
        cluster_count(config, num_points) == config.num_clusters || cluster_count(
            config,
            num_points,
        ) == num_points,
{
}

/// Only what encoding writes is decoded: the bytes of a table that decodes are those that
/// encoding it gives.
pub proof fn lemma_decoded_bytes_are_encoded(encoded: Seq<u8>, table: &StartPointTable)
    requires
        decode_outcome(encoded) == Ok::<TableParts, PersistenceError>(table.parts()),
    ensures
        table.wf(),
        table.encode_fault() is None,
        finite_coordinates(table.centroids@),
        table.image() == encoded,
{
    let dim = bytes::u64_at(encoded, 16) as int;
    let count = bytes::u64_at(encoded, 24) as int;
    let values = count * dim;
    assert(0 <= values) by (nonlinear_arith)
        requires
            values == count * dim,
            0 <= count,
            0 <= dim,
    ;
    let first = FILE_HEADER_LEN as int;
    let second = first + values * 4;
    let parts = table.parts();
    assert(decode_outcome(encoded)->Ok_0 == parts);
    assert(table.centroids@ == words_at(encoded, first, values as nat));
    assert(table.entry_vertices@ == words_at(encoded, second, count as nat));
    bytes::lemma_words_are_bytes(encoded, first, values as nat);
    bytes::lemma_words_are_bytes(encoded, second, count as nat);
    bytes::lemma_word_is_bytes(encoded, 8);
    bytes::lemma_word_is_bytes(encoded, 12);
    bytes::lemma_long_word_is_bytes(encoded, 16);
    bytes::lemma_long_word_is_bytes(encoded, 24);
    bytes::lemma_long_word_is_bytes(encoded, 32);
    assert(table.image() =~= encoded) by {
        assert(encoded =~= encoded.subrange(0, 8) + encoded.subrange(8, 12) + encoded.subrange(
            12,
            16,
        ) + encoded.subrange(16, 24) + encoded.subrange(24, 32) + encoded.subrange(32, 40)
            + encoded.subrange(first, second) + encoded.subrange(second, encoded.len() as int));
    }
}

/// The entry vertices of clusters: a cluster to which a point was assigned has the point
/// nearest to its centroid, the first of several, if any is nearer than infinity; a cluster to
/// which none was assigned has no entry vertex.
pub proof fn lemma_entry_vertices_are_nearest(
    distances: Seq<u32>,
    num_clusters: nat,
    points: nat,
    assignments: Seq<u32>,
    cluster: int,
    other: int,
)
    requires
        points <= u32::MAX,
        0 <= cluster < num_clusters,
        0 <= other < points,
    ensures
        ({
            let entries = entry_vertices_of(distances, num_clusters, points, assignments);
            let is_used = exists|at: int|
                0 <= at < assignments.len() && #[trigger] assignments[at] == cluster;
            let other_distance = distances[other * num_clusters + cluster];
            &&& entries.len() == num_clusters
            &&& match entries[cluster] {
                Some(vertex) => {
                    let distance = distances[vertex * num_clusters + cluster];
                    &&& is_used
                    &&& vertex < points
                    &&& float_bits::less(distance, float_bits::INFINITY)
                    &&& !float_bits::less(other_distance, distance)
                    &&& other < vertex && !float_bits::is_nan(other_distance)
                        ==> float_bits::less(distance, other_distance)
                },
                None => is_used ==> !float_bits::less(other_distance, float_bits::INFINITY),
            }
        }),
{
    lemma_nearest_point_is_first(distances, num_clusters as int, points, cluster, other);
}

/// Queries are compared to centroids by the metric of the index, or by the cosine where that
/// takes vectors to be normalized, which centroids are not.
pub proof fn lemma_routing_metric_needs_no_unit_vectors(metric: Metric)
    ensures
        spec_routing_metric(metric) != Metric::CosineNormalized,
        metric != Metric::CosineNormalized ==> spec_routing_metric(metric) == metric,
        metric == Metric::CosineNormalized ==> spec_routing_metric(metric) == Metric::Cosine,
{
}

/// Tables that are equal have the same dimension, entry vertices, metric and probes, and
/// coordinates that are the same numbers.
pub proof fn lemma_equal_tables(left: &StartPointTable, right: &StartPointTable, at: int)
    requires
        vstd::std_specs::cmp::PartialEqSpec::eq_spec(left, right),
        0 <= at < left.centroids@.len(),
    ensures
        left.dim == right.dim,
        left.entry_vertices@ == right.entry_vertices@,
        left.metric == right.metric,
        left.num_probes == right.num_probes,
        left.centroids@.len() == right.centroids@.len(),
        float_bits::equal(left.centroids@[at], right.centroids@[at]),
{
}

} // verus!
