//! The data held in memory beside an index graph: the compressed vectors and the
//! optional table of start points.
use crate::start_points;
use crate::start_points::{PersistenceError, StartPointTable};
use std::sync::Arc;
use vstd::prelude::*;

verus! {

/// Why the data beside an index graph could not be loaded.
#[derive(Debug, Clone, Copy, PartialEq, Eq, Structural)]
pub enum ReaderError {
    /// The start-point file is longer than memory.
    StartPointsTooLarge,
    /// The start-point file holds no table.
    StartPoints(PersistenceError),
    /// The start-point table contains an out-of-range vertex ID.
    EntryVertexOutOfRange,
}

impl ReaderError {
    /// The text of the error, met with the start-point file at `path`.
    pub open spec fn text(self, path: Seq<char>) -> Seq<char> {
        match self {
            ReaderError::StartPointsTooLarge => "start-point file "@ + path + " is too large"@,
            ReaderError::StartPoints(error) => {
                "failed to load start-point file "@ + path + ": "@ + error.text()
            },
            ReaderError::EntryVertexOutOfRange => {
                "start-point table contains an out-of-range vertex ID"@
            },
        }
    }

    /// The text of the error, met with the start-point file at `path`.
    pub fn message(&self, path: &str) -> (message: String)
        ensures
            message@ == self.text(path@),
    {
        match self {
            ReaderError::StartPointsTooLarge => {
                let mut message = "start-point file ".to_owned();
                message.append(path);
                message.append(" is too large");
                message
            },
            ReaderError::StartPoints(error) => {
                let mut message = "failed to load start-point file ".to_owned();
                message.append(path);
                message.append(": ");
                message.append(error.message().as_str());
                message
            },
            ReaderError::EntryVertexOutOfRange => {
                "start-point table contains an out-of-range vertex ID".to_owned()
            },
        }
    }
}

/// The path without the suffix of pivot files, if it has that suffix.
pub open spec fn index_prefix(pq_pivot_path: Seq<char>) -> Option<Seq<char>> {
    let suffix = "_pq_pivots.bin"@;
    if suffix.len() <= pq_pivot_path.len() && pq_pivot_path.skip(
        pq_pivot_path.len() - suffix.len(),
    ) == suffix {
        Some(pq_pivot_path.take(pq_pivot_path.len() - suffix.len()))
    } else {
        None
    }
}

/// The path of the start-point file that belongs to a pivot file, if the path of the
/// pivot file has the usual suffix.
pub fn start_points_path(pq_pivot_path: &str) -> (path: Option<String>)
    ensures
        match index_prefix(pq_pivot_path@) {
            Some(prefix) => path is Some && path->0@ == prefix + "_start_points.bin"@,
            None => path is None,
        },
{
    let suffix = "_pq_pivots.bin";
    let length: usize = pq_pivot_path.unicode_len();
    let suffix_length: usize = suffix.unicode_len();
    if length < suffix_length {
        return None;
    }
    let prefix_length: usize = length - suffix_length;
    let ghost tail = pq_pivot_path@.skip(prefix_length as int);
    let mut at: usize = 0;
    while at < suffix_length
        invariant
            at <= suffix_length,
            suffix_length == suffix@.len(),
            suffix@ == "_pq_pivots.bin"@,
            prefix_length + suffix_length == pq_pivot_path@.len(),
            prefix_length + suffix_length <= usize::MAX,
            tail == pq_pivot_path@.skip(pq_pivot_path@.len() - suffix@.len()),
            forall|i: int| 0 <= i < at ==> #[trigger] tail[i] == suffix@[i],
        decreases suffix_length - at,
    {
        if pq_pivot_path.get_char(prefix_length + at) != suffix.get_char(at) {
            assert(tail[at as int] != suffix@[at as int]);
            return None;
        }
        at += 1;
    }
    assert(tail =~= suffix@);
    let mut path = pq_pivot_path.substring_char(0, prefix_length).to_owned();
    path.append("_start_points.bin");
    Some(path)
}

/// The length of a start-point file as the length of a buffer.
pub fn start_points_len(length: u64) -> (result: Result<usize, ReaderError>)
    ensures
        result == if length > usize::MAX {
            Err::<usize, ReaderError>(ReaderError::StartPointsTooLarge)
        } else {
            Ok(length as usize)
        },
{
    if length > usize::MAX as u64 {
        Err(ReaderError::StartPointsTooLarge)
    } else {
        Ok(length as usize)
    }
}

/// Loads the start-point table from the contents of its file, if there is a file.
pub fn load_start_point_table(file: Option<&[u8]>) -> (result: Result<
    Option<StartPointTable>,
    ReaderError,
>)
    ensures
        match file {
            None => result is Ok && result->Ok_0 is None,
            Some(encoded) => match start_points::decode_outcome(encoded@) {
                Ok(parts) => {
                    &&& result is Ok && result->Ok_0 is Some
                    &&& result->Ok_0->0.wf()
                    &&& result->Ok_0->0.holds(parts)
                },
                Err(error) => {
                    result is Err && result->Err_0 == ReaderError::StartPoints(error)
                },
            },
        },
{
    match file {
        None => Ok(None),
        Some(encoded) => match StartPointTable::from_bytes(encoded) {
            Ok(table) => Ok(Some(table)),
            Err(error) => Err(ReaderError::StartPoints(error)),
        },
    }
}

/// Every entry vertex is a point of the index.
pub open spec fn vertices_in_range(vertices: Seq<u32>, num_points: usize) -> bool {
    forall|at: int| 0 <= at < vertices.len() ==> #[trigger] vertices[at] < num_points
}

/// A start-point table fits an index with this many points.
pub open spec fn table_fits(table: Option<StartPointTable>, num_points: usize) -> bool {
    table is Some ==> vertices_in_range(table->0.entry_vertices@, num_points)
}

/// The entry vertices found for the points of an index are points of that index.
pub proof fn lemma_found_vertices_fit(
    distances: Seq<u32>,
    num_clusters: nat,
    num_points: usize,
    assignments: Seq<u32>,
)
    requires
        num_points <= u32::MAX,
    ensures
        vertices_in_range(
            start_points::kept_vertices(
                start_points::entry_vertices_of(
                    distances,
                    num_clusters,
                    num_points as nat,
                    assignments,
                ),
            ),
            num_points,
        ),
{
    let entries = start_points::entry_vertices_of(
        distances,
        num_clusters,
        num_points as nat,
        assignments,
    );
    assert forall|cluster: int|
        0 <= cluster < entries.len() && entries[cluster] is Some implies (
    #[trigger] entries[cluster])->0 < num_points by {
        let nearest = start_points::nearest_point(
            distances,
            num_clusters as int,
            num_points as nat,
            cluster,
        );
        assert(nearest is Some);
        if num_points > 0 {
            start_points::lemma_nearest_point(
                distances,
                num_clusters as int,
                num_points as nat,
                cluster,
                0,
            );
        }
    }
    lemma_kept_in_range(entries, num_points);
}

/// Keeping vertices keeps their range.
proof fn lemma_kept_in_range(entries: Seq<Option<u32>>, num_points: usize)
    requires
        forall|cluster: int|
            0 <= cluster < entries.len() && entries[cluster] is Some ==> (
            #[trigger] entries[cluster])->0 < num_points,
    ensures
        vertices_in_range(start_points::kept_vertices(entries), num_points),
    decreases entries.len(),
{
    if entries.len() > 0 {
        let front = entries.drop_last();
        assert forall|cluster: int|
            0 <= cluster < front.len() && front[cluster] is Some implies (
        #[trigger] front[cluster])->0 < num_points by {
            assert(front[cluster] == entries[cluster]);
        }
        lemma_kept_in_range(front, num_points);
        assert(entries[entries.len() - 1] == entries.last());
    }
}

/// Checks that every entry vertex of a table is a point of the index.
pub fn check_entry_vertices(table: &StartPointTable, num_points: usize) -> (result: Result<
    (),
    ReaderError,
>)
    ensures
        result == if vertices_in_range(table.entry_vertices@, num_points) {
            Ok::<(), ReaderError>(())
        } else {
            Err(ReaderError::EntryVertexOutOfRange)
        },
{
    let vertices = table.entry_vertices();
    let mut at: usize = 0;
    while at < vertices.len()
        invariant
            at <= vertices@.len(),
            vertices@ == table.entry_vertices@,
            vertices_in_range(vertices@.take(at as int), num_points),
        decreases vertices@.len() - at,
    {
        let ghost taken = vertices@.take(at as int);
        let ghost grown = vertices@.take(at + 1);
        if vertices[at] as u64 >= num_points as u64 {
            assert(!(vertices@[at as int] < num_points));
            return Err(ReaderError::EntryVertexOutOfRange);
        }
        proof {
            assert forall|i: int| 0 <= i < grown.len() implies #[trigger] grown[i] < num_points by {
                if i < at {
                    assert(taken[i] < num_points);
                }
            }
        }
        at += 1;
    }
    assert(vertices@.take(at as int) =~= vertices@);
    Ok(())
}

/// The data beside an index graph. `PQ` holds the pivots and the compressed vectors.
pub struct DiskIndexReader<PQ> {
    pub pq_data: Arc<PQ>,
    pub num_points: usize,
    pub start_point_table: Option<StartPointTable>,
}

impl<PQ> DiskIndexReader<PQ> {
    /// The entry vertices are points of the index.
    pub open spec fn wf(&self) -> bool {
        table_fits(self.start_point_table, self.num_points)
    }

    /// Puts together what was read.
    pub fn new(
        pq_data: Arc<PQ>,
        num_points: usize,
        start_point_table: Option<StartPointTable>,
    ) -> (result: Result<Self, ReaderError>)
        ensures
            if table_fits(start_point_table, num_points) {
                &&& result is Ok && result->Ok_0.wf()
                &&& result->Ok_0 == (DiskIndexReader { pq_data, num_points, start_point_table })
            } else {
                result is Err && result->Err_0 == ReaderError::EntryVertexOutOfRange
            },
            result is Ok <==> (start_point_table is Some ==> forall|at: int|
                0 <= at < start_point_table->0.entry_vertices@.len()
                    ==> #[trigger] start_point_table->0.entry_vertices@[at] < num_points),
    {
        if let Some(table) = &start_point_table {
            match check_entry_vertices(table, num_points) {
                Ok(()) => {},
                Err(error) => {
                    return Err(error);
                },
            }
        }
        Ok(DiskIndexReader { pq_data, num_points, start_point_table })
    }

    pub fn get_pq_data(&self) -> (pq_data: Arc<PQ>)
        ensures
            pq_data == self.pq_data,
    {
        self.pq_data.clone()
    }

    pub fn get_num_points(&self) -> (count: usize)
        ensures
            count == self.num_points,
    {
        self.num_points
    }

    /// Return the query-dependent graph start points loaded with this index, if present.
    pub fn get_start_point_table(&self) -> (table: Option<&StartPointTable>)
        ensures
            match self.start_point_table {
                Some(held) => table is Some && *table->0 == held,
                None => table is None,
            },
    {
        match &self.start_point_table {
            Some(table) => Some(table),
            None => None,
        }
    }
}

/// A pivot file belongs to the index at `prefix` exactly if its path is that prefix with the
/// suffix of pivot files.
pub proof fn lemma_index_prefix(pq_pivot_path: Seq<char>, prefix: Seq<char>)
    ensures
        index_prefix(pq_pivot_path) == Some(prefix) <==> pq_pivot_path == prefix
            + "_pq_pivots.bin"@,
{
    let suffix = "_pq_pivots.bin"@;
    if pq_pivot_path == prefix + suffix {
        assert(pq_pivot_path.skip(pq_pivot_path.len() - suffix.len()) =~= suffix);
        assert(pq_pivot_path.take(pq_pivot_path.len() - suffix.len()) =~= prefix);
    }
    if index_prefix(pq_pivot_path) == Some(prefix) {
        assert(pq_pivot_path =~= prefix + suffix);
    }
}

} // verus!
