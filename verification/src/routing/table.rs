//! In-memory vectors and graph IDs used to choose query-specific graph entry points.
use crate::arithmetic;
use crate::bytes;
use crate::float_bits;
use crate::metric::Metric;
use crate::ranking;
use crate::search::cache_nodes;
use crate::text;
use std::collections::HashSet;
use vstd::prelude::*;

verus! {

/// Bytes of a routing table before its entries.
pub const HEADER_LEN: usize = 20;

/// The bytes a routing table starts with: `DANNRTE1`.
pub open spec fn magic() -> Seq<u8> {
    seq![0x44u8, 0x41, 0x4e, 0x4e, 0x52, 0x54, 0x45, 0x31]
}

/// Vectors, as bit patterns of single-precision numbers, and the graph nodes that
/// they belong to.
#[derive(Debug)]
pub struct RoutingTable {
    pub ids: Vec<u32>,
    pub vectors: Vec<u32>,
    pub dimension: usize,
}

impl Clone for RoutingTable {
    fn clone(&self) -> (copy: Self)
        ensures
            copy.ids@ == self.ids@,
            copy.vectors@ == self.vectors@,
            copy.dimension == self.dimension,
    {
        RoutingTable {
            ids: self.ids.clone(),
            vectors: self.vectors.clone(),
            dimension: self.dimension,
        }
    }
}

/// Why a routing table cannot be made, read, written or used.
#[derive(Debug, Clone, Copy, PartialEq, Eq, Structural)]
pub enum RoutingError {
    /// A routing table must contain at least one entry.
    Empty,
    /// The vectors do not have the given dimension.
    Dimension { elements: usize, entries: usize, dimension: usize },
    /// The query has another dimension than the vectors.
    QueryDimension { query: usize, routing: usize },
    /// The bytes end before the header does.
    Truncated,
    /// The bytes are not those of a routing table.
    NotRoutingTable,
    /// The elements have another size than single-precision numbers.
    ElementSize { found: u32 },
    /// The size of the table overflows.
    SizeOverflow,
    /// The table has an invalid length.
    InvalidLength,
    /// The table contains more than `u32::MAX` entries.
    TooManyEntries,
    /// The dimension exceeds `u32::MAX`.
    DimensionTooLarge,
    /// The sampled training points are insufficient for the centers.
    TooFewTrainingPoints { points: usize, centers: usize },
    /// The points are insufficient for the centers.
    TooFewPoints { points: usize, centers: usize },
    /// The metric is not supported.
    UnsupportedMetric { metric: Metric },
    /// The dataset contains more than `u32::MAX` points.
    TooManyPoints,
    /// Not every vector was read.
    Incomplete { read: usize, expected: usize },
}

impl RoutingError {
    /// The text of the error, met with the table at `path`.
    pub open spec fn text(self, path: Seq<char>) -> Seq<char> {
        match self {
            RoutingError::Empty => "routing table must contain at least one entry"@,
            RoutingError::Dimension { elements, entries, dimension } => {
                "routing vectors contain "@ + text::decimal(elements as nat) + " elements for "@
                    + text::decimal(entries as nat) + " entries with dimension "@
                    + text::decimal(dimension as nat)
            },
            RoutingError::QueryDimension { query, routing } => {
                "query dimension "@ + text::decimal(query as nat)
                    + " does not match routing dimension "@ + text::decimal(routing as nat)
            },
            RoutingError::Truncated => "failed to fill whole buffer"@,
            RoutingError::NotRoutingTable => "'"@ + path + "' is not a supported routing table"@,
            RoutingError::ElementSize { found } => {
                "routing table element size "@ + text::decimal(found as nat)
                    + " does not match requested type size 4"@
            },
            RoutingError::SizeOverflow => "routing table size overflow"@,
            RoutingError::InvalidLength => "routing table '"@ + path + "' has an invalid length"@,
            RoutingError::TooManyEntries => "routing table contains more than u32::MAX entries"@,
            RoutingError::DimensionTooLarge => "routing table dimension exceeds u32::MAX"@,
            RoutingError::TooFewTrainingPoints { points, centers } => text::decimal(points as nat)
                + " sampled training points are insufficient for "@ + text::decimal(centers as nat)
                + " centers"@,
            RoutingError::TooFewPoints { points, centers } => text::decimal(points as nat)
                + " points are insufficient for "@ + text::decimal(centers as nat) + " centers"@,
            RoutingError::UnsupportedMetric { metric } => {
                "PQ-space routing supports only l2 and innerproduct, got "@ + metric.text()
            },
            RoutingError::TooManyPoints => "dataset contains more than u32::MAX points"@,
            RoutingError::Incomplete { read, expected } => {
                "read "@ + text::decimal(read as nat) + " of "@ + text::decimal(expected as nat)
                    + " vectors while generating routing entries"@
            },
        }
    }

    /// The text of the error, met with the table at `path`.
    pub fn message(&self, path: &str) -> (message: String)
        ensures
            message@ == self.text(path@),
    {
        match *self {
            RoutingError::Empty => "routing table must contain at least one entry".to_owned(),
            RoutingError::Dimension { elements, entries, dimension } => {
                let mut message = "routing vectors contain ".to_owned();
                text::append_decimal(&mut message, elements as u64);
                message.append(" elements for ");
                text::append_decimal(&mut message, entries as u64);
                message.append(" entries with dimension ");
                text::append_decimal(&mut message, dimension as u64);
                message
            },
            RoutingError::QueryDimension { query, routing } => text::two_numbers(
                "query dimension ",
                query as u64,
                " does not match routing dimension ",
                routing as u64,
                None,
            ),
            RoutingError::Truncated => "failed to fill whole buffer".to_owned(),
            RoutingError::NotRoutingTable => {
                let mut message = "'".to_owned();
                message.append(path);
                message.append("' is not a supported routing table");
                message
            },
            RoutingError::ElementSize { found } => text::one_number(
                "routing table element size ",
                found as u64,
                Some(" does not match requested type size 4"),
            ),
            RoutingError::SizeOverflow => "routing table size overflow".to_owned(),
            RoutingError::InvalidLength => {
                let mut message = "routing table '".to_owned();
                message.append(path);
                message.append("' has an invalid length");
                message
            },
            RoutingError::TooManyEntries => {
                "routing table contains more than u32::MAX entries".to_owned()
            },
            RoutingError::DimensionTooLarge => {
                "routing table dimension exceeds u32::MAX".to_owned()
            },
            RoutingError::TooFewTrainingPoints { points, centers } => text::leading_number(
                points as u64,
                " sampled training points are insufficient for ",
                centers as u64,
                " centers",
            ),
            RoutingError::TooFewPoints { points, centers } => text::leading_number(
                points as u64,
                " points are insufficient for ",
                centers as u64,
                " centers",
            ),
            RoutingError::UnsupportedMetric { metric } => {
                let mut message = "PQ-space routing supports only l2 and innerproduct, got ".to_owned();
                message.append(metric.name().as_str());
                message
            },
            RoutingError::TooManyPoints => "dataset contains more than u32::MAX points".to_owned(),
            RoutingError::Incomplete { read, expected } => text::two_numbers(
                "read ",
                read as u64,
                " of ",
                expected as u64,
                Some(" vectors while generating routing entries"),
            ),
        }
    }
}

/// What making a table of these parts comes to.
pub open spec fn table_fault(ids: Seq<u32>, vectors: Seq<u32>, dimension: usize) -> Option<
    RoutingError,
> {
    if ids.len() == 0 {
        Some(RoutingError::Empty)
    } else if dimension == 0 || vectors.len() != ids.len() * dimension {
        Some(
            RoutingError::Dimension {
                elements: vectors.len() as usize,
                entries: ids.len() as usize,
                dimension,
            },
        )
    } else {
        None
    }
}

/// The words of the first `count` entries: each its ID and its vector.
pub open spec fn entry_words(
    ids: Seq<u32>,
    vectors: Seq<u32>,
    dimension: int,
    count: nat,
) -> Seq<u32>
    decreases count,
{
    if count == 0 {
        Seq::empty()
    } else {
        entry_words(ids, vectors, dimension, (count - 1) as nat).push(ids[count - 1])
            + vectors.subrange((count - 1) * dimension, (count - 1) * dimension + dimension)
    }
}

/// Where in the bytes the entry `at` starts.
pub open spec fn entry_offset(dimension: int, at: int) -> int {
    HEADER_LEN + 4 * (at * (dimension + 1))
}

/// The IDs that the bytes of a table give.
pub open spec fn stored_ids(table: Seq<u8>, dimension: int, count: nat) -> Seq<u32> {
    Seq::new(count, |at: int| bytes::u32_at(table, entry_offset(dimension, at)))
}

/// The vectors that the bytes of a table give.
pub open spec fn stored_vectors(table: Seq<u8>, dimension: int, count: nat) -> Seq<u32> {
    Seq::new(
        (count * dimension) as nat,
        |at: int|
            bytes::u32_at(
                table,
                entry_offset(dimension, at / dimension) + 4 + 4 * (at % dimension),
            ),
    )
}

/// Why the bytes of a table cannot be read, as far as the header and the length go.
pub open spec fn bytes_fault(table: Seq<u8>) -> Option<RoutingError> {
    let count = bytes::u32_at(table, 8);
    let dimension = bytes::u32_at(table, 12);
    let element = bytes::u32_at(table, 16);
    let entry = 4 + dimension * 4;
    if table.len() < 8 {
        Some(RoutingError::Truncated)
    } else if table.subrange(0, 8) != magic() {
        Some(RoutingError::NotRoutingTable)
    } else if table.len() < HEADER_LEN {
        Some(RoutingError::Truncated)
    } else if element != 4 {
        Some(RoutingError::ElementSize { found: element })
    } else if entry > usize::MAX || HEADER_LEN + count * entry > usize::MAX {
        Some(RoutingError::SizeOverflow)
    } else if table.len() != HEADER_LEN + count * entry {
        Some(RoutingError::InvalidLength)
    } else {
        None
    }
}

/// What loading the bytes of a table comes to: its IDs, vectors and dimension, or
/// the error.
pub open spec fn load_outcome(table: Seq<u8>) -> Result<(Seq<u32>, Seq<u32>, usize), RoutingError> {
    let count = bytes::u32_at(table, 8) as nat;
    let dimension = bytes::u32_at(table, 12) as int;
    let ids = stored_ids(table, dimension, count);
    let vectors = stored_vectors(table, dimension, count);
    match bytes_fault(table) {
        Some(fault) => Err(fault),
        None => match table_fault(ids, vectors, dimension as usize) {
            Some(fault) => Err(fault),
            None => Ok((ids, vectors, dimension as usize)),
        },
    }
}

impl RoutingTable {
    /// The parts fit together.
    pub open spec fn wf(&self) -> bool {
        table_fault(self.ids@, self.vectors@, self.dimension) is None
    }

    /// Construct a routing table from real graph node IDs and vectors.
    pub fn new(ids: Vec<u32>, vectors: Vec<u32>, dimension: usize) -> (result: Result<
        Self,
        RoutingError,
    >)
        ensures
            match result {
                Ok(table) => table.wf() && table.ids == ids && table.vectors == vectors
                    && table.dimension == dimension,
                Err(error) => table_fault(ids@, vectors@, dimension) == Some(error),
            },
    {
        if ids.len() == 0 {
            return Err(RoutingError::Empty);
        }
        proof {
            let count = ids@.len() as int;
            assert(0 <= count * dimension) by (nonlinear_arith)
                requires
                    0 <= count,
                    0 <= dimension,
            ;
        }
        let matching: bool = match ids.len().checked_mul(dimension) {
            Some(elements) => elements == vectors.len(),
            None => {
                assert(vectors.len() == vectors@.len());
                false
            },
        };
        if dimension == 0 || !matching {
            return Err(
                RoutingError::Dimension {
                    elements: vectors.len(),
                    entries: ids.len(),
                    dimension,
                },
            );
        }
        Ok(RoutingTable { ids, vectors, dimension })
    }

    /// Number of routing entries.
    pub fn len(&self) -> (count: usize)
        ensures
            count == self.ids@.len(),
    {
        self.ids.len()
    }

    /// Whether the routing table is empty.
    pub fn is_empty(&self) -> (empty: bool)
        ensures
            empty == (self.ids@.len() == 0),
    {
        self.ids.len() == 0
    }

    /// Stored vector dimension.
    pub fn dimension(&self) -> (dimension: usize)
        ensures
            dimension == self.dimension,
    {
        self.dimension
    }

    /// Real graph node IDs represented by this table.
    pub fn ids(&self) -> (ids: &[u32])
        ensures
            ids@ == self.ids@,
    {
        self.ids.as_slice()
    }

    /// The IDs in the order that a ranking of the entries gives.
    pub open spec fn ranked_ids(&self, order: Seq<usize>) -> Seq<u32> {
        Seq::new(order.len(), |at: int| self.ids@[order[at] as int])
    }

    /// Select up to `count` unique graph IDs of the entries with the smallest
    /// scores, given the dimension of the query and the score of each entry.
    pub fn select(&self, query_dimension: usize, scores: &[u32], count: usize) -> (result: Result<
        Vec<u32>,
        RoutingError,
    >)
        requires
            self.wf(),
            scores@.len() == self.ids@.len(),
            count > 0,
        ensures
            match result {
                Ok(selected) => query_dimension == self.dimension && exists|order: Seq<usize>|
                    #[trigger]
                    ranking::is_ranking(scores@, order) && selected@ == cache_nodes::extend_unique(
                        Seq::empty(),
                        self.ranked_ids(order),
                        count as int,
                    ),
                Err(error) => query_dimension != self.dimension && error
                    == (RoutingError::QueryDimension {
                    query: query_dimension,
                    routing: self.dimension,
                }),
            },
    {
        if query_dimension != self.dimension {
            return Err(
                RoutingError::QueryDimension { query: query_dimension, routing: self.dimension },
            );
        }
        let order = ranking::rank_positions(scores);
        let ghost ranked = self.ranked_ids(order@);
        let mut ids: Vec<u32> = Vec::new();
        let mut at: usize = 0;
        while at < order.len()
            invariant
                at <= order@.len(),
                scores@.len() == self.ids@.len(),
                ranking::is_ranking(scores@, order@),
                ranked == self.ranked_ids(order@),
                ids@ == ranked.take(at as int),
            decreases order@.len() - at,
        {
            assert(order@[at as int] < scores@.len());
            ids.push(self.ids[order[at]]);
            assert(ranked.take(at + 1) =~= ranked.take(at as int).push(ranked[at as int]));
            at += 1;
        }
        assert(ids@ =~= ranked);
        Ok(first_unique(ids.as_slice(), count))
    }

    /// The bytes of the table.
    pub open spec fn image(&self) -> Seq<u8> {
        magic() + bytes::le_bytes(self.ids@.len(), 4) + bytes::le_bytes(self.dimension as nat, 4)
            + bytes::le_bytes(4, 4) + bytes::u32s_bytes(
            entry_words(self.ids@, self.vectors@, self.dimension as int, self.ids@.len()),
        )
    }

    /// Why the table cannot be written.
    pub open spec fn save_fault(&self) -> Option<RoutingError> {
        if self.ids@.len() > u32::MAX {
            Some(RoutingError::TooManyEntries)
        } else if self.dimension > u32::MAX {
            Some(RoutingError::DimensionTooLarge)
        } else {
            None
        }
    }

    /// Write the bytes of this routing table.
    pub fn save(&self) -> (result: Result<Vec<u8>, RoutingError>)
        requires
            self.wf(),
        ensures
            match result {
                Ok(table) => self.save_fault() is None && table@ == self.image(),
                Err(error) => self.save_fault() == Some(error),
            },
    {
        let count: usize = self.ids.len();
        if count as u64 > u32::MAX as u64 {
            return Err(RoutingError::TooManyEntries);
        }
        if self.dimension as u64 > u32::MAX as u64 {
            return Err(RoutingError::DimensionTooLarge);
        }
        let expected_magic: [u8; 8] = [0x44, 0x41, 0x4e, 0x4e, 0x52, 0x54, 0x45, 0x31];
        let mut table: Vec<u8> = Vec::new();
        bytes::append_bytes(&mut table, &expected_magic);
        bytes::append_u32(&mut table, count as u32);
        bytes::append_u32(&mut table, self.dimension as u32);
        bytes::append_u32(&mut table, 4);
        let ghost head = table@;
        let ghost ids = self.ids@;
        let ghost vectors = self.vectors@;
        let ghost dimension = self.dimension as int;
        proof {
            assert(expected_magic@ =~= magic());
            assert(head =~= magic() + bytes::le_bytes(ids.len(), 4) + bytes::le_bytes(
                dimension as nat,
                4,
            ) + bytes::le_bytes(4, 4));
            assert(table@ =~= head + bytes::u32s_bytes(entry_words(ids, vectors, dimension, 0)));
        }
        let mut at: usize = 0;
        let mut start: usize = 0;
        while at < count
            invariant
                at <= count,
                self.wf(),
                count == ids.len(),
                ids == self.ids@,
                vectors == self.vectors@,
                dimension == self.dimension,
                start == at * dimension,
                table@ == head + bytes::u32s_bytes(entry_words(ids, vectors, dimension, at as nat)),
            decreases count - at,
        {
            let ghost before = entry_words(ids, vectors, dimension, at as nat);
            proof {
                let total = count as int;
                let done = at as int;
                assert(done * dimension + dimension == (done + 1) * dimension && (done + 1)
                    * dimension <= total * dimension && 0 <= done * dimension) by (nonlinear_arith)
                    requires
                        0 <= done < total,
                        0 <= dimension,
                ;
                assert(self.vectors.len() == vectors.len());
            }
            let vector = vstd::slice::slice_subrange(
                self.vectors.as_slice(),
                start,
                start + self.dimension,
            );
            bytes::append_u32(&mut table, self.ids[at]);
            bytes::append_u32s(&mut table, vector);
            proof {
                let with_id = before.push(ids[at as int]);
                assert(with_id.drop_last() =~= before);
                lemma_u32s_concat(with_id, vector@);
                assert(entry_words(ids, vectors, dimension, (at + 1) as nat) == with_id + vector@);
                assert(table@ =~= head + bytes::u32s_bytes(
                    entry_words(ids, vectors, dimension, (at + 1) as nat),
                ));
            }
            start = start + self.dimension;
            at += 1;
        }
        Ok(table)
    }

    /// Read the bytes of a routing table.
    pub fn load(table: &[u8]) -> (result: Result<Self, RoutingError>)
        ensures
            match load_outcome(table@) {
                Ok((ids, vectors, dimension)) => result is Ok && result->Ok_0.wf()
                    && result->Ok_0.ids@ == ids && result->Ok_0.vectors@ == vectors
                    && result->Ok_0.dimension == dimension,
                Err(error) => result is Err && result->Err_0 == error,
            },
    {
        if table.len() < 8 {
            return Err(RoutingError::Truncated);
        }
        let expected_magic: [u8; 8] = [0x44, 0x41, 0x4e, 0x4e, 0x52, 0x54, 0x45, 0x31];
        assert(expected_magic@ =~= magic());
        if !bytes::bytes_equal(vstd::slice::slice_subrange(table, 0, 8), &expected_magic) {
            return Err(RoutingError::NotRoutingTable);
        }
        if table.len() < HEADER_LEN {
            return Err(RoutingError::Truncated);
        }
        let count: u32 = bytes::read_u32_at(table, 8);
        let dimension: u32 = bytes::read_u32_at(table, 12);
        let element: u32 = bytes::read_u32_at(table, 16);
        if element != 4 {
            return Err(RoutingError::ElementSize { found: element });
        }
        let expected: usize = match expected_len(count as usize, dimension as usize) {
            Some(expected) => expected,
            None => {
                return Err(RoutingError::SizeOverflow);
            },
        };
        if table.len() != expected {
            return Err(RoutingError::InvalidLength);
        }
        let (ids, vectors) = read_entries(table, count, dimension as usize);
        RoutingTable::new(ids, vectors, dimension as usize)
    }
}

/// The length of a table, if it is a `usize`.
fn expected_len(count: usize, dimension: usize) -> (length: Option<usize>)
    requires
        count <= u32::MAX,
        dimension <= u32::MAX,
    ensures
        ({
            let entry = 4 + dimension * 4;
            &&& length is Some <==> entry <= usize::MAX && HEADER_LEN + count * entry <= usize::MAX
            &&& length is Some ==> length->0 == HEADER_LEN + count * entry
        }),
{
    let Some(vector_size) = dimension.checked_mul(4) else {
        return None;
    };
    let Some(entry_size) = vector_size.checked_add(4) else {
        return None;
    };
    proof {
        assert(0 <= count * entry_size) by (nonlinear_arith)
            requires
                0 <= count,
                0 <= entry_size,
        ;
    }
    let Some(entries_size) = count.checked_mul(entry_size) else {
        return None;
    };
    HEADER_LEN.checked_add(entries_size)
}

/// Reads the entries of a table of the right length.
fn read_entries(table: &[u8], count: u32, dimension: usize) -> (entries: (Vec<u32>, Vec<u32>))
    requires
        table@.len() == HEADER_LEN + count * (4 + dimension * 4),
        dimension <= u32::MAX,
    ensures
        entries.0@ == stored_ids(table@, dimension as int, count as nat),
        entries.1@ == stored_vectors(table@, dimension as int, count as nat),
{
    let ghost width = dimension as int;
    let ghost total = count as int;
    let mut ids: Vec<u32> = Vec::new();
    let mut vectors: Vec<u32> = Vec::new();
    let mut offset: usize = HEADER_LEN;
    let mut at: u32 = 0;
    proof {
        assert(total * (4 + width * 4) == 4 * (total * (width + 1))) by (nonlinear_arith);
        assert(table.len() == table@.len());
        assert(0 * (width + 1) == 0 && 0 * width == 0) by (nonlinear_arith);
        assert(ids@ =~= stored_ids(table@, width, 0));
        assert(vectors@ =~= stored_vectors(table@, width, 0));
    }
    while at < count
        invariant
            at <= count,
            width == dimension,
            total == count,
            table@.len() == HEADER_LEN + 4 * (total * (width + 1)),
            table@.len() <= usize::MAX,
            offset == entry_offset(width, at as int),
            ids@ == stored_ids(table@, width, at as nat),
            vectors@ == stored_vectors(table@, width, at as nat),
        decreases count - at,
    {
        let ghost done = at as int;
        proof {
            assert((done + 1) * (width + 1) == done * (width + 1) + width + 1 && (done + 1) * (width
                + 1) <= total * (width + 1) && 0 <= done * (width + 1)) by (nonlinear_arith)
                requires
                    0 <= done < total,
                    0 <= width,
            ;
            assert((done + 1) * width == done * width + width && 0 <= done * width)
                by (nonlinear_arith)
                requires
                    0 <= done,
                    0 <= width,
            ;
        }
        let id: u32 = bytes::read_u32_at(table, offset);
        ids.push(id);
        assert(ids@ =~= stored_ids(table@, width, (at + 1) as nat));
        let ghost before = vectors@;
        let ghost all = stored_vectors(table@, width, (at + 1) as nat);
        offset = offset + 4;
        let mut column: usize = 0;
        while column < dimension
            invariant
                column <= dimension,
                width == dimension,
                0 <= done < total,
                table@.len() == HEADER_LEN + 4 * (total * (width + 1)),
                table@.len() <= usize::MAX,
                offset == entry_offset(width, done) + 4 + 4 * column,
                entry_offset(width, done) + 4 + 4 * width <= table@.len(),
                before.len() == done * width,
                0 <= done * width,
                all == stored_vectors(table@, width, (done + 1) as nat),
                all.len() == done * width + width,
                vectors@.len() == before.len() + column,
                forall|i: int| 0 <= i < before.len() ==> vectors@[i] == before[i],
                forall|i: int| before.len() <= i < vectors@.len() ==> vectors@[i] == all[i],
            decreases dimension - column,
        {
            let value: u32 = bytes::read_u32_at(table, offset);
            proof {
                let place = done * width + column;
                assert(place / width == done && place % width == column) by (nonlinear_arith)
                    requires
                        place == done * width + column,
                        0 <= column < width,
                ;
                assert(all[place] == value);
            }
            vectors.push(value);
            offset = offset + 4;
            column += 1;
        }
        proof {
            assert forall|i: int| 0 <= i < vectors@.len() implies vectors@[i] == all[i] by {
                if i < before.len() {
                    assert(before[i] == stored_vectors(table@, width, at as nat)[i]);
                }
            }
            assert(vectors@ =~= all);
        }
        at += 1;
    }
    (ids, vectors)
}

/// The first different IDs, as many as are asked for.
fn first_unique(ids: &[u32], count: usize) -> (selected: Vec<u32>)
    requires
        count > 0,
    ensures
        selected@ == cache_nodes::extend_unique(Seq::empty(), ids@, count as int),
{
    broadcast use vstd::std_specs::hash::group_hash_axioms;

    let mut selected: Vec<u32> = Vec::new();
    let mut seen: HashSet<u32> = HashSet::new();
    let mut at: usize = 0;
    assert(ids@.take(0) =~= Seq::<u32>::empty());
    while at < ids.len()
        invariant
            at <= ids@.len(),
            count > 0,
            selected@.len() < count,
            selected@ == cache_nodes::extend_unique(
                Seq::empty(),
                ids@.take(at as int),
                count as int,
            ),
            forall|id: u32| #[trigger] seen@.contains(id) <==> selected@.contains(id),
        decreases ids@.len() - at,
    {
        let id: u32 = ids[at];
        let ghost current = selected@;
        let ghost known = seen@;
        assert(ids@.take(at + 1).drop_last() =~= ids@.take(at as int));
        if seen.insert(id) {
            selected.push(id);
            proof {
                assert forall|other: u32| #[trigger]
                    seen@.contains(other) <==> selected@.contains(other) by {
                    if other == id {
                        assert(selected@[current.len() as int] == id);
                    } else {
                        assert(seen@.contains(other) == known.contains(other));
                        if current.contains(other) {
                            let place = choose|place: int|
                                0 <= place < current.len() && current[place] == other;
                            assert(selected@[place] == other);
                        }
                        if selected@.contains(other) {
                            let place = choose|place: int|
                                0 <= place < selected@.len() && selected@[place] == other;
                            assert(current[place] == other);
                        }
                    }
                }
            }
            if selected.len() == count {
                proof {
                    cache_nodes::lemma_full(Seq::empty(), ids@, count as int, at + 1);
                }
                return selected;
            }
        } else {
            assert(seen@ =~= known);
        }
        at += 1;
    }
    assert(ids@.take(at as int) =~= ids@);
    selected
}

/// Encodings of two runs of words stand one after the other.
pub proof fn lemma_u32s_concat(left: Seq<u32>, right: Seq<u32>)
    ensures
        bytes::u32s_bytes(left + right) == bytes::u32s_bytes(left) + bytes::u32s_bytes(right),
    decreases right.len(),
{
    if right.len() == 0 {
        assert(left + right =~= left);
        assert(bytes::u32s_bytes(left) + bytes::u32s_bytes(right) =~= bytes::u32s_bytes(left));
    } else {
        let both = left + right;
        lemma_u32s_concat(left, right.drop_last());
        assert(both.drop_last() =~= left + right.drop_last());
        assert(both.last() == right.last());
        assert(bytes::u32s_bytes(both) =~= bytes::u32s_bytes(left) + bytes::u32s_bytes(right));
    }
}

/// Where the parts of an entry stand among the words.
proof fn lemma_entry_words(
    ids: Seq<u32>,
    vectors: Seq<u32>,
    dimension: int,
    count: nat,
    at: int,
    column: int,
)
    requires
        0 < dimension,
        count <= ids.len(),
        vectors.len() == ids.len() * dimension,
        0 <= at < count,
        0 <= column < dimension,
    ensures
        entry_words(ids, vectors, dimension, count).len() == count * (dimension + 1),
        entry_words(ids, vectors, dimension, count)[at * (dimension + 1)] == ids[at],
        entry_words(ids, vectors, dimension, count)[at * (dimension + 1) + 1 + column]
            == vectors[at * dimension + column],
        0 <= at * (dimension + 1),
        at * (dimension + 1) + dimension + 1 <= count * (dimension + 1),
        0 <= at * dimension,
        at * dimension + dimension <= ids.len() * dimension,
    decreases count,
{
    let total = ids.len() as int;
    let last = count - 1;
    assert((last + 1) * (dimension + 1) == last * (dimension + 1) + dimension + 1 && 0 <= last
        * dimension && last * dimension + dimension <= total * dimension) by (nonlinear_arith)
        requires
            0 <= last < total,
            0 < dimension,
    ;
    assert(0 <= at * (dimension + 1) && at * (dimension + 1) + dimension + 1 <= (last + 1) * (
    dimension + 1) && 0 <= at * dimension && at * dimension + dimension <= total * dimension)
        by (nonlinear_arith)
        requires
            0 <= at <= last,
            last < total,
            0 < dimension,
    ;
    let front = entry_words(ids, vectors, dimension, last as nat);
    let vector = vectors.subrange(last * dimension, last * dimension + dimension);
    let words = entry_words(ids, vectors, dimension, count);
    assert(words == front.push(ids[last]) + vector);
    lemma_entry_words_len(ids, vectors, dimension, last as nat);
    if at < last {
        lemma_entry_words(ids, vectors, dimension, last as nat, at, column);
        assert(words[at * (dimension + 1)] == front[at * (dimension + 1)]);
        assert(words[at * (dimension + 1) + 1 + column] == front[at * (dimension + 1) + 1
            + column]);
    } else {
        assert(words[last * (dimension + 1)] == ids[last]);
        assert(words[last * (dimension + 1) + 1 + column] == vector[column]);
    }
}

/// The number of words of the entries.
proof fn lemma_entry_words_len(ids: Seq<u32>, vectors: Seq<u32>, dimension: int, count: nat)
    requires
        0 < dimension,
        count <= ids.len(),
        vectors.len() == ids.len() * dimension,
    ensures
        entry_words(ids, vectors, dimension, count).len() == count * (dimension + 1),
    decreases count,
{
    if count > 0 {
        let total = ids.len() as int;
        let last = count - 1;
        lemma_entry_words_len(ids, vectors, dimension, last as nat);
        assert((last + 1) * (dimension + 1) == last * (dimension + 1) + dimension + 1 && 0 <= last
            * dimension && last * dimension + dimension <= total * dimension) by (nonlinear_arith)
            requires
                0 <= last < total,
                0 < dimension,
        ;
    } else {
        assert(0 * (dimension + 1) == 0) by (nonlinear_arith);
    }
}

/// Loading what was saved gives the table back.
pub proof fn lemma_save_load_round_trip(table: &RoutingTable)
    requires
        table.wf(),
        table.save_fault() is None,
        table.image().len() <= usize::MAX,
    ensures
        load_outcome(table.image()) == Ok::<(Seq<u32>, Seq<u32>, usize), RoutingError>(
            (table.ids@, table.vectors@, table.dimension),
        ),
{
    let image = table.image();
    let ids = table.ids@;
    let vectors = table.vectors@;
    let dimension = table.dimension as int;
    let count = ids.len();
    let words = entry_words(ids, vectors, dimension, count);
    let body = bytes::u32s_bytes(words);
    bytes::lemma_le_bytes_len(count, 4);
    bytes::lemma_le_bytes_len(dimension as nat, 4);
    bytes::lemma_le_bytes_len(4, 4);
    bytes::lemma_u32s_bytes(words);
    lemma_entry_words_len(ids, vectors, dimension, count);
    assert(image.subrange(0, 8) =~= magic());
    assert(image.subrange(8, 12) =~= bytes::le_bytes(count, 4));
    assert(image.subrange(12, 16) =~= bytes::le_bytes(dimension as nat, 4));
    assert(image.subrange(16, 20) =~= bytes::le_bytes(4, 4));
    bytes::lemma_u32_at_written(image, 8, count as u32);
    bytes::lemma_u32_at_written(image, 12, dimension as u32);
    bytes::lemma_u32_at_written(image, 16, 4);
    let total = count as int;
    assert(total * (4 + dimension * 4) == 4 * (total * (dimension + 1))) by (nonlinear_arith);
    assert(4 + dimension * 4 <= total * (4 + dimension * 4)) by (nonlinear_arith)
        requires
            1 <= total,
            0 <= dimension,
    ;
    assert forall|at: int| 0 <= at < words.len() implies bytes::u32_at(image, 20 + 4 * at)
        == #[trigger] words[at] by {
        assert(image.subrange(20 + 4 * at, 24 + 4 * at) =~= body.subrange(4 * at, 4 * at + 4));
        bytes::lemma_u32_at_written(image, 20 + 4 * at, words[at]);
    }
    assert(stored_ids(image, dimension, count) =~= ids) by {
        assert forall|at: int| 0 <= at < count implies stored_ids(image, dimension, count)[at]
            == ids[at] by {
            lemma_entry_words(ids, vectors, dimension, count, at, 0);
            assert(words[at * (dimension + 1)] == ids[at]);
        }
    }
    assert(stored_vectors(image, dimension, count) =~= vectors) by {
        assert forall|place: int| 0 <= place < vectors.len() implies stored_vectors(
            image,
            dimension,
            count,
        )[place] == vectors[place] by {
            let at = place / dimension;
            let column = place % dimension;
            assert(0 <= at < total && 0 <= column < dimension && place == at * dimension + column)
                by (nonlinear_arith)
                requires
                    at == place / dimension,
                    column == place % dimension,
                    0 <= place < total * dimension,
                    0 < dimension,
            ;
            lemma_entry_words(ids, vectors, dimension, count, at, column);
            let word = at * (dimension + 1) + 1 + column;
            assert(words[word] == vectors[place]);
        }
    }
}

/// What is selected: different IDs of the table, as many as were asked for or else all.
pub proof fn lemma_selection_is_unique(
    table: &RoutingTable,
    scores: Seq<u32>,
    order: Seq<usize>,
    count: usize,
    entry: int,
)
    requires
        scores.len() == table.ids@.len(),
        scores.len() <= usize::MAX,
        ranking::is_ranking(scores, order),
        0 <= entry < table.ids@.len(),
    ensures
        ({
            let selected = cache_nodes::extend_unique(
                Seq::empty(),
                table.ranked_ids(order),
                count as int,
            );
            &&& selected.no_duplicates()
            &&& selected.len() <= count
            &&& selected.len() < count ==> selected.contains(table.ids@[entry])
            &&& forall|at: int|
                0 <= at < selected.len() ==> table.ids@.contains(#[trigger] selected[at])
        }),
{
    let ranked = table.ranked_ids(order);
    let selected = cache_nodes::extend_unique(Seq::empty(), ranked, count as int);
    cache_nodes::lemma_selection_follows_source(Seq::empty(), ranked, count as int);
    ranking::lemma_ranking_is_permutation(scores, order);
    assert(order.contains(entry as usize));
    let place = choose|place: int| 0 <= place < order.len() && order[place] == entry;
    assert(ranked[place] == table.ids@[entry]);
    assert forall|at: int| 0 <= at < selected.len() implies table.ids@.contains(
        #[trigger] selected[at],
    ) by {
        assert(ranked.contains(selected[at]));
        let from = choose|from: int| 0 <= from < ranked.len() && ranked[from] == selected[at];
        assert(table.ids@[order[from] as int] == selected[at]);
    }
}

/// The nearest entries are selected, nearest first: an ID is selected for an entry, the one
/// that comes back, whose score is no larger than that of any entry whose ID is selected
/// later or not at all.
pub proof fn lemma_selected_are_nearest(
    table: &RoutingTable,
    scores: Seq<u32>,
    order: Seq<usize>,
    count: usize,
    at: int,
    other: int,
) -> (entry: int)
    requires
        scores.len() == table.ids@.len(),
        scores.len() <= usize::MAX,
        ranking::is_ranking(scores, order),
        0 <= at < cache_nodes::extend_unique(
            Seq::empty(),
            table.ranked_ids(order),
            count as int,
        ).len(),
        0 <= other < table.ids@.len(),
        !cache_nodes::extend_unique(
            Seq::empty(),
            table.ranked_ids(order),
            count as int,
        ).take(at + 1).contains(table.ids@[other]),
    ensures
        0 <= entry < table.ids@.len(),
        table.ids@[entry] == cache_nodes::extend_unique(
            Seq::empty(),
            table.ranked_ids(order),
            count as int,
        )[at],
        !float_bits::less(scores[other], scores[entry]),
        scores[other] == scores[entry] ==> entry < other,
{
    let ranked = table.ranked_ids(order);
    let selected = cache_nodes::extend_unique(Seq::empty(), ranked, count as int);
    cache_nodes::lemma_selection_follows_source(Seq::empty(), ranked, count as int);
    ranking::lemma_ranking_is_permutation(scores, order);
    assert(order.contains(other as usize));
    let second = choose|second: int| 0 <= second < order.len() && order[second] == other;
    assert(ranked[second] == table.ids@[other]);
    assert(ranked.take(second).contains(selected[at]));
    let first = choose|first: int|
        0 <= first < ranked.take(second).len() && ranked.take(second)[first] == selected[at];
    ranking::lemma_ranking_rises(scores, order, first, second);
    order[first] as int
}

/// Only what saving writes is loaded: the bytes of a table that loads are those that saving
/// it gives.
pub proof fn lemma_loaded_bytes_are_saved(bytes: Seq<u8>, table: &RoutingTable)
    requires
        load_outcome(bytes) == Ok::<(Seq<u32>, Seq<u32>, usize), RoutingError>(
            (table.ids@, table.vectors@, table.dimension),
        ),
    ensures
        table.wf(),
        table.save_fault() is None,
        table.image() == bytes,
{
    let count = bytes::u32_at(bytes, 8) as nat;
    let dimension = bytes::u32_at(bytes, 12) as int;
    let ids = table.ids@;
    let vectors = table.vectors@;
    assert(dimension as usize == dimension);
    let total = (count * (dimension + 1)) as nat;
    let stored = Seq::new(total, |at: int| bytes::u32_at(bytes, HEADER_LEN + 4 * at));
    let words = entry_words(ids, vectors, dimension, count);
    assert(HEADER_LEN + count * (4 + dimension * 4) == HEADER_LEN + 4 * total) by (nonlinear_arith)
        requires
            total == count * (dimension + 1),
    ;
    assert(vectors.len() == count * dimension);
    lemma_entry_words_len(ids, vectors, dimension, count);
    assert forall|at: int| 0 <= at < total implies words[at] == #[trigger] stored[at] by {
        let width = dimension + 1;
        let entry = at / width;
        let column = at % width;
        assert(at == entry * width + column && 0 <= column < width && 0 <= entry < count)
            by (nonlinear_arith)
            requires
                entry == at / width,
                column == at % width,
                0 < width,
                0 <= at < count * width,
        ;
        if column == 0 {
            lemma_entry_words(ids, vectors, dimension, count, entry, 0);
        } else {
            lemma_entry_words(ids, vectors, dimension, count, entry, column - 1);
            arithmetic::lemma_quotient_and_rest(entry, column - 1, dimension);
            assert(vectors[entry * dimension + (column - 1)] == bytes::u32_at(
                bytes,
                entry_offset(dimension, entry) + 4 + 4 * (column - 1),
            ));
        }
    }
    assert(words =~= stored);
    bytes::lemma_words_are_bytes(bytes, HEADER_LEN as int, total);
    bytes::lemma_word_is_bytes(bytes, 8);
    bytes::lemma_word_is_bytes(bytes, 12);
    bytes::lemma_word_is_bytes(bytes, 16);
    assert(table.image() =~= bytes) by {
        assert(bytes =~= bytes.subrange(0, 8) + bytes.subrange(8, 12) + bytes.subrange(12, 16)
            + bytes.subrange(16, 20) + bytes.subrange(20, bytes.len() as int));
    }
}

/// Which parts make a table: one or more IDs, and a vector of one or more elements for each.
pub proof fn lemma_table_parts_accepted(ids: Seq<u32>, vectors: Seq<u32>, dimension: usize)
    ensures
        table_fault(ids, vectors, dimension) is None <==> {
            &&& 0 < ids.len()
            &&& 0 < dimension
            &&& vectors.len() == ids.len() * dimension
        },
{
}

/// How a table is written: behind the magic bytes the number of entries, the dimension and the
/// size of an element, then for each entry its ID and the elements of its vector, four bytes
/// each.
pub proof fn lemma_table_layout(table: &RoutingTable, at: int, column: int)
    requires
        table.wf(),
        table.save_fault() is None,
        table.image().len() <= usize::MAX,
        0 <= at < table.ids@.len(),
        0 <= column < table.dimension,
    ensures
        ({
            let stored = table.image();
            let entry = 20 + at * (4 + 4 * table.dimension);
            &&& stored.len() == 20 + table.ids@.len() * (4 + 4 * table.dimension)
            &&& bytes::u32_at(stored, 8) == table.ids@.len()
            &&& bytes::u32_at(stored, 12) == table.dimension
            &&& bytes::u32_at(stored, 16) == 4
            &&& bytes::u32_at(stored, entry) == table.ids@[at]
            &&& bytes::u32_at(stored, entry + 4 + 4 * column) == table.vectors@[at
                * table.dimension + column]
        }),
{
    let stored = table.image();
    let width = table.dimension as int;
    lemma_save_load_round_trip(table);
    let count = bytes::u32_at(stored, 8) as nat;
    let dimension = bytes::u32_at(stored, 12) as int;
    assert(bytes_fault(stored) is None);
    assert(stored_ids(stored, dimension, count) == table.ids@);
    assert(stored_vectors(stored, dimension, count) == table.vectors@);
    assert(stored_ids(stored, dimension, count).len() == count);
    assert(dimension == width);
    assert(entry_offset(width, at) == 20 + at * (4 + 4 * width)) by (nonlinear_arith)
        requires
            entry_offset(width, at) == 20 + 4 * (at * (width + 1)),
    ;
    assert(stored_ids(stored, dimension, count)[at] == table.ids@[at]);
    arithmetic::lemma_quotient_and_rest(at, column, width);
    assert(at * width + column < count * width && 0 <= at * width) by (nonlinear_arith)
        requires
            0 <= at < count,
            0 <= column < width,
    ;
    assert(stored_vectors(stored, dimension, count)[at * width + column] == table.vectors@[at
        * width + column]);
}

} // verus!
