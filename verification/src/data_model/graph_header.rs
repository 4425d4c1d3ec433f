use crate::bytes;
use crate::data_model::GraphMetadata;
use crate::data_model::ParseSliceError;
use vstd::prelude::*;

verus! {

/// Version of the on-disk graph layout.
#[derive(Debug, Clone, Copy, PartialEq, Eq, Structural)]
pub struct GraphLayoutVersion {
    pub major_version: u32,
    pub minor_version: u32,
}

impl GraphLayoutVersion {
    pub fn new(major_version: u32, minor_version: u32) -> (version: Self)
        ensures
            version == (GraphLayoutVersion { major_version, minor_version }),
    {
        GraphLayoutVersion { major_version, minor_version }
    }

    /// The version that the index builder writes.
    pub open spec fn spec_current() -> Self {
        GraphLayoutVersion { major_version: 1, minor_version: 0 }
    }

    /// The version of an index whose records were placed by a sidecar's mapping.
    pub open spec fn spec_graph_aware() -> Self {
        GraphLayoutVersion { major_version: 1, minor_version: 1 }
    }
}

/// The header of a graph index: its metadata, block size and layout version.
#[derive(Debug)]
pub struct GraphHeader {
    pub metadata: GraphMetadata,
    pub block_size: u64,
    pub layout_version: GraphLayoutVersion,
}

impl Clone for GraphHeader {
    fn clone(&self) -> (copy: Self)
        ensures
            copy == *self,
    {
        GraphHeader {
            metadata: self.metadata.clone(),
            block_size: self.block_size,
            layout_version: self.layout_version,
        }
    }
}

impl GraphHeader {
    /// The serialized form: metadata, block size, major and minor version.
    pub open spec fn spec_bytes(self) -> Seq<u8> {
        self.metadata.spec_bytes() + bytes::le_bytes(self.block_size as nat, 8) + bytes::le_bytes(
            self.layout_version.major_version as nat,
            4,
        ) + bytes::le_bytes(self.layout_version.minor_version as nat, 4)
    }

    /// What the leading bytes of `value` say.
    pub open spec fn read(value: Seq<u8>) -> Self {
        GraphHeader {
            metadata: GraphMetadata::read(value),
            block_size: bytes::u64_at(value, 80),
            layout_version: GraphLayoutVersion {
                major_version: bytes::u32_at(value, 88),
                minor_version: bytes::u32_at(value, 92),
            },
        }
    }

    pub fn new(
        metadata: GraphMetadata,
        block_size: u64,
        layout_version: GraphLayoutVersion,
    ) -> (header: Self)
        ensures
            header == (GraphHeader { metadata, block_size, layout_version }),
    {
        GraphHeader { metadata, block_size, layout_version }
    }

    pub fn metadata(&self) -> (metadata: &GraphMetadata)
        ensures
            *metadata == self.metadata,
    {
        &self.metadata
    }

    pub fn block_size(&self) -> (block_size: u64)
        ensures
            block_size == self.block_size,
    {
        self.block_size
    }

    pub fn layout_version(&self) -> (version: &GraphLayoutVersion)
        ensures
            *version == self.layout_version,
    {
        &self.layout_version
    }

    /// The layout version that the index builder writes.
    pub fn current_layout_version() -> (version: GraphLayoutVersion)
        ensures
            version == GraphLayoutVersion::spec_current(),
    {
        GraphLayoutVersion::new(1, 0)
    }

    /// The layout version of an index with a physical-layout sidecar.
    pub fn graph_aware_layout_version() -> (version: GraphLayoutVersion)
        ensures
            version == GraphLayoutVersion::spec_graph_aware(),
    {
        GraphLayoutVersion::new(1, 1)
    }

    /// Size of the header after serialization.
    pub fn get_size() -> (size: usize)
        ensures
            size == 96,
    {
        96
    }

    /// Serialize the header.
    pub fn to_bytes(&self) -> (result: Result<Vec<u8>, ParseSliceError>)
        ensures
            result is Ok,
            result->Ok_0@ == self.spec_bytes(),
            result->Ok_0@.len() == 96,
    {
        match self.metadata.to_bytes() {
            Ok(mut buffer) => {
                bytes::append_u64(&mut buffer, self.block_size);
                bytes::append_u32(&mut buffer, self.layout_version.major_version);
                bytes::append_u32(&mut buffer, self.layout_version.minor_version);
                proof {
                    self.lemma_len();
                }
                Ok(buffer)
            },
            Err(error) => Err(error),
        }
    }

    /// Read a header from the front of a byte slice, in the layout that
    /// `to_bytes` writes.
    pub fn try_from(value: &[u8]) -> (result: Result<Self, ParseSliceError>)
        ensures
            match result {
                Ok(header) => value@.len() >= 96 && header == Self::read(value@),
                Err(error) => value@.len() < 96 && error == (ParseSliceError {
                    actual: value@.len() as usize,
                    required: 96,
                }),
            },
    {
        if value.len() < Self::get_size() {
            return Err(ParseSliceError { actual: value.len(), required: Self::get_size() });
        }
        match GraphMetadata::try_from(value) {
            Ok(metadata) => Ok(
                GraphHeader {
                    metadata,
                    block_size: bytes::read_u64_at(value, 80),
                    layout_version: GraphLayoutVersion::new(
                        bytes::read_u32_at(value, 88),
                        bytes::read_u32_at(value, 92),
                    ),
                },
            ),
            Err(error) => Err(error),
        }
    }

    /// The length of the serialized form.
    pub proof fn lemma_len(self)
        ensures
            self.spec_bytes().len() == 96,
    {
        self.metadata.lemma_round_trip(Seq::empty());
        bytes::lemma_le_bytes_len(self.block_size as nat, 8);
        bytes::lemma_le_bytes_len(self.layout_version.major_version as nat, 4);
        bytes::lemma_le_bytes_len(self.layout_version.minor_version as nat, 4);
    }

    /// The serialized form reads back as the header it was made of, whatever
    /// follows it.
    pub proof fn lemma_round_trip(self, tail: Seq<u8>)
        requires
            self.metadata.wf(),
        ensures
            Self::read(self.spec_bytes() + tail) == self,
    {
        self.lemma_len();
        let metadata = self.metadata.spec_bytes();
        let size = bytes::le_bytes(self.block_size as nat, 8);
        let major = bytes::le_bytes(self.layout_version.major_version as nat, 4);
        let minor = bytes::le_bytes(self.layout_version.minor_version as nat, 4);
        bytes::lemma_le_bytes_len(self.block_size as nat, 8);
        bytes::lemma_le_bytes_len(self.layout_version.major_version as nat, 4);
        bytes::lemma_le_bytes_len(self.layout_version.minor_version as nat, 4);
        let all = self.spec_bytes() + tail;
        self.metadata.lemma_round_trip(size + major + minor + tail);
        assert(all =~= metadata + (size + major + minor + tail));
        assert(all.subrange(80, 88) =~= size);
        assert(all.subrange(88, 92) =~= major);
        assert(all.subrange(92, 96) =~= minor);
        bytes::lemma_u64_at_written(all, 80, self.block_size);
        bytes::lemma_u32_at_written(all, 88, self.layout_version.major_version);
        bytes::lemma_u32_at_written(all, 92, self.layout_version.minor_version);
    }
}

/// Where the parts of a header stand: its numbers are eight bytes each, in the order of the
/// metadata, then the block size, and the two parts of the version are four bytes each.
pub proof fn lemma_header_layout(header: GraphHeader)
    requires
        header.metadata.wf(),
    ensures
        ({
            let stored = header.spec_bytes();
            let metadata = header.metadata;
            &&& stored.len() == 96
            &&& bytes::u64_at(stored, 0) == metadata.num_pts
            &&& bytes::u64_at(stored, 8) == metadata.dims
            &&& bytes::u64_at(stored, 16) == metadata.medoid
            &&& bytes::u64_at(stored, 24) == metadata.node_len
            &&& bytes::u64_at(stored, 32) == metadata.num_nodes_per_block
            &&& bytes::u64_at(stored, 40) == metadata.vamana_frozen_num
            &&& bytes::u64_at(stored, 48) == metadata.vamana_frozen_loc
            &&& metadata.layout_fingerprint is None ==> bytes::u64_at(stored, 56) == 0
            &&& metadata.layout_fingerprint is Some ==> bytes::u64_at(stored, 56)
                == metadata.layout_fingerprint->0@
            &&& bytes::u64_at(stored, 64) == metadata.disk_index_file_size
            &&& bytes::u64_at(stored, 72) == metadata.associated_data_length
            &&& bytes::u64_at(stored, 80) == header.block_size
            &&& bytes::u32_at(stored, 88) == header.layout_version.major_version
            &&& bytes::u32_at(stored, 92) == header.layout_version.minor_version
        }),
{
    let stored = header.spec_bytes();
    header.lemma_len();
    header.lemma_round_trip(Seq::empty());
    assert(stored + Seq::<u8>::empty() =~= stored);
    let words = header.metadata.words();
    bytes::lemma_u64s_bytes(words);
    assert(words.len() == 10);
    assert forall|at: int| 0 <= at < 10 implies bytes::u64_at(stored, 8 * at)
        == #[trigger] words[at] by {
        assert(stored.subrange(8 * at, 8 * at + 8) =~= bytes::u64s_bytes(words).subrange(
            8 * at,
            8 * at + 8,
        ));
        bytes::lemma_u64_at_written(stored, 8 * at, words[at]);
    }
    assert(words[0] == header.metadata.num_pts);
    assert(words[1] == header.metadata.dims as u64);
    assert(words[2] == header.metadata.medoid);
    assert(words[3] == header.metadata.node_len);
    assert(words[4] == header.metadata.num_nodes_per_block);
    assert(words[5] == header.metadata.vamana_frozen_num);
    assert(words[6] == header.metadata.vamana_frozen_loc);
    assert(words[7] == crate::data_model::graph_metadata::fingerprint_word(
        header.metadata.layout_fingerprint,
    ));
    assert(words[8] == header.metadata.disk_index_file_size);
    assert(words[9] == header.metadata.associated_data_length as u64);
}

} // verus!
