use crate::bytes;
use vstd::prelude::*;

verus! {

/// Non-zero binding between a graph-aware index and its physical-layout sidecar.
#[derive(Debug, Clone, Copy, PartialEq, Eq, Hash, Structural)]
pub struct LayoutFingerprint {
    value: u64,
}

impl View for LayoutFingerprint {
    type V = u64;

    closed spec fn view(&self) -> u64 {
        self.value
    }
}

impl LayoutFingerprint {
    #[verifier::type_invariant]
    spec fn non_zero(self) -> bool {
        self.value != 0
    }

    /// A fingerprint is made of every number but zero.
    pub fn new(value: u64) -> (fingerprint: Option<Self>)
        ensures
            fingerprint == fingerprint_of(value),
            fingerprint is Some ==> fingerprint->0@ == value,
    {
        if value == 0 {
            None
        } else {
            Some(LayoutFingerprint { value })
        }
    }

    /// The number that the fingerprint was made of.
    pub fn get(self) -> (value: u64)
        ensures
            value == self@,
            value != 0,
    {
        proof {
            use_type_invariant(&self);
        }
        self.value
    }

    /// The fingerprint that is made of `value`.
    pub closed spec fn of(value: u64) -> Self {
        LayoutFingerprint { value }
    }

    /// A fingerprint and its number determine each other.
    pub broadcast proof fn lemma_of_view(self)
        ensures
            Self::of(#[trigger] self@) == self,
    {
    }

    /// A fingerprint holds the number it was made of.
    pub broadcast proof fn lemma_view_of(value: u64)
        ensures
            (#[trigger] Self::of(value))@ == value,
    {
    }
}

/// Bytes that are too few to hold the value they should hold.
#[derive(Debug, Clone, Copy, PartialEq, Eq, Structural)]
pub struct ParseSliceError {
    pub actual: usize,
    pub required: usize,
}

/// Index graph metadata, stored in the first sector of the disk index file.
#[derive(Debug)]
pub struct GraphMetadata {
    /// Number of points.
    pub num_pts: u64,
    /// Data dimension.
    pub dims: usize,
    /// Medoid index.
    pub medoid: u64,
    /// Node length.
    pub node_len: u64,
    /// Number of nodes per sector.
    pub num_nodes_per_block: u64,
    /// Number of frozen nodes in Vamana index.
    pub vamana_frozen_num: u64,
    /// Location of frozen nodes in Vamana index.
    pub vamana_frozen_loc: u64,
    /// Binding to the physical-layout sidecar. Legacy layouts serialize this as zero.
    pub layout_fingerprint: Option<LayoutFingerprint>,
    /// Size of the disk index file.
    pub disk_index_file_size: u64,
    /// Length of the associated data.
    pub associated_data_length: usize,
}

impl Clone for GraphMetadata {
    fn clone(&self) -> (copy: Self)
        ensures
            copy == *self,
    {
        GraphMetadata {
            num_pts: self.num_pts,
            dims: self.dims,
            medoid: self.medoid,
            node_len: self.node_len,
            num_nodes_per_block: self.num_nodes_per_block,
            vamana_frozen_num: self.vamana_frozen_num,
            vamana_frozen_loc: self.vamana_frozen_loc,
            layout_fingerprint: self.layout_fingerprint,
            disk_index_file_size: self.disk_index_file_size,
            associated_data_length: self.associated_data_length,
        }
    }
}

/// The word that stands for an optional fingerprint.
pub open spec fn fingerprint_word(fingerprint: Option<LayoutFingerprint>) -> u64 {
    match fingerprint {
        Some(value) => value@,
        None => 0,
    }
}

/// What a word says of the fingerprint: zero says that there is none.
pub open spec fn fingerprint_of(word: u64) -> Option<LayoutFingerprint> {
    if word == 0 {
        None
    } else {
        Some(LayoutFingerprint::of(word))
    }
}

impl GraphMetadata {
    /// A fingerprint that is present is not zero.
    pub open spec fn wf(self) -> bool {
        self.layout_fingerprint is Some ==> self.layout_fingerprint->0@ != 0
    }

    /// The ten words of the serialized form, in order.
    pub open spec fn words(self) -> Seq<u64> {
        seq![
            self.num_pts,
            self.dims as u64,
            self.medoid,
            self.node_len,
            self.num_nodes_per_block,
            self.vamana_frozen_num,
            self.vamana_frozen_loc,
            fingerprint_word(self.layout_fingerprint),
            self.disk_index_file_size,
            self.associated_data_length as u64,
        ]
    }

    /// The serialized form.
    pub open spec fn spec_bytes(self) -> Seq<u8> {
        bytes::u64s_bytes(self.words())
    }

    /// What the leading bytes of `value` say.
    pub open spec fn read(value: Seq<u8>) -> Self {
        GraphMetadata {
            num_pts: bytes::u64_at(value, 0),
            dims: bytes::u64_at(value, 8) as usize,
            medoid: bytes::u64_at(value, 16),
            node_len: bytes::u64_at(value, 24),
            num_nodes_per_block: bytes::u64_at(value, 32),
            vamana_frozen_num: bytes::u64_at(value, 40),
            vamana_frozen_loc: bytes::u64_at(value, 48),
            layout_fingerprint: fingerprint_of(bytes::u64_at(value, 56)),
            disk_index_file_size: bytes::u64_at(value, 64),
            associated_data_length: bytes::u64_at(value, 72) as usize,
        }
    }

    /// Create a new `GraphMetadata` object.
    pub fn new(
        num_pts: u64,
        dims: usize,
        medoid: u64,
        node_len: u64,
        num_nodes_per_sector: u64,
        vamana_frozen_num: u64,
        vamana_frozen_loc: u64,
        disk_index_file_size: u64,
        data_size: usize,
    ) -> (metadata: Self)
        ensures
            metadata == (GraphMetadata {
                num_pts,
                dims,
                medoid,
                node_len,
                num_nodes_per_block: num_nodes_per_sector,
                vamana_frozen_num,
                vamana_frozen_loc,
                layout_fingerprint: None,
                disk_index_file_size,
                associated_data_length: data_size,
            }),
            metadata.wf(),
    {
        GraphMetadata {
            num_pts,
            dims,
            medoid,
            node_len,
            num_nodes_per_block: num_nodes_per_sector,
            vamana_frozen_num,
            vamana_frozen_loc,
            layout_fingerprint: None,
            disk_index_file_size,
            associated_data_length: data_size,
        }
    }

    /// Return the graph-aware physical-layout sidecar fingerprint, if present.
    pub fn layout_fingerprint(&self) -> (fingerprint: Option<LayoutFingerprint>)
        ensures
            fingerprint == self.layout_fingerprint,
    {
        self.layout_fingerprint
    }

    /// Set the graph-aware physical-layout sidecar fingerprint.
    pub fn set_layout_fingerprint(&mut self, fingerprint: LayoutFingerprint)
        ensures
            *final(self) == (GraphMetadata { layout_fingerprint: Some(fingerprint), ..*old(self) }),
            final(self).wf(),
    {
        let _value: u64 = fingerprint.get();
        self.layout_fingerprint = Some(fingerprint);
    }

    /// Serialize the `GraphMetadata` object to a byte vector.
    ///
    /// Layout:
    /// |number_of_points (8 bytes)| dimensions (8 bytes) | medoid (8 bytes) | node_len (8 bytes) | num_nodes_per_sector (8 bytes) | vamana_frozen_point_num (8 bytes) |
    /// ...| vamana_frozen_loc (8 bytes) | append_reorder_data (8 bytes) | disk_index_file_size (8 bytes) | associated_data_length (8 bytes) |
    /// `append_reorder_data` is zero for legacy layouts and is the layout fingerprint in 1.1.
    pub fn to_bytes(&self) -> (result: Result<Vec<u8>, ParseSliceError>)
        ensures
            result is Ok,
            result->Ok_0@ == self.spec_bytes(),
            result->Ok_0@.len() == 80,
    {
        let fingerprint: u64 = match self.layout_fingerprint {
            Some(fingerprint) => fingerprint.get(),
            None => 0,
        };
        let words: [u64; 10] = [
            self.num_pts,
            self.dims as u64,
            self.medoid,
            self.node_len,
            self.num_nodes_per_block,
            self.vamana_frozen_num,
            self.vamana_frozen_loc,
            fingerprint,
            self.disk_index_file_size,
            self.associated_data_length as u64,
        ];
        let mut buffer: Vec<u8> = Vec::new();
        bytes::append_u64s(&mut buffer, &words);
        proof {
            assert(words@ =~= self.words());
            bytes::lemma_u64s_bytes(self.words());
            assert(buffer@ =~= self.spec_bytes());
        }
        Ok(buffer)
    }

    /// Size of the metadata after serialization.
    pub fn get_size() -> (size: usize)
        ensures
            size == 80,
    {
        80
    }

    /// Read a `GraphMetadata` object from the front of a byte slice, in the
    /// layout that `to_bytes` writes. Bytes past the tenth word are not looked at.
    pub fn try_from(value: &[u8]) -> (result: Result<Self, ParseSliceError>)
        ensures
            match result {
                Ok(metadata) => value@.len() >= 80 && metadata == Self::read(
                    value@,
                ),
                Err(error) => value@.len() < 80 && error == (ParseSliceError {
                    actual: value@.len() as usize,
                    required: 80,
                }),
            },
    {
        if value.len() < Self::get_size() {
            return Err(ParseSliceError { actual: value.len(), required: Self::get_size() });
        }
        let layout_fingerprint = LayoutFingerprint::new(bytes::read_u64_at(value, 56));
        Ok(
            GraphMetadata {
                num_pts: bytes::read_u64_at(value, 0),
                dims: bytes::read_u64_at(value, 8) as usize,
                medoid: bytes::read_u64_at(value, 16),
                node_len: bytes::read_u64_at(value, 24),
                num_nodes_per_block: bytes::read_u64_at(value, 32),
                vamana_frozen_num: bytes::read_u64_at(value, 40),
                vamana_frozen_loc: bytes::read_u64_at(value, 48),
                layout_fingerprint,
                disk_index_file_size: bytes::read_u64_at(value, 64),
                associated_data_length: bytes::read_u64_at(value, 72) as usize,
            },
        )
    }

    /// The serialized form is ten words long and reads back as the metadata it
    /// was made of, whatever follows it.
    pub proof fn lemma_round_trip(self, tail: Seq<u8>)
        ensures
            self.spec_bytes().len() == 80,
            self.wf() ==> Self::read(self.spec_bytes() + tail) == self,
    {
        broadcast use LayoutFingerprint::lemma_of_view;

        let words = self.words();
        let all = self.spec_bytes() + tail;
        bytes::lemma_u64s_bytes(words);
        assert forall|i: int| 0 <= i < 10 implies bytes::u64_at(all, 8 * i) == #[trigger] words[i] by {
            assert(all.subrange(8 * i, 8 * i + 8) =~= self.spec_bytes().subrange(8 * i, 8 * i + 8));
            bytes::lemma_u64_at_written(all, 8 * i, words[i]);
        }
        assert(words[0] == self.num_pts);
        assert(words[1] == self.dims as u64);
        assert(words[2] == self.medoid);
        assert(words[3] == self.node_len);
        assert(words[4] == self.num_nodes_per_block);
        assert(words[5] == self.vamana_frozen_num);
        assert(words[6] == self.vamana_frozen_loc);
        assert(words[7] == fingerprint_word(self.layout_fingerprint));
        assert(words[8] == self.disk_index_file_size);
        assert(words[9] == self.associated_data_length as u64);
    }
}

} // verus!
