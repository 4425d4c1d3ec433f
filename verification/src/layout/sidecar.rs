//! The sidecar that maps the logical nodes of an index to physical slots.
use crate::bytes;
use crate::data_model::GraphHeader;
use crate::data_model::GraphLayoutVersion;
use crate::data_model::LayoutFingerprint;
use crate::digest;
use crate::layout::error::InvalidLayout;
use crate::layout::error::LayoutError;
use crate::layout::fields;
use crate::layout::fields::StructuralFields;
use std::sync::Arc;
use vstd::prelude::*;

verus! {

/// Bytes of a sidecar before its mapping.
pub const FIXED_SIZE: u64 = 160;

/// Version of the sidecar format.
pub const FORMAT_VERSION: u32 = 1;

/// The bytes a sidecar starts with: `DNLYT001`.
pub open spec fn magic() -> Seq<u8> {
    seq![0x44u8, 0x4e, 0x4c, 0x59, 0x54, 0x30, 0x30, 0x31]
}

/// The text a binding digest starts from:
/// `DiskANN graph-aware physical layout binding v1`.
pub open spec fn binding_label() -> Seq<u8> {
    seq![
        0x44u8, 0x69, 0x73, 0x6b, 0x41, 0x4e, 0x4e, 0x20, 0x67, 0x72, 0x61, 0x70, 0x68, 0x2d, 0x61,
        0x77, 0x61, 0x72, 0x65, 0x20, 0x70, 0x68, 0x79, 0x73, 0x69, 0x63, 0x61, 0x6c, 0x20, 0x6c,
        0x61, 0x79, 0x6f, 0x75, 0x74, 0x20, 0x62, 0x69, 0x6e, 0x64, 0x69, 0x6e, 0x67, 0x20, 0x76,
        0x31,
    ]
}

/// Immutable logical-to-physical slot mapping.
#[derive(Debug)]
pub struct PhysicalLayout {
    logical_to_physical: Vec<u32>,
    fingerprint: LayoutFingerprint,
}

impl View for PhysicalLayout {
    type V = Seq<u32>;

    closed spec fn view(&self) -> Seq<u32> {
        self.logical_to_physical@
    }
}

impl Clone for PhysicalLayout {
    fn clone(&self) -> (copy: Self)
        ensures
            copy@ == self@,
            copy.spec_fingerprint() == self.spec_fingerprint(),
    {
        proof {
            use_type_invariant(self);
        }
        PhysicalLayout {
            logical_to_physical: self.logical_to_physical.clone(),
            fingerprint: self.fingerprint,
        }
    }
}

impl PhysicalLayout {
    /// The bytes of the mapping can be counted.
    #[verifier::type_invariant]
    spec fn is_countable(self) -> bool {
        self.logical_to_physical@.len() * 4 <= usize::MAX
    }

    /// The fingerprint of the index that the mapping belongs to.
    pub closed spec fn spec_fingerprint(&self) -> LayoutFingerprint {
        self.fingerprint
    }

    /// The layout of a mapping.
    pub fn from_mapping(mapping: Vec<u32>, fingerprint: LayoutFingerprint) -> (layout: Self)
        requires
            mapping@.len() * 4 <= usize::MAX,
        ensures
            layout@ == mapping@,
            layout.spec_fingerprint() == fingerprint,
    {
        PhysicalLayout { logical_to_physical: mapping, fingerprint }
    }

    /// Return the physical record slot for a logical node ID.
    pub fn physical_slot(&self, logical_id: u32) -> (slot: Option<u32>)
        ensures
            slot == if logical_id < self@.len() {
                Some(self@[logical_id as int])
            } else {
                None::<u32>
            },
    {
        let at: usize = logical_id as usize;
        if at < self.logical_to_physical.len() {
            Some(self.logical_to_physical[at])
        } else {
            None
        }
    }

    pub fn len(&self) -> (length: usize)
        ensures
            length == self@.len(),
    {
        self.logical_to_physical.len()
    }

    pub fn is_empty(&self) -> (empty: bool)
        ensures
            empty == (self@.len() == 0),
    {
        self.logical_to_physical.len() == 0
    }

    /// Heap bytes occupied by the mapping.
    pub fn memory_bytes(&self) -> (size: usize)
        ensures
            size == self@.len() * 4,
    {
        proof {
            use_type_invariant(self);
        }
        self.logical_to_physical.len() * 4
    }

    pub fn fingerprint(&self) -> (fingerprint: LayoutFingerprint)
        ensures
            fingerprint == self.spec_fingerprint(),
    {
        self.fingerprint
    }

    pub fn mapping(&self) -> (mapping: &[u32])
        ensures
            mapping@ == self@,
    {
        self.logical_to_physical.as_slice()
    }
}

/// Return `<index>.layout`.
pub fn default_sidecar_path(index_path: &str) -> (path: String)
    ensures
        path@ == index_path@ + ".layout"@,
{
    let mut path = index_path.to_owned();
    path.append(".layout");
    path
}

/// What is wrong with entry `logical`, the entries before it being right.
pub open spec fn entry_fault(mapping: Seq<u32>, logical: int) -> Option<InvalidLayout> {
    if mapping[logical] >= mapping.len() {
        Some(InvalidLayout::SlotOutOfRange { physical: mapping[logical], logical: logical as u32 })
    } else if exists|earlier: int|
        0 <= earlier < logical && #[trigger] mapping[earlier] == mapping[logical] {
        Some(InvalidLayout::SlotRepeated { physical: mapping[logical] })
    } else {
        None
    }
}

/// The first fault among the first `count` entries.
pub open spec fn entries_fault(mapping: Seq<u32>, count: nat) -> Option<InvalidLayout>
    decreases count,
{
    if count == 0 {
        None
    } else {
        match entries_fault(mapping, (count - 1) as nat) {
            Some(fault) => Some(fault),
            None => entry_fault(mapping, count - 1),
        }
    }
}

/// Why `mapping` does not send `num_points` nodes to as many slots, one to one.
pub open spec fn mapping_fault(mapping: Seq<u32>, num_points: u64) -> Option<InvalidLayout> {
    if num_points > u32::MAX {
        Some(InvalidLayout::TooManyPoints)
    } else if mapping.len() != num_points {
        Some(
            InvalidLayout::MappingLength { actual: mapping.len() as u64, expected: num_points },
        )
    } else {
        entries_fault(mapping, mapping.len())
    }
}

/// `mapping` is a bijection of `0..mapping.len()`.
pub open spec fn is_bijection(mapping: Seq<u32>) -> bool {
    &&& forall|i: int| 0 <= i < mapping.len() ==> #[trigger] mapping[i] < mapping.len()
    &&& mapping.no_duplicates()
}

/// A prefix of a mapping is free of faults exactly if its slots are in range and
/// distinct.
proof fn lemma_entries_fault(mapping: Seq<u32>, count: nat)
    requires
        count <= mapping.len(),
    ensures
        entries_fault(mapping, count) is None <==> {
            &&& forall|i: int| 0 <= i < count ==> #[trigger] mapping[i] < mapping.len()
            &&& forall|i: int, j: int| 0 <= i < j < count ==> mapping[i] != mapping[j]
        },
    decreases count,
{
    if count > 0 {
        lemma_entries_fault(mapping, (count - 1) as nat);
        let last = count - 1;
        if entries_fault(mapping, count) is None {
            assert forall|i: int, j: int| 0 <= i < j < count implies mapping[i] != mapping[j] by {
                if j == last {
                    assert(!(0 <= i < last && mapping[i] == mapping[last]));
                }
            }
        }
        if entry_fault(mapping, last) is Some && mapping[last] < mapping.len() {
            let earlier = choose|earlier: int|
                0 <= earlier < last && #[trigger] mapping[earlier] == mapping[last];
            assert(mapping[earlier] == mapping[last]);
        }
    }
}

/// A mapping is accepted exactly if it sends the nodes to slots one to one.
pub proof fn lemma_accepted_mapping_is_bijection(mapping: Seq<u32>, num_points: u64)
    ensures
        mapping_fault(mapping, num_points) is None <==> num_points <= u32::MAX && mapping.len()
            == num_points && is_bijection(mapping),
{
    lemma_entries_fault(mapping, mapping.len());
    if mapping_fault(mapping, num_points) is None {
        assert forall|i: int, j: int|
            0 <= i < mapping.len() && 0 <= j < mapping.len() && i != j implies mapping[i]
            != mapping[j] by {
            if j < i {
                assert(mapping[j] != mapping[i]);
            }
        }
    }
}

/// A bijection gives every slot to a node.
pub proof fn lemma_bijection_fills_slots(mapping: Seq<u32>, slot: u32)
    requires
        is_bijection(mapping),
        slot < mapping.len(),
    ensures
        mapping.contains(slot),
{
    let slots = mapping.map_values(|slot: u32| slot as int);
    assert(slots.no_duplicates());
    slots.unique_seq_to_set();
    let range = vstd::set_lib::set_int_range(0, mapping.len() as int);
    vstd::set_lib::lemma_int_range(0, mapping.len() as int);
    assert forall|value: int| slots.to_set().contains(value) implies range.contains(value) by {
        let at = choose|at: int| 0 <= at < slots.len() && slots[at] == value;
        assert(mapping[at] < mapping.len());
    }
    vstd::set_lib::lemma_subset_equality(slots.to_set(), range);
    assert(range.contains(slot as int));
    let at = choose|at: int| 0 <= at < slots.len() && slots[at] == slot as int;
    assert(mapping[at] == slot);
}

/// Checks that `mapping` sends `num_points` nodes to slots one to one.
pub fn validate_mapping(mapping: &[u32], num_points: u64) -> (result: Result<(), LayoutError>)
    ensures
        result == crate::layout::error::checked(mapping_fault(mapping@, num_points)),
{
    if num_points > u32::MAX as u64 {
        return Err(LayoutError::Invalid(InvalidLayout::TooManyPoints));
    }
    let count: usize = mapping.len();
    if count as u64 != num_points {
        return Err(
            LayoutError::Invalid(
                InvalidLayout::MappingLength { actual: count as u64, expected: num_points },
            ),
        );
    }
    let mut seen: Vec<bool> = vec![false; count];
    let mut logical: usize = 0;
    while logical < count
        invariant
            count == mapping@.len(),
            count == num_points,
            num_points <= u32::MAX,
            logical <= count,
            seen@.len() == count,
            entries_fault(mapping@, logical as nat) is None,
            forall|slot: int|
                0 <= slot < count ==> (#[trigger] seen@[slot] <==> exists|earlier: int|
                    0 <= earlier < logical && #[trigger] mapping@[earlier] == slot),
        decreases count - logical,
    {
        let physical: u32 = mapping[logical];
        let slot: usize = physical as usize;
        if slot >= count {
            proof {
                lemma_first_fault(mapping@, logical as int);
            }
            return Err(
                LayoutError::Invalid(
                    InvalidLayout::SlotOutOfRange { physical, logical: logical as u32 },
                ),
            );
        }
        if seen[slot] {
            proof {
                lemma_first_fault(mapping@, logical as int);
            }
            return Err(LayoutError::Invalid(InvalidLayout::SlotRepeated { physical }));
        }
        let ghost before = seen@;
        seen[slot] = true;
        proof {
            assert forall|other: int| 0 <= other < count implies (#[trigger] seen@[other]
                <==> exists|earlier: int|
                0 <= earlier < logical + 1 && #[trigger] mapping@[earlier] == other) by {
                if other == slot {
                    assert(mapping@[logical as int] == other);
                } else {
                    assert(seen@[other] == before[other]);
                    if before[other] {
                        let earlier = choose|earlier: int|
                            0 <= earlier < logical && #[trigger] mapping@[earlier] == other;
                        assert(mapping@[earlier] == other);
                    }
                }
            }
        }
        logical += 1;
    }
    Ok(())
}

/// The first faulty entry gives the fault of the whole mapping.
proof fn lemma_first_fault(mapping: Seq<u32>, logical: int)
    requires
        0 <= logical < mapping.len(),
        entries_fault(mapping, logical as nat) is None,
        entry_fault(mapping, logical) is Some,
    ensures
        entries_fault(mapping, mapping.len()) == entry_fault(mapping, logical),
{
    lemma_later_entries(mapping, logical, mapping.len());
}

proof fn lemma_later_entries(mapping: Seq<u32>, logical: int, count: nat)
    requires
        0 <= logical < count <= mapping.len(),
        entries_fault(mapping, logical as nat) is None,
        entry_fault(mapping, logical) is Some,
    ensures
        entries_fault(mapping, count) == entry_fault(mapping, logical),
    decreases count,
{
    if count > logical + 1 {
        lemma_later_entries(mapping, logical, (count - 1) as nat);
    }
}

/// The bytes whose digest is the checksum of a mapping.
pub fn mapping_bytes_digest(mapping: &[u32]) -> (checksum: [u8; 32])
    ensures
        checksum@ == digest::sha256(bytes::u32s_bytes(mapping@)),
{
    let mut message: Vec<u8> = Vec::new();
    bytes::append_u32s(&mut message, mapping);
    assert(message@ =~= bytes::u32s_bytes(mapping@));
    digest::sha256_digest(message.as_slice())
}

/// The bytes whose digest binds a mapping to the index it was made for.
pub open spec fn binding_message(
    source_digest: Seq<u8>,
    fields: StructuralFields,
    mapping: Seq<u32>,
) -> Seq<u8> {
    binding_label() + source_digest + bytes::u64s_bytes(fields.words()) + bytes::u32s_bytes(mapping)
}

/// The digest that binds a mapping to the index it was made for.
pub fn binding_digest(
    source_digest: &[u8; 32],
    fields: &StructuralFields,
    mapping: &[u32],
) -> (binding: [u8; 32])
    ensures
        binding@ == digest::sha256(binding_message(source_digest@, *fields, mapping@)),
{
    let label: [u8; 46] = [
        0x44, 0x69, 0x73, 0x6b, 0x41, 0x4e, 0x4e, 0x20, 0x67, 0x72, 0x61, 0x70, 0x68, 0x2d, 0x61,
        0x77, 0x61, 0x72, 0x65, 0x20, 0x70, 0x68, 0x79, 0x73, 0x69, 0x63, 0x61, 0x6c, 0x20, 0x6c,
        0x61, 0x79, 0x6f, 0x75, 0x74, 0x20, 0x62, 0x69, 0x6e, 0x64, 0x69, 0x6e, 0x67, 0x20, 0x76,
        0x31,
    ];
    let mut message: Vec<u8> = Vec::new();
    bytes::append_bytes(&mut message, &label);
    bytes::append_bytes(&mut message, source_digest);
    fields.append_words(&mut message);
    bytes::append_u32s(&mut message, mapping);
    assert(label@ =~= binding_label());
    assert(message@ =~= binding_message(source_digest@, *fields, mapping@));
    digest::sha256_digest(message.as_slice())
}

/// The number that the first eight bytes of a digest give.
pub open spec fn fingerprint_prefix(binding: Seq<u8>) -> u64 {
    bytes::u64_at(binding, 0)
}

/// The fingerprint that a binding digest gives: its first eight bytes, unless
/// they are all zero.
pub fn digest_fingerprint(binding: &[u8; 32]) -> (result: Result<LayoutFingerprint, LayoutError>)
    ensures
        result == if fingerprint_prefix(binding@) == 0 {
            Err::<LayoutFingerprint, LayoutError>(LayoutError::Invalid(InvalidLayout::ZeroFingerprint))
        } else {
            Ok(LayoutFingerprint::of(fingerprint_prefix(binding@)))
        },
{
    match LayoutFingerprint::new(bytes::read_u64_at(binding, 0)) {
        Some(fingerprint) => Ok(fingerprint),
        None => Err(LayoutError::Invalid(InvalidLayout::ZeroFingerprint)),
    }
}

/// What a sidecar must hold to belong to an index.
#[derive(Debug, Clone, Copy)]
pub struct SidecarRequirement {
    pub fields: StructuralFields,
    pub fingerprint: LayoutFingerprint,
    pub length: u64,
}

/// What an index says of its sidecar: nothing (a legacy layout), what the
/// sidecar must hold, or why the index itself is rejected.
pub open spec fn requirement_of(
    index: Seq<u8>,
    index_len: u64,
) -> Result<Option<SidecarRequirement>, LayoutError> {
    let header = fields::header_of(index);
    let version = header.layout_version;
    let structure = fields::fields_of(header, index_len);
    if fields::header_truncated(index, index_len) {
        Err(LayoutError::Invalid(InvalidLayout::HeaderTruncated))
    } else if version != GraphLayoutVersion::spec_graph_aware() {
        if version.major_version == 0 || version == GraphLayoutVersion::spec_current() {
            Ok(None)
        } else {
            Err(
                LayoutError::Invalid(
                    InvalidLayout::UnsupportedVersion {
                        major: version.major_version,
                        minor: version.minor_version,
                    },
                ),
            )
        }
    } else if header.metadata.layout_fingerprint is None {
        Err(LayoutError::Invalid(InvalidLayout::MissingFingerprint))
    } else if structure.geometry_fault() is Some {
        Err(LayoutError::Invalid(structure.geometry_fault()->0))
    } else if index_len != structure.described_len() || header.metadata.disk_index_file_size
        != index_len {
        Err(LayoutError::Invalid(InvalidLayout::IndexGeometry))
    } else if FIXED_SIZE + structure.num_points * 4 > u64::MAX {
        Err(LayoutError::Invalid(InvalidLayout::SidecarLengthOverflow))
    } else {
        Ok(
            Some(
                SidecarRequirement {
                    fields: structure,
                    fingerprint: header.metadata.layout_fingerprint->0,
                    length: (FIXED_SIZE + structure.num_points * 4) as u64,
                },
            ),
        )
    }
}

/// Tells from the first bytes of an index which sidecar it needs, if any.
pub fn sidecar_requirement(index: &[u8], index_len: u64) -> (result: Result<
    Option<SidecarRequirement>,
    LayoutError,
>)
    ensures
        result == requirement_of(index@, index_len),
{
    let header = match fields::read_index_header(index, index_len) {
        Ok(header) => header,
        Err(error) => {
            return Err(error);
        },
    };
    let version: GraphLayoutVersion = *header.layout_version();
    if version != GraphHeader::graph_aware_layout_version() {
        if version.major_version == 0 || version == GraphHeader::current_layout_version() {
            return Ok(None);
        }
        return Err(
            LayoutError::Invalid(
                InvalidLayout::UnsupportedVersion {
                    major: version.major_version,
                    minor: version.minor_version,
                },
            ),
        );
    }
    let fingerprint = match header.metadata().layout_fingerprint() {
        Some(fingerprint) => fingerprint,
        None => {
            return Err(LayoutError::Invalid(InvalidLayout::MissingFingerprint));
        },
    };
    let structure = StructuralFields::from_header(&header, index_len);
    let described: u64 = match fields::expected_index_len(&structure) {
        Ok(described) => described,
        Err(error) => {
            return Err(error);
        },
    };
    if index_len != described || header.metadata().disk_index_file_size != index_len {
        return Err(LayoutError::Invalid(InvalidLayout::IndexGeometry));
    }
    let mapping_len: u64 = match structure.num_points.checked_mul(4) {
        Some(length) => length,
        None => {
            return Err(LayoutError::Invalid(InvalidLayout::SidecarLengthOverflow));
        },
    };
    match FIXED_SIZE.checked_add(mapping_len) {
        Some(length) => Ok(Some(SidecarRequirement { fields: structure, fingerprint, length })),
        None => Err(LayoutError::Invalid(InvalidLayout::SidecarLengthOverflow)),
    }
}

/// The structural words that a sidecar holds, in order.
pub open spec fn sidecar_words(fields: StructuralFields, fingerprint: u64) -> Seq<u64> {
    seq![
        fields.num_points,
        fields.node_len,
        fields.block_size,
        fields.nodes_per_block,
        fields.index_len,
        fingerprint,
    ]
}

/// The mapping of `count` entries that a sidecar holds.
pub open spec fn stored_mapping(sidecar: Seq<u8>, count: nat) -> Seq<u32> {
    Seq::new(count, |i: int| bytes::u32_at(sidecar, FIXED_SIZE + 4 * i))
}

/// Why the bytes of a sidecar do not meet a requirement, its digests apart.
pub open spec fn sidecar_fault(requirement: SidecarRequirement, sidecar: Seq<u8>) -> Option<
    InvalidLayout,
> {
    if sidecar.len() != requirement.length {
        Some(
            InvalidLayout::SidecarLength {
                actual: sidecar.len() as u64,
                expected: requirement.length,
            },
        )
    } else if sidecar.subrange(0, 8) != magic() || bytes::u32_at(sidecar, 8) != FORMAT_VERSION
        || bytes::u32_at(sidecar, 12) != 0 {
        Some(InvalidLayout::SidecarHeader)
    } else if Seq::new(6, |i: int| bytes::u64_at(sidecar, 16 + 8 * i)) != sidecar_words(
        requirement.fields,
        requirement.fingerprint@,
    ) {
        Some(InvalidLayout::SidecarFields)
    } else {
        mapping_fault(
            stored_mapping(sidecar, requirement.fields.num_points as nat),
            requirement.fields.num_points,
        )
    }
}

/// The digests and the mapping of a sidecar.
#[derive(Debug)]
pub struct StoredSidecar {
    pub source_digest: [u8; 32],
    pub binding_digest: [u8; 32],
    pub checksum: [u8; 32],
    pub mapping: Vec<u32>,
}

/// Copies the 32 bytes at `offset`.
fn read_digest(sidecar: &[u8], offset: usize) -> (value: [u8; 32])
    requires
        offset + 32 <= sidecar@.len(),
    ensures
        value@ == sidecar@.subrange(offset as int, offset + 32),
{
    assert(offset + 32 <= sidecar.len());
    let mut value: [u8; 32] = [0; 32];
    let mut at: usize = 0;
    while at < 32
        invariant
            at <= 32,
            offset + 32 <= sidecar@.len(),
            sidecar@.len() <= usize::MAX,
            forall|i: int| 0 <= i < at ==> value@[i] == sidecar@[offset + i],
        decreases 32 - at,
    {
        value[at] = sidecar[offset + at];
        at += 1;
    }
    assert(value@ =~= sidecar@.subrange(offset as int, offset + 32));
    value
}

/// Reads the digests and the mapping of a sidecar that meets the requirement.
pub fn parse_sidecar(requirement: &SidecarRequirement, sidecar: &[u8]) -> (result: Result<
    StoredSidecar,
    LayoutError,
>)
    requires
        requirement.length == FIXED_SIZE + requirement.fields.num_points * 4,
    ensures
        match result {
            Ok(stored) => {
                &&& sidecar_fault(*requirement, sidecar@) is None
                &&& stored.source_digest@ == sidecar@.subrange(64, 96)
                &&& stored.binding_digest@ == sidecar@.subrange(96, 128)
                &&& stored.checksum@ == sidecar@.subrange(128, 160)
                &&& stored.mapping@ == stored_mapping(
                    sidecar@,
                    requirement.fields.num_points as nat,
                )
            },
            Err(error) => {
                &&& sidecar_fault(*requirement, sidecar@) is Some
                &&& error == LayoutError::Invalid(sidecar_fault(*requirement, sidecar@)->0)
            },
        },
{
    let actual: u64 = sidecar.len() as u64;
    if actual != requirement.length {
        return Err(
            LayoutError::Invalid(
                InvalidLayout::SidecarLength { actual, expected: requirement.length },
            ),
        );
    }
    let expected_magic: [u8; 8] = [0x44, 0x4e, 0x4c, 0x59, 0x54, 0x30, 0x30, 0x31];
    assert(expected_magic@ =~= magic());
    if !bytes::bytes_equal(vstd::slice::slice_subrange(sidecar, 0, 8), &expected_magic)
        || bytes::read_u32_at(sidecar, 8) != FORMAT_VERSION || bytes::read_u32_at(sidecar, 12)
        != 0 {
        return Err(LayoutError::Invalid(InvalidLayout::SidecarHeader));
    }
    let stored_fields = requirement.fields;
    let ghost stored = Seq::new(6, |i: int| bytes::u64_at(sidecar@, 16 + 8 * i));
    let ghost expected = sidecar_words(stored_fields, requirement.fingerprint@);
    if bytes::read_u64_at(sidecar, 16) != stored_fields.num_points || bytes::read_u64_at(
        sidecar,
        24,
    ) != stored_fields.node_len || bytes::read_u64_at(sidecar, 32) != stored_fields.block_size
        || bytes::read_u64_at(sidecar, 40) != stored_fields.nodes_per_block || bytes::read_u64_at(
        sidecar,
        48,
    ) != stored_fields.index_len || bytes::read_u64_at(sidecar, 56)
        != requirement.fingerprint.get() {
        proof {
            if stored == expected {
                assert(stored[0] == expected[0] && stored[1] == expected[1] && stored[2]
                    == expected[2] && stored[3] == expected[3] && stored[4] == expected[4]
                    && stored[5] == expected[5]);
            }
        }
        return Err(LayoutError::Invalid(InvalidLayout::SidecarFields));
    }
    assert(stored =~= expected);
    let ghost count = requirement.fields.num_points as nat;
    let mut mapping: Vec<u32> = Vec::new();
    let mut offset: usize = 160;
    while offset < sidecar.len()
        invariant
            sidecar@.len() == FIXED_SIZE + 4 * count,
            sidecar@.len() <= usize::MAX,
            offset == 160 + 4 * mapping@.len(),
            offset <= sidecar@.len(),
            mapping@.len() <= count,
            mapping@ == stored_mapping(sidecar@, count).take(mapping@.len() as int),
        decreases sidecar@.len() - offset,
    {
        let ghost before = mapping@;
        mapping.push(bytes::read_u32_at(sidecar, offset));
        proof {
            let all = stored_mapping(sidecar@, count);
            assert(all.take((before.len() + 1) as int) =~= all.take(before.len() as int).push(
                all[before.len() as int],
            ));
        }
        offset += 4;
    }
    assert(mapping@ =~= stored_mapping(sidecar@, count));
    match validate_mapping(mapping.as_slice(), requirement.fields.num_points) {
        Ok(()) => Ok(
            StoredSidecar {
                source_digest: read_digest(sidecar, 64),
                binding_digest: read_digest(sidecar, 96),
                checksum: read_digest(sidecar, 128),
                mapping,
            },
        ),
        Err(error) => Err(error),
    }
}

/// Why the digests of a sidecar do not stand for its mapping, given the checksum
/// and the binding digest computed from it.
pub open spec fn digest_fault(
    fingerprint: LayoutFingerprint,
    stored_checksum: Seq<u8>,
    stored_binding: Seq<u8>,
    checksum: Seq<u8>,
    binding: Seq<u8>,
) -> Option<InvalidLayout> {
    if checksum != stored_checksum {
        Some(InvalidLayout::SidecarChecksum)
    } else if binding != stored_binding {
        Some(InvalidLayout::SidecarBinding)
    } else if fingerprint_prefix(binding) == 0 {
        Some(InvalidLayout::ZeroFingerprint)
    } else if fingerprint_prefix(binding) != fingerprint@ {
        Some(InvalidLayout::SidecarBinding)
    } else {
        None
    }
}

/// Accepts a sidecar whose digests match those computed from its mapping.
pub fn accept_sidecar(
    fingerprint: LayoutFingerprint,
    stored: StoredSidecar,
    checksum: &[u8; 32],
    binding: &[u8; 32],
) -> (result: Result<PhysicalLayout, LayoutError>)
    requires
        stored.mapping@.len() * 4 <= usize::MAX,
    ensures
        ({
            let fault = digest_fault(
                fingerprint,
                stored.checksum@,
                stored.binding_digest@,
                checksum@,
                binding@,
            );
            match result {
                Ok(layout) => fault is None && layout@ == stored.mapping@
                    && layout.spec_fingerprint() == fingerprint,
                Err(error) => fault is Some && error == LayoutError::Invalid(fault->0),
            }
        }),
{
    if !bytes::bytes_equal(checksum, &stored.checksum) {
        return Err(LayoutError::Invalid(InvalidLayout::SidecarChecksum));
    }
    if !bytes::bytes_equal(binding, &stored.binding_digest) {
        return Err(LayoutError::Invalid(InvalidLayout::SidecarBinding));
    }
    match digest_fingerprint(binding) {
        Ok(computed) => {
            proof {
                LayoutFingerprint::lemma_view_of(fingerprint_prefix(binding@));
                computed.lemma_of_view();
                fingerprint.lemma_of_view();
            }
            if computed.get() != fingerprint.get() {
                return Err(LayoutError::Invalid(InvalidLayout::SidecarBinding));
            }
            Ok(PhysicalLayout::from_mapping(stored.mapping, fingerprint))
        },
        Err(error) => Err(error),
    }
}

/// What loading an index and its sidecar comes to: no layout (a legacy index),
/// a mapping with its fingerprint, or the error.
pub open spec fn load_outcome(index: Seq<u8>, index_len: u64, sidecar: Seq<u8>) -> Result<
    Option<(Seq<u32>, LayoutFingerprint)>,
    LayoutError,
> {
    match requirement_of(index, index_len) {
        Err(error) => Err(error),
        Ok(None) => Ok(None),
        Ok(Some(requirement)) => {
            let mapping = stored_mapping(sidecar, requirement.fields.num_points as nat);
            let digests = digest_fault(
                requirement.fingerprint,
                sidecar.subrange(128, 160),
                sidecar.subrange(96, 128),
                digest::sha256(bytes::u32s_bytes(mapping)),
                digest::sha256(
                    binding_message(sidecar.subrange(64, 96), requirement.fields, mapping),
                ),
            );
            if sidecar_fault(requirement, sidecar) is Some {
                Err(LayoutError::Invalid(sidecar_fault(requirement, sidecar)->0))
            } else if digests is Some {
                Err(LayoutError::Invalid(digests->0))
            } else {
                Ok(Some((mapping, requirement.fingerprint)))
            }
        },
    }
}

/// A layout that loads sends the nodes of its index to slots one to one, and belongs to
/// a header with its fingerprint.
pub proof fn lemma_loaded_layout_is_bijection(
    index: Seq<u8>,
    index_len: u64,
    sidecar: Seq<u8>,
    mapping: Seq<u32>,
    fingerprint: LayoutFingerprint,
)
    requires
        load_outcome(index, index_len, sidecar) == Ok::<_, LayoutError>(
            Some((mapping, fingerprint)),
        ),
    ensures
        is_bijection(mapping),
        mapping.len() == fields::header_of(index).metadata.num_pts,
        fields::header_of(index).metadata.layout_fingerprint == Some(fingerprint),
{
    lemma_accepted_mapping_is_bijection(mapping, fields::header_of(index).metadata.num_pts);
}

/// The bytes whose digest binds the mapping of a sidecar to an index with the given header.
pub open spec fn stored_message(index: Seq<u8>, index_len: u64, sidecar: Seq<u8>) -> Seq<u8> {
    let structure = fields::fields_of(fields::header_of(index), index_len);
    binding_message(
        sidecar.subrange(64, 96),
        structure,
        stored_mapping(sidecar, structure.num_points as nat),
    )
}

/// The digests of two messages do not share their first eight bytes, unless the messages
/// are one.
pub open spec fn no_collision(left: Seq<u8>, right: Seq<u8>) -> bool {
    left != right ==> fingerprint_prefix(digest::sha256(left)) != fingerprint_prefix(
        digest::sha256(right),
    )
}

/// An index loads with no more than one sidecar, byte for byte, as long as the binding
/// digests of two sidecars do not collide in the part that the index header holds.
pub proof fn lemma_one_sidecar_loads(
    index: Seq<u8>,
    index_len: u64,
    left: Seq<u8>,
    right: Seq<u8>,
)
    requires
        load_outcome(index, index_len, left) is Ok,
        load_outcome(index, index_len, left)->Ok_0 is Some,
        load_outcome(index, index_len, right) is Ok,
        load_outcome(index, index_len, right)->Ok_0 is Some,
        no_collision(
            stored_message(index, index_len, left),
            stored_message(index, index_len, right),
        ),
    ensures
        left == right,
{
    let requirement = requirement_of(index, index_len)->Ok_0->0;
    let count = requirement.fields.num_points as nat;
    let left_mapping = stored_mapping(left, count);
    let right_mapping = stored_mapping(right, count);
    let left_message = stored_message(index, index_len, left);
    let right_message = stored_message(index, index_len, right);
    assert(left.len() == 160 + 4 * count && right.len() == 160 + 4 * count);
    assert(left_message == right_message);
    bytes::lemma_u64s_bytes(requirement.fields.words());
    bytes::lemma_u32s_bytes(left_mapping);
    bytes::lemma_u32s_bytes(right_mapping);
    let words = bytes::u64s_bytes(requirement.fields.words());
    assert(binding_label().len() == 46 && words.len() == 64);
    assert(left_message.subrange(46, 78) =~= left.subrange(64, 96));
    assert(right_message.subrange(46, 78) =~= right.subrange(64, 96));
    assert(left_message.skip(142) =~= bytes::u32s_bytes(left_mapping));
    assert(right_message.skip(142) =~= bytes::u32s_bytes(right_mapping));
    bytes::lemma_u32s_bytes_injective(left_mapping, right_mapping);
    assert(left.subrange(96, 128) == right.subrange(96, 128));
    assert(left.subrange(128, 160) == right.subrange(128, 160));
    bytes::lemma_same_u32(left, right, 8);
    bytes::lemma_same_u32(left, right, 12);
    assert(left.subrange(0, 8) == right.subrange(0, 8));
    let left_words = Seq::new(6, |i: int| bytes::u64_at(left, 16 + 8 * i));
    let right_words = Seq::new(6, |i: int| bytes::u64_at(right, 16 + 8 * i));
    assert(left_words == right_words);
    assert forall|at: int| 0 <= at < left.len() implies left[at] == right[at] by {
        if at < 8 {
            assert(left.subrange(0, 8)[at] == right.subrange(0, 8)[at]);
        } else if at < 12 {
            assert(left.subrange(8, 12)[at - 8] == right.subrange(8, 12)[at - 8]);
        } else if at < 16 {
            assert(left.subrange(12, 16)[at - 12] == right.subrange(12, 16)[at - 12]);
        } else if at < 64 {
            let word = (at - 16) / 8;
            let start = 16 + 8 * word;
            assert(left_words[word] == right_words[word]);
            bytes::lemma_same_u64(left, right, start);
            assert(left.subrange(start, start + 8)[at - start] == right.subrange(
                start,
                start + 8,
            )[at - start]);
        } else if at < 96 {
            assert(left.subrange(64, 96)[at - 64] == right.subrange(64, 96)[at - 64]);
        } else if at < 128 {
            assert(left.subrange(96, 128)[at - 96] == right.subrange(96, 128)[at - 96]);
        } else if at < 160 {
            assert(left.subrange(128, 160)[at - 128] == right.subrange(128, 160)[at - 128]);
        } else {
            let entry = (at - 160) / 4;
            let start = 160 + 4 * entry;
            assert(left_mapping[entry] == right_mapping[entry]);
            bytes::lemma_same_u32(left, right, start);
            assert(left.subrange(start, start + 4)[at - start] == right.subrange(
                start,
                start + 4,
            )[at - start]);
        }
    }
    assert(left =~= right);
}

/// Load and strictly validate the sidecar for an index of `index_len` bytes that
/// starts with the bytes `index`.
///
/// Legacy 0.0/1.0 indexes return `None` before allocating a mapping.
pub fn load_physical_layout(index: &[u8], index_len: u64, sidecar: &[u8]) -> (result: Result<
    Option<Arc<PhysicalLayout>>,
    LayoutError,
>)
    ensures
        match load_outcome(index@, index_len, sidecar@) {
            Err(error) => result is Err && result->Err_0 == error,
            Ok(None) => result is Ok && result->Ok_0 is None,
            Ok(Some((mapping, fingerprint))) => {
                &&& result is Ok && result->Ok_0 is Some
                &&& result->Ok_0->0@ == mapping
                &&& result->Ok_0->0.spec_fingerprint() == fingerprint
            },
        },
{
    let requirement = match sidecar_requirement(index, index_len) {
        Ok(Some(requirement)) => requirement,
        Ok(None) => {
            return Ok(None);
        },
        Err(error) => {
            return Err(error);
        },
    };
    let stored = match parse_sidecar(&requirement, sidecar) {
        Ok(stored) => stored,
        Err(error) => {
            return Err(error);
        },
    };
    let checksum: [u8; 32] = mapping_bytes_digest(stored.mapping.as_slice());
    let binding: [u8; 32] = binding_digest(
        &stored.source_digest,
        &requirement.fields,
        stored.mapping.as_slice(),
    );
    assert(sidecar.len() == sidecar@.len());
    match accept_sidecar(requirement.fingerprint, stored, &checksum, &binding) {
        Ok(layout) => Ok(Some(Arc::new(layout))),
        Err(error) => Err(error),
    }
}

/// The bytes of a sidecar.
pub open spec fn sidecar_image(
    fields: StructuralFields,
    fingerprint: u64,
    source_digest: Seq<u8>,
    binding: Seq<u8>,
    checksum: Seq<u8>,
    mapping: Seq<u32>,
) -> Seq<u8> {
    magic() + bytes::le_bytes(FORMAT_VERSION as nat, 4) + bytes::le_bytes(0, 4) + bytes::u64s_bytes(
        sidecar_words(fields, fingerprint),
    ) + source_digest + binding + checksum + bytes::u32s_bytes(mapping)
}

/// What a sidecar is written from.
pub struct SidecarContents<'a> {
    pub fields: &'a StructuralFields,
    pub source_digest: &'a [u8; 32],
    pub binding_digest: &'a [u8; 32],
    pub fingerprint: LayoutFingerprint,
    pub mapping: &'a [u32],
}

/// Writes the bytes of a sidecar, given the checksum of its mapping.
pub fn encode_sidecar(contents: &SidecarContents<'_>, checksum: &[u8; 32]) -> (sidecar: Vec<u8>)
    ensures
        sidecar@ == sidecar_image(
            *contents.fields,
            contents.fingerprint@,
            contents.source_digest@,
            contents.binding_digest@,
            checksum@,
            contents.mapping@,
        ),
{
    let expected_magic: [u8; 8] = [0x44, 0x4e, 0x4c, 0x59, 0x54, 0x30, 0x30, 0x31];
    let words: [u64; 6] = [
        contents.fields.num_points,
        contents.fields.node_len,
        contents.fields.block_size,
        contents.fields.nodes_per_block,
        contents.fields.index_len,
        contents.fingerprint.get(),
    ];
    let mut sidecar: Vec<u8> = Vec::new();
    bytes::append_bytes(&mut sidecar, &expected_magic);
    bytes::append_u32(&mut sidecar, FORMAT_VERSION);
    bytes::append_u32(&mut sidecar, 0);
    bytes::append_u64s(&mut sidecar, &words);
    bytes::append_bytes(&mut sidecar, contents.source_digest);
    bytes::append_bytes(&mut sidecar, contents.binding_digest);
    bytes::append_bytes(&mut sidecar, checksum);
    bytes::append_u32s(&mut sidecar, contents.mapping);
    proof {
        assert(expected_magic@ =~= magic());
        assert(words@ =~= sidecar_words(*contents.fields, contents.fingerprint@));
        assert(Seq::<u8>::empty() + magic() =~= magic());
    }
    sidecar
}

/// Writes the bytes of a sidecar.
pub fn write_sidecar(contents: &SidecarContents<'_>) -> (sidecar: Vec<u8>)
    ensures
        sidecar@ == sidecar_image(
            *contents.fields,
            contents.fingerprint@,
            contents.source_digest@,
            contents.binding_digest@,
            digest::sha256(bytes::u32s_bytes(contents.mapping@)),
            contents.mapping@,
        ),
{
    let checksum: [u8; 32] = mapping_bytes_digest(contents.mapping);
    encode_sidecar(contents, &checksum)
}

/// The length of a sidecar.
pub proof fn lemma_sidecar_len(
    fields: StructuralFields,
    fingerprint: u64,
    source_digest: Seq<u8>,
    binding: Seq<u8>,
    checksum: Seq<u8>,
    mapping: Seq<u32>,
)
    requires
        source_digest.len() == 32,
        binding.len() == 32,
        checksum.len() == 32,
    ensures
        sidecar_image(fields, fingerprint, source_digest, binding, checksum, mapping).len()
            == FIXED_SIZE + 4 * mapping.len(),
{
    bytes::lemma_u64s_bytes(sidecar_words(fields, fingerprint));
    bytes::lemma_u32s_bytes(mapping);
    bytes::lemma_le_bytes_len(FORMAT_VERSION as nat, 4);
    bytes::lemma_le_bytes_len(0, 4);
}

/// A sidecar that was written holds what it was written from: its length, its
/// digests and its mapping, and it meets the requirement of an index with the
/// same fields and fingerprint.
pub proof fn lemma_sidecar_round_trip(
    fields: StructuralFields,
    fingerprint: LayoutFingerprint,
    source_digest: Seq<u8>,
    binding: Seq<u8>,
    checksum: Seq<u8>,
    mapping: Seq<u32>,
)
    requires
        source_digest.len() == 32,
        binding.len() == 32,
        checksum.len() == 32,
        mapping.len() == fields.num_points,
        fields.num_points <= u32::MAX,
        is_bijection(mapping),
    ensures
        ({
            let sidecar = sidecar_image(
                fields,
                fingerprint@,
                source_digest,
                binding,
                checksum,
                mapping,
            );
            let requirement = SidecarRequirement {
                fields,
                fingerprint,
                length: (FIXED_SIZE + fields.num_points * 4) as u64,
            };
            &&& sidecar_fault(requirement, sidecar) is None
            &&& sidecar.subrange(64, 96) == source_digest
            &&& sidecar.subrange(96, 128) == binding
            &&& sidecar.subrange(128, 160) == checksum
            &&& stored_mapping(sidecar, mapping.len()) == mapping
        }),
{
    let sidecar = sidecar_image(fields, fingerprint@, source_digest, binding, checksum, mapping);
    let words = sidecar_words(fields, fingerprint@);
    let tail = bytes::u32s_bytes(mapping);
    bytes::lemma_u64s_bytes(words);
    bytes::lemma_u32s_bytes(mapping);
    bytes::lemma_le_bytes_len(FORMAT_VERSION as nat, 4);
    bytes::lemma_le_bytes_len(0, 4);
    assert(sidecar.len() == 160 + 4 * mapping.len());
    assert(sidecar.subrange(0, 8) =~= magic());
    assert(sidecar.subrange(8, 12) =~= bytes::le_bytes(FORMAT_VERSION as nat, 4));
    assert(sidecar.subrange(12, 16) =~= bytes::le_bytes(0, 4));
    bytes::lemma_u32_at_written(sidecar, 8, FORMAT_VERSION);
    bytes::lemma_u32_at_written(sidecar, 12, 0);
    assert forall|i: int| 0 <= i < 6 implies bytes::u64_at(sidecar, 16 + 8 * i)
        == #[trigger] words[i] by {
        assert(sidecar.subrange(16 + 8 * i, 24 + 8 * i) =~= bytes::u64s_bytes(words).subrange(
            8 * i,
            8 * i + 8,
        ));
        bytes::lemma_u64_at_written(sidecar, 16 + 8 * i, words[i]);
    }
    assert(Seq::new(6, |i: int| bytes::u64_at(sidecar, 16 + 8 * i)) =~= words);
    assert(sidecar.subrange(64, 96) =~= source_digest);
    assert(sidecar.subrange(96, 128) =~= binding);
    assert(sidecar.subrange(128, 160) =~= checksum);
    assert forall|i: int| 0 <= i < mapping.len() implies bytes::u32_at(sidecar, FIXED_SIZE + 4 * i)
        == #[trigger] mapping[i] by {
        assert(sidecar.subrange(160 + 4 * i, 164 + 4 * i) =~= tail.subrange(4 * i, 4 * i + 4));
        bytes::lemma_u32_at_written(sidecar, 160 + 4 * i, mapping[i]);
    }
    assert(stored_mapping(sidecar, mapping.len()) =~= mapping);
    lemma_accepted_mapping_is_bijection(mapping, fields.num_points);
}

/// When an index needs a sidecar: versions 0.x and 1.0 need none; version 1.1 needs one, whose
/// length is that of the mapping behind the fixed part, and must have a fingerprint and the
/// length that its header describes; no other version is supported.
pub proof fn lemma_sidecar_is_needed(index: Seq<u8>, index_len: u64)
    requires
        !fields::header_truncated(index, index_len),
    ensures
        ({
            let header = fields::header_of(index);
            let version = header.layout_version;
            let outcome = requirement_of(index, index_len);
            &&& version.major_version == 0 || (version.major_version == 1 && version.minor_version
                == 0) ==> outcome == Ok::<Option<SidecarRequirement>, LayoutError>(None)
            &&& version.major_version > 1 || (version.major_version == 1 && version.minor_version
                > 1) ==> outcome == Err::<Option<SidecarRequirement>, LayoutError>(
                LayoutError::Invalid(
                    InvalidLayout::UnsupportedVersion {
                        major: version.major_version,
                        minor: version.minor_version,
                    },
                ),
            )
            &&& version.major_version == 1 && version.minor_version == 1 && outcome is Ok ==> {
                &&& outcome->Ok_0 is Some
                &&& header.metadata.layout_fingerprint == Some(outcome->Ok_0->0.fingerprint)
                &&& outcome->Ok_0->0.length == 160 + 4 * header.metadata.num_pts
                &&& outcome->Ok_0->0.fields == fields::fields_of(header, index_len)
                &&& header.metadata.disk_index_file_size == index_len
            }
        }),
{
}

/// The first fault of a mapping is reported: the first entry that is out of range or repeats
/// an earlier one.
pub proof fn lemma_mapping_fault_is_first(mapping: Seq<u32>, num_points: u64, logical: int)
    requires
        num_points <= u32::MAX,
        mapping.len() == num_points,
        0 <= logical < mapping.len(),
        forall|at: int| 0 <= at < logical ==> #[trigger] mapping[at] < mapping.len(),
        forall|i: int, j: int| 0 <= i < j < logical ==> mapping[i] != mapping[j],
    ensures
        mapping[logical] >= mapping.len() ==> mapping_fault(mapping, num_points) == Some(
            InvalidLayout::SlotOutOfRange { physical: mapping[logical], logical: logical as u32 },
        ),
        mapping[logical] < mapping.len() && mapping.take(logical).contains(mapping[logical])
            ==> mapping_fault(mapping, num_points) == Some(
            InvalidLayout::SlotRepeated { physical: mapping[logical] },
        ),
{
    lemma_entries_fault(mapping, logical as nat);
    if mapping.take(logical).contains(mapping[logical]) {
        let earlier = choose|earlier: int|
            0 <= earlier < logical && mapping.take(logical)[earlier] == mapping[logical];
        assert(mapping[earlier] == mapping[logical]);
    }
    if mapping[logical] >= mapping.len() || mapping.take(logical).contains(mapping[logical]) {
        lemma_first_fault(mapping, logical);
    }
}

/// A mapping is accepted exactly if it gives every node a slot of its own among as many slots
/// as there are nodes.
pub proof fn lemma_mapping_is_accepted(mapping: Seq<u32>, num_points: u64)
    ensures
        mapping_fault(mapping, num_points) is None <==> {
            &&& num_points <= u32::MAX
            &&& mapping.len() == num_points
            &&& mapping.no_duplicates()
            &&& forall|node: int| 0 <= node < mapping.len() ==> #[trigger] mapping[node] < num_points
        },
{
    lemma_accepted_mapping_is_bijection(mapping, num_points);
}

/// A fingerprint is the first eight bytes of the binding digest.
pub proof fn lemma_fingerprint_is_first_bytes(binding: Seq<u8>)
    requires
        binding.len() >= 8,
    ensures
        bytes::le_bytes(fingerprint_prefix(binding) as nat, 8) == binding.take(8),
{
    bytes::lemma_long_word_is_bytes(binding, 0);
    assert(binding.subrange(0, 8) =~= binding.take(8));
}

/// What a binding digest is taken over binds everything: the digest of the source, each of the
/// structural fields and the mapping can be told from it.
pub proof fn lemma_binding_binds_everything(
    left_digest: Seq<u8>,
    left: StructuralFields,
    left_mapping: Seq<u32>,
    right_digest: Seq<u8>,
    right: StructuralFields,
    right_mapping: Seq<u32>,
)
    requires
        left_digest.len() == 32,
        right_digest.len() == 32,
        binding_message(left_digest, left, left_mapping) == binding_message(
            right_digest,
            right,
            right_mapping,
        ),
    ensures
        left_digest == right_digest,
        left_mapping == right_mapping,
        left.num_points == right.num_points,
        left.dims == right.dims,
        left.medoid == right.medoid,
        left.node_len == right.node_len,
        left.block_size == right.block_size,
        left.nodes_per_block == right.nodes_per_block,
        left.associated_data_length == right.associated_data_length,
        left.index_len == right.index_len,
{
    let message = binding_message(left_digest, left, left_mapping);
    let start = binding_label().len() as int;
    let other = binding_message(right_digest, right, right_mapping);
    bytes::lemma_u64s_bytes(left.words());
    bytes::lemma_u64s_bytes(right.words());
    bytes::lemma_u32s_bytes(left_mapping);
    bytes::lemma_u32s_bytes(right_mapping);
    assert(message.subrange(start, start + 32) =~= left_digest);
    assert(other.subrange(start, start + 32) =~= right_digest);
    assert(message.subrange(start + 32, start + 96) =~= bytes::u64s_bytes(left.words()));
    assert(other.subrange(start + 32, start + 96) =~= bytes::u64s_bytes(right.words()));
    assert(message.skip(start + 96) =~= bytes::u32s_bytes(left_mapping));
    assert(other.skip(start + 96) =~= bytes::u32s_bytes(right_mapping));
    bytes::lemma_u64s_bytes_injective(left.words(), right.words());
    bytes::lemma_u32s_bytes_injective(left_mapping, right_mapping);
    assert(left.words()[0] == right.words()[0]);
    assert(left.words()[1] == right.words()[1]);
    assert(left.words()[2] == right.words()[2]);
    assert(left.words()[3] == right.words()[3]);
    assert(left.words()[4] == right.words()[4]);
    assert(left.words()[5] == right.words()[5]);
    assert(left.words()[6] == right.words()[6]);
    assert(left.words()[7] == right.words()[7]);
}

/// A sidecar holds the numbers of the index it belongs to, then the digests and the mapping.
pub proof fn lemma_sidecar_layout(
    fields: StructuralFields,
    fingerprint: u64,
    source_digest: Seq<u8>,
    binding: Seq<u8>,
    checksum: Seq<u8>,
    mapping: Seq<u32>,
    node: int,
)
    requires
        source_digest.len() == 32,
        binding.len() == 32,
        checksum.len() == 32,
        0 <= node < mapping.len(),
    ensures
        ({
            let stored = sidecar_image(
                fields,
                fingerprint,
                source_digest,
                binding,
                checksum,
                mapping,
            );
            &&& stored.len() == 160 + 4 * mapping.len()
            &&& bytes::u32_at(stored, 8) == 1
            &&& bytes::u32_at(stored, 12) == 0
            &&& bytes::u64_at(stored, 16) == fields.num_points
            &&& bytes::u64_at(stored, 24) == fields.node_len
            &&& bytes::u64_at(stored, 32) == fields.block_size
            &&& bytes::u64_at(stored, 40) == fields.nodes_per_block
            &&& bytes::u64_at(stored, 48) == fields.index_len
            &&& bytes::u64_at(stored, 56) == fingerprint
            &&& stored.subrange(64, 96) == source_digest
            &&& stored.subrange(96, 128) == binding
            &&& stored.subrange(128, 160) == checksum
            &&& bytes::u32_at(stored, 160 + 4 * node) == mapping[node]
        }),
{
    let words = sidecar_words(fields, fingerprint);
    let stored = sidecar_image(fields, fingerprint, source_digest, binding, checksum, mapping);
    let version = bytes::le_bytes(FORMAT_VERSION as nat, 4);
    let reserved = bytes::le_bytes(0, 4);
    bytes::lemma_le_bytes_len(FORMAT_VERSION as nat, 4);
    bytes::lemma_le_bytes_len(0, 4);
    bytes::lemma_u64s_bytes(words);
    bytes::lemma_u32s_bytes(mapping);
    assert(stored.subrange(8, 12) =~= version);
    assert(stored.subrange(12, 16) =~= reserved);
    bytes::lemma_u32_at_written(stored, 8, FORMAT_VERSION);
    bytes::lemma_u32_at_written(stored, 12, 0);
    assert forall|at: int| 0 <= at < 6 implies bytes::u64_at(stored, 16 + 8 * at)
        == #[trigger] words[at] by {
        assert(stored.subrange(16 + 8 * at, 16 + 8 * at + 8) =~= bytes::u64s_bytes(words).subrange(
            8 * at,
            8 * at + 8,
        ));
        bytes::lemma_u64_at_written(stored, 16 + 8 * at, words[at]);
    }
    assert(words[0] == fields.num_points);
    assert(words[1] == fields.node_len);
    assert(words[2] == fields.block_size);
    assert(words[3] == fields.nodes_per_block);
    assert(words[4] == fields.index_len);
    assert(words[5] == fingerprint);
    assert(stored.subrange(64, 96) =~= source_digest);
    assert(stored.subrange(96, 128) =~= binding);
    assert(stored.subrange(128, 160) =~= checksum);
    assert(stored.subrange(160 + 4 * node, 160 + 4 * node + 4) =~= bytes::u32s_bytes(
        mapping,
    ).subrange(4 * node, 4 * node + 4));
    bytes::lemma_u32_at_written(stored, 160 + 4 * node, mapping[node]);
}

/// When the digests of a sidecar are accepted: the checksum and the binding digest are those
/// computed from its mapping, and the first eight bytes of the binding digest are the
/// fingerprint of the index, which is not zero.
pub proof fn lemma_digests_accepted(
    fingerprint: LayoutFingerprint,
    stored_checksum: Seq<u8>,
    stored_binding: Seq<u8>,
    checksum: Seq<u8>,
    binding: Seq<u8>,
)
    requires
        binding.len() >= 8,
    ensures
        digest_fault(fingerprint, stored_checksum, stored_binding, checksum, binding) is None <==> {
            &&& stored_checksum == checksum
            &&& stored_binding == binding
            &&& fingerprint@ != 0
            &&& bytes::le_bytes(fingerprint@ as nat, 8) == binding.take(8)
        },
{
    lemma_fingerprint_is_first_bytes(binding);
    bytes::lemma_byte_limits();
    bytes::lemma_value_of_bytes(fingerprint@ as nat, 8);
    bytes::lemma_value_of_bytes(fingerprint_prefix(binding) as nat, 8);
}

} // verus!
