//! The bytes of a rewritten index.
use crate::bytes;
use crate::data_model::GraphHeader;
use crate::data_model::GraphLayoutVersion;
use crate::data_model::GraphMetadata;
use crate::data_model::LayoutFingerprint;
use crate::layout::fields;
use crate::layout::fields::StructuralFields;
use crate::layout::index;
use crate::layout::index::MappedIndex;
use crate::layout::sidecar;
use vstd::prelude::*;

verus! {

/// The header of the rewritten index: that of the source, with the fingerprint
/// and the graph-aware layout version.
pub open spec fn rewritten_header(
    header: GraphHeader,
    fingerprint: LayoutFingerprint,
) -> GraphHeader {
    GraphHeader {
        metadata: GraphMetadata { layout_fingerprint: Some(fingerprint), ..header.metadata },
        block_size: header.block_size,
        layout_version: GraphLayoutVersion::spec_graph_aware(),
    }
}

/// The record of slot `to` in `output` is that of slot `from` in `source`.
pub open spec fn record_kept(
    fields: StructuralFields,
    source: Seq<u8>,
    from: int,
    output: Seq<u8>,
    to: int,
) -> bool {
    output.subrange(index::record_start(fields, to), index::record_end(fields, to))
        == source.subrange(index::record_start(fields, from), index::record_end(fields, from))
}

/// Byte `at` belongs to the record of `slot`.
pub open spec fn in_record(fields: StructuralFields, slot: int, at: int) -> bool {
    index::record_start(fields, slot) <= at < index::record_end(fields, slot)
}

/// `output` is `source` with each node in the slot that `mapping` gives and the
/// header of the rewritten index: the rest of the first block stays as it is,
/// every record is kept and every other byte is zero.
pub open spec fn is_rewritten(
    fields: StructuralFields,
    header: GraphHeader,
    source: Seq<u8>,
    mapping: Seq<u32>,
    fingerprint: LayoutFingerprint,
    output: Seq<u8>,
) -> bool {
    &&& output.len() == source.len()
    &&& output.subrange(fields::HEADER_OFFSET as int, fields::HEADER_END as int)
        == rewritten_header(header, fingerprint).spec_bytes()
    &&& forall|at: int|
        0 <= at < fields.block_size && !(fields::HEADER_OFFSET <= at < fields::HEADER_END)
            ==> #[trigger] output[at] == source[at]
    &&& forall|node: int|
        0 <= node < mapping.len() ==> record_kept(
            fields,
            source,
            node,
            output,
            #[trigger] mapping[node] as int,
        )
    &&& forall|at: int|
        fields.block_size <= at < output.len() && (forall|slot: int|
            0 <= slot < mapping.len() ==> !#[trigger] in_record(fields, slot, at))
            ==> #[trigger] output[at] == 0
}

/// Copies `count` bytes of `source` from `from` to `at`.
fn copy_bytes(output: &mut Vec<u8>, at: usize, source: &[u8], from: usize, count: usize)
    requires
        at + count <= old(output)@.len(),
        from + count <= source@.len(),
    ensures
        final(output)@.len() == old(output)@.len(),
        forall|i: int|
            0 <= i < final(output)@.len() ==> #[trigger] final(output)@[i] == if at <= i < at
                + count {
                source@[from + i - at]
            } else {
                old(output)@[i]
            },
{
    assert(at + count <= output.len());
    assert(from + count <= source.len());
    let mut done: usize = 0;
    while done < count
        invariant
            done <= count,
            at + count <= output@.len(),
            at + count <= usize::MAX,
            from + count <= source@.len(),
            from + count <= usize::MAX,
            output@.len() == old(output)@.len(),
            forall|i: int|
                0 <= i < output@.len() ==> #[trigger] output@[i] == if at <= i < at + done {
                    source@[from + i - at]
                } else {
                    old(output)@[i]
                },
        decreases count - done,
    {
        output[at + done] = source[from + done];
        done += 1;
    }
}

/// Places the record of every node in the slot that `mapping` gives.
fn place_records(mapped: &MappedIndex<'_>, mapping: &[u32], output: &mut Vec<u8>)
    requires
        mapped.wf(),
        mapping@.len() == mapped.fields.num_points,
        sidecar::is_bijection(mapping@),
        old(output)@.len() == mapped.bytes@.len(),
        forall|at: int|
            mapped.fields.block_size <= at < old(output)@.len() ==> #[trigger] old(output)@[at]
                == 0,
    ensures
        final(output)@.len() == old(output)@.len(),
        forall|at: int|
            0 <= at < mapped.fields.block_size ==> #[trigger] final(output)@[at] == old(output)@[at],
        forall|node: int|
            0 <= node < mapping@.len() ==> record_kept(
                mapped.fields,
                mapped.bytes@,
                node,
                final(output)@,
                #[trigger] mapping@[node] as int,
            ),
        forall|at: int|
            mapped.fields.block_size <= at < final(output)@.len() && (forall|slot: int|
                0 <= slot < mapping@.len() ==> !#[trigger] in_record(mapped.fields, slot, at))
                ==> #[trigger] final(output)@[at] == 0,
{
    let ghost fields = mapped.fields;
    proof {
        mapped.lemma_wf();
        mapped.lemma_point_count();
    }
    let count: usize = mapping.len();
    let mut node: usize = 0;
    while node < count
        invariant
            mapped.wf(),
            fields == mapped.fields,
            index::fields_fit(fields),
            fields.index_len == mapped.bytes@.len(),
            count == mapping@.len(),
            count == fields.num_points,
            count <= u32::MAX,
            node <= count,
            sidecar::is_bijection(mapping@),
            output@.len() == old(output)@.len(),
            output@.len() == mapped.bytes@.len(),
            forall|at: int|
                0 <= at < fields.block_size ==> #[trigger] output@[at] == old(output)@[at],
            forall|earlier: int|
                0 <= earlier < node ==> record_kept(
                    fields,
                    mapped.bytes@,
                    earlier,
                    output@,
                    #[trigger] mapping@[earlier] as int,
                ),
            forall|at: int|
                fields.block_size <= at < output@.len() && (forall|slot: int|
                    0 <= slot < mapping@.len() ==> !#[trigger] in_record(fields, slot, at))
                    ==> #[trigger] output@[at] == 0,
        decreases count - node,
    {
        let physical: u32 = mapping[node];
        proof {
            index::lemma_record_in_index(fields, node as int);
            index::lemma_record_in_index(fields, physical as int);
        }
        let (from, to): (usize, usize) = match (
            mapped.record_range(node as u32),
            mapped.record_range(physical),
        ) {
            (Ok(from), Ok(to)) => (from.start, to.start),
            _ => (0, 0),
        };
        let length: usize = mapped.fields.node_len as usize;
        let ghost before = output@;
        copy_bytes(output, to, mapped.bytes, from, length);
        proof {
            assert forall|earlier: int| 0 <= earlier < node + 1 implies record_kept(
                fields,
                mapped.bytes@,
                earlier,
                output@,
                #[trigger] mapping@[earlier] as int,
            ) by {
                let slot = mapping@[earlier] as int;
                index::lemma_record_in_index(fields, earlier);
                index::lemma_record_in_index(fields, slot);
                let start = index::record_start(fields, slot);
                let end = index::record_end(fields, slot);
                if earlier == node {
                    assert(output@.subrange(start, end) =~= mapped.bytes@.subrange(
                        index::record_start(fields, earlier),
                        index::record_end(fields, earlier),
                    ));
                } else {
                    assert(mapping@[earlier] != mapping@[node as int]);
                    if slot < physical {
                        index::lemma_records_apart(fields, slot, physical as int);
                    } else {
                        index::lemma_records_apart(fields, physical as int, slot);
                    }
                    assert(record_kept(fields, mapped.bytes@, earlier, before, slot));
                    assert(output@.subrange(start, end) =~= before.subrange(start, end));
                }
            }
            assert forall|at: int|
                fields.block_size <= at < output@.len() && (forall|slot: int|
                    0 <= slot < mapping@.len() ==> !#[trigger] in_record(
                        fields,
                        slot,
                        at,
                    )) implies #[trigger] output@[at] == 0 by {
                assert(!in_record(fields, physical as int, at));
                assert(output@[at] == before[at]);
            }
        }
        node += 1;
    }
}

/// The bytes of the rewritten index.
pub fn assemble_output(
    mapped: &MappedIndex<'_>,
    mapping: &[u32],
    fingerprint: LayoutFingerprint,
) -> (output: Vec<u8>)
    requires
        mapped.wf(),
        mapping@.len() == mapped.fields.num_points,
        sidecar::is_bijection(mapping@),
    ensures
        is_rewritten(
            mapped.fields,
            mapped.header,
            mapped.bytes@,
            mapping@,
            fingerprint,
            output@,
        ),
{
    let ghost fields = mapped.fields;
    let ghost source = mapped.bytes@;
    proof {
        mapped.lemma_wf();
        index::lemma_record_in_index(fields, 0);
    }
    let block_size: usize = mapped.fields.block_size as usize;
    let mut output: Vec<u8> = vec![0u8; mapped.bytes.len()];
    copy_bytes(&mut output, 0, mapped.bytes, 0, block_size);
    place_records(mapped, mapping, &mut output);
    let mut metadata = mapped.header.metadata().clone();
    metadata.set_layout_fingerprint(fingerprint);
    let header = GraphHeader::new(
        metadata,
        mapped.fields.block_size,
        GraphHeader::graph_aware_layout_version(),
    );
    let header_bytes: Vec<u8> = match header.to_bytes() {
        Ok(header_bytes) => header_bytes,
        Err(_) => Vec::new(),
    };
    let ghost placed = output@;
    copy_bytes(&mut output, fields::HEADER_OFFSET, header_bytes.as_slice(), 0, 96);
    proof {
        assert(output@.subrange(8, 104) =~= header_bytes@);
        assert forall|node: int| 0 <= node < mapping@.len() implies record_kept(
            fields,
            source,
            node,
            output@,
            #[trigger] mapping@[node] as int,
        ) by {
            let slot = mapping@[node] as int;
            index::lemma_record_in_index(fields, slot);
            let start = index::record_start(fields, slot);
            let end = index::record_end(fields, slot);
            assert(record_kept(fields, source, node, placed, slot));
            assert(output@.subrange(start, end) =~= placed.subrange(start, end));
        }
    }
    output
}

/// A rewritten index and its sidecar load: what comes back is the mapping and the
/// fingerprint that they were written with.
pub proof fn lemma_rewrite_loads(
    mapped: &MappedIndex<'_>,
    mapping: Seq<u32>,
    fingerprint: LayoutFingerprint,
    source_digest: Seq<u8>,
    output: Seq<u8>,
)
    requires
        mapped.wf(),
        mapping.len() == mapped.fields.num_points,
        sidecar::is_bijection(mapping),
        source_digest.len() == 32,
        ({
            let binding = crate::digest::sha256(
                sidecar::binding_message(source_digest, mapped.fields, mapping),
            );
            &&& binding.len() == 32
            &&& fingerprint@ == sidecar::fingerprint_prefix(binding)
        }),
        crate::digest::sha256(bytes::u32s_bytes(mapping)).len() == 32,
        fingerprint@ != 0,
        is_rewritten(
            mapped.fields,
            mapped.header,
            mapped.bytes@,
            mapping,
            fingerprint,
            output,
        ),
    ensures
        ({
            let checksum = crate::digest::sha256(bytes::u32s_bytes(mapping));
            let binding = crate::digest::sha256(
                sidecar::binding_message(source_digest, mapped.fields, mapping),
            );
            sidecar::load_outcome(
                output,
                output.len() as u64,
                sidecar::sidecar_image(
                    mapped.fields,
                    fingerprint@,
                    source_digest,
                    binding,
                    checksum,
                    mapping,
                ),
            ) == Ok::<_, crate::layout::LayoutError>(Some((mapping, fingerprint)))
        }),
{
    mapped.lemma_wf();
    let fields = mapped.fields;
    let header = rewritten_header(mapped.header, fingerprint);
    let checksum = crate::digest::sha256(bytes::u32s_bytes(mapping));
    let binding = crate::digest::sha256(
        sidecar::binding_message(source_digest, fields, mapping),
    );
    header.lemma_round_trip(Seq::empty());
    assert(header.spec_bytes() + Seq::<u8>::empty() =~= header.spec_bytes());
    assert(fields::header_of(output) == header);
    assert(fields::fields_of(header, output.len() as u64) == fields);
    assert(output.len() >= fields::HEADER_END) by {
        index::lemma_record_in_index(fields, 0);
    }
    sidecar::lemma_sidecar_round_trip(
        fields,
        fingerprint,
        source_digest,
        binding,
        checksum,
        mapping,
    );
}

/// A rewritten index has the geometry of its source: the same length, and the same
/// structural fields in its header.
pub proof fn lemma_rewrite_keeps_geometry(
    mapped: &MappedIndex<'_>,
    mapping: Seq<u32>,
    fingerprint: LayoutFingerprint,
    output: Seq<u8>,
)
    requires
        mapped.wf(),
        fingerprint@ != 0,
        is_rewritten(
            mapped.fields,
            mapped.header,
            mapped.bytes@,
            mapping,
            fingerprint,
            output,
        ),
    ensures
        output.len() == mapped.bytes@.len(),
        fields::header_of(output) == rewritten_header(mapped.header, fingerprint),
        fields::fields_of(fields::header_of(output), output.len() as u64) == mapped.fields,
{
    let header = rewritten_header(mapped.header, fingerprint);
    mapped.lemma_wf();
    index::lemma_record_in_index(mapped.fields, 0);
    header.lemma_round_trip(Seq::empty());
    assert(header.spec_bytes() + Seq::<u8>::empty() =~= header.spec_bytes());
}

/// A rewrite moves records and nothing in them: behind the mapping every node has the
/// neighbors it had, under the IDs they had.
pub proof fn lemma_rewrite_keeps_adjacency(
    mapped: &MappedIndex<'_>,
    mapping: Seq<u32>,
    fingerprint: LayoutFingerprint,
    output: Seq<u8>,
    node: u32,
)
    requires
        mapped.wf(),
        mapping.len() == mapped.fields.num_points,
        sidecar::is_bijection(mapping),
        is_rewritten(
            mapped.fields,
            mapped.header,
            mapped.bytes@,
            mapping,
            fingerprint,
            output,
        ),
        node < mapped.fields.num_points,
    ensures
        index::neighbors_of(
            output,
            mapped.fields,
            mapped.vector_bytes as int,
            mapping[node as int] as int,
        ) == mapped.adjacency()[node as int],
{
    let fields = mapped.fields;
    let source = mapped.bytes@;
    let vector = mapped.vector_bytes as int;
    let slot = mapping[node as int] as int;
    mapped.lemma_wf();
    index::lemma_record_in_index(fields, node as int);
    index::lemma_record_in_index(fields, slot);
    assert(index::node_fits(source, fields, vector, node as int));
    let from = index::record_start(fields, node as int);
    let to = index::record_start(fields, slot);
    let record = source.subrange(from, index::record_end(fields, node as int));
    assert(output.subrange(to, index::record_end(fields, slot)) == record);
    assert forall|at: int| 0 <= at && at + 4 <= fields.node_len implies bytes::u32_at(
        output,
        #[trigger] (to + at),
    ) == bytes::u32_at(source, from + at) by {
        assert(output.subrange(to + at, to + at + 4) =~= record.subrange(at, at + 4));
        assert(source.subrange(from + at, from + at + 4) =~= record.subrange(at, at + 4));
    }
    assert(bytes::u32_at(output, to + vector) == bytes::u32_at(source, from + vector));
    let kept = index::neighbors_of(source, fields, vector, node as int);
    let moved = index::neighbors_of(output, fields, vector, slot);
    assert forall|i: int| 0 <= i < kept.len() implies moved[i] == kept[i] by {
        assert(to + (vector + 4 + 4 * i) == to + vector + 4 + 4 * i);
        assert(bytes::u32_at(output, to + (vector + 4 + 4 * i)) == bytes::u32_at(
            source,
            from + (vector + 4 + 4 * i),
        ));
    }
    assert(moved =~= kept);
}

/// A source, a mapping and a fingerprint give one rewritten index, byte for byte.
pub proof fn lemma_rewritten_is_unique(
    mapped: &MappedIndex<'_>,
    mapping: Seq<u32>,
    fingerprint: LayoutFingerprint,
    left: Seq<u8>,
    right: Seq<u8>,
)
    requires
        mapped.wf(),
        mapping.len() == mapped.fields.num_points,
        sidecar::is_bijection(mapping),
        is_rewritten(mapped.fields, mapped.header, mapped.bytes@, mapping, fingerprint, left),
        is_rewritten(mapped.fields, mapped.header, mapped.bytes@, mapping, fingerprint, right),
    ensures
        left == right,
{
    let fields = mapped.fields;
    let start = fields::HEADER_OFFSET as int;
    let end = fields::HEADER_END as int;
    mapped.lemma_wf();
    index::lemma_record_in_index(fields, 0);
    assert forall|at: int| 0 <= at < left.len() implies left[at] == right[at] by {
        if at < fields.block_size {
            if start <= at < end {
                assert(left.subrange(start, end)[at - start] == right.subrange(start, end)[at
                    - start]);
            }
        } else if exists|slot: int| 0 <= slot < mapping.len() && #[trigger] in_record(fields, slot, at) {
            let slot = choose|slot: int|
                0 <= slot < mapping.len() && #[trigger] in_record(fields, slot, at);
            sidecar::lemma_bijection_fills_slots(mapping, slot as u32);
            let node = choose|node: int| 0 <= node < mapping.len() && mapping[node] == slot as u32;
            index::lemma_record_in_index(fields, slot);
            let from = index::record_start(fields, slot);
            let to = index::record_end(fields, slot);
            assert(record_kept(fields, mapped.bytes@, node, left, slot));
            assert(record_kept(fields, mapped.bytes@, node, right, slot));
            assert(left.subrange(from, to)[at - from] == right.subrange(from, to)[at - from]);
        }
    }
    assert(left =~= right);
}

/// What a rewrite leaves outside the records: the first block is that of the source but for
/// the header, and what lies between and behind records is zero.
pub proof fn lemma_rewrite_outside_records(
    mapped: &MappedIndex<'_>,
    mapping: Seq<u32>,
    fingerprint: LayoutFingerprint,
    output: Seq<u8>,
    at: int,
)
    requires
        mapped.wf(),
        mapping.len() == mapped.fields.num_points,
        is_rewritten(
            mapped.fields,
            mapped.header,
            mapped.bytes@,
            mapping,
            fingerprint,
            output,
        ),
        0 <= at < output.len(),
    ensures
        output.len() == mapped.bytes@.len(),
        at < 8 || 104 <= at < mapped.fields.block_size ==> output[at] == mapped.bytes@[at],
        at >= mapped.fields.block_size && (forall|slot: int|
            0 <= slot < mapped.fields.num_points ==> !((#[trigger] index::record_start(
                mapped.fields,
                slot,
            )) <= at < index::record_start(mapped.fields, slot) + mapped.fields.node_len))
            ==> output[at] == 0,
{
    mapped.lemma_wf();
    if at >= mapped.fields.block_size && (forall|slot: int|
        0 <= slot < mapped.fields.num_points ==> !((#[trigger] index::record_start(
            mapped.fields,
            slot,
        )) <= at < index::record_start(mapped.fields, slot) + mapped.fields.node_len)) {
        assert forall|slot: int| 0 <= slot < mapping.len() implies !#[trigger] in_record(
            mapped.fields,
            slot,
            at,
        ) by {
            assert(!(index::record_start(mapped.fields, slot) <= at < index::record_start(
                mapped.fields,
                slot,
            ) + mapped.fields.node_len));
        }
    }
}

/// What a rewrite does to records and to the header: the slot of a node holds the node's
/// record, byte for byte, and the header differs in the version, which is 1.1, and in the
/// fingerprint only.
pub proof fn lemma_rewrite_moves_records(
    mapped: &MappedIndex<'_>,
    mapping: Seq<u32>,
    fingerprint: LayoutFingerprint,
    output: Seq<u8>,
    node: int,
    within: int,
)
    requires
        mapped.wf(),
        mapping.len() == mapped.fields.num_points,
        sidecar::is_bijection(mapping),
        fingerprint@ != 0,
        is_rewritten(
            mapped.fields,
            mapped.header,
            mapped.bytes@,
            mapping,
            fingerprint,
            output,
        ),
        0 <= node < mapping.len(),
        0 <= within < mapped.fields.node_len,
    ensures
        output[index::record_start(mapped.fields, mapping[node] as int) + within]
            == mapped.bytes@[index::record_start(mapped.fields, node) + within],
        ({
            let header = fields::header_of(output);
            &&& header.layout_version.major_version == 1
            &&& header.layout_version.minor_version == 1
            &&& header.metadata.layout_fingerprint == Some(fingerprint)
            &&& header.block_size == mapped.header.block_size
            &&& header.metadata == (GraphMetadata {
                layout_fingerprint: Some(fingerprint),
                ..mapped.header.metadata
            })
        }),
{
    mapped.lemma_wf();
    lemma_rewrite_keeps_geometry(mapped, mapping, fingerprint, output);
    let from = index::record_start(mapped.fields, node);
    let to = index::record_start(mapped.fields, mapping[node] as int);
    index::lemma_record_in_index(mapped.fields, node);
    index::lemma_record_in_index(mapped.fields, mapping[node] as int);
    assert(record_kept(mapped.fields, mapped.bytes@, node, output, mapping[node] as int));
    let len = mapped.fields.node_len;
    assert(output.subrange(to, to + len)[within] == mapped.bytes@.subrange(from, from + len)[within]);
}

} // verus!
