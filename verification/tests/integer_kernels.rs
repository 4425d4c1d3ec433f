use diskann_layout::matrix_kernels::blocks::BlockTransposed;
use diskann_layout::matrix_kernels::integer::packed_u8_x_unpacked_u4::{
    compute_scalar, compute_v3, validate, ShapeError, UnpackedU4Rows, MAX_DIM, V3_MR,
};

fn query_values(rows: usize, dim: usize) -> Vec<u8> {
    (0..rows * dim)
        .map(|i| ((i * 37 + 11) % 256) as u8)
        .collect()
}

fn doc_values(rows: usize, dim: usize) -> Vec<u8> {
    (0..rows * dim).map(|i| ((i * 7 + 3) % 16) as u8).collect()
}

fn pack_u4(values: &[u8], rows: usize, dim: usize) -> Vec<u8> {
    let row_bytes = dim.div_ceil(2);
    let mut packed = vec![0u8; rows * row_bytes];
    for row in 0..rows {
        for col in 0..dim {
            let value = values[row * dim + col];
            assert!(value <= 0x0f);
            let dst = &mut packed[row * row_bytes + col / 2];
            if col % 2 == 0 {
                *dst |= value;
            } else {
                *dst |= value << 4;
            }
        }
    }
    packed
}

fn reference(query: &[u8], query_rows: usize, docs: &[u8], doc_rows: usize, dim: usize) -> Vec<i32> {
    let mut output = vec![0i32; query_rows * doc_rows];
    for q in 0..query_rows {
        for d in 0..doc_rows {
            output[q * doc_rows + d] = (0..dim)
                .map(|k| i32::from(query[q * dim + k]) * i32::from(docs[d * dim + k]))
                .sum();
        }
    }
    output
}

fn run_case(query_rows: usize, doc_rows: usize, dim: usize) {
    let query = query_values(query_rows, dim);
    let docs = doc_values(doc_rows, dim);
    let packed_docs = pack_u4(&docs, doc_rows, dim);

    let packed_query = BlockTransposed::<V3_MR>::from_rows(&query, query_rows, dim).unwrap();
    let docs_view = UnpackedU4Rows::new(&packed_docs, doc_rows, dim).unwrap();
    let expected = reference(&query, query_rows, &docs, doc_rows, dim);

    let mut scalar = vec![0i32; expected.len()];
    compute_scalar(&packed_query, docs_view, &mut scalar).unwrap();
    assert_eq!(
        scalar, expected,
        "scalar shape ({query_rows}, {doc_rows}, {dim})"
    );

    let mut actual = vec![0i32; expected.len()];
    compute_v3(&packed_query, docs_view, &mut actual).unwrap();
    assert_eq!(
        actual, expected,
        "V3 shape ({query_rows}, {doc_rows}, {dim})"
    );
}

#[test]
fn scalar_and_v3_match_reference() {
    for (query_rows, doc_rows, dim) in [
        (1, 1, 1),
        (5, 3, 7),
        (16, 4, 64),
        (16, 16, 256),
        (17, 5, 65),
        (32, 9, 128),
    ] {
        run_case(query_rows, doc_rows, dim);
    }
}

#[test]
fn maximum_values_do_not_overflow_intermediate_lanes() {
    const QUERY_ROWS: usize = 16;
    const DOC_ROWS: usize = 5;
    const DIM: usize = 257;

    let query = vec![u8::MAX; QUERY_ROWS * DIM];
    let docs = vec![0x0f; DOC_ROWS * DIM];
    let packed_docs = pack_u4(&docs, DOC_ROWS, DIM);
    let packed_query = BlockTransposed::<V3_MR>::from_rows(&query, QUERY_ROWS, DIM).unwrap();
    let docs_view = UnpackedU4Rows::new(&packed_docs, DOC_ROWS, DIM).unwrap();
    let expected = i32::from(u8::MAX) * 0x0f * DIM as i32;

    let mut scalar = vec![0i32; QUERY_ROWS * DOC_ROWS];
    compute_scalar(&packed_query, docs_view, &mut scalar).unwrap();
    assert!(scalar.iter().all(|&value| value == expected));

    let mut actual = vec![0i32; QUERY_ROWS * DOC_ROWS];
    compute_v3(&packed_query, docs_view, &mut actual).unwrap();
    assert_eq!(actual, scalar);
}

#[test]
fn ignores_unused_high_nibble_for_odd_dimensions() {
    const QUERY_ROWS: usize = 3;
    const DOC_ROWS: usize = 2;
    const DIM: usize = 3;

    let query = query_values(QUERY_ROWS, DIM);
    let docs = doc_values(DOC_ROWS, DIM);
    let mut packed_docs = pack_u4(&docs, DOC_ROWS, DIM);
    for row in 0..DOC_ROWS {
        packed_docs[row * DIM.div_ceil(2) + 1] |= 0xf0;
    }

    let packed_query = BlockTransposed::<V3_MR>::from_rows(&query, QUERY_ROWS, DIM).unwrap();
    let docs_view = UnpackedU4Rows::new(&packed_docs, DOC_ROWS, DIM).unwrap();
    let expected = reference(&query, QUERY_ROWS, &docs, DOC_ROWS, DIM);

    let mut scalar = vec![0i32; expected.len()];
    compute_scalar(&packed_query, docs_view, &mut scalar).unwrap();
    assert_eq!(scalar, expected);

    let mut actual = vec![0i32; expected.len()];
    compute_v3(&packed_query, docs_view, &mut actual).unwrap();
    assert_eq!(actual, expected);
}

#[test]
fn rejects_invalid_storage_shapes() {
    assert_eq!(
        UnpackedU4Rows::new(&[], 1, 0).unwrap_err(),
        ShapeError::EmptyDimension
    );
    assert_eq!(
        UnpackedU4Rows::new(&[0; 3], 2, 4).unwrap_err(),
        ShapeError::DocumentStorage {
            expected: 4,
            actual: 3,
        }
    );

    let query = query_values(2, 4);
    let packed_query = BlockTransposed::<V3_MR>::from_rows(&query, 2, 4).unwrap();
    let docs = UnpackedU4Rows::new(&[0; 2], 1, 4).unwrap();
    assert_eq!(
        compute_scalar(&packed_query, docs, &mut [0; 1]),
        Err(ShapeError::OutputStorage {
            expected: 2,
            actual: 1,
        })
    );
}

#[test]
fn reports_every_shape_error_and_leaves_the_output_alone() {
    assert_eq!(
        UnpackedU4Rows::new(&[], usize::MAX, 4).unwrap_err(),
        ShapeError::SizeOverflow
    );

    let query = BlockTransposed::<V3_MR>::from_rows(&query_values(2, 4), 2, 4).unwrap();
    let docs = UnpackedU4Rows::new(&[0; 3], 1, 6).unwrap();
    let mut output = [7, 8];
    assert_eq!(
        compute_v3(&query, docs, &mut output),
        Err(ShapeError::DimensionMismatch {
            query: 4,
            document: 6,
        })
    );
    assert_eq!(output, [7, 8]);

    let dim = MAX_DIM + 1;
    let long = BlockTransposed::<1>::from_rows(&vec![255; dim], 1, dim).unwrap();
    let bytes = vec![0xff; dim.div_ceil(2)];
    let docs = UnpackedU4Rows::new(&bytes, 1, dim).unwrap();
    assert_eq!(
        validate(&long, docs, &[0]),
        Err(ShapeError::DimensionTooLarge {
            dimension: dim,
            maximum: 561_433,
        })
    );
}

#[test]
fn the_largest_dimension_fits_an_i32() {
    let query = BlockTransposed::<1>::from_rows(&vec![255; MAX_DIM], 1, MAX_DIM).unwrap();
    let bytes = vec![0xff; MAX_DIM.div_ceil(2)];
    let docs = UnpackedU4Rows::new(&bytes, 1, MAX_DIM).unwrap();
    let mut output = [0];
    compute_scalar(&query, docs, &mut output).unwrap();
    assert_eq!(output, [255 * 15 * MAX_DIM as i32]);
}

#[test]
fn blocks_store_two_columns_row_by_row() {
    let matrix = BlockTransposed::<4>::from_rows(&[1, 2, 3, 4, 5, 6], 2, 3).unwrap();
    assert_eq!((matrix.nrows(), matrix.ncols()), (2, 3));
    assert_eq!((matrix.blocks(), matrix.padded_ncols()), (1, 4));
    assert_eq!(matrix.block_stride(), 16);
    assert_eq!(
        matrix.data,
        [1, 2, 4, 5, 0, 0, 0, 0, 3, 0, 6, 0, 0, 0, 0, 0]
    );
    assert_eq!(matrix.at(0, 1, 2), 6);
    assert!(BlockTransposed::<4>::from_rows(&[], 0, 3).is_none());
    assert!(BlockTransposed::<4>::from_rows(&[], 3, 0).is_none());
}

#[test]
fn nibbles_are_read_low_first() {
    let docs = UnpackedU4Rows::new(&[0x21, 0x43, 0x65, 0x87], 2, 3).unwrap();
    let values: Vec<u8> = (0..3).map(|col| docs.value(1, col)).collect();
    assert_eq!(values, [5, 6, 7]);
}
