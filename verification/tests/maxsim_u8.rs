use diskann_layout::matrix_kernels::blocks::{BlockTransposed, ByteRows};
use diskann_layout::matrix_kernels::maxsim::error::DriverError;
use diskann_layout::matrix_kernels::maxsim::packed_u8_x_unpacked_u8::{Driver, MAX_K, MAX_PRODUCT};
use diskann_layout::matrix_kernels::maxsim::params::{Cache, Params};

const CACHE: Cache = Cache {
    l1: 32 * 1024,
    l2: 1024 * 1024,
};

struct Matrix<'a> {
    values: &'a [u8],
    rows: usize,
    dim: usize,
}

fn run<const MR: usize, const NR: usize>(query: &Matrix<'_>, docs: &Matrix<'_>) -> Vec<u32> {
    let packed = BlockTransposed::<MR>::from_rows(query.values, query.rows, query.dim).unwrap();
    let k = packed.padded_ncols();
    let b = ByteRows::new(docs.values, docs.rows, docs.dim).unwrap();
    let mut c = vec![0; packed.nrows()];

    let driver = Driver::<MR, NR>::new(&packed, b, c.len(), k, CACHE);
    driver.drive(&mut c);
    c
}

fn query_values(rows: usize, dim: usize) -> Vec<u8> {
    (0..rows * dim)
        .map(|i| ((i * 37 + 11) % 256) as u8)
        .collect()
}

fn document_values(rows: usize, dim: usize) -> Vec<u8> {
    (0..rows * dim).map(|i| ((i * 7 + 3) % 16) as u8).collect()
}

fn pad_documents(values: &[u8], rows: usize, dim: usize) -> Vec<u8> {
    let padded_dim = dim.next_multiple_of(2);
    let mut padded = Vec::with_capacity(rows * padded_dim);
    for row in values.chunks_exact(dim) {
        padded.extend_from_slice(row);
        padded.resize(padded.len() + padded_dim - dim, 0);
    }
    padded
}

fn reference(query: &[u8], docs: &[u8], dim: usize) -> Vec<u32> {
    query
        .chunks_exact(dim)
        .map(|query| {
            docs.chunks_exact(dim)
                .map(|doc| {
                    query
                        .iter()
                        .zip(doc)
                        .map(|(&a, &b)| u32::from(a) * u32::from(b))
                        .sum()
                })
                .max()
                .unwrap()
        })
        .collect()
}

fn check_case(query_rows: usize, document_rows: usize, dim: usize) {
    let query = query_values(query_rows, dim);
    let documents = document_values(document_rows, dim);
    let padded_documents = pad_documents(&documents, document_rows, dim);
    let expected = reference(&query, &documents, dim);
    let query = Matrix {
        values: &query,
        rows: query_rows,
        dim,
    };
    let padded = Matrix {
        values: &padded_documents,
        rows: document_rows,
        dim: dim.next_multiple_of(2),
    };

    assert_eq!(run::<8, 2>(&query, &padded), expected);
    assert_eq!(run::<16, 4>(&query, &padded), expected);
    assert_eq!(run::<16, 6>(&query, &padded), expected);
    assert_eq!(run::<32, 6>(&query, &padded), expected);
    assert_eq!(run::<8, 6>(&query, &padded), expected);
}

#[test]
fn matches_reference_at_panel_boundaries() {
    for m in [1, 7, 8, 9, 15, 16, 17, 33] {
        for n in [1, 2, 3, 4, 5, 9] {
            for k in [1, 2, 3, 31, 32, 33] {
                check_case(m, n, k);
            }
        }
    }
}

#[test]
fn handles_maximum_values() {
    const M: usize = 17;
    const N: usize = 5;
    const K: usize = 257;

    let query = vec![u8::MAX; M * K];
    let documents = vec![u8::MAX; N * K];
    let padded_documents = pad_documents(&documents, N, K);
    let query = Matrix {
        values: &query,
        rows: M,
        dim: K,
    };
    let padded = Matrix {
        values: &padded_documents,
        rows: N,
        dim: K.next_multiple_of(2),
    };
    let expected = u32::from(u8::MAX).pow(2) * K as u32;

    let scalar = run::<8, 2>(&query, &padded);
    assert!(scalar.iter().all(|&value| value == expected));
    assert_eq!(run::<16, 4>(&query, &padded), scalar);
    assert_eq!(run::<32, 6>(&query, &padded), scalar);
}

#[test]
fn accumulates_past_i32_max() {
    const K: usize = 40_000;

    let query = vec![u8::MAX; K];
    let documents = vec![u8::MAX; K];
    let query = Matrix {
        values: &query,
        rows: 1,
        dim: K,
    };
    let documents = Matrix {
        values: &documents,
        rows: 1,
        dim: K,
    };
    let expected = u32::from(u8::MAX).pow(2) * K as u32;
    assert!(expected > i32::MAX as u32);

    let scalar = run::<8, 2>(&query, &documents);
    assert_eq!(scalar, [expected]);
    assert_eq!(run::<16, 4>(&query, &documents), scalar);
    assert_eq!(run::<32, 6>(&query, &documents), scalar);
}

fn message(result: Result<(), DriverError>) -> String {
    result.unwrap_err().message()
}

#[test]
fn rejects_inconsistent_output_and_storage_dimensions() {
    let query = vec![0; 2 * 4];
    let a = BlockTransposed::<8>::from_rows(&query, 2, 4).unwrap();
    let k = 4;
    let documents = [0; 8];
    let b = ByteRows::new(&documents, 2, 4).unwrap();

    let mismatch = Driver::<8, 2>::check(&a, b, 9, k);
    assert!(message(mismatch).contains("packed A blocks"));

    let wrong_k = Driver::<8, 2>::check(&a, b, 2, 2);
    assert!(message(wrong_k).contains("contraction dimensions do not agree"));

    let short_documents = [0; 4];
    let short_b = ByteRows::new(&short_documents, 2, 2).unwrap();
    let short = Driver::<8, 2>::check(&a, short_b, 2, k);
    assert!(message(short).contains("contraction dimensions do not agree"));
}

#[test]
fn accumulator_bounds_are_exact() {
    assert!(MAX_K * MAX_PRODUCT <= u32::MAX as usize);
    assert!((MAX_K + 2) * MAX_PRODUCT > u32::MAX as usize);
}

#[test]
fn rejects_dimensions_beyond_the_accumulator() {
    let dim = MAX_K + 2;
    let values = vec![1; dim];
    let a = BlockTransposed::<8>::from_rows(&values, 1, dim).unwrap();
    let b = ByteRows::new(&values, 1, dim).unwrap();
    let error = Driver::<8, 2>::check(&a, b, 1, dim).err();
    assert_eq!(error, Some(DriverError::AccumulatorBound));
    assert_eq!(
        error.unwrap().message(),
        "dimension exceeds accumulator bound"
    );

    let values = vec![255; MAX_K];
    let a = BlockTransposed::<8>::from_rows(&values, 1, MAX_K).unwrap();
    let b = ByteRows::new(&values, 1, MAX_K).unwrap();
    let mut c = [9];
    assert_eq!(Driver::<8, 2>::check(&a, b, 1, MAX_K), Ok(()));
    Driver::<8, 2>::new(&a, b, 1, MAX_K, CACHE).drive(&mut c);
    assert_eq!(c, [(MAX_K * MAX_PRODUCT) as u32]);
}

#[test]
fn tile_sizes_do_not_change_the_result() {
    let (m, n, k) = (21, 11, 6);
    let query = query_values(m, k);
    let docs = document_values(n, k);
    let expected = reference(&query, &docs, k);
    let a = BlockTransposed::<8>::from_rows(&query, m, k).unwrap();
    let b = ByteRows::new(&docs, n, k).unwrap();
    for a_panels_in_l2 in 1..4 {
        for b_cols_in_l1 in 1..13 {
            let params = Params {
                a_panels_in_l2,
                b_cols_in_l1,
            };
            let driver = Driver::<8, 2>::new_inner(&a, b, m, k, params);
            let mut c = vec![u32::MAX; m];
            driver.drive(&mut c);
            assert_eq!(c, expected);
        }
    }
}

#[test]
fn parameters_follow_the_cache_sizes() {
    let params = Params::new(Cache { l1: 1000, l2: 5000 }, 400, 10, 6);
    assert_eq!(
        params,
        Params {
            a_panels_in_l2: 12,
            b_cols_in_l1: 60,
        }
    );
    let params = Params::new(Cache { l1: 10, l2: 10 }, 400, 10, 6);
    assert_eq!(
        params,
        Params {
            a_panels_in_l2: 1,
            b_cols_in_l1: 6,
        }
    );
}

#[test]
fn byte_matrices_need_rows_and_columns() {
    assert!(ByteRows::new(&[], 0, 4).is_none());
    assert!(ByteRows::new(&[], 4, 0).is_none());
    assert!(ByteRows::new(&[1, 2, 3], 2, 2).is_none());
    assert!(ByteRows::new(&[], usize::MAX, 2).is_none());
    assert_eq!(ByteRows::new(&[1, 2, 3, 4], 2, 2).unwrap().at(1, 0), 3);
}
