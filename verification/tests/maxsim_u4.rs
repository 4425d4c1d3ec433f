use diskann_layout::matrix_kernels::blocks::{BlockTransposed, ByteRows};
use diskann_layout::matrix_kernels::maxsim::error::DriverError;
use diskann_layout::matrix_kernels::maxsim::packed_u8_x_unpacked_u4::{
    Driver, PairView, MAX_K_PAIRS,
};
use diskann_layout::matrix_kernels::maxsim::params::{Cache, Params};
use rand::{rngs::StdRng, Rng, SeedableRng};

const CACHE: Cache = Cache {
    l1: 32 * 1024,
    l2: 1024 * 1024,
};

fn generate(
    m: usize,
    logical_k: usize,
    n: usize,
    rng: &mut StdRng,
) -> (Vec<u8>, Vec<u8>, Vec<u32>) {
    let a: Vec<u8> = (0..m * logical_k).map(|_| rng.random::<u8>()).collect();
    let docs: Vec<u8> = (0..n * logical_k)
        .map(|_| rng.random_range(0u8..16))
        .collect();
    let pair_k = logical_k.div_ceil(2);
    let mut b = vec![0u8; n * pair_k];

    for row in 0..n {
        for col in 0..logical_k {
            b[row * pair_k + col / 2] |= docs[row * logical_k + col] << (4 * (col % 2));
        }
        if logical_k % 2 != 0 {
            b[row * pair_k + pair_k - 1] |= 0xf0;
        }
    }

    let c = a
        .chunks_exact(logical_k)
        .map(|a_row| {
            docs.chunks_exact(logical_k)
                .map(|doc| {
                    a_row
                        .iter()
                        .zip(doc)
                        .map(|(&x, &y)| u32::from(x) * u32::from(y))
                        .sum()
                })
                .max()
                .unwrap()
        })
        .collect();

    (a, b, c)
}

fn check<const MR: usize, const NR: usize>(
    m: usize,
    logical_k: usize,
    n: usize,
    params: Params,
    rng: &mut StdRng,
) {
    let (a, b, expected) = generate(m, logical_k, n, rng);
    let a = BlockTransposed::<MR>::from_rows(&a, m, logical_k).unwrap();
    let pairs = logical_k.div_ceil(2);
    let b = ByteRows::new(&b, n, pairs).unwrap();
    let mut actual = vec![u32::MAX; m];

    let view = PairView::from_u8_pairs(&a).unwrap();
    let driver = Driver::<MR, NR>::new_inner(view, b, m, pairs, params);
    driver.drive(&mut actual);
    assert_eq!(expected, actual, "setup: {m} {logical_k} {n} {params:?}");

    let view = PairView::from_u8_pairs(&a).unwrap();
    let driver = Driver::<MR, NR>::new(view, b, m, pairs, CACHE);
    actual.fill(3);
    driver.drive(&mut actual);
    assert_eq!(expected, actual);
}

fn one_panel<const MR: usize, const NR: usize>(logical_k: usize, rng: &mut StdRng) {
    let params = Params {
        a_panels_in_l2: 1,
        b_cols_in_l1: NR,
    };
    check::<MR, NR>(MR, logical_k, NR, params, rng);
}

#[test]
fn test_micro_kernel_scalar() {
    let mut rng = StdRng::seed_from_u64(0x759722e1a83e4566);
    for logical_k in [1, 2, 5, 8, 257] {
        one_panel::<8, 2>(logical_k, &mut rng);
        one_panel::<8, 1>(logical_k, &mut rng);
    }
}

#[test]
fn rejects_nonzero_odd_column_padding() {
    let a = vec![1u8; 8 * 3];
    let mut a = BlockTransposed::<8>::from_rows(&a, 8, 3).unwrap();
    a.data[2 * 8 + 1] = 1;
    assert!(PairView::from_u8_pairs(&a).is_none());
}

#[test]
fn test_micro_kernel_v3() {
    let mut rng = StdRng::seed_from_u64(0x157f59d99f648437);
    for logical_k in [1, 2, 5, 8, 257] {
        one_panel::<16, 6>(logical_k, &mut rng);
        one_panel::<16, 5>(logical_k, &mut rng);
        one_panel::<16, 1>(logical_k, &mut rng);
    }
}

fn test_driver<const MR: usize, const NR: usize>(rng: &mut StdRng) {
    for m in [1, MR - 1, MR, MR + 1, 3 * MR, 5 * MR + 2] {
        for n in [1, NR, NR + 1, 2 * NR, 3 * NR + 1] {
            for k in [1, 2, 3, 16, 17] {
                for (a_panels_in_l2, b_cols_in_l1) in [(1, NR), (2, 2 * NR), (7, 1)] {
                    let params = Params {
                        a_panels_in_l2,
                        b_cols_in_l1,
                    };
                    check::<MR, NR>(m, k, n, params, rng);
                }
            }
        }
    }
}

#[test]
fn test_driver_scalar() {
    test_driver::<8, 2>(&mut StdRng::seed_from_u64(0x2c03eb9ee51d30c3));
}

#[test]
fn test_driver_v3() {
    test_driver::<16, 6>(&mut StdRng::seed_from_u64(0x2c03eb9ee51d30c3));
}

#[test]
fn pair_drivers_report_mismatched_shapes() {
    let a = BlockTransposed::<8>::from_rows(&[1; 6], 2, 3).unwrap();
    let docs = [0x21; 4];
    let b = ByteRows::new(&docs, 2, 2).unwrap();

    let error = Driver::<8, 2>::check(&a, b, 2, 3).err();
    assert_eq!(error, Some(DriverError::ContractionDimension));
    let error = Driver::<8, 2>::check(&a, b, 9, 2).err();
    assert_eq!(error, Some(DriverError::OutputLength));
    assert_eq!(Driver::<8, 2>::check(&a, b, 8, 2), Ok(()));

    let pairs = MAX_K_PAIRS + 1;
    let a = BlockTransposed::<1>::from_rows(&vec![255; 2 * pairs], 1, 2 * pairs).unwrap();
    let docs = vec![0xff; pairs];
    let b = ByteRows::new(&docs, 1, pairs).unwrap();
    let error = Driver::<1, 2>::check(&a, b, 1, pairs).err();
    assert_eq!(error, Some(DriverError::AccumulatorCapacity));
    assert!(error.unwrap().message().contains("u32 accumulator capacity"));
}

#[test]
fn the_largest_number_of_pairs_fits_a_u32() {
    let pairs = MAX_K_PAIRS;
    let a = BlockTransposed::<1>::from_rows(&vec![255; 2 * pairs], 1, 2 * pairs).unwrap();
    let docs = vec![0xff; pairs];
    let b = ByteRows::new(&docs, 1, pairs).unwrap();
    let view = PairView::from_u8_pairs(&a).unwrap();
    let mut c = [0];
    Driver::<1, 2>::new(view, b, 1, pairs, CACHE).drive(&mut c);
    assert_eq!(c, [7650 * pairs as u32]);
}
