use diskann_layout::wide::{
    load_first_of_16_bytes, load_first_u16_of_16_bytes, multiply_sum_saturating_u8x32_i8x32,
    splat_u4x4, splat_u4x8, sum_adjacent_i32x16,
};
use rand::{rngs::StdRng, Rng, SeedableRng};

#[test]
fn test_splat_u4x4() {
    let check = |input: u16| {
        let bytes = input.to_le_bytes();
        let expected = bytes.map(|b| [b & 0x0f, b >> 4]);
        for (i, lane) in splat_u4x4(input).into_iter().enumerate() {
            assert_eq!(lane, expected[(i % 4) / 2][i % 2] as i8);
        }
    };
    let mut rng = StdRng::seed_from_u64(0xe60aa814);
    for _ in 0..100 {
        check(rng.random());
    }
    for lane in 0..4 {
        for nibble in 0..=15 {
            check(nibble << (4 * lane));
        }
    }
}

#[test]
fn test_multiply_sum_saturating_u8x32_i8x32() {
    let check = |a: &[u8; 32], b: &[i8; 32]| {
        let expected: [i16; 16] = core::array::from_fn(|i| {
            let sum = (0..2)
                .map(|j| i32::from(a[2 * i + j]) * i32::from(b[2 * i + j]))
                .sum::<i32>();
            sum.clamp(i32::from(i16::MIN), i32::from(i16::MAX)) as i16
        });
        assert_eq!(multiply_sum_saturating_u8x32_i8x32(a, b), expected);
    };
    let mut rng = StdRng::seed_from_u64(0x67b693ff);
    for _ in 0..100 {
        check(
            &core::array::from_fn(|_| rng.random()),
            &core::array::from_fn(|_| rng.random()),
        );
    }
    check(&[255; 32], &[127; 32]);
    check(&[255; 32], &[-128; 32]);
    check(&[255; 32], &[15; 32]);
}

#[test]
fn test_splat_u4x8() {
    let check = |input: u32| {
        let bytes = input.to_le_bytes();
        let expected = bytes.map(|b| [b & 0x0f, b >> 4]);
        for (i, lane) in splat_u4x8(input).into_iter().enumerate() {
            assert_eq!(lane, expected[(i % 8) / 2][i % 2] as i8);
        }
    };
    let mut rng = StdRng::seed_from_u64(0x9578d17b);
    for _ in 0..100 {
        check(rng.random());
    }
    for lane in 0..8 {
        for nibble in 0..=15 {
            check(nibble << (4 * lane));
        }
    }
}

#[test]
fn test_sum_adjacent_i32x16() {
    let check = |input: &[i32; 16]| {
        let expected: [i32; 8] =
            core::array::from_fn(|i| input[2 * i].wrapping_add(input[2 * i + 1]));
        assert_eq!(sum_adjacent_i32x16(input), expected);
    };
    let mut rng = StdRng::seed_from_u64(0xf7d2c381);
    for _ in 0..100 {
        check(&core::array::from_fn(|_| rng.random()));
    }
    check(&[i32::MAX; 16]);
    check(&[i32::MIN; 16]);
    check(&core::array::from_fn::<_, 16, _>(|i| {
        if i % 2 == 0 {
            i32::MAX
        } else {
            1
        }
    }));
}

#[test]
fn loads_only_the_first_bytes() {
    let source: Vec<u8> = (1..=20).collect();
    for first in 0..20 {
        let mut padded = [0u8; 16];
        let count = first.min(16);
        padded[..count].copy_from_slice(&source[..count]);
        let expected = u128::from_le_bytes(padded);
        assert_eq!(load_first_of_16_bytes(&source[..count], first), expected);
    }
    assert_eq!(load_first_of_16_bytes(&[0xff; 16], 16), u128::MAX);
}

#[test]
fn loads_only_the_first_words() {
    let source: Vec<u16> = (0..10).map(|i| 0x1234 + i).collect();
    for first in 0..10 {
        let expected: [u16; 8] =
            core::array::from_fn(|lane| if lane < first { source[lane] } else { 0 });
        let count = first.min(8);
        assert_eq!(load_first_u16_of_16_bytes(&source[..count], first), expected);
    }
}
