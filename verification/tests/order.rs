use diskann_layout::bytes::{
    append_bytes, append_u32s, append_u64s, bytes_equal, read_u32_at, read_u64_at,
};
use diskann_layout::float_bits::{are_equal, is_equal, is_finite, is_less, is_number, order_key};
use diskann_layout::heap::MaxHeap;
use diskann_layout::text::append_decimal;
use rand::{rngs::StdRng, Rng, SeedableRng};

#[test]
fn bit_patterns_are_ordered_like_their_numbers() {
    let mut rng = StdRng::seed_from_u64(7);
    let mut patterns: Vec<u32> = (0..200).map(|_| rng.random()).collect();
    for value in [
        0.0f32,
        -0.0,
        1.0,
        -1.0,
        f32::INFINITY,
        f32::NEG_INFINITY,
        f32::NAN,
        -f32::NAN,
        f32::MIN_POSITIVE,
        f32::MAX,
    ] {
        patterns.push(value.to_bits());
    }
    for &left in &patterns {
        let x = f32::from_bits(left);
        assert_eq!(is_finite(left), x.is_finite());
        assert_eq!(is_number(left), !x.is_nan());
        for &right in &patterns {
            let y = f32::from_bits(right);
            assert_eq!(is_less(left, right), x < y);
            assert_eq!(is_equal(left, right), x == y);
            assert_eq!(are_equal(&[left, 1], &[right, 1]), x == y);
            assert_eq!(order_key(left).cmp(&order_key(right)), x.total_cmp(&y));
        }
    }
}

#[test]
fn heaps_give_the_largest_key_first() {
    let mut rng = StdRng::seed_from_u64(8);
    let mut keys: Vec<u128> = (0..300).map(|_| rng.random_range(0..100)).collect();
    let mut heap = MaxHeap::new();
    for &key in &keys {
        heap.push(key);
    }
    keys.sort_unstable();
    while let Some(key) = keys.pop() {
        assert_eq!(heap.pop(), Some(key));
    }
    assert_eq!(heap.pop(), None);
}

#[test]
fn numbers_are_written_in_decimal() {
    for value in [0, 7, 10, 1234567890, u64::MAX] {
        let mut text = "x".to_string();
        append_decimal(&mut text, value);
        assert_eq!(text, format!("x{value}"));
    }
}

#[test]
fn integers_are_little_endian() {
    let mut buffer = Vec::new();
    append_bytes(&mut buffer, &[9]);
    append_u32s(&mut buffer, &[0x0403_0201, 5]);
    append_u64s(&mut buffer, &[0x0807_0605_0403_0201]);
    assert_eq!(
        buffer,
        [9, 1, 2, 3, 4, 5, 0, 0, 0, 1, 2, 3, 4, 5, 6, 7, 8]
    );
    assert_eq!(read_u32_at(&buffer, 1), 0x0403_0201);
    assert_eq!(read_u64_at(&buffer, 9), 0x0807_0605_0403_0201);
    assert!(bytes_equal(&buffer[1..5], &[1, 2, 3, 4]));
    assert!(!bytes_equal(&buffer[1..5], &[1, 2, 3]));
    assert!(!bytes_equal(&buffer[1..5], &[1, 2, 3, 5]));
}
