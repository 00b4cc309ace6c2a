use comphdl::bit::Bit::{H, L, X};
use comphdl::bit::{next_bit_combination, Bit, InfiniteInputIterator, RepInputIterator};

#[test]
fn inf_equals_rep_1() {
    let mut inf = InfiniteInputIterator::new(4);
    let mut rep = RepInputIterator::new(4, 1);

    for _ in 0..20 {
        assert_eq!(inf.next(), rep.next());
    }
}

#[test]
fn inf_equals_rep_2() {
    let mut inf = InfiniteInputIterator::new(4);
    let mut rep = RepInputIterator::new(4, 2);

    for _ in 0..20 {
        rep.next();
        assert_eq!(inf.next(), rep.next());
    }
}

#[test]
fn from_bool_maps_true_to_high() {
    assert_eq!(Bit::from_bool(true), Bit::H);
    assert_eq!(Bit::from_bool(false), Bit::L);
}

#[test]
fn from_u8_is_most_significant_first() {
    assert_eq!(Bit::from_u8(0), vec![L, L, L, L, L, L, L, L]);
    assert_eq!(Bit::from_u8(1), vec![L, L, L, L, L, L, L, H]);
    assert_eq!(Bit::from_u8(0x80), vec![H, L, L, L, L, L, L, L]);
    assert_eq!(Bit::from_u8(0xA5), vec![H, L, H, L, L, H, L, H]);
    assert_eq!(Bit::from_u8(255), vec![H, H, H, H, H, H, H, H]);
}

#[test]
fn bit8_into_u8_reads_unknown_as_zero() {
    assert_eq!(Bit::bit8_into_u8(&[L, H, L, L, H, L, L, L]), b'H');
    assert_eq!(Bit::bit8_into_u8(&[X, H, X, L, H, L, L, X]), b'H');
    assert_eq!(Bit::bit8_into_u8(&[X, X, X, X, X, X, X, X]), 0);
}

#[test]
fn byte_round_trip() {
    for x in 0..=255u8 {
        assert_eq!(Bit::bit8_into_u8(&Bit::from_u8(x)), x);
    }
}

#[test]
fn next_combination_counts_and_wraps() {
    assert_eq!(next_bit_combination(&[]), Vec::<Bit>::new());
    assert_eq!(next_bit_combination(&[L, L]), vec![L, H]);
    assert_eq!(next_bit_combination(&[L, H]), vec![H, L]);
    assert_eq!(next_bit_combination(&[H, L]), vec![H, H]);
    assert_eq!(next_bit_combination(&[H, H]), vec![L, L]);
}

#[test]
fn next_combination_carries_over_unknown() {
    assert_eq!(next_bit_combination(&[L, X, H]), vec![H, X, L]);
    assert_eq!(next_bit_combination(&[L, X, L]), vec![L, X, H]);
    assert_eq!(next_bit_combination(&[X, H]), vec![X, L]);
}

#[test]
fn infinite_iterator_starts_all_low_and_counts() {
    let mut it = InfiniteInputIterator::new(2);
    assert_eq!(it.next(), Some(vec![L, L]));
    assert_eq!(it.next(), Some(vec![L, H]));
    assert_eq!(it.next(), Some(vec![H, L]));
    assert_eq!(it.next(), Some(vec![H, H]));
    assert_eq!(it.next(), Some(vec![L, L]));
}

#[test]
fn rep_iterator_repeats_each_combination() {
    let mut it = RepInputIterator::new(1, 3);
    for _ in 0..3 {
        assert_eq!(it.next(), Some(vec![L]));
    }
    for _ in 0..3 {
        assert_eq!(it.next(), Some(vec![H]));
    }
    assert_eq!(it.next(), Some(vec![L]));
}
