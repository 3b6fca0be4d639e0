use lau_supergeometry::bits::{bit_is_set, count_bits_below, count_ones, low_bits};
use lau_supergeometry::supervector::diagonal_matrix;
use lau_supergeometry::ExteriorAlgebra;

#[test]
fn popcount_values() {
    assert_eq!(count_ones(0), 0);
    assert_eq!(count_ones(0b1011), 3);
    assert_eq!(count_ones(u64::MAX), 64);
}

#[test]
fn count_bits_below_values() {
    assert_eq!(count_bits_below(0b1011, 0), 0);
    assert_eq!(count_bits_below(0b1011, 2), 2);
    assert_eq!(count_bits_below(0b1011, 3), 2);
    assert_eq!(count_bits_below(0b1011, 64), 3);
    assert_eq!(count_bits_below(u64::MAX, 100), 64);
}

#[test]
fn low_bits_and_bit_test() {
    assert_eq!(low_bits(0), 0);
    assert_eq!(low_bits(5), 0b11111);
    assert_eq!(low_bits(63), u64::MAX >> 1);
    assert!(bit_is_set(0b100, 2));
    assert!(!bit_is_set(0b100, 1));
}

#[test]
fn diagonal_matrix_layout() {
    let m = diagonal_matrix(&vec![2.0, 1.0, 0.0], 0.0);
    assert_eq!(m, vec![vec![2.0, 0.0, 0.0], vec![0.0, 1.0, 0.0], vec![0.0, 0.0, 0.0]]);
    let empty: Vec<u8> = vec![];
    assert!(diagonal_matrix(&empty, 0).is_empty());
}

#[test]
fn wedge_unit_and_nilpotent() {
    let e = ExteriorAlgebra::new(3, vec![]);
    assert_eq!(e.signed_wedge(0, 0b101), (1, 0b101));
    assert_eq!(e.signed_wedge(0b101, 0), (1, 0b101));
    assert_eq!(e.signed_wedge(0b101, 0b101), (0, 0));
}

