//! Bit packing of bounded integers.

use binary_proofs::bridge::packing::{
    bounded_u64_bit_width, pack_bounded_u64_array, packed_bounded_u64_len,
    unpack_bounded_u64_array,
};
use binary_proofs::bridge::parity::BINIUS_SCALAR_BITS;

fn bounds_from_prefix(prefix: &[u64]) -> [u64; BINIUS_SCALAR_BITS] {
    let mut bounds = [0u64; BINIUS_SCALAR_BITS];
    bounds[..prefix.len()].copy_from_slice(prefix);
    bounds
}

#[test]
fn claim_reduced_bounded_u64_packing_round_trips() {
    let bounds = bounds_from_prefix(&[0, 1, 2, 3, 255, 256, 1023, u64::MAX]);
    let mut values = [0u64; BINIUS_SCALAR_BITS];
    values[..8].copy_from_slice(&[0, 1, 2, 3, 255, 256, 511, u64::MAX]);

    let packed = pack_bounded_u64_array(&values, &bounds).unwrap();
    assert_eq!(packed.len(), packed_bounded_u64_len(&bounds));
    assert_eq!(unpack_bounded_u64_array(&packed, &bounds), Some(values));
}

#[test]
fn hachi_succinct_channel_bounded_u64_packing_round_trips() {
    let bounds = bounds_from_prefix(&[0, 1, 2, 3, 255, 256, 1023, u64::MAX]);
    let mut values = [0u64; BINIUS_SCALAR_BITS];
    values[..8].copy_from_slice(&[0, 1, 2, 3, 255, 256, 511, u64::MAX]);

    let packed = pack_bounded_u64_array(&values, &bounds).unwrap();
    assert_eq!(packed.len(), packed_bounded_u64_len(&bounds));
    assert_eq!(unpack_bounded_u64_array(&packed, &bounds), Some(values));
}

#[test]
fn claim_reduced_bounded_u64_packing_rejects_out_of_range_values() {
    let bounds = bounds_from_prefix(&[3]);
    let mut values = [0u64; BINIUS_SCALAR_BITS];
    values[0] = 4;

    assert_eq!(pack_bounded_u64_array(&values, &bounds), None);
}

#[test]
fn hachi_succinct_channel_bounded_u64_packing_rejects_out_of_range_values() {
    let bounds = bounds_from_prefix(&[3]);
    let mut values = [0u64; BINIUS_SCALAR_BITS];
    values[0] = 4;

    assert_eq!(pack_bounded_u64_array(&values, &bounds), None);
}

#[test]
fn claim_reduced_bounded_u64_unpacking_rejects_out_of_range_values() {
    let bounds = bounds_from_prefix(&[2]);
    let packed = [3];

    assert_eq!(unpack_bounded_u64_array(&packed, &bounds), None);
}

#[test]
fn hachi_succinct_channel_bounded_u64_unpacking_rejects_out_of_range_values() {
    let bounds = bounds_from_prefix(&[2]);
    let packed = [3];

    assert_eq!(unpack_bounded_u64_array(&packed, &bounds), None);
}

#[test]
fn claim_reduced_bounded_u64_unpacking_rejects_nonzero_padding() {
    let bounds = bounds_from_prefix(&[1]);
    let packed = [0b1000_0000];

    assert_eq!(unpack_bounded_u64_array(&packed, &bounds), None);
}

#[test]
fn hachi_succinct_channel_bounded_u64_unpacking_rejects_nonzero_padding() {
    let bounds = bounds_from_prefix(&[1]);
    let packed = [0b1000_0000];

    assert_eq!(unpack_bounded_u64_array(&packed, &bounds), None);
}

#[test]
fn widths_are_those_of_the_bounds() {
    assert_eq!(bounded_u64_bit_width(0), 0);
    assert_eq!(bounded_u64_bit_width(1), 1);
    assert_eq!(bounded_u64_bit_width(255), 8);
    assert_eq!(bounded_u64_bit_width(256), 9);
    assert_eq!(bounded_u64_bit_width(u64::MAX), 64);
    assert_eq!(packed_bounded_u64_len(&bounds_from_prefix(&[])), 0);
    assert_eq!(packed_bounded_u64_len(&bounds_from_prefix(&[3, 127])), 2);
    assert_eq!(packed_bounded_u64_len(&[u64::MAX; 128]), 1024);
}

#[test]
fn values_follow_one_another_from_the_lowest_bit() {
    let bounds = bounds_from_prefix(&[7, 31, 3]);
    let mut values = [0u64; BINIUS_SCALAR_BITS];
    values[..3].copy_from_slice(&[0b101, 0b10011, 0b10]);
    assert_eq!(pack_bounded_u64_array(&values, &bounds), Some(vec![0b1001_1101, 0b10]));
    assert_eq!(unpack_bounded_u64_array(&[0b1001_1101], &bounds), None);
    assert_eq!(unpack_bounded_u64_array(&[0b1001_1101, 0b10, 0], &bounds), None);
}
