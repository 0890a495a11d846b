//! Numbers inside reports.
use flexinput_btle::fields::{
    accel_fields, bit_field, bit_field_msb, extremes, field, mean_of, motion_groups,
    packed_extremes, power, range_of, read_masked, span_of, unwrap_mod, Codec,
};
use flexinput_btle::recording::Side;

#[test]
fn a_field_is_signed_and_little_endian() {
    assert_eq!(field(&[0, 0x34, 0x12], 1), Some(0x1234));
    assert_eq!(field(&[0xFF, 0xFF], 0), Some(-1));
    assert_eq!(field(&[0, 0x80], 0), Some(-32768));
    assert_eq!(field(&[1], 0), None);
    assert_eq!(field(&[1, 2], 1), None);
}

#[test]
fn a_range_and_a_mean_pass_over_short_reports() {
    let frames = vec![vec![10, 0], vec![1], vec![0xF6, 0xFF], vec![3, 0]];
    assert_eq!(range_of(&frames, 0), 20);
    assert_eq!(mean_of(&frames, 0), 1);
    assert_eq!(range_of(&frames, 1), 0);
    assert_eq!(mean_of(&[vec![0xFE, 0xFF], vec![0xFF, 0xFF]], 0), -1, "towards zero");
}

#[test]
fn every_packing_is_read() {
    let f = [0x01, 0x02, 0x83];
    assert_eq!(Codec::I16Le.read(&f, 0), Some(0x0201));
    assert_eq!(Codec::I16Be.read(&f, 0), Some(0x0102));
    assert_eq!(Codec::I24Le.read(&f, 0), Some(0x83_0201 - 0x100_0000));
    assert_eq!(Codec::I24Be.read(&f, 0), Some(0x01_0283));
    assert_eq!(Codec::I24Le.read(&f, 1), None);
    assert_eq!((Codec::I16Le.width(), Codec::I24Be.width()), (2, 3));
    assert_eq!(Codec::I16Le.name(), "i16le");
}

#[test]
fn extremes_are_among_the_values_and_bound_them() {
    let frames = vec![vec![5, 0], vec![1, 0], vec![9, 0]];
    assert_eq!(extremes(Codec::I16Le, &frames, 0), Some((1, 9)));
    assert_eq!(span_of(Codec::I16Le, &frames, 0), 8);
    assert_eq!(extremes(Codec::I24Le, &frames, 0), None);
    assert_eq!(span_of(Codec::I24Le, &frames, 0), 0);
}

#[test]
fn bits_are_taken_from_anywhere() {
    assert_eq!(bit_field(&[0b1010_0000, 0b0000_0001], 5, 4), Some(0b1101 - 16));
    assert_eq!(bit_field_msb(&[0b0000_0101, 0b1000_0000], 5, 4), Some(0b1011 - 16));
    assert_eq!(bit_field(&[0b0000_0110], 1, 3), Some(3));
    assert_eq!(bit_field(&[0xFF], 5, 4), None);
    assert_eq!(bit_field_msb(&[0xFF], 5, 4), None);
    assert_eq!((power(0), power(5), power(63)), (1, 32, 1 << 63));
}

#[test]
fn a_counter_of_any_width_is_read() {
    assert_eq!(read_masked(&[0x34, 0x12, 0xFF], 0, 12, false), Some(0x234));
    assert_eq!(read_masked(&[0x12, 0x34], 0, 12, true), Some(0x234));
    assert_eq!(read_masked(&[0x12], 0, 12, true), None);
}

#[test]
fn a_counter_that_wraps_is_unwound() {
    assert_eq!(unwrap_mod(&[250, 254, 2, 6], 8), vec![0, 4, 8, 12]);
    assert_eq!(unwrap_mod(&[2, 250], 8), vec![0, -8]);
    assert_eq!(unwrap_mod(&[], 8), Vec::<i128>::new());
}

#[test]
fn the_extremes_of_a_packed_field_are_found() {
    let frames = vec![vec![9, 0x34, 0x02], vec![9, 0xFF, 0x0F], vec![9], vec![9, 0x00, 0x08]];
    assert_eq!(packed_extremes(&frames, 1, 0, 12), Some((-2048, 0x234)));
    assert_eq!(packed_extremes(&frames, 1, 4, 12), Some((0x023, 0x0FF)));
    assert_eq!(packed_extremes(&frames, 1, 8, 12), None);
    assert_eq!(packed_extremes(&[], 0, 0, 12), None);
}

#[test]
fn the_motion_of_a_half_stands_before_its_accelerometer() {
    let mut f = vec![0u8; 45];
    f[19..23].copy_from_slice(&[0x01, 0xFF, 0xFF, 0xFF]);
    f[33] = 7;
    f[41..43].copy_from_slice(&[0xFE, 0xFF]);
    let g = motion_groups(Side::Left, &f);
    assert_eq!(g.len(), 3);
    assert_eq!((g[0].bytes, g[0].unsigned, g[0].signed), ([1, 0xFF, 0xFF, 0xFF], 0xFF_FFFF, -1));
    assert_eq!(g[0].whole, 0xFFFF_FF01);
    assert_eq!((g[1].unsigned, g[1].signed, g[1].whole), (0, 0, 0));
    assert_eq!(accel_fields(Side::Left, &f), [7, 0, -2]);
    let g = motion_groups(Side::Right, &f);
    assert_eq!((g[0].bytes, g[0].unsigned), ([0xFF, 0xFF, 0xFF, 0x00], 0xFFFF));
    assert_eq!(accel_fields(Side::Right, &f[..40])[2], 0, "the report ends before it");
    assert_eq!(motion_groups(Side::Left, &f[..27]).len(), 2);
}
