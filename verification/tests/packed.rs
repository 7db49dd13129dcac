use psd_viewer::channel::Channel;
use psd_viewer::packbits::{expands_to, unpack_bits};

#[test]
fn repeats_and_copies() {
    let mut out = [9u8; 6];
    unpack_bits(&[1, 7, 8, 254, 5], &mut out);
    assert_eq!(out, [7, 8, 5, 5, 5, 0]);
}

#[test]
fn a_control_byte_may_mean_nothing() {
    let mut out = [9u8; 3];
    unpack_bits(&[128, 0, 4, 128, 255, 6], &mut out);
    assert_eq!(out, [4, 6, 6]);
}

#[test]
fn what_does_not_fit_is_cut_off() {
    let mut out = [9u8; 2];
    unpack_bits(&[3, 1, 2, 3, 4], &mut out);
    assert_eq!(out, [1, 2]);
    unpack_bits(&[200, 5], &mut out);
    assert_eq!(out, [5, 5]);
}

#[test]
fn what_is_missing_is_zero() {
    let mut out = [9u8; 4];
    unpack_bits(&[3, 1, 2], &mut out);
    assert_eq!(out, [1, 2, 0, 0]);
    unpack_bits(&[254], &mut out);
    assert_eq!(out, [0, 0, 0, 0]);
    unpack_bits(&[], &mut out);
    assert_eq!(out, [0, 0, 0, 0]);
}

#[test]
fn lengths_are_known_without_unpacking() {
    assert!(expands_to(&[1, 7, 8, 254, 5], 5));
    assert!(!expands_to(&[1, 7, 8, 254, 5], 6));
    // The last run lacks a byte.
    assert!(!expands_to(&[2, 7, 8], 3));
}

#[test]
fn packed_rows_are_read_into_the_width_of_the_channel() {
    // Two rows of two and three packed bytes, behind three bytes of something else.
    let data = [7, 7, 7, 0, 1, 0, 2, 0, 3, 0xfe, 5, 1, 8, 9];
    let c = Channel::new(&data, 3, 11, 3, 2, false);
    let mut out = [1u8; 5];
    c.read_row(&data, 0, &mut out);
    assert_eq!(out, [5, 5, 5, 1, 1]);
    c.read_row(&data, 1, &mut out);
    assert_eq!(out, [8, 9, 0, 1, 1]);
    c.read_row(&data, 2, &mut out);
    assert_eq!(out, [0, 0, 0, 1, 1]);
}

#[test]
fn rows_of_an_unknown_compression_are_empty() {
    let data = [0, 2, 1, 2, 3, 4];
    let c = Channel::new(&data, 0, 6, 2, 2, false);
    assert_eq!(c.unsupported(), Some(2));
    let mut out = [9u8; 3];
    c.read_row(&data, 0, &mut out);
    assert_eq!(out, [0, 0, 9]);
}
