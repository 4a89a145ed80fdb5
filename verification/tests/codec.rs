//! Tests of the zigzag transform, the varint writer and the list header.

use jaeger_thrift::varint::write_list_header;
use jaeger_thrift::write_varint;
use jaeger_thrift::zigzag::from_i32;
use jaeger_thrift::zigzag::from_i64;

/// The standard zigzag decoder for 32-bit codes.
fn unzigzag32(u: u32) -> i32 {
    ((u >> 1) as i32) ^ -((u & 1) as i32)
}

/// The standard zigzag decoder for 64-bit codes.
fn unzigzag64(u: u64) -> i64 {
    ((u >> 1) as i64) ^ -((u & 1) as i64)
}

/// A standard LEB128 reader: the value at `s[at..]` and the bytes consumed.
fn read_leb128(s: &[u8], at: usize) -> (u64, usize) {
    let mut value: u64 = 0;
    let mut shift: u32 = 0;
    let mut used: usize = 0;
    loop {
        let b = s[at + used];
        value |= u64::from(b & 0x7f) << shift;
        used += 1;
        if b & 0x80 == 0 {
            return (value, used);
        }
        shift += 7;
    }
}

fn varint_bytes(n: u64) -> Vec<u8> {
    let mut v = Vec::new();
    write_varint(&mut v, n);
    v
}

#[test]
fn zigzag32_known_codes() {
    assert_eq!(from_i32(0), 0);
    assert_eq!(from_i32(-1), 1);
    assert_eq!(from_i32(1), 2);
    assert_eq!(from_i32(-2), 3);
    assert_eq!(from_i32(2), 4);
    assert_eq!(from_i32(i32::MAX), u32::MAX - 1);
    assert_eq!(from_i32(i32::MIN), u32::MAX);
}

#[test]
fn zigzag64_known_codes() {
    assert_eq!(from_i64(0), 0);
    assert_eq!(from_i64(-1), 1);
    assert_eq!(from_i64(1), 2);
    assert_eq!(from_i64(i64::MAX), u64::MAX - 1);
    assert_eq!(from_i64(i64::MIN), u64::MAX);
}

#[test]
fn zigzag32_round_trips() {
    for n in [0, 1, -1, 2, -2, 12345, -12345, i32::MIN, i32::MAX] {
        assert_eq!(unzigzag32(from_i32(n)), n);
    }
    for u in [0u32, 1, 2, 3, 1000, u32::MAX - 1, u32::MAX] {
        assert_eq!(from_i32(unzigzag32(u)), u);
    }
}

#[test]
fn zigzag64_round_trips() {
    for n in [0, 1, -1, 2, -2, 1 << 40, -(1 << 40), i64::MIN, i64::MAX] {
        assert_eq!(unzigzag64(from_i64(n)), n);
    }
    for u in [0u64, 1, 2, 3, 1 << 50, u64::MAX - 1, u64::MAX] {
        assert_eq!(from_i64(unzigzag64(u)), u);
    }
}

#[test]
fn varint_round_trips_with_leb128_reader() {
    for n in [0u64, 127, 128, 16383, 16384, u64::MAX] {
        let v = varint_bytes(n);
        let (value, used) = read_leb128(&v, 0);
        assert_eq!(value, n);
        assert_eq!(used, v.len());
    }
}

#[test]
fn varint_known_bytes() {
    assert_eq!(varint_bytes(0), vec![0x00]);
    assert_eq!(varint_bytes(127), vec![0x7f]);
    assert_eq!(varint_bytes(128), vec![0x80, 0x01]);
    assert_eq!(varint_bytes(16383), vec![0xff, 0x7f]);
    assert_eq!(varint_bytes(16384), vec![0x80, 0x80, 0x01]);
}

#[test]
fn varint_length_grows_by_one_per_seven_bits() {
    for k in 0..9u32 {
        let n = 1u64 << (7 * k);
        assert_eq!(varint_bytes(n).len(), k as usize + 1);
        if n > 1 {
            assert_eq!(varint_bytes(n - 1).len(), k as usize);
        }
    }
    assert_eq!(varint_bytes(u64::MAX).len(), 10);
}

#[test]
fn varint_appends_after_existing_bytes() {
    let mut v = vec![0xaa, 0xbb];
    write_varint(&mut v, 300);
    assert_eq!(v, vec![0xaa, 0xbb, 0xac, 0x02]);
}

#[test]
fn binary_string_is_length_prefixed_verbatim() {
    let mut v = Vec::new();
    jaeger_thrift::encode(b"abc", &mut v);
    assert_eq!(v, vec![3, 97, 98, 99]);
    let mut empty = Vec::new();
    jaeger_thrift::encode(b"", &mut empty);
    assert_eq!(empty, vec![0]);
}

#[test]
fn list_header_short_form_at_fourteen() {
    let mut v = Vec::new();
    write_list_header(&mut v, 14);
    assert_eq!(v, vec![0xec]);
}

#[test]
fn list_header_extended_form_at_fifteen() {
    let mut v = Vec::new();
    write_list_header(&mut v, 15);
    assert_eq!(v, vec![0xfc, 0x0f]);
}
