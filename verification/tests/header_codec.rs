//! Tests of the sharefile header codec and the variable-length integers.

use guff_sharefiles::{encode_length, read_sharefile_header, write_sharefile_header};
use guff_sharefiles::{FormatFault, HeaderV1, IdaError};

fn sample_header(k: usize, w: usize, large_k: bool, large_w: bool, start: usize, next: usize) -> HeaderV1 {
    HeaderV1 {
        k,
        w,
        chunk_start: start,
        chunk_next: next,
        xform_data: (0..k * w).map(|i| (i % 251) as u8).collect(),
        large_k,
        large_w,
        is_final: true,
        xform: true,
    }
}

fn assert_roundtrip(h: &HeaderV1) {
    let bytes = write_sharefile_header(h);
    let (back, used) = read_sharefile_header(&bytes).expect("decode of encode");
    assert_eq!(used, bytes.len());
    assert_eq!(back.k, h.k);
    assert_eq!(back.w, h.w);
    assert_eq!(back.chunk_start, h.chunk_start);
    assert_eq!(back.chunk_next, h.chunk_next);
    assert_eq!(back.xform_data, h.xform_data);
    assert_eq!(back.large_k, h.large_k);
    assert_eq!(back.large_w, h.large_w);
    assert_eq!(back.is_final, h.is_final);
    assert_eq!(back.xform, h.xform);
}

#[test]
fn encode_length_zero_is_one_byte() {
    assert_eq!(encode_length(0), vec![0u8]);
}

#[test]
fn encode_length_one_byte_values() {
    assert_eq!(encode_length(1), vec![1u8, 1]);
    assert_eq!(encode_length(255), vec![1u8, 255]);
}

#[test]
fn encode_length_two_byte_boundary() {
    assert_eq!(encode_length(256), vec![2u8, 1, 0]);
    assert_eq!(encode_length(65535), vec![2u8, 255, 255]);
    assert_eq!(encode_length(65536), vec![3u8, 1, 0, 0]);
}

#[test]
fn header_wire_layout_small() {
    // k = 2, w = 1, offsets 0 and 5, transform row [7, 9].
    let h = HeaderV1 {
        k: 2,
        w: 1,
        chunk_start: 0,
        chunk_next: 5,
        xform_data: vec![7, 9],
        large_k: false,
        large_w: false,
        is_final: true,
        xform: true,
    };
    let bytes = write_sharefile_header(&h);
    assert_eq!(
        bytes,
        vec![0x53, 0x46, 1, 0b1100, 2, 1, 0, 1, 5, 7, 9]
    );
}

#[test]
fn header_roundtrip_small_fields() {
    assert_roundtrip(&sample_header(3, 1, false, false, 0, 1000));
}

#[test]
fn header_roundtrip_large_k() {
    assert_roundtrip(&sample_header(300, 1, true, false, 0, 255));
}

#[test]
fn header_roundtrip_large_w() {
    assert_roundtrip(&sample_header(2, 258, false, true, 0, 256));
}

#[test]
fn header_roundtrip_large_both() {
    assert_roundtrip(&sample_header(257, 257, true, true, 255, 65536));
}

#[test]
fn header_roundtrip_offset_boundaries() {
    for v in [0usize, 1, 255, 256, 65535, 65536, 16_777_216] {
        assert_roundtrip(&sample_header(2, 1, false, false, v, v));
    }
}

#[test]
fn header_roundtrip_without_transform_row() {
    let h = HeaderV1 {
        k: 9,
        w: 1,
        chunk_start: 0,
        chunk_next: 42,
        xform_data: vec![],
        large_k: false,
        large_w: false,
        is_final: false,
        xform: false,
    };
    assert_roundtrip(&h);
}

#[test]
fn corrupt_magic_is_format_error() {
    let mut bytes = write_sharefile_header(&sample_header(2, 1, false, false, 0, 10));
    bytes[0] = 0x54;
    assert_eq!(
        read_sharefile_header(&bytes),
        Err(IdaError::Format(FormatFault::BadMagic))
    );
}

#[test]
fn bad_version_is_format_error() {
    let mut bytes = write_sharefile_header(&sample_header(2, 1, false, false, 0, 10));
    bytes[2] = 2;
    assert_eq!(
        read_sharefile_header(&bytes),
        Err(IdaError::Format(FormatFault::BadVersion))
    );
}

#[test]
fn reserved_options_bits_are_rejected() {
    let mut bytes = write_sharefile_header(&sample_header(2, 1, false, false, 0, 10));
    bytes[3] |= 0x10;
    assert_eq!(
        read_sharefile_header(&bytes),
        Err(IdaError::Format(FormatFault::ReservedOptions))
    );
}

#[test]
fn truncated_header_is_format_error() {
    let bytes = write_sharefile_header(&sample_header(4, 1, false, false, 0, 10));
    for cut in 0..bytes.len() {
        let short: Vec<u8> = bytes[..cut].to_vec();
        assert_eq!(
            read_sharefile_header(&short),
            Err(IdaError::Format(FormatFault::Truncated)),
            "prefix of {} bytes",
            cut
        );
    }
}

#[test]
fn oversize_offset_is_rejected() {
    // A chunk_start of nine magnitude bytes cannot fit a 64-bit usize.
    let bytes = vec![
        0x53, 0x46, 1, 0, 2, 1, // magic, version, options, k, w
        9, 1, 0, 0, 0, 0, 0, 0, 0, 0, // chunk_start: 2^64
        0, // chunk_next: 0
    ];
    assert_eq!(
        read_sharefile_header(&bytes),
        Err(IdaError::Format(FormatFault::Oversize))
    );
}

#[test]
fn decode_reports_bytes_used() {
    let h = sample_header(2, 1, false, false, 0, 300);
    let mut bytes = write_sharefile_header(&h);
    let header_len = bytes.len();
    bytes.extend_from_slice(&[1, 2, 3, 4]);
    let (_, used) = read_sharefile_header(&bytes).unwrap();
    assert_eq!(used, header_len);
}
