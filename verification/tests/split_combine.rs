//! End-to-end tests of the split and combine engines.

use guff_sharefiles::{blockwise_split, combine, read_sharefile_header};
use guff_sharefiles::{FormatFault, IdaError, MismatchField};

/// Deterministic pseudorandom bytes.
fn pseudo_random(len: usize, seed: u64) -> Vec<u8> {
    let mut state = seed.wrapping_mul(6364136223846793005).wrapping_add(1442695040888963407);
    (0..len)
        .map(|_| {
            state = state.wrapping_mul(6364136223846793005).wrapping_add(1442695040888963407);
            (state >> 33) as u8
        })
        .collect()
}

fn pick(shares: &[Vec<u8>], which: &[usize]) -> Vec<Vec<u8>> {
    which.iter().map(|&i| shares[i].clone()).collect()
}

#[test]
fn split_produces_headered_shares() {
    let data = pseudo_random(1000, 7);
    let shares = blockwise_split(&data, 4, 8).unwrap();
    assert_eq!(shares.len(), 8);
    for share in &shares {
        let (h, used) = read_sharefile_header(share).unwrap();
        assert_eq!(h.k, 4);
        assert_eq!(h.w, 1);
        assert_eq!(h.chunk_start, 0);
        assert_eq!(h.chunk_next, 1000);
        assert!(h.is_final);
        assert!(h.xform);
        assert_eq!(h.xform_data.len(), 4);
        // 1000 bytes in groups of 4 make 250 data bytes per share.
        assert_eq!(share.len() - used, 250);
    }
}

#[test]
fn any_quorum_reconstructs_the_input() {
    let data = pseudo_random(1000, 11);
    let shares = blockwise_split(&data, 4, 8).unwrap();
    for which in [
        [0usize, 1, 2, 3],
        [4, 5, 6, 7],
        [7, 3, 5, 1],
        [6, 0, 2, 4],
        [3, 2, 1, 0],
    ] {
        let out = combine(&pick(&shares, &which)).unwrap();
        assert_eq!(out, data, "quorum {:?}", which);
    }
}

#[test]
fn extra_shares_beyond_quorum_are_ignored() {
    let data = pseudo_random(333, 13);
    let shares = blockwise_split(&data, 3, 6).unwrap();
    let out = combine(&pick(&shares, &[5, 1, 4, 0, 2, 3])).unwrap();
    assert_eq!(out, data);
}

#[test]
fn duplicate_share_is_uninvertible() {
    let data = pseudo_random(1000, 17);
    let shares = blockwise_split(&data, 4, 8).unwrap();
    let got = combine(&pick(&shares, &[0, 1, 1, 2]));
    assert_eq!(got, Err(IdaError::Uninvertible));
}

#[test]
fn too_few_shares_is_quorum_error() {
    let data = pseudo_random(100, 19);
    let shares = blockwise_split(&data, 4, 8).unwrap();
    assert_eq!(combine(&pick(&shares, &[0, 1, 2])), Err(IdaError::Quorum));
    assert_eq!(combine(&Vec::new()), Err(IdaError::Quorum));
}

#[test]
fn partial_final_group_lengths() {
    // Lengths that do not divide by k: the output must end at exactly the
    // original length, with no padding leaking through.
    for (len, k, n) in [(1001usize, 4usize, 8usize), (5, 3, 5), (1, 2, 4), (7, 5, 6)] {
        let data = pseudo_random(len, len as u64);
        let shares = blockwise_split(&data, k, n).unwrap();
        let expected_payload = len.div_ceil(k);
        for share in &shares {
            let (_, used) = read_sharefile_header(share).unwrap();
            assert_eq!(share.len() - used, expected_payload);
        }
        let quorum: Vec<usize> = (0..k).collect();
        let out = combine(&pick(&shares, &quorum)).unwrap();
        assert_eq!(out, data);
    }
}

#[test]
fn empty_input_round_trips() {
    let data = Vec::new();
    let shares = blockwise_split(&data, 2, 4).unwrap();
    for share in &shares {
        let (h, used) = read_sharefile_header(share).unwrap();
        assert_eq!(h.chunk_next, 0);
        assert_eq!(share.len(), used);
    }
    let out = combine(&pick(&shares, &[3, 1])).unwrap();
    assert_eq!(out, data);
}

#[test]
fn single_share_scheme_round_trips() {
    let data = pseudo_random(64, 23);
    let shares = blockwise_split(&data, 1, 1).unwrap();
    let out = combine(&shares).unwrap();
    assert_eq!(out, data);
}

#[test]
fn widest_scheme_round_trips() {
    // The field capacity boundary: k + n == 255.
    let data = pseudo_random(515, 29);
    let shares = blockwise_split(&data, 5, 250).unwrap();
    assert_eq!(shares.len(), 250);
    let out = combine(&pick(&shares, &[249, 13, 77, 200, 0])).unwrap();
    assert_eq!(out, data);
}

#[test]
fn invalid_parameters_are_quorum_errors() {
    let data = pseudo_random(10, 31);
    assert_eq!(blockwise_split(&data, 0, 4), Err(IdaError::Quorum));
    assert_eq!(blockwise_split(&data, 5, 4), Err(IdaError::Quorum));
    assert_eq!(blockwise_split(&data, 100, 156), Err(IdaError::Quorum));
}

#[test]
fn corrupt_share_magic_aborts_combine() {
    let data = pseudo_random(100, 37);
    let shares = blockwise_split(&data, 2, 4).unwrap();
    let mut quorum = pick(&shares, &[0, 1]);
    quorum[0][0] = 0xff;
    assert_eq!(
        combine(&quorum),
        Err(IdaError::Format(FormatFault::BadMagic))
    );
}

#[test]
fn disagreeing_chunk_next_is_a_mismatch() {
    let a = pseudo_random(100, 41);
    let b = pseudo_random(104, 43);
    let sa = blockwise_split(&a, 2, 4).unwrap();
    let sb = blockwise_split(&b, 2, 4).unwrap();
    let got = combine(&vec![sa[0].clone(), sb[1].clone()]);
    assert_eq!(
        got,
        Err(IdaError::Mismatch { field: MismatchField::ChunkNext, share: 1 })
    );
}

#[test]
fn disagreeing_quorum_is_a_mismatch() {
    let data = pseudo_random(100, 47);
    let s2 = blockwise_split(&data, 2, 4).unwrap();
    let s3 = blockwise_split(&data, 3, 4).unwrap();
    let got = combine(&vec![s2[0].clone(), s3[1].clone()]);
    assert_eq!(
        got,
        Err(IdaError::Mismatch { field: MismatchField::Quorum, share: 1 })
    );
}

/// A hand-built share: a header followed by `payload` data bytes.
fn handmade_share(
    k: usize,
    w: usize,
    chunk_start: usize,
    chunk_next: usize,
    xform: bool,
    payload: &[u8],
) -> Vec<u8> {
    let h = guff_sharefiles::HeaderV1 {
        k,
        w,
        chunk_start,
        chunk_next,
        xform_data: if xform { vec![1u8; k * w] } else { vec![] },
        large_k: false,
        large_w: false,
        is_final: true,
        xform,
    };
    let mut bytes = guff_sharefiles::write_sharefile_header(&h);
    bytes.extend_from_slice(payload);
    bytes
}

#[test]
fn wide_symbols_are_unsupported() {
    let share = handmade_share(1, 2, 0, 4, true, &[0, 0, 0, 0]);
    assert_eq!(combine(&vec![share]), Err(IdaError::Unsupported));
}

#[test]
fn nonzero_chunk_start_is_unsupported() {
    let share = handmade_share(1, 1, 2, 4, true, &[0, 0]);
    assert_eq!(combine(&vec![share]), Err(IdaError::Unsupported));
}

#[test]
fn zero_quorum_is_unsupported() {
    let share = handmade_share(0, 1, 0, 0, true, &[]);
    assert_eq!(combine(&vec![share]), Err(IdaError::Unsupported));
}

#[test]
fn missing_transform_row_is_unsupported() {
    let share = handmade_share(1, 1, 0, 2, false, &[9, 9]);
    assert_eq!(combine(&vec![share]), Err(IdaError::Unsupported));
}

#[test]
fn disagreeing_width_is_a_mismatch() {
    let a = handmade_share(2, 1, 0, 4, true, &[5, 6]);
    let b = handmade_share(2, 2, 0, 4, true, &[5, 6]);
    assert_eq!(
        combine(&vec![a, b]),
        Err(IdaError::Mismatch { field: MismatchField::Width, share: 1 })
    );
}

#[test]
fn disagreeing_chunk_start_is_a_mismatch() {
    let a = handmade_share(2, 1, 0, 4, true, &[5, 6]);
    let b = handmade_share(2, 1, 1, 4, true, &[5, 6]);
    assert_eq!(
        combine(&vec![a, b]),
        Err(IdaError::Mismatch { field: MismatchField::ChunkStart, share: 1 })
    );
}

#[test]
fn truncated_share_data_is_premature_eof() {
    let data = pseudo_random(100, 53);
    let shares = blockwise_split(&data, 2, 4).unwrap();
    let mut quorum = pick(&shares, &[0, 1]);
    let cut = quorum[1].len() - 10;
    quorum[1].truncate(cut);
    match combine(&quorum) {
        Err(IdaError::PrematureEof { share, got, expected }) => {
            assert_eq!(share, 1);
            assert_eq!(expected, 50);
            assert_eq!(got, 40);
        },
        other => panic!("expected premature eof, got {:?}", other),
    }
}
