//! The laws the library states about itself, beyond each function's own
//! contract.
//!
//! The algebraic heart of the scheme — that multiplying by the inverse of an
//! invertible quorum submatrix undoes the generator — lives in the finite
//! field and is outside what these proofs can reach, since the field
//! operations are only named, not defined, at the trusted boundary.  What is
//! proved here is the structural remainder: a quorum assembled from a split's
//! own shares is never rejected for any format, header, quorum or length
//! reason, succeeds exactly when its submatrix inverts, and reconstructs a
//! stream of exactly the original length, with no padding leaking through.

use vstd::prelude::*;

use crate::combine::{
    concat_rows, lemma_concat_rows_len, lemma_first_short_none, lemma_group_count, spec_combine,
    spec_scan, ShareEntry,
};
use crate::errors::{FormatFault, IdaError};
use crate::gf256::cauchy_of;
use crate::header::{
    lemma_header_roundtrip_prefix, spec_decode_header, spec_encode_header, spec_parse_varint,
    HeaderModel,
};
use crate::matrix::spec_gf8_invert;
use crate::split::{
    spec_gen_row, spec_group_count, spec_share, spec_share_header, spec_share_payload,
    spec_split_key, spec_split_ok,
};
use crate::varint::{lemma_len_bytes_le, lemma_pow256_8, spec_encode_length};

verus! {

/// Variable-length integer law: parsing an encoding gives back the value and
/// consumes exactly the encoding.
pub proof fn lemma_varint_roundtrip(v: nat)
    requires
        v <= usize::MAX,
    ensures
        spec_parse_varint(spec_encode_length(v), 0) == Some(
            (v, spec_encode_length(v).len() as int),
        ),
{
    lemma_pow256_8();
    lemma_len_bytes_le(v, 8);
    let enc = spec_encode_length(v);
    assert(enc.subrange(0, enc.len() as int) =~= enc);
    crate::header::lemma_parse_varint_of_encoding(enc, 0, v);
}

/// Threshold boundary, structural half: handed fewer candidates than the
/// quorum its first share declares, a combine reports the quorum failure and
/// never yields output.  (That a quorum with repeated or dependent shares is
/// caught by the inversion instead is an algebraic fact of the field, which
/// the trusted boundary only names; the engine's contract still confines such
/// a quorum to success-or-`Uninvertible`, shown in `lemma_combine_of_split`.)
pub proof fn lemma_quorum_guard(shares: Seq<Seq<u8>>)
    ensures
        shares.len() < 1 ==> spec_combine(shares) == Err::<Seq<u8>, IdaError>(IdaError::Quorum),
        shares.len() >= 1 ==> (spec_decode_header(shares[0]) matches Ok(p) && shares.len() < p.0.k
            ==> spec_combine(shares) == Err::<Seq<u8>, IdaError>(IdaError::Quorum)),
{
}

/// The quorum submatrix that a choice of shares carries: their generator
/// rows, in the order the shares are supplied, laid out row-major.
pub open spec fn spec_quorum_matrix(k: nat, n: nat, picks: Seq<int>) -> Seq<u8> {
    concat_rows(Seq::new(k, |s: int| spec_gen_row(k, n, picks[s])))
}

/// The shares a split yields, taken in the order `picks` names them.
pub open spec fn spec_picked_shares(data: Seq<u8>, k: nat, n: nat, picks: Seq<int>) -> Seq<
    Seq<u8>,
> {
    Seq::new(picks.len(), |t: int| spec_share(data, k, n, picks[t]))
}

/// What share `j` of a split contributes to a combine.
pub open spec fn spec_split_entry(data: Seq<u8>, k: nat, n: nat, j: int) -> ShareEntry {
    ShareEntry { row: spec_gen_row(k, n, j), payload: spec_share_payload(data, k, n, j) }
}

/// The linear-algebra service's documented shape: the generator matrix has
/// one byte per entry of its `n` rows and `k` columns.
pub open spec fn spec_gen_matrix_sized(k: nat, n: nat) -> bool {
    cauchy_of(spec_split_key(k, n), k, n).len() == n * k
}

/// A split's share decodes to its header, followed by exactly its payload.
proof fn lemma_share_decodes(data: Seq<u8>, k: nat, n: nat, j: int)
    requires
        spec_split_ok(k, n),
        data.len() <= usize::MAX,
        spec_gen_matrix_sized(k, n),
        0 <= j < n,
    ensures
        ({
            let h = spec_share_header(data.len(), k, n, j);
            let enc = spec_encode_header(h);
            &&& spec_decode_header(spec_share(data, k, n, j)) == Ok::<
                (HeaderModel, int),
                FormatFault,
            >((h, enc.len() as int))
            &&& spec_share(data, k, n, j).skip(enc.len() as int) == spec_share_payload(
                data,
                k,
                n,
                j,
            )
            &&& spec_gen_row(k, n, j).len() == k
        }),
{
    assert(j * k + k <= n * k) by (nonlinear_arith)
        requires
            0 <= j < n && k >= 1,
    ;
    let h = spec_share_header(data.len(), k, n, j);
    assert(spec_gen_row(k, n, j).len() == k);
    assert(h.wf()) by {
        assert(h.xform_data.len() == k * 1);
    }
    lemma_header_roundtrip_prefix(h, spec_share_payload(data, k, n, j));
    let enc = spec_encode_header(h);
    assert((enc + spec_share_payload(data, k, n, j)).skip(enc.len() as int) =~= spec_share_payload(
        data,
        k,
        n,
        j,
    ));
}

/// The quorum scan accepts every share a split produced: from position `i`
/// on it collects exactly their rows and payloads.
proof fn lemma_scan_of_split(data: Seq<u8>, k: nat, n: nat, picks: Seq<int>, i: int)
    requires
        spec_split_ok(k, n),
        data.len() <= usize::MAX,
        spec_gen_matrix_sized(k, n),
        picks.len() >= k,
        forall|t: int| 0 <= t < picks.len() ==> 0 <= #[trigger] picks[t] < n,
        1 <= i <= k,
    ensures
        spec_scan(
            spec_picked_shares(data, k, n, picks),
            spec_share_header(data.len(), k, n, picks[0]),
            i,
        ) == Ok::<Seq<ShareEntry>, IdaError>(
            Seq::new((k - i) as nat, |t: int| spec_split_entry(data, k, n, picks[i + t])),
        ),
    decreases k - i,
{
    let shares = spec_picked_shares(data, k, n, picks);
    let h0 = spec_share_header(data.len(), k, n, picks[0]);
    if i == k {
        assert(Seq::new(0, |t: int| spec_split_entry(data, k, n, picks[i + t]))
            =~= Seq::<ShareEntry>::empty());
    } else {
        lemma_share_decodes(data, k, n, picks[i]);
        let hi = spec_share_header(data.len(), k, n, picks[i]);
        let enc = spec_encode_header(hi);
        assert(shares[i] == spec_share(data, k, n, picks[i]));
        lemma_scan_of_split(data, k, n, picks, i + 1);
        let e = ShareEntry { row: hi.xform_data, payload: shares[i].skip(enc.len() as int) };
        assert(e == spec_split_entry(data, k, n, picks[i]));
        let rest = Seq::new((k - i - 1) as nat, |t: int| spec_split_entry(data, k, n, picks[i + 1 + t]));
        assert(seq![e] + rest =~= Seq::new(
            (k - i) as nat,
            |t: int| spec_split_entry(data, k, n, picks[i + t]),
        ));
    }
}

/// Combining a split's own shares is never a format, header, quorum or
/// length failure: it succeeds exactly when the quorum submatrix inverts
/// (it fails to when shares repeat), and a success has exactly the original
/// length — the padding that rounded the final group up never reaches the
/// output.
pub proof fn lemma_combine_of_split(data: Seq<u8>, k: nat, n: nat, picks: Seq<int>)
    requires
        spec_split_ok(k, n),
        data.len() <= usize::MAX,
        spec_gen_matrix_sized(k, n),
        picks.len() >= k,
        forall|t: int| 0 <= t < picks.len() ==> 0 <= #[trigger] picks[t] < n,
    ensures
        ({
            let r = spec_combine(spec_picked_shares(data, k, n, picks));
            &&& spec_gf8_invert(spec_quorum_matrix(k, n, picks), k) is Some ==> r is Ok
                && r->Ok_0.len() == data.len()
            &&& spec_gf8_invert(spec_quorum_matrix(k, n, picks), k) is None ==> r == Err::<
                Seq<u8>,
                IdaError,
            >(IdaError::Uninvertible)
        }),
{
    let shares = spec_picked_shares(data, k, n, picks);
    let h0 = spec_share_header(data.len(), k, n, picks[0]);
    lemma_share_decodes(data, k, n, picks[0]);
    let enc0 = spec_encode_header(h0);
    assert(shares[0] == spec_share(data, k, n, picks[0]));
    assert(shares.len() >= h0.k);
    lemma_scan_of_split(data, k, n, picks, 1);
    let rest = Seq::new((k - 1) as nat, |t: int| spec_split_entry(data, k, n, picks[1 + t]));
    let entries = seq![
        ShareEntry { row: h0.xform_data, payload: shares[0].skip(enc0.len() as int) },
    ] + rest;
    assert(entries =~= Seq::new(k, |t: int| spec_split_entry(data, k, n, picks[t])));
    assert(Seq::new(h0.k, |s: int| entries[s].row) =~= Seq::new(
        k,
        |s: int| spec_gen_row(k, n, picks[s]),
    ));
    let groups = spec_group_count(data.len(), k);
    match spec_gf8_invert(spec_quorum_matrix(k, n, picks), k) {
        None => {
            assert(spec_combine(shares) == Err::<Seq<u8>, IdaError>(IdaError::Uninvertible));
        },
        Some(inv_rows) => {
            assert(forall|t: int|
                0 <= t < entries.len() ==> (#[trigger] entries[t].payload).len() >= groups);
            lemma_first_short_none(entries, groups, 0);
            let chunks = crate::combine::spec_out_chunks(inv_rows, entries, k, groups);
            assert(forall|t: int| 0 <= t < chunks.len() ==> (#[trigger] chunks[t]).len() == k);
            lemma_concat_rows_len(chunks, k);
            lemma_group_count(data.len(), k);
            assert(spec_combine(shares) == Ok::<Seq<u8>, IdaError>(
                concat_rows(chunks).take(data.len() as int),
            ));
            assert(concat_rows(chunks).take(data.len() as int).len() == data.len());
        },
    }
}

} // verus!
