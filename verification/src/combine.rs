//! The combine engine.
//!
//! Given at least `k` candidate share streams, decode and cross-check their
//! headers, assemble the quorum submatrix from the embedded transform rows,
//! invert it, and rebuild the original stream column by column.  The result
//! ends at exactly the length the headers declare; the padding that rounded
//! the final group up never reaches the output.

use vstd::prelude::*;

use crate::errors::{IdaError, MismatchField};
use crate::gf256::{GF8_POLY, GF8_POLY_COMPACT};
use crate::header::{spec_decode_header, HeaderModel};
use crate::matrix::{
    gf8_dot, gf8_dot_vec, gf8_invert, rows_model, spec_gf8_invert, subrange_vec,
};
use crate::split::spec_group_count;

verus! {

/// One accepted share: its transform row and its data bytes.
pub ghost struct ShareEntry {
    pub row: Seq<u8>,
    pub payload: Seq<u8>,
}

/// All rows laid end to end.
pub open spec fn concat_rows(rows: Seq<Seq<u8>>) -> Seq<u8>
    decreases rows.len(),
{
    if rows.len() == 0 {
        Seq::empty()
    } else {
        concat_rows(rows.drop_last()) + rows.last()
    }
}

/// Candidate shares `i ..` up to the quorum: either the entries they
/// contribute, or the first fault met walking them in order.
pub open spec fn spec_scan(shares: Seq<Seq<u8>>, h0: HeaderModel, i: int) -> Result<
    Seq<ShareEntry>,
    IdaError,
>
    decreases h0.k - i,
{
    if i >= h0.k || i < 0 {
        Ok(Seq::empty())
    } else {
        match spec_decode_header(shares[i]) {
            Err(f) => Err(IdaError::Format(f)),
            Ok((h, used)) => if h.k != h0.k {
                Err(IdaError::Mismatch { field: MismatchField::Quorum, share: i as usize })
            } else if h.w != h0.w {
                Err(IdaError::Mismatch { field: MismatchField::Width, share: i as usize })
            } else if h.chunk_start != h0.chunk_start {
                Err(IdaError::Mismatch { field: MismatchField::ChunkStart, share: i as usize })
            } else if h.chunk_next != h0.chunk_next {
                Err(IdaError::Mismatch { field: MismatchField::ChunkNext, share: i as usize })
            } else if !h.xform {
                Err(IdaError::Unsupported)
            } else {
                match spec_scan(shares, h0, i + 1) {
                    Err(e) => Err(e),
                    Ok(rest) => Ok(
                        seq![ShareEntry { row: h.xform_data, payload: shares[i].skip(used) }]
                            + rest,
                    ),
                }
            },
        }
    }
}

/// The first share whose payload is too short for `groups` groups.
pub open spec fn spec_first_short(entries: Seq<ShareEntry>, groups: nat, i: int) -> Option<int>
    decreases entries.len() - i,
{
    if i < 0 || i >= entries.len() {
        None
    } else if entries[i].payload.len() < groups {
        Some(i)
    } else {
        spec_first_short(entries, groups, i + 1)
    }
}

/// Column `c` of the quorum's data, one byte drawn from each share.
pub open spec fn spec_column(entries: Seq<ShareEntry>, k: nat, c: int) -> Seq<u8> {
    Seq::new(k, |s: int| entries[s].payload[c])
}

/// The reconstructed groups: for each column, the inverse matrix times the
/// column vector the shares supply.
pub open spec fn spec_out_chunks(
    inv_rows: Seq<Seq<u8>>,
    entries: Seq<ShareEntry>,
    k: nat,
    groups: nat,
) -> Seq<Seq<u8>> {
    Seq::new(
        groups,
        |c: int| Seq::new(k, |s: int| gf8_dot(inv_rows[s], spec_column(entries, k, c))),
    )
}

/// Everything the combine engine decides and computes, in one place: which
/// error each faulty quorum earns, and the exact bytes a good one yields.
pub open spec fn spec_combine(shares: Seq<Seq<u8>>) -> Result<Seq<u8>, IdaError> {
    if shares.len() < 1 {
        Err(IdaError::Quorum)
    } else {
        match spec_decode_header(shares[0]) {
            Err(f) => Err(IdaError::Format(f)),
            Ok((h0, used0)) => if shares.len() < h0.k {
                Err(IdaError::Quorum)
            } else if h0.k < 1 || h0.w != 1 || h0.chunk_start != 0 || !h0.xform {
                Err(IdaError::Unsupported)
            } else {
                match spec_scan(shares, h0, 1) {
                    Err(e) => Err(e),
                    Ok(rest) => {
                        let entries = seq![
                            ShareEntry { row: h0.xform_data, payload: shares[0].skip(used0) },
                        ] + rest;
                        let flat = concat_rows(Seq::new(h0.k, |s: int| entries[s].row));
                        match spec_gf8_invert(flat, h0.k) {
                            None => Err(IdaError::Uninvertible),
                            Some(inv_rows) => {
                                let groups = spec_group_count(h0.chunk_next, h0.k);
                                match spec_first_short(entries, groups, 0) {
                                    Some(s) => Err(
                                        IdaError::PrematureEof {
                                            share: s as usize,
                                            got: entries[s].payload.len() as usize,
                                            expected: groups as usize,
                                        },
                                    ),
                                    None => Ok(
                                        concat_rows(
                                            spec_out_chunks(inv_rows, entries, h0.k, groups),
                                        ).take(h0.chunk_next as int),
                                    ),
                                }
                            },
                        }
                    },
                }
            },
        }
    }
}

/// A scan result with already-collected entries put back in front.
pub open spec fn scan_with_prefix(
    prefix: Seq<ShareEntry>,
    r: Result<Seq<ShareEntry>, IdaError>,
) -> Result<Seq<ShareEntry>, IdaError> {
    match r {
        Err(e) => Err(e),
        Ok(rest) => Ok(prefix + rest),
    }
}

/// The entries a pair of row and payload vectors stands for.
pub open spec fn entries_model(rows: Seq<Vec<u8>>, pays: Seq<Vec<u8>>) -> Seq<ShareEntry> {
    Seq::new(rows.len(), |t: int| ShareEntry { row: rows[t]@, payload: pays[t]@ })
}

proof fn lemma_first_short_at(entries: Seq<ShareEntry>, groups: nat, r0: int, p: int)
    requires
        0 <= r0 <= p < entries.len(),
        entries[p].payload.len() < groups,
        forall|t: int| r0 <= t < p ==> (#[trigger] entries[t].payload).len() >= groups,
    ensures
        spec_first_short(entries, groups, r0) == Some(p),
    decreases p - r0,
{
    if r0 < p {
        lemma_first_short_at(entries, groups, r0 + 1, p);
    }
}

pub(crate) proof fn lemma_first_short_none(entries: Seq<ShareEntry>, groups: nat, r0: int)
    requires
        0 <= r0,
        forall|t: int| r0 <= t < entries.len() ==> (#[trigger] entries[t].payload).len() >= groups,
    ensures
        spec_first_short(entries, groups, r0) is None,
    decreases entries.len() - r0,
{
    if r0 < entries.len() {
        lemma_first_short_none(entries, groups, r0 + 1);
    }
}

/// The group count is the rounded-up quotient, and `groups * k` covers the
/// whole length without reaching a full extra group.
pub(crate) proof fn lemma_group_count(len: nat, k: nat)
    requires
        k >= 1,
    ensures
        spec_group_count(len, k) == len / k + (if len % k == 0 { 0nat } else { 1nat }),
        len <= spec_group_count(len, k) * k,
{
    let q = len as int / k as int;
    let r = len as int % k as int;
    vstd::arithmetic::div_mod::lemma_fundamental_div_mod(len as int, k as int);
    if r == 0 {
        assert(len + k - 1 == q * k as int + (k - 1)) by (nonlinear_arith)
            requires
                len == k as int * q + r && r == 0 && k >= 1,
        ;
        vstd::arithmetic::div_mod::lemma_fundamental_div_mod_converse(
            len + k - 1,
            k as int,
            q,
            k - 1,
        );
        assert(len as int <= (len as int / k as int) * k as int) by (nonlinear_arith)
            requires
                k as int >= 1 && len as int >= 0 && len as int % k as int == 0,
        ;
    } else {
        assert(len + k - 1 == (q + 1) * k as int + (r - 1)) by (nonlinear_arith)
            requires
                len == k as int * q + r,
        ;
        vstd::arithmetic::div_mod::lemma_fundamental_div_mod_converse(
            len + k - 1,
            k as int,
            q + 1,
            r - 1,
        );

    }
}

/// Rows of a uniform width concatenate to their count times that width.
pub(crate) proof fn lemma_concat_rows_len(rows: Seq<Seq<u8>>, w: nat)
    requires
        forall|t: int| 0 <= t < rows.len() ==> (#[trigger] rows[t]).len() == w,
    ensures
        concat_rows(rows).len() == rows.len() * w,
    decreases rows.len(),
{
    if rows.len() > 0 {
        lemma_concat_rows_len(rows.drop_last(), w);
        assert((rows.len() - 1) * w + w == rows.len() * w) by (nonlinear_arith);
    }
}

/// Reconstruct the original stream from at least `k` candidate shares.
///
/// The whole behaviour — which fault is reported for which quorum, and the
/// exact bytes a good quorum yields — is `spec_combine` of the share views.
#[verifier::loop_isolation(false)]
#[verifier::rlimit(100)]
pub fn combine(shares: &Vec<Vec<u8>>) -> (r: Result<Vec<u8>, IdaError>)
    ensures
        match r {
            Ok(out) => spec_combine(rows_model(shares@)) == Ok::<Seq<u8>, IdaError>(out@),
            Err(e) => spec_combine(rows_model(shares@)) == Err::<Seq<u8>, IdaError>(e),
        },
{
    let ghost sm = rows_model(shares@);
    if shares.len() < 1 {
        return Err(IdaError::Quorum);
    }
    assert(sm[0] == shares@[0]@);
    let (h0, used0) = match crate::header::read_sharefile_header(&shares[0]) {
        Ok(p) => p,
        Err(e) => {
            return Err(e);
        },
    };
    let ghost h0m = h0@;
    let k = h0.k;
    let cn = h0.chunk_next;
    if shares.len() < k {
        return Err(IdaError::Quorum);
    }
    if k < 1 || h0.w != 1 || h0.chunk_start != 0 || !h0.xform {
        return Err(IdaError::Unsupported);
    }
    assert(h0m.xform_data.len() == k) by {
        assert(h0m.wf());
        assert(h0m.k * h0m.w == h0m.k * 1);
    }

    // Collect the transform row and the data bytes of every accepted share,
    // the first share's up front.
    let mut rows_v: Vec<Vec<u8>> = Vec::new();
    let mut pays: Vec<Vec<u8>> = Vec::new();
    let pay0 = subrange_vec(&shares[0], used0, shares[0].len());
    assert(pay0@ =~= sm[0].skip(used0 as int));
    rows_v.push(h0.xform_data);
    pays.push(pay0);

    let mut i: usize = 1;
    while i < k
        invariant
            1 <= i <= k,
            k == h0m.k,
            k < 0x10000,
            cn == h0m.chunk_next,
            h0m.w == 1,
            shares@.len() >= k,
            sm == rows_model(shares@),
            sm.len() == shares@.len(),
            spec_decode_header(sm[0]) == Ok::<(HeaderModel, int), crate::errors::FormatFault>(
                (h0m, used0 as int),
            ),
            h0m.k >= 1,
            h0m.chunk_start == 0,
            h0m.xform,
            rows_v@.len() == i,
            pays@.len() == i,
            entries_model(rows_v@, pays@)[0] == (ShareEntry {
                row: h0m.xform_data,
                payload: sm[0].skip(used0 as int),
            }),
            forall|t: int| 0 <= t < i ==> (#[trigger] rows_v@[t])@.len() == k,
            spec_scan(sm, h0m, 1) == scan_with_prefix(
                entries_model(rows_v@, pays@).skip(1),
                spec_scan(sm, h0m, i as int),
            ),
        decreases k - i,
    {
        assert(sm[i as int] == shares@[i as int]@);
        let ghost pre_entries = entries_model(rows_v@, pays@);
        let (hi, usedi) = match crate::header::read_sharefile_header(&shares[i]) {
            Ok(p) => p,
            Err(e) => {
                return Err(e);
            },
        };
        if hi.k != k {
            return Err(IdaError::Mismatch { field: MismatchField::Quorum, share: i });
        }
        if hi.w != 1 {
            return Err(IdaError::Mismatch { field: MismatchField::Width, share: i });
        }
        if hi.chunk_start != 0 {
            return Err(IdaError::Mismatch { field: MismatchField::ChunkStart, share: i });
        }
        if hi.chunk_next != cn {
            return Err(IdaError::Mismatch { field: MismatchField::ChunkNext, share: i });
        }
        if !hi.xform {
            return Err(IdaError::Unsupported);
        }
        let ghost him = hi@;
        assert(him.xform_data.len() == k) by {
            assert(him.wf());
            assert(him.k * him.w == him.k * 1);
        }
        let payi = subrange_vec(&shares[i], usedi, shares[i].len());
        assert(payi@ =~= sm[i as int].skip(usedi as int));
        rows_v.push(hi.xform_data);
        pays.push(payi);
        proof {
            let e = ShareEntry { row: him.xform_data, payload: sm[i as int].skip(usedi as int) };
            assert(entries_model(rows_v@, pays@) =~= pre_entries.push(e));
            assert(spec_scan(sm, h0m, i as int) == (match spec_scan(sm, h0m, i + 1) {
                Err(er) => Err::<Seq<ShareEntry>, IdaError>(er),
                Ok(rest) => Ok(seq![e] + rest),
            }));
            if spec_scan(sm, h0m, i + 1) is Ok {
                let rest = spec_scan(sm, h0m, i + 1)->Ok_0;
                assert(pre_entries.skip(1) + (seq![e] + rest) =~= pre_entries.push(e).skip(1)
                    + rest);
            }
        }
        i = i + 1;
    }
    let ghost entries = entries_model(rows_v@, pays@);
    proof {
        assert(spec_scan(sm, h0m, k as int) == Ok::<Seq<ShareEntry>, IdaError>(Seq::empty()));
        assert(entries.skip(1) + Seq::<ShareEntry>::empty() =~= entries.skip(1));
        assert(seq![
            ShareEntry { row: h0m.xform_data, payload: sm[0].skip(used0 as int) },
        ] + entries.skip(1) =~= entries);
    }

    // Lay the quorum submatrix out row-major and invert it.
    let ghost rseq = Seq::new(k as nat, |s: int| entries[s].row);
    proof {
        assert(rseq =~= rows_model(rows_v@));
    }
    let mut flat: Vec<u8> = Vec::new();
    let mut rr: usize = 0;
    while rr < k
        invariant
            rr <= k,
            k < 0x10000,
            rows_v@.len() == k,
            forall|t: int| 0 <= t < k ==> (#[trigger] rows_v@[t])@.len() == k,
            rseq == rows_model(rows_v@),
            flat@ == concat_rows(rseq.take(rr as int)),
        decreases k - rr,
    {
        let ghost prefix = concat_rows(rseq.take(rr as int));
        let mut cc: usize = 0;
        while cc < k
            invariant
                cc <= k,
                rr < k,
                k < 0x10000,
                rows_v@.len() == k,
                forall|t: int| 0 <= t < k ==> (#[trigger] rows_v@[t])@.len() == k,
                rseq == rows_model(rows_v@),
                prefix == concat_rows(rseq.take(rr as int)),
                flat@ == prefix + rows_v@[rr as int]@.take(cc as int),
            decreases k - cc,
        {
            flat.push(rows_v[rr][cc]);
            assert(rows_v@[rr as int]@.take(cc + 1) =~= rows_v@[rr as int]@.take(cc as int).push(
                rows_v@[rr as int]@[cc as int],
            ));
            assert(flat@ =~= prefix + rows_v@[rr as int]@.take(cc + 1));
            cc = cc + 1;
        }
        proof {
            assert(rows_v@[rr as int]@.take(k as int) =~= rows_v@[rr as int]@);
            assert(rseq.take(rr + 1).drop_last() =~= rseq.take(rr as int));
            assert(rseq.take(rr + 1).last() == rseq[rr as int]);
            assert(rseq[rr as int] == rows_v@[rr as int]@);
            assert(flat@ =~= concat_rows(rseq.take(rr + 1)));
        }
        rr = rr + 1;
    }
    proof {
        assert(rseq.take(k as int) =~= rseq);
        lemma_concat_rows_len(rseq, k as nat);
    }
    let f = guff::new_gf8(GF8_POLY, GF8_POLY_COMPACT);
    let inv = match gf8_invert(&f, &flat, k) {
        None => {
            return Err(IdaError::Uninvertible);
        },
        Some(m) => m,
    };
    let ghost inv_model = rows_model(inv@);

    // How many groups each share must supply.
    let q = cn / k;
    let remn = cn % k;
    let groups = if remn == 0 {
        q
    } else {
        proof {
            assert(k >= 2) by {
                if k == 1 {
                    assert(cn % 1 == 0) by (nonlinear_arith);
                }
            }
            assert(q < usize::MAX) by {
                vstd::arithmetic::div_mod::lemma_fundamental_div_mod(cn as int, k as int);
                assert(k as int * q >= 2 * q) by (nonlinear_arith)
                    requires
                        k >= 2 && q >= 0,
                ;
            }
        }
        q + 1
    };
    proof {
        lemma_group_count(cn as nat, k as nat);
        assert(groups == spec_group_count(cn as nat, k as nat));
    }

    // Every accepted share must cover all of them.
    let mut s: usize = 0;
    while s < k
        invariant
            s <= k,
            pays@.len() == k,
            entries == entries_model(rows_v@, pays@),
            rows_v@.len() == k,
            forall|t: int| 0 <= t < s ==> (#[trigger] pays@[t])@.len() >= groups,
        decreases k - s,
    {
        if pays[s].len() < groups {
            let got = pays[s].len();
            proof {
                assert(entries[s as int].payload == pays@[s as int]@);
                assert(forall|t: int|
                    0 <= t < s ==> (#[trigger] entries[t].payload).len() >= groups);
                lemma_first_short_at(entries, groups as nat, 0, s as int);
                assert(entries[s as int].payload.len() as usize == got);
                assert(spec_combine(sm) == Err::<Seq<u8>, IdaError>(
                    IdaError::PrematureEof { share: s, got: got, expected: groups },
                ));
            }
            return Err(IdaError::PrematureEof { share: s, got, expected: groups });
        }
        s = s + 1;
    }
    proof {
        assert(forall|t: int|
            0 <= t < entries.len() ==> (#[trigger] entries[t].payload).len() >= groups);
        lemma_first_short_none(entries, groups as nat, 0);
    }

    // Rebuild the stream column by column, then cut the padding off.
    let ghost chunks = spec_out_chunks(inv_model, entries, k as nat, groups as nat);
    let mut out: Vec<u8> = Vec::new();
    let mut c: usize = 0;
    while c < groups
        invariant
            c <= groups,
            k >= 1,
            k < 0x10000,
            is_gf8_inv_ctx(f, inv@, k as nat),
            inv_model == rows_model(inv@),
            pays@.len() == k,
            entries == entries_model(rows_v@, pays@),
            rows_v@.len() == k,
            forall|t: int| 0 <= t < k ==> (#[trigger] pays@[t])@.len() >= groups,
            chunks == spec_out_chunks(inv_model, entries, k as nat, groups as nat),
            out@ == concat_rows(chunks.take(c as int)),
        decreases groups - c,
    {
        let ghost prefix = concat_rows(chunks.take(c as int));
        let mut colv: Vec<u8> = Vec::new();
        let mut s2: usize = 0;
        while s2 < k
            invariant
                s2 <= k,
                c < groups,
                pays@.len() == k,
                entries == entries_model(rows_v@, pays@),
                rows_v@.len() == k,
                forall|t: int| 0 <= t < k ==> (#[trigger] pays@[t])@.len() >= groups,
                colv@ == spec_column(entries, k as nat, c as int).take(s2 as int),
            decreases k - s2,
        {
            colv.push(pays[s2][c]);
            assert(spec_column(entries, k as nat, c as int).take(s2 + 1) =~= spec_column(
                entries,
                k as nat,
                c as int,
            ).take(s2 as int).push(spec_column(entries, k as nat, c as int)[s2 as int]));
            s2 = s2 + 1;
        }
        assert(colv@ =~= spec_column(entries, k as nat, c as int));

        let mut r2: usize = 0;
        while r2 < k
            invariant
                r2 <= k,
                c < groups,
                k >= 1,
                is_gf8_inv_ctx(f, inv@, k as nat),
                inv_model == rows_model(inv@),
                colv@ == spec_column(entries, k as nat, c as int),
                colv@.len() == k,
                chunks == spec_out_chunks(inv_model, entries, k as nat, groups as nat),
                prefix == concat_rows(chunks.take(c as int)),
                out@ == prefix + chunks[c as int].take(r2 as int),
            decreases k - r2,
        {
            assert(inv@[r2 as int]@.len() == k);
            let d = gf8_dot_vec(&f, &inv[r2], &colv);
            out.push(d);
            proof {
                assert(inv_model[r2 as int] == inv@[r2 as int]@);
                assert(chunks[c as int][r2 as int] == gf8_dot(
                    inv_model[r2 as int],
                    spec_column(entries, k as nat, c as int),
                ));
                assert(chunks[c as int].take(r2 + 1) =~= chunks[c as int].take(r2 as int).push(
                    chunks[c as int][r2 as int],
                ));
                assert(out@ =~= prefix + chunks[c as int].take(r2 + 1));
            }
            r2 = r2 + 1;
        }
        proof {
            assert(chunks[c as int].take(k as int) =~= chunks[c as int]);
            assert(chunks.take(c + 1).drop_last() =~= chunks.take(c as int));
            assert(out@ =~= concat_rows(chunks.take(c + 1)));
        }
        c = c + 1;
    }
    proof {
        assert(chunks.take(groups as int) =~= chunks);
        assert(forall|t: int| 0 <= t < chunks.len() ==> (#[trigger] chunks[t]).len() == k);
        lemma_concat_rows_len(chunks, k as nat);
        assert(cn <= groups * k);
    }
    out.truncate(cn);
    assert(out@ =~= concat_rows(chunks).take(cn as int));
    Ok(out)
}

/// The facts the reconstruction loop needs of the inverse rows.
pub open spec fn is_gf8_inv_ctx(f: guff::F8, inv: Seq<Vec<u8>>, k: nat) -> bool {
    &&& crate::gf256::is_gf8(f)
    &&& inv.len() == k
    &&& forall|t: int| 0 <= t < k ==> (#[trigger] inv[t])@.len() == k
}

} // verus!
