//! The split engine.
//!
//! The input stream is cut into consecutive groups of `k` one-byte symbols;
//! each group, taken as a vector, is multiplied by the `n x k` Cauchy
//! generator matrix, and the `n` resulting symbols are appended to the `n`
//! share streams.  Every share starts with a header that carries the scheme
//! parameters and that share's own row of the generator matrix.

use vstd::prelude::*;

use crate::errors::IdaError;
use crate::gf256::{cauchy_of, cauchy_rows, is_gf8, GF8_POLY, GF8_POLY_COMPACT};
use crate::header::{spec_encode_header, HeaderModel, HeaderV1};
use crate::matrix::{gf8_dot, gf8_dot_vec, subrange_vec};

verus! {

/// The split parameters the engine accepts: a quorum of at least one, no
/// larger than the share count, and few enough total streams that the key
/// can consist of distinct nonzero one-byte field elements.
pub open spec fn spec_split_ok(k: nat, n: nat) -> bool {
    1 <= k <= n && k + n <= 255
}

/// The key the engine always uses: the field elements `1 ..= k + n`.
pub open spec fn spec_split_key(k: nat, n: nat) -> Seq<u8> {
    Seq::new(k + n, |i: int| (i + 1) as u8)
}

/// Row `j` of the generator matrix, which is also share `j`'s embedded
/// transform row.
pub open spec fn spec_gen_row(k: nat, n: nat, j: int) -> Seq<u8> {
    cauchy_of(spec_split_key(k, n), k, n).subrange(j * k, j * k + k)
}

/// How many `k`-symbol groups a stream of `len` bytes holds, the last one
/// possibly partial.
pub open spec fn spec_group_count(len: nat, k: nat) -> nat {
    ((len + k - 1) as int / k as int) as nat
}

/// Group `c` of the data, zero-padded to `k` bytes past the end.
pub open spec fn spec_group(data: Seq<u8>, k: nat, c: int) -> Seq<u8> {
    Seq::new(k, |i: int| if c * k + i < data.len() { data[c * k + i] } else { 0u8 })
}

/// The header of share `j`.
pub open spec fn spec_share_header(data_len: nat, k: nat, n: nat, j: int) -> HeaderModel {
    HeaderModel {
        k,
        w: 1,
        chunk_start: 0,
        chunk_next: data_len,
        xform_data: spec_gen_row(k, n, j),
        large_k: false,
        large_w: false,
        is_final: true,
        xform: true,
    }
}

/// The data bytes of share `j`: one generator-row dot product per group.
pub open spec fn spec_share_payload(data: Seq<u8>, k: nat, n: nat, j: int) -> Seq<u8> {
    Seq::new(
        spec_group_count(data.len(), k),
        |c: int| gf8_dot(spec_gen_row(k, n, j), spec_group(data, k, c)),
    )
}

/// The entire share `j`: its header followed by its payload.
pub open spec fn spec_share(data: Seq<u8>, k: nat, n: nat, j: int) -> Seq<u8> {
    spec_encode_header(spec_share_header(data.len(), k, n, j)) + spec_share_payload(data, k, n, j)
}

/// Split `data` into `n` headered shares, any `k` of which reconstruct it.
///
/// Rejects parameters outside `spec_split_ok` with a quorum error before any
/// other work; otherwise returns exactly the shares `spec_share` describes.
pub fn blockwise_split(data: &Vec<u8>, k: usize, n: usize) -> (r: Result<Vec<Vec<u8>>, IdaError>)
    requires
        data@.len() <= usize::MAX - 300,
    ensures
        !spec_split_ok(k as nat, n as nat) ==> r == Err::<Vec<Vec<u8>>, IdaError>(IdaError::Quorum),
        spec_split_ok(k as nat, n as nat) ==> (r matches Ok(shares) && {
            &&& shares@.len() == n
            &&& forall|j: int|
                0 <= j < n ==> (#[trigger] shares@[j])@ == spec_share(
                    data@,
                    k as nat,
                    n as nat,
                    j,
                )
        }),
{
    if k < 1 || k > n || n > 255 || k + n > 255 {
        return Err(IdaError::Quorum);
    }
    let f = guff::new_gf8(GF8_POLY, GF8_POLY_COMPACT);

    // The key: field elements 1 ..= k + n, pairwise distinct and nonzero.
    let mut key: Vec<u8> = Vec::new();
    let mut i: usize = 0;
    while i < k + n
        invariant
            i <= k + n,
            k + n <= 255,
            key@ == spec_split_key(k as nat, n as nat).take(i as int),
        decreases k + n - i,
    {
        key.push((i + 1) as u8);
        assert(spec_split_key(k as nat, n as nat).take(i + 1) =~= spec_split_key(
            k as nat,
            n as nat,
        ).take(i as int).push((i + 1) as u8));
        i = i + 1;
    }
    assert(key@ =~= spec_split_key(k as nat, n as nat));

    proof {
        assert(k * n <= 65025) by (nonlinear_arith)
            requires
                k <= 255 && n <= 255,
        ;
    }
    let cauchy = cauchy_rows(&f, &key, k, n);

    // One generator row per share.
    let mut rows: Vec<Vec<u8>> = Vec::new();
    let mut j: usize = 0;
    while j < n
        invariant
            j <= n,
            k >= 1,
            n <= 255,
            k + n <= 255,
            cauchy@ == cauchy_of(spec_split_key(k as nat, n as nat), k as nat, n as nat),
            cauchy@.len() == n * k,
            rows@.len() == j,
            forall|t: int|
                0 <= t < j ==> (#[trigger] rows@[t])@ == spec_gen_row(k as nat, n as nat, t)
                    && (#[trigger] rows@[t])@.len() == k,
        decreases n - j,
    {
        assert(j * k + k <= n * k && n * k <= 65025) by (nonlinear_arith)
            requires
                j < n && k >= 1 && k <= 255 && n <= 255,
        ;
        let row = subrange_vec(&cauchy, j * k, j * k + k);
        rows.push(row);
        j = j + 1;
    }

    // Start each share with its header.
    let ghost gn = spec_group_count(data@.len(), k as nat);
    let mut shares: Vec<Vec<u8>> = Vec::new();
    let mut j: usize = 0;
    while j < n
        invariant
            j <= n,
            k >= 1,
            k + n <= 255,
            data@.len() <= usize::MAX - 300,
            rows@.len() == n,
            forall|t: int|
                0 <= t < n ==> (#[trigger] rows@[t])@ == spec_gen_row(k as nat, n as nat, t)
                    && (#[trigger] rows@[t])@.len() == k,
            shares@.len() == j,
            forall|t: int|
                0 <= t < j ==> (#[trigger] shares@[t])@ == spec_encode_header(
                    spec_share_header(data@.len(), k as nat, n as nat, t),
                ),
        decreases n - j,
    {
        let xform_data = crate::matrix::clone_row(&rows[j]);
        let h = HeaderV1 {
            k,
            w: 1,
            chunk_start: 0,
            chunk_next: data.len(),
            xform_data,
            large_k: false,
            large_w: false,
            is_final: true,
            xform: true,
        };
        assert(h@.wf()) by {
            assert(h@.xform_data.len() == k * 1);
        }
        let share = crate::header::write_sharefile_header(&h);
        assert(h@ == spec_share_header(data@.len(), k as nat, n as nat, j as int));
        shares.push(share);
        j = j + 1;
    }

    // Walk the groups; each contributes one byte to every share.
    let len = data.len();
    let groups = (len + (k - 1)) / k;
    proof {
        assert(groups == gn);
    }
    let mut c: usize = 0;
    while c < groups
        invariant
            c <= groups,
            k >= 1,
            k + n <= 255,
            is_gf8(f),
            data@.len() <= usize::MAX - 300,
            len == data@.len(),
            groups == gn,
            gn == spec_group_count(data@.len(), k as nat),
            rows@.len() == n,
            forall|t: int|
                0 <= t < n ==> (#[trigger] rows@[t])@ == spec_gen_row(k as nat, n as nat, t)
                    && (#[trigger] rows@[t])@.len() == k,
            shares@.len() == n,
            forall|t: int|
                0 <= t < n ==> (#[trigger] shares@[t])@ == spec_encode_header(
                    spec_share_header(data@.len(), k as nat, n as nat, t),
                ) + spec_share_payload(data@, k as nat, n as nat, t).take(c as int),
        decreases groups - c,
    {
        assert(c * k + k <= len + k) by (nonlinear_arith)
            requires
                c < groups && k >= 1 && groups == ((len + k - 1) as int / k as int),
        ;
        // The current group, zero-padded past the end of the data.
        let mut group: Vec<u8> = Vec::new();
        let mut i: usize = 0;
        while i < k
            invariant
                i <= k,
                k <= 255,
                c * k + k <= len + k,
                len == data@.len(),
                data@.len() <= usize::MAX - 300,
                group@ == spec_group(data@, k as nat, c as int).take(i as int),
            decreases k - i,
        {
            let pos = c * k + i;
            if pos < len {
                group.push(data[pos]);
            } else {
                group.push(0);
            }
            assert(spec_group(data@, k as nat, c as int).take(i + 1) =~= spec_group(
                data@,
                k as nat,
                c as int,
            ).take(i as int).push(spec_group(data@, k as nat, c as int)[i as int]));
            i = i + 1;
        }
        assert(group@ =~= spec_group(data@, k as nat, c as int));

        let mut j: usize = 0;
        while j < n
            invariant
                j <= n,
                k >= 1,
                k + n <= 255,
                is_gf8(f),
                c < groups,
                groups == gn,
                gn == spec_group_count(data@.len(), k as nat),
                group@ == spec_group(data@, k as nat, c as int),
                group@.len() == k,
                rows@.len() == n,
                forall|t: int|
                    0 <= t < n ==> (#[trigger] rows@[t])@ == spec_gen_row(k as nat, n as nat, t)
                        && (#[trigger] rows@[t])@.len() == k,
                shares@.len() == n,
                forall|t: int|
                    0 <= t < j ==> (#[trigger] shares@[t])@ == spec_encode_header(
                        spec_share_header(data@.len(), k as nat, n as nat, t),
                    ) + spec_share_payload(data@, k as nat, n as nat, t).take(c + 1),
                forall|t: int|
                    j <= t < n ==> (#[trigger] shares@[t])@ == spec_encode_header(
                        spec_share_header(data@.len(), k as nat, n as nat, t),
                    ) + spec_share_payload(data@, k as nat, n as nat, t).take(c as int),
            decreases n - j,
        {
            assert(rows@[j as int]@.len() == k) by {
                assert(rows@[j as int]@ == spec_gen_row(k as nat, n as nat, j as int));
            }
            let d = gf8_dot_vec(&f, &rows[j], &group);
            let ghost pre = shares@[j as int]@;
            shares[j].push(d);
            proof {
                let pl = spec_share_payload(data@, k as nat, n as nat, j as int);
                assert(pl[c as int] == gf8_dot(
                    spec_gen_row(k as nat, n as nat, j as int),
                    spec_group(data@, k as nat, c as int),
                ));
                assert(pl.take(c + 1) =~= pl.take(c as int).push(pl[c as int]));
                assert(shares@[j as int]@ =~= pre.push(d));
            }
            j = j + 1;
        }
        c = c + 1;
    }
    proof {
        assert(forall|t: int|
            0 <= t < n ==> spec_share_payload(data@, k as nat, n as nat, t).take(gn as int)
                =~= spec_share_payload(data@, k as nat, n as nat, t));
    }
    Ok(shares)
}

} // verus!
