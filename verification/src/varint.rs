//! The sharefile variable-length integer encoding.
//!
//! A value is written as one length byte `b` followed by `b` big-endian
//! magnitude bytes, `b` being the minimal count that holds the value; zero is
//! the single byte `0x00`.  This is a length-prefixed encoding, not a varint
//! in the LEB128 sense.

use vstd::prelude::*;

verus! {

/// Minimal number of magnitude bytes needed for `n`.
pub open spec fn spec_len_bytes(n: nat) -> nat
    decreases n,
{
    if n == 0 {
        0
    } else {
        1 + spec_len_bytes(n / 256)
    }
}

/// The big-endian magnitude bytes of `n`; empty for zero.
pub open spec fn spec_be_bytes(n: nat) -> Seq<u8>
    decreases n,
{
    if n == 0 {
        Seq::empty()
    } else {
        spec_be_bytes(n / 256).push((n % 256) as u8)
    }
}

/// The value carried by a run of big-endian magnitude bytes.
pub open spec fn spec_be_val(s: Seq<u8>) -> nat
    decreases s.len(),
{
    if s.len() == 0 {
        0
    } else {
        spec_be_val(s.drop_last()) * 256 + s.last() as nat
    }
}

/// The complete encoding of `n`: length byte, then magnitude.
pub open spec fn spec_encode_length(n: nat) -> Seq<u8> {
    seq![spec_len_bytes(n) as u8] + spec_be_bytes(n)
}

/// 256 raised to `k`.
pub open spec fn pow256(k: nat) -> nat
    decreases k,
{
    if k == 0 {
        1
    } else {
        256 * pow256((k - 1) as nat)
    }
}

/// The magnitude takes exactly as many bytes as the minimal count says.
pub proof fn lemma_be_bytes_len(n: nat)
    ensures
        spec_be_bytes(n).len() == spec_len_bytes(n),
    decreases n,
{
    if n > 0 {
        lemma_be_bytes_len(n / 256);
    }
}

/// Reading the magnitude bytes of `n` gives back `n`.
pub proof fn lemma_be_val_of_bytes(n: nat)
    ensures
        spec_be_val(spec_be_bytes(n)) == n,
    decreases n,
{
    if n > 0 {
        lemma_be_val_of_bytes(n / 256);
        assert(spec_be_bytes(n).drop_last() =~= spec_be_bytes(n / 256));
    }
}

/// Values under `256^k` need at most `k` magnitude bytes.
pub proof fn lemma_len_bytes_le(n: nat, k: nat)
    requires
        n < pow256(k),
    ensures
        spec_len_bytes(n) <= k,
    decreases k,
{
    if n > 0 {
        lemma_len_bytes_le(n / 256, (k - 1) as nat);
    }
}

/// The minimal byte count never exceeds the value itself.
pub proof fn lemma_len_bytes_le_self(n: nat)
    ensures
        spec_len_bytes(n) <= n,
    decreases n,
{
    if n > 0 {
        lemma_len_bytes_le_self(n / 256);
    }
}

/// The eighth power of 256 written out.
pub proof fn lemma_pow256_8()
    ensures
        pow256(8) == 0x1_0000_0000_0000_0000,
{
    reveal_with_fuel(pow256, 9);
}

/// Any `usize` fits in eight magnitude bytes.
pub proof fn lemma_usize_fits_eight(n: usize)
    ensures
        spec_len_bytes(n as nat) <= 8,
        n < pow256(8),
{
    lemma_pow256_8();
    assert(n < pow256(8));
    lemma_len_bytes_le(n as nat, 8);
}

fn count_len_bytes(n: usize) -> (r: usize)
    ensures
        r == spec_len_bytes(n as nat),
    decreases n,
{
    if n == 0 {
        0
    } else {
        proof {
            lemma_len_bytes_le_self((n / 256) as nat);
        }
        1 + count_len_bytes(n / 256)
    }
}

fn push_be_bytes(n: usize, out: &mut Vec<u8>)
    ensures
        final(out)@ == old(out)@ + spec_be_bytes(n as nat),
    decreases n,
{
    if n == 0 {
        assert(out@ =~= out@ + spec_be_bytes(0));
    } else {
        push_be_bytes(n / 256, out);
        out.push((n % 256) as u8);
        assert(out@ =~= old(out)@ + spec_be_bytes(n as nat));
    }
}

/// Encode `n` in the sharefile variable-length form.
pub fn encode_length(n: usize) -> (r: Vec<u8>)
    ensures
        r@ == spec_encode_length(n as nat),
        r@.len() == 1 + spec_len_bytes(n as nat),
{
    proof {
        lemma_usize_fits_eight(n);
        lemma_be_bytes_len(n as nat);
    }
    let mut r: Vec<u8> = Vec::new();
    let lb = count_len_bytes(n);
    r.push(lb as u8);
    push_be_bytes(n, &mut r);
    assert(r@ =~= spec_encode_length(n as nat));
    r
}

} // verus!
