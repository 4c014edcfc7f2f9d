//! The sharefile header codec.
//!
//! Every share file starts with one `HeaderV1`:
//!
//! magic `"SF"` (2 bytes) | version 1 (1 byte) | options (1 byte) |
//! `k` (1 or 2 bytes) | `w` (1 or 2 bytes) | variable-length `chunk_start` |
//! variable-length `chunk_next` | transform row (`k * w` bytes, iff present).
//!
//! All integers are big-endian.  The options bits are: 0 `large_k`,
//! 1 `large_w`, 2 `is_final`, 3 `xform`; the high four bits are reserved and
//! must be clear.

use vstd::prelude::*;

use crate::errors::{FormatFault, IdaError};
use crate::varint::{
    lemma_be_bytes_len, lemma_be_val_of_bytes, spec_be_bytes, spec_be_val,
    spec_encode_length, spec_len_bytes,
};

verus! {

/// The decoded form of a share file's leading metadata.
#[derive(Debug, PartialEq, Eq)]
pub struct HeaderV1 {
    /// Quorum: how many shares reconstruction needs.
    pub k: usize,
    /// Symbol width in bytes (the engines handle only `w == 1`).
    pub w: usize,
    /// First byte of the chunk this header covers.
    pub chunk_start: usize,
    /// One past the last byte of the chunk.
    pub chunk_next: usize,
    /// This share's row of the generator matrix, `k * w` bytes when `xform`.
    pub xform_data: Vec<u8>,
    /// `k` takes two bytes on the wire.
    pub large_k: bool,
    /// `w` takes two bytes on the wire.
    pub large_w: bool,
    /// Last (or only) chunk of the file.
    pub is_final: bool,
    /// A transform row is embedded.
    pub xform: bool,
}

/// The mathematical image of a `HeaderV1`.
pub ghost struct HeaderModel {
    pub k: nat,
    pub w: nat,
    pub chunk_start: nat,
    pub chunk_next: nat,
    pub xform_data: Seq<u8>,
    pub large_k: bool,
    pub large_w: bool,
    pub is_final: bool,
    pub xform: bool,
}

impl View for HeaderV1 {
    type V = HeaderModel;

    open spec fn view(&self) -> HeaderModel {
        HeaderModel {
            k: self.k as nat,
            w: self.w as nat,
            chunk_start: self.chunk_start as nat,
            chunk_next: self.chunk_next as nat,
            xform_data: self.xform_data@,
            large_k: self.large_k,
            large_w: self.large_w,
            is_final: self.is_final,
            xform: self.xform,
        }
    }
}

impl HeaderModel {
    /// A header that the wire format can carry faithfully: the scalar fields
    /// fit their encoded widths and the transform row, when present, holds
    /// exactly `k * w` bytes (and is absent otherwise).
    pub open spec fn wf(self) -> bool {
        &&& self.k < (if self.large_k { 0x10000nat } else { 0x100nat })
        &&& self.w < (if self.large_w { 0x10000nat } else { 0x100nat })
        &&& self.chunk_start <= usize::MAX
        &&& self.chunk_next <= usize::MAX
        &&& self.xform_data.len() == (if self.xform { self.k * self.w } else { 0nat })
    }

    /// The options byte: one bit per flag, high bits clear.
    pub open spec fn options(self) -> nat {
        (if self.large_k { 1nat } else { 0nat }) + (if self.large_w { 2nat } else { 0nat })
            + (if self.is_final { 4nat } else { 0nat }) + (if self.xform { 8nat } else { 0nat })
    }
}

/// A scalar as encoded: two big-endian bytes when `large`, else one.
pub open spec fn spec_scalar_bytes(large: bool, v: nat) -> Seq<u8> {
    if large {
        seq![(v / 256) as u8, (v % 256) as u8]
    } else {
        seq![v as u8]
    }
}

/// The exact wire image of a header.
pub open spec fn spec_encode_header(h: HeaderModel) -> Seq<u8> {
    seq![0x53u8, 0x46u8, 1u8, h.options() as u8] + spec_scalar_bytes(h.large_k, h.k)
        + spec_scalar_bytes(h.large_w, h.w) + spec_encode_length(h.chunk_start)
        + spec_encode_length(h.chunk_next) + (if h.xform {
        h.xform_data
    } else {
        Seq::<u8>::empty()
    })
}

/// Parse a one- or two-byte big-endian scalar at `i`; `None` on a short read.
pub open spec fn spec_parse_scalar(s: Seq<u8>, i: int, large: bool) -> Option<(nat, int)> {
    if large {
        if i + 2 <= s.len() {
            Some(((s[i] as nat) * 256 + s[i + 1] as nat, i + 2))
        } else {
            None
        }
    } else {
        if i + 1 <= s.len() {
            Some((s[i] as nat, i + 1))
        } else {
            None
        }
    }
}

/// Parse a variable-length integer at `i`; `None` on a short read.
pub open spec fn spec_parse_varint(s: Seq<u8>, i: int) -> Option<(nat, int)> {
    if i + 1 <= s.len() {
        let lb = s[i] as int;
        if i + 1 + lb <= s.len() {
            Some((spec_be_val(s.subrange(i + 1, i + 1 + lb)), i + 1 + lb))
        } else {
            None
        }
    } else {
        None
    }
}

/// The exact decoding of a header from the front of `s`: the header model and
/// how many bytes it occupied, or the first fault the decoder meets.
pub open spec fn spec_decode_header(s: Seq<u8>) -> Result<(HeaderModel, int), FormatFault> {
    if s.len() < 2 {
        Err(FormatFault::Truncated)
    } else if s[0] != 0x53 || s[1] != 0x46 {
        Err(FormatFault::BadMagic)
    } else if s.len() < 4 {
        Err(FormatFault::Truncated)
    } else if s[2] != 1 {
        Err(FormatFault::BadVersion)
    } else if s[3] as nat / 16 != 0 {
        Err(FormatFault::ReservedOptions)
    } else {
        let opts = s[3] as nat;
        let large_k = opts % 2 == 1;
        let large_w = (opts / 2) % 2 == 1;
        let is_final = (opts / 4) % 2 == 1;
        let xform = (opts / 8) % 2 == 1;
        match spec_parse_scalar(s, 4, large_k) {
            None => Err(FormatFault::Truncated),
            Some((k, i1)) => match spec_parse_scalar(s, i1, large_w) {
                None => Err(FormatFault::Truncated),
                Some((w, i2)) => match spec_parse_varint(s, i2) {
                    None => Err(FormatFault::Truncated),
                    Some((cs, i3)) => if cs > usize::MAX {
                        Err(FormatFault::Oversize)
                    } else {
                        match spec_parse_varint(s, i3) {
                            None => Err(FormatFault::Truncated),
                            Some((cn, i4)) => if cn > usize::MAX {
                                Err(FormatFault::Oversize)
                            } else if xform {
                                if i4 + k * w <= s.len() {
                                    Ok(
                                        (
                                            HeaderModel {
                                                k,
                                                w,
                                                chunk_start: cs,
                                                chunk_next: cn,
                                                xform_data: s.subrange(i4, i4 + k * w),
                                                large_k,
                                                large_w,
                                                is_final,
                                                xform,
                                            },
                                            i4 + k * w,
                                        ),
                                    )
                                } else {
                                    Err(FormatFault::Truncated)
                                }
                            } else {
                                Ok(
                                    (
                                        HeaderModel {
                                            k,
                                            w,
                                            chunk_start: cs,
                                            chunk_next: cn,
                                            xform_data: Seq::<u8>::empty(),
                                            large_k,
                                            large_w,
                                            is_final,
                                            xform,
                                        },
                                        i4,
                                    ),
                                )
                            },
                        }
                    },
                },
            },
        }
    }
}

/// A varint encoding embedded at `i` parses back to its value.
pub(crate) proof fn lemma_parse_varint_of_encoding(s: Seq<u8>, i: int, n: nat)
    requires
        0 <= i,
        i + spec_encode_length(n).len() <= s.len(),
        s.subrange(i, i + spec_encode_length(n).len() as int) == spec_encode_length(n),
        spec_len_bytes(n) < 256,
    ensures
        spec_parse_varint(s, i) == Some((n, i + spec_encode_length(n).len() as int)),
{
    let enc = spec_encode_length(n);
    lemma_be_bytes_len(n);
    let lb = spec_len_bytes(n) as int;
    assert(s[i] == enc[0]) by {
        assert(s.subrange(i, i + enc.len() as int)[0] == s[i]);
    }
    assert(enc[0] == spec_len_bytes(n) as u8);
    assert(s[i] as int == lb);
    assert(i + 1 + lb <= s.len());
    assert(s.subrange(i + 1, i + 1 + lb) =~= spec_be_bytes(n)) by {
        assert(forall|t: int|
            0 <= t < lb ==> #[trigger] s.subrange(i + 1, i + 1 + lb)[t] == s.subrange(
                i,
                i + enc.len() as int,
            )[t + 1]);
    }
    lemma_be_val_of_bytes(n);
}

/// How the encoding of a header is laid out: where each field's bytes sit.
#[verifier::rlimit(100)]
#[verifier::spinoff_prover]
proof fn lemma_encode_header_layout(h: HeaderModel)
    requires
        h.wf(),
    ensures
        ({
            let s = spec_encode_header(h);
            let kb = spec_scalar_bytes(h.large_k, h.k);
            let wb = spec_scalar_bytes(h.large_w, h.w);
            let e1 = spec_encode_length(h.chunk_start);
            let e2 = spec_encode_length(h.chunk_next);
            let o2 = 4 + kb.len() as int;
            let o3 = o2 + wb.len() as int;
            let o4 = o3 + e1.len() as int;
            let o5 = o4 + e2.len() as int;
            &&& s.len() == o5 + (if h.xform { h.xform_data.len() } else { 0nat })
            &&& s.subrange(0, 4) == seq![0x53u8, 0x46u8, 1u8, h.options() as u8]
            &&& s.subrange(4, o2) == kb
            &&& s.subrange(o2, o3) == wb
            &&& s.subrange(o3, o4) == e1
            &&& s.subrange(o4, o5) == e2
            &&& (h.xform ==> s.subrange(o5, s.len() as int) == h.xform_data)
        }),
{
    let s = spec_encode_header(h);
    let p = seq![0x53u8, 0x46u8, 1u8, h.options() as u8];
    let kb = spec_scalar_bytes(h.large_k, h.k);
    let wb = spec_scalar_bytes(h.large_w, h.w);
    let e1 = spec_encode_length(h.chunk_start);
    let e2 = spec_encode_length(h.chunk_next);
    let o2 = 4 + kb.len() as int;
    let o3 = o2 + wb.len() as int;
    let o4 = o3 + e1.len() as int;
    let o5 = o4 + e2.len() as int;
    assert(s.subrange(0, 4) =~= p);
    assert(s.subrange(4, o2) =~= kb);
    assert(s.subrange(o2, o3) =~= wb);
    assert(s.subrange(o3, o4) =~= e1);
    assert(s.subrange(o4, o5) =~= e2);
    if h.xform {
        assert(s.subrange(o5, s.len() as int) =~= h.xform_data);
    }
}

/// The flag bits come back out of the options arithmetic.
proof fn lemma_options_bits(h: HeaderModel)
    ensures
        h.options() < 16,
        h.options() % 2 == (if h.large_k { 1nat } else { 0nat }),
        (h.options() / 2) % 2 == (if h.large_w { 1nat } else { 0nat }),
        (h.options() / 4) % 2 == (if h.is_final { 1nat } else { 0nat }),
        (h.options() / 8) % 2 == (if h.xform { 1nat } else { 0nat }),
{
}

/// Header round-trip: a well-formed header decodes from the front of its own
/// encoding followed by anything at all, and occupies exactly its encoding.
#[verifier::rlimit(100)]
#[verifier::spinoff_prover]
pub proof fn lemma_header_roundtrip_prefix(h: HeaderModel, extra: Seq<u8>)
    requires
        h.wf(),
    ensures
        spec_decode_header(spec_encode_header(h) + extra) == Ok::<(HeaderModel, int), FormatFault>(
            (h, spec_encode_header(h).len() as int),
        ),
{
    let enc = spec_encode_header(h);
    let s = enc + extra;
    let p = seq![0x53u8, 0x46u8, 1u8, h.options() as u8];
    let kb = spec_scalar_bytes(h.large_k, h.k);
    let wb = spec_scalar_bytes(h.large_w, h.w);
    let e1 = spec_encode_length(h.chunk_start);
    let e2 = spec_encode_length(h.chunk_next);
    let o2 = 4 + kb.len() as int;
    let o3 = o2 + wb.len() as int;
    let o4 = o3 + e1.len() as int;
    let o5 = o4 + e2.len() as int;
    lemma_encode_header_layout(h);
    lemma_options_bits(h);
    assert(s.subrange(0, 4) =~= enc.subrange(0, 4));
    assert(s.subrange(4, o2) =~= enc.subrange(4, o2));
    assert(s.subrange(o2, o3) =~= enc.subrange(o2, o3));
    assert(s.subrange(o3, o4) =~= enc.subrange(o3, o4));
    assert(s.subrange(o4, o5) =~= enc.subrange(o4, o5));

    assert(s[0] == 0x53 && s[1] == 0x46 && s[2] == 1 && s[3] == h.options() as u8) by {
        assert(s.subrange(0, 4)[0] == s[0]);
        assert(s.subrange(0, 4)[1] == s[1]);
        assert(s.subrange(0, 4)[2] == s[2]);
        assert(s.subrange(0, 4)[3] == s[3]);
    }
    let opts = h.options();
    assert(s[3] as nat == opts);

    // The k and w scalars parse back to themselves.
    if h.large_k {
        assert(s[4] == (h.k / 256) as u8 && s[5] == (h.k % 256) as u8) by {
            assert(s.subrange(4, o2)[0] == s[4]);
            assert(s.subrange(4, o2)[1] == s[5]);
        }
        assert((s[4] as nat) * 256 + s[5] as nat == h.k);
    } else {
        assert(s[4] == h.k as u8) by {
            assert(s.subrange(4, o2)[0] == s[4]);
        }
        assert(s[4] as nat == h.k);
    }
    assert(spec_parse_scalar(s, 4, h.large_k) == Some((h.k, o2)));
    if h.large_w {
        assert(s[o2] == (h.w / 256) as u8 && s[o2 + 1] == (h.w % 256) as u8) by {
            assert(s.subrange(o2, o3)[0] == s[o2]);
            assert(s.subrange(o2, o3)[1] == s[o2 + 1]);
        }
        assert((s[o2] as nat) * 256 + s[o2 + 1] as nat == h.w);
    } else {
        assert(s[o2] == h.w as u8) by {
            assert(s.subrange(o2, o3)[0] == s[o2]);
        }
        assert(s[o2] as nat == h.w);
    }
    assert(spec_parse_scalar(s, o2, h.large_w) == Some((h.w, o3)));

    // The two offsets parse back through the varint lemma.
    crate::varint::lemma_pow256_8();
    crate::varint::lemma_len_bytes_le(h.chunk_start, 8);
    crate::varint::lemma_len_bytes_le(h.chunk_next, 8);
    lemma_parse_varint_of_encoding(s, o3, h.chunk_start);
    lemma_parse_varint_of_encoding(s, o4, h.chunk_next);

    // The transform row is the tail of the encoding.
    if h.xform {
        assert(o5 + h.k * h.w == enc.len());
        assert(s.subrange(o5, o5 + (h.k * h.w) as int) =~= enc.subrange(o5, enc.len() as int));
    }
    let d = spec_decode_header(s);
    assert(d is Ok);
    let (dh, used) = d->Ok_0;
    assert(dh.xform_data =~= h.xform_data);
    assert(dh == h);
    assert(used == enc.len());
}

/// Header round-trip: a well-formed header decodes from its own encoding,
/// and the whole encoding is consumed.
pub proof fn lemma_header_roundtrip(h: HeaderModel)
    requires
        h.wf(),
    ensures
        spec_decode_header(spec_encode_header(h)) == Ok::<(HeaderModel, int), FormatFault>(
            (h, spec_encode_header(h).len() as int),
        ),
{
    lemma_header_roundtrip_prefix(h, Seq::empty());
    assert(spec_encode_header(h) + Seq::<u8>::empty() =~= spec_encode_header(h));
}

/// Serialize a header.  The result is exactly the wire image; writing it to a
/// sink (and checking for a short write) is the caller's business.
pub fn write_sharefile_header(h: &HeaderV1) -> (r: Vec<u8>)
    requires
        h@.wf(),
    ensures
        r@ == spec_encode_header(h@),
{
    let mut buf: Vec<u8> = Vec::new();
    buf.push(0x53);
    buf.push(0x46);
    buf.push(1);
    let mut options: u8 = 0;
    if h.large_k {
        options = options + 1;
    }
    if h.large_w {
        options = options + 2;
    }
    if h.is_final {
        options = options + 4;
    }
    if h.xform {
        options = options + 8;
    }
    buf.push(options);
    if h.large_k {
        buf.push((h.k / 256) as u8);
    }
    buf.push((h.k % 256) as u8);
    if h.large_w {
        buf.push((h.w / 256) as u8);
    }
    buf.push((h.w % 256) as u8);
    let mut e = crate::varint::encode_length(h.chunk_start);
    buf.append(&mut e);
    let mut e2 = crate::varint::encode_length(h.chunk_next);
    buf.append(&mut e2);
    if h.xform {
        let mut t: usize = 0;
        while t < h.xform_data.len()
            invariant
                t <= h.xform_data.len(),
                buf@ == seq![0x53u8, 0x46u8, 1u8, h@.options() as u8]
                    + spec_scalar_bytes(h.large_k, h@.k) + spec_scalar_bytes(h.large_w, h@.w)
                    + spec_encode_length(h@.chunk_start) + spec_encode_length(h@.chunk_next)
                    + h.xform_data@.take(t as int),
            decreases h.xform_data.len() - t,
        {
            buf.push(h.xform_data[t]);
            assert(h.xform_data@.take(t + 1) =~= h.xform_data@.take(t as int).push(
                h.xform_data@[t as int],
            ));
            t = t + 1;
        }
        assert(h.xform_data@.take(h.xform_data@.len() as int) =~= h.xform_data@);
    }
    assert(buf@ =~= spec_encode_header(h@));
    buf
}

fn parse_scalar(bytes: &Vec<u8>, i: usize, large: bool) -> (r: Result<(usize, usize), FormatFault>)
    requires
        i <= bytes@.len(),
    ensures
        match spec_parse_scalar(bytes@, i as int, large) {
            Some((v, next)) => r == Ok::<(usize, usize), FormatFault>((v as usize, next as usize)),
            None => r == Err::<(usize, usize), FormatFault>(FormatFault::Truncated),
        },
{
    if large {
        if bytes.len() - i >= 2 {
            let v = (bytes[i] as usize) * 256 + (bytes[i + 1] as usize);
            Ok((v, i + 2))
        } else {
            Err(FormatFault::Truncated)
        }
    } else {
        if bytes.len() - i >= 1 {
            Ok((bytes[i] as usize, i + 1))
        } else {
            Err(FormatFault::Truncated)
        }
    }
}

fn parse_varint(bytes: &Vec<u8>, i: usize) -> (r: Result<(usize, usize), FormatFault>)
    requires
        i <= bytes@.len(),
    ensures
        match spec_parse_varint(bytes@, i as int) {
            Some((v, next)) => if v > usize::MAX {
                r == Err::<(usize, usize), FormatFault>(FormatFault::Oversize)
            } else {
                r == Ok::<(usize, usize), FormatFault>((v as usize, next as usize))
            },
            None => r == Err::<(usize, usize), FormatFault>(FormatFault::Truncated),
        },
{
    if i >= bytes.len() {
        return Err(FormatFault::Truncated);
    }
    let lb = bytes[i] as usize;
    if bytes.len() - (i + 1) < lb {
        return Err(FormatFault::Truncated);
    }
    let end = i + 1 + lb;
    let ghost mag = bytes@.subrange(i + 1, end as int);
    let mut acc: u64 = 0;
    let mut big = false;
    let mut j = i + 1;
    while j < end
        invariant
            i + 1 <= j <= end,
            end <= bytes@.len(),
            mag == bytes@.subrange(i + 1 as int, end as int),
            mag.len() == end - (i + 1),
            !big ==> acc == spec_be_val(mag.take(j - (i + 1))) && acc <= usize::MAX,
            big ==> spec_be_val(mag.take(j - (i + 1))) > usize::MAX,
        decreases end - j,
    {
        let b = bytes[j];
        let ghost pre = mag.take(j - (i + 1));
        let ghost post = mag.take(j + 1 - (i + 1));
        assert(post =~= pre.push(mag[j - (i + 1)]));
        assert(spec_be_val(post) == spec_be_val(pre) * 256 + b) by {
            assert(post.drop_last() =~= pre);
            assert(post.last() == b);
        }
        if !big {
            if acc >= 0x0100_0000_0000_0000u64 {
                big = true;
                assert(spec_be_val(pre) * 256 >= 0x0100_0000_0000_0000 * 256);
            } else {
                acc = acc * 256 + (b as u64);
                if acc > usize::MAX as u64 {
                    big = true;
                }
            }
        } else {
            assert(spec_be_val(pre) * 256 > usize::MAX * 256);
            assert(usize::MAX * 256 >= usize::MAX);
        }
        j = j + 1;
    }
    assert(mag.take(end - (i + 1)) =~= mag);
    if big {
        Err(FormatFault::Oversize)
    } else {
        Ok((acc as usize, end))
    }
}

/// Decode the header at the front of `bytes`.  On success the result also
/// says how many bytes the header occupied, so the share's data begins at
/// that offset.  Every fault of the format is reported as the matching
/// `FormatFault`, exactly as `spec_decode_header` lays down.
pub fn read_sharefile_header(bytes: &Vec<u8>) -> (r: Result<(HeaderV1, usize), IdaError>)
    ensures
        match r {
            Ok((h, used)) => {
                &&& spec_decode_header(bytes@) == Ok::<(HeaderModel, int), FormatFault>(
                    (h@, used as int),
                )
                &&& h@.wf()
                &&& used <= bytes@.len()
            },
            Err(e) => {
                &&& spec_decode_header(bytes@) matches Err(f) && e == IdaError::Format(f)
            },
        },
{
    if bytes.len() < 2 {
        return Err(IdaError::Format(FormatFault::Truncated));
    }
    if bytes[0] != 0x53 || bytes[1] != 0x46 {
        return Err(IdaError::Format(FormatFault::BadMagic));
    }
    if bytes.len() < 4 {
        return Err(IdaError::Format(FormatFault::Truncated));
    }
    if bytes[2] != 1 {
        return Err(IdaError::Format(FormatFault::BadVersion));
    }
    let options = bytes[3];
    if options / 16 != 0 {
        return Err(IdaError::Format(FormatFault::ReservedOptions));
    }
    let large_k = options % 2 == 1;
    let large_w = (options / 2) % 2 == 1;
    let is_final = (options / 4) % 2 == 1;
    let xform = (options / 8) % 2 == 1;
    let (k, i1) = match parse_scalar(bytes, 4, large_k) {
        Ok(p) => p,
        Err(f) => {
            return Err(IdaError::Format(f));
        },
    };
    let (w, i2) = match parse_scalar(bytes, i1, large_w) {
        Ok(p) => p,
        Err(f) => {
            return Err(IdaError::Format(f));
        },
    };
    let (chunk_start, i3) = match parse_varint(bytes, i2) {
        Ok(p) => p,
        Err(f) => {
            return Err(IdaError::Format(f));
        },
    };
    let (chunk_next, i4) = match parse_varint(bytes, i3) {
        Ok(p) => p,
        Err(f) => {
            return Err(IdaError::Format(f));
        },
    };
    let mut xform_data: Vec<u8> = Vec::new();
    let mut used = i4;
    if xform {
        assert(k < 0x10000 && w < 0x10000);
        assert((k as nat) * (w as nat) < 0x100000000) by (nonlinear_arith)
            requires
                k < 0x10000 && w < 0x10000,
        ;
        let kw = k * w;
        if bytes.len() - i4 < kw {
            return Err(IdaError::Format(FormatFault::Truncated));
        }
        let mut t: usize = 0;
        while t < kw
            invariant
                t <= kw,
                i4 + kw <= bytes@.len(),
                bytes@.len() <= usize::MAX,
                xform_data@ == bytes@.subrange(i4 as int, i4 + t),
            decreases kw - t,
        {
            xform_data.push(bytes[i4 + t]);
            assert(bytes@.subrange(i4 as int, i4 + t + 1) =~= bytes@.subrange(
                i4 as int,
                i4 + t,
            ).push(bytes@[i4 + t]));
            t = t + 1;
        }
        used = i4 + kw;
    }
    let h = HeaderV1 { k, w, chunk_start, chunk_next, xform_data, large_k, large_w, is_final, xform };
    assert(h@.wf()) by {
        if h@.xform {
            assert(h@.xform_data.len() == h@.k * h@.w);
        }
    }
    Ok((h, used))
}

} // verus!
