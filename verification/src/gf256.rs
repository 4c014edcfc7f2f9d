//! The trusted boundary to the finite-field service.
//!
//! The engines treat GF(256) arithmetic as a service supplied by the `guff`
//! crate and the Cauchy construction as one supplied by `guff_ida`.  What
//! those calls return is named by uninterpreted spec functions — `gf8_mul`,
//! `gf8_inv` and `cauchy_of` — and everything the library proves about
//! matrices is relative to those names.  All shares are built and combined
//! with the field `GF(2^8)` over the polynomial `0x11b`.

use vstd::prelude::*;

use guff::GaloisField;

verus! {

/// The field polynomial of GF(256), with its high bit.
pub const GF8_POLY: u16 = 0x11b;

/// The field polynomial with the high bit stripped.
pub const GF8_POLY_COMPACT: u8 = 0x1b;

#[verifier::external_type_specification]
pub struct ExF8(guff::F8);

/// `f` is the one field every sharefile uses.
pub open spec fn is_gf8(f: guff::F8) -> bool {
    f.full == GF8_POLY && f.compact == GF8_POLY_COMPACT
}

pub assume_specification [ guff::new_gf8 ](full: u16, compact: u8) -> (r: guff::F8)
    ensures
        r.full == full,
        r.compact == compact,
;

/// The product of two field elements in GF(256) over `0x11b`.
pub uninterp spec fn gf8_mul(a: u8, b: u8) -> u8;

/// The multiplicative inverse of a field element (zero for zero).
pub uninterp spec fn gf8_inv(a: u8) -> u8;

/// The row-major `rows x cols` Cauchy matrix that `guff_ida` builds from a
/// key of `cols + rows` field elements.
pub uninterp spec fn cauchy_of(key: Seq<u8>, cols: nat, rows: nat) -> Seq<u8>;

/// Relies on `guff::GaloisField::mul` for `F8`: carry-less multiplication
/// reduced by the field polynomial, a function of the two elements alone
/// once the field is fixed.
#[verifier::external_body]
pub(crate) fn field_mul(f: &guff::F8, a: u8, b: u8) -> (r: u8)
    requires
        is_gf8(*f),
    ensures
        r == gf8_mul(a, b),
{
    f.mul(a, b)
}

/// Relies on `guff::GaloisField::inv` for `F8`: the extended-Euclidean
/// inverse modulo the field polynomial, a function of the element alone once
/// the field is fixed.
#[verifier::external_body]
pub(crate) fn field_inv(f: &guff::F8, a: u8) -> (r: u8)
    requires
        is_gf8(*f),
    ensures
        r == gf8_inv(a),
{
    f.inv(a)
}

/// Relies on `guff_ida::cauchy_matrix`: with at least `cols + rows` key
/// elements it returns the row-major `rows x cols` matrix whose entry
/// `(i, j)` is `1 / (key[cols + i] + key[j])`, a function of the key and the
/// dimensions alone once the field is fixed.
#[verifier::external_body]
pub(crate) fn cauchy_rows(f: &guff::F8, key: &Vec<u8>, cols: usize, rows: usize) -> (r: Vec<u8>)
    requires
        is_gf8(*f),
        key@.len() >= cols + rows,
        cols * rows <= usize::MAX,
    ensures
        r@ == cauchy_of(key@, cols as nat, rows as nat),
        r@.len() == rows * cols,
{
    guff_ida::cauchy_matrix(f, key, cols, rows)
}

} // verus!
