//! Verified GF(256) vector and matrix arithmetic.
//!
//! Matrices are flat row-major byte vectors, or vectors of row vectors.
//! Everything here is ordinary verified code; the field operations
//! themselves come from the trusted boundary in `gf256` and all contracts
//! are stated over the names `gf8_mul` and `gf8_inv`.

use vstd::prelude::*;

use crate::gf256::{field_inv, field_mul, gf8_inv, gf8_mul, is_gf8};

verus! {

/// The GF(256) dot product: the xor of the pairwise field products.
pub open spec fn gf8_dot(xs: Seq<u8>, ys: Seq<u8>) -> u8
    decreases xs.len(),
{
    if xs.len() == 0 || ys.len() == 0 {
        0
    } else {
        gf8_dot(xs.drop_last(), ys.drop_last()) ^ gf8_mul(xs.last(), ys.last())
    }
}

/// Compute the dot product of two equally long vectors.
pub fn gf8_dot_vec(f: &guff::F8, xs: &Vec<u8>, ys: &Vec<u8>) -> (r: u8)
    requires
        is_gf8(*f),
        xs@.len() == ys@.len(),
    ensures
        r == gf8_dot(xs@, ys@),
{
    let mut acc: u8 = 0;
    let mut i: usize = 0;
    while i < xs.len()
        invariant
            is_gf8(*f),
            xs@.len() == ys@.len(),
            i <= xs@.len(),
            acc == gf8_dot(xs@.take(i as int), ys@.take(i as int)),
        decreases xs@.len() - i,
    {
        let m = field_mul(f, xs[i], ys[i]);
        acc = acc ^ m;
        assert(xs@.take(i + 1).drop_last() =~= xs@.take(i as int));
        assert(ys@.take(i + 1).drop_last() =~= ys@.take(i as int));
        assert(xs@.take(i + 1).last() == xs@[i as int]);
        i = i + 1;
    }
    assert(xs@.take(xs@.len() as int) =~= xs@);
    assert(ys@.take(ys@.len() as int) =~= ys@);
    acc
}

/// Copy `v[a..b]` out as its own vector.
pub fn subrange_vec(v: &Vec<u8>, a: usize, b: usize) -> (r: Vec<u8>)
    requires
        a <= b <= v@.len(),
    ensures
        r@ == v@.subrange(a as int, b as int),
{
    let mut r: Vec<u8> = Vec::new();
    let mut i = a;
    while i < b
        invariant
            a <= i <= b <= v@.len(),
            r@ == v@.subrange(a as int, i as int),
        decreases b - i,
    {
        r.push(v[i]);
        assert(v@.subrange(a as int, i + 1) =~= v@.subrange(a as int, i as int).push(
            v@[i as int],
        ));
        i = i + 1;
    }
    r
}

pub(crate) fn clone_row(v: &Vec<u8>) -> (r: Vec<u8>)
    ensures
        r@ == v@,
{
    let r = subrange_vec(v, 0, v.len());
    assert(v@.subrange(0, v@.len() as int) =~= v@);
    r
}

/// The mathematical image of a vector of row vectors.
pub open spec fn rows_model(v: Seq<Vec<u8>>) -> Seq<Seq<u8>> {
    Seq::new(v.len(), |i: int| v[i]@)
}

/// Every entry of a row multiplied by the field element `s`.
pub open spec fn row_scale(row: Seq<u8>, s: u8) -> Seq<u8> {
    Seq::new(row.len(), |i: int| gf8_mul(s, row[i]))
}

/// `dst` with `c` times `src` added (xor) entrywise onto it.
pub open spec fn row_addmul(dst: Seq<u8>, src: Seq<u8>, c: u8) -> Seq<u8> {
    Seq::new(dst.len(), |i: int| dst[i] ^ gf8_mul(c, src[i]))
}

/// The first row at or after `r0` whose entry in column `col` is nonzero.
pub open spec fn find_pivot(m: Seq<Seq<u8>>, col: int, r0: int) -> Option<int>
    decreases m.len() - r0,
{
    if r0 < 0 || r0 >= m.len() {
        None
    } else if m[r0][col] != 0 {
        Some(r0)
    } else {
        find_pivot(m, col, r0 + 1)
    }
}

/// One column of Gauss-Jordan elimination: find a pivot in column `col` at
/// or below row `col`, swap it up, scale the pivot row so the pivot becomes
/// one, and clear the column out of every other row.
pub open spec fn gauss_step(m: Seq<Seq<u8>>, col: int) -> Option<Seq<Seq<u8>>> {
    match find_pivot(m, col, col) {
        None => None,
        Some(p) => {
            let swapped = m.update(col, m[p]).update(p, m[col]);
            let scaled = swapped.update(
                col,
                row_scale(swapped[col], gf8_inv(swapped[col][col])),
            );
            Some(
                Seq::new(
                    m.len(),
                    |r: int|
                        if r == col {
                            scaled[col]
                        } else {
                            row_addmul(scaled[r], scaled[col], scaled[r][col])
                        },
                ),
            )
        },
    }
}

/// The first `j` columns of the elimination, or `None` if any of them lacks
/// a pivot.
pub open spec fn gauss_upto(m: Seq<Seq<u8>>, j: int) -> Option<Seq<Seq<u8>>>
    decreases j,
{
    if j <= 0 {
        Some(m)
    } else {
        match gauss_upto(m, j - 1) {
            None => None,
            Some(mm) => gauss_step(mm, j - 1),
        }
    }
}

/// The starting augmented matrix `[A | I]` for a row-major `k x k` `A`.
pub open spec fn augmented(a: Seq<u8>, k: nat) -> Seq<Seq<u8>> {
    Seq::new(
        k,
        |r: int|
            Seq::new(
                2 * k,
                |c: int|
                    if c < k {
                        a[r * k + c]
                    } else if c == k + r {
                        1u8
                    } else {
                        0u8
                    },
            ),
    )
}

/// What Gauss-Jordan elimination over GF(256) yields for the row-major
/// `k x k` matrix `a`: the rows of its inverse, or `None` when some column
/// has no pivot, that is, when the matrix is singular under the elimination.
pub open spec fn spec_gf8_invert(a: Seq<u8>, k: nat) -> Option<Seq<Seq<u8>>> {
    match gauss_upto(augmented(a, k), k as int) {
        None => None,
        Some(m) => Some(Seq::new(k, |r: int| m[r].subrange(k as int, 2 * k as int))),
    }
}

proof fn lemma_find_pivot_at(m: Seq<Seq<u8>>, col: int, r0: int, p: int)
    requires
        0 <= r0 <= p < m.len(),
        m[p][col] != 0,
        forall|t: int| r0 <= t < p ==> m[t][col] == 0,
    ensures
        find_pivot(m, col, r0) == Some(p),
    decreases p - r0,
{
    if r0 < p {
        lemma_find_pivot_at(m, col, r0 + 1, p);
    }
}

proof fn lemma_find_pivot_none(m: Seq<Seq<u8>>, col: int, r0: int)
    requires
        0 <= r0,
        forall|t: int| r0 <= t < m.len() ==> m[t][col] == 0,
    ensures
        find_pivot(m, col, r0) is None,
    decreases m.len() - r0,
{
    if r0 < m.len() {
        lemma_find_pivot_none(m, col, r0 + 1);
    }
}

/// Once the elimination dies it stays dead.
proof fn lemma_gauss_upto_none(m: Seq<Seq<u8>>, j1: int, j2: int)
    requires
        0 <= j1 <= j2,
        gauss_upto(m, j1) is None,
    ensures
        gauss_upto(m, j2) is None,
    decreases j2 - j1,
{
    if j1 < j2 {
        lemma_gauss_upto_none(m, j1, j2 - 1);
    }
}

/// Invert the row-major `k x k` matrix `a` by Gauss-Jordan elimination,
/// returning the rows of the inverse, or `None` exactly when the
/// elimination `spec_gf8_invert` mirrors finds no pivot.
pub fn gf8_invert(f: &guff::F8, a: &Vec<u8>, k: usize) -> (r: Option<Vec<Vec<u8>>>)
    requires
        is_gf8(*f),
        1 <= k <= 0xffff,
        a@.len() == k * k,
    ensures
        match r {
            Some(rows) => {
                &&& spec_gf8_invert(a@, k as nat) == Some(rows_model(rows@))
                &&& rows@.len() == k
                &&& forall|t: int| 0 <= t < k ==> (#[trigger] rows@[t])@.len() == k
            },
            None => spec_gf8_invert(a@, k as nat) is None,
        },
{
    let ghost aug0 = augmented(a@, k as nat);
    let a_len: usize = a.len();
    assert(a_len == a@.len() && a@.len() <= usize::MAX);
    let width = 2 * k;

    // Lay out the augmented matrix [A | I].
    let mut aug: Vec<Vec<u8>> = Vec::new();
    let mut r: usize = 0;
    while r < k
        invariant
            r <= k,
            1 <= k <= 0xffff,
            width == 2 * k,
            a@.len() == k * k,
            a@.len() <= usize::MAX,
            aug0 == augmented(a@, k as nat),
            aug@.len() == r,
            forall|t: int| 0 <= t < r ==> (#[trigger] aug@[t])@ == aug0[t],
        decreases k - r,
    {
        assert(r * k + k <= k * k) by (nonlinear_arith)
            requires
                r < k,
        ;
        let mut row: Vec<u8> = Vec::new();
        let mut c: usize = 0;
        while c < width
            invariant
                c <= width,
                r < k <= 0xffff,
                width == 2 * k,
                a@.len() == k * k,
                a@.len() <= usize::MAX,
                r * k + k <= k * k,
                aug0 == augmented(a@, k as nat),
                row@ == aug0[r as int].take(c as int),
            decreases width - c,
        {
            if c < k {
                row.push(a[r * k + c]);
            } else if c == k + r {
                row.push(1);
            } else {
                row.push(0);
            }
            assert(aug0[r as int].take(c + 1) =~= aug0[r as int].take(c as int).push(
                aug0[r as int][c as int],
            ));
            c = c + 1;
        }
        assert(row@ =~= aug0[r as int]);
        aug.push(row);
        r = r + 1;
    }
    assert(rows_model(aug@) =~= aug0);

    // Eliminate one column per pass.
    let mut col: usize = 0;
    while col < k
        invariant
            col <= k,
            1 <= k <= 0xffff,
            width == 2 * k,
            is_gf8(*f),
            a@.len() == k * k,
            aug0 == augmented(a@, k as nat),
            aug@.len() == k,
            forall|t: int| 0 <= t < k ==> (#[trigger] aug@[t])@.len() == width,
            gauss_upto(aug0, col as int) == Some(rows_model(aug@)),
        decreases k - col,
    {
        let ghost cur = rows_model(aug@);

        // Search for the pivot row.
        let mut p: usize = col;
        let mut found = false;
        while !found && p < k
            invariant
                col <= p <= k,
                aug@.len() == k,
                width == 2 * k,
                col < k,
                forall|t: int| 0 <= t < k ==> (#[trigger] aug@[t])@.len() == width,
                cur == rows_model(aug@),
                found ==> p < k && cur[p as int][col as int] != 0,
                forall|t: int| col <= t < p ==> cur[t][col as int] == 0,
            decreases k - p, (if found { 0int } else { 1int }),
        {
            if aug[p][col] != 0 {
                found = true;
            } else {
                p = p + 1;
            }
        }
        if !found {
            proof {
                lemma_find_pivot_none(cur, col as int, col as int);
                assert(gauss_step(cur, col as int) is None);
                assert(gauss_upto(aug0, col + 1) is None);
                lemma_gauss_upto_none(aug0, col + 1, k as int);
            }
            return None;
        }
        proof {
            lemma_find_pivot_at(cur, col as int, col as int, p as int);
        }

        // Swap the pivot row up.
        let rowp = clone_row(&aug[p]);
        let rowc = clone_row(&aug[col]);
        aug[col] = rowp;
        aug[p] = rowc;
        let ghost swapped = cur.update(col as int, cur[p as int]).update(p as int, cur[col as int]);
        assert(rows_model(aug@) =~= swapped);

        // Scale the pivot row so the pivot entry becomes one.
        let piv = aug[col][col];
        let piv_inv = field_inv(f, piv);
        let mut news: Vec<u8> = Vec::new();
        let mut c2: usize = 0;
        while c2 < width
            invariant
                c2 <= width,
                col < k,
                aug@.len() == k,
                width == 2 * k,
                is_gf8(*f),
                forall|t: int| 0 <= t < k ==> (#[trigger] aug@[t])@.len() == width,
                swapped == rows_model(aug@),
                piv_inv == gf8_inv(swapped[col as int][col as int]),
                news@ == row_scale(swapped[col as int], piv_inv).take(c2 as int),
            decreases width - c2,
        {
            let v = field_mul(f, piv_inv, aug[col][c2]);
            news.push(v);
            assert(row_scale(swapped[col as int], piv_inv).take(c2 + 1) =~= row_scale(
                swapped[col as int],
                piv_inv,
            ).take(c2 as int).push(row_scale(swapped[col as int], piv_inv)[c2 as int]));
            c2 = c2 + 1;
        }
        assert(news@ =~= row_scale(swapped[col as int], gf8_inv(swapped[col as int][col as int])));
        aug[col] = news;
        let ghost scaled = swapped.update(
            col as int,
            row_scale(swapped[col as int], gf8_inv(swapped[col as int][col as int])),
        );
        assert(rows_model(aug@) =~= scaled);

        // Clear the column out of every other row.
        let ghost done = Seq::new(
            k as nat,
            |t: int|
                if t == col {
                    scaled[col as int]
                } else {
                    row_addmul(scaled[t], scaled[col as int], scaled[t][col as int])
                },
        );
        let mut r2: usize = 0;
        while r2 < k
            invariant
                r2 <= k,
                col < k,
                aug@.len() == k,
                width == 2 * k,
                is_gf8(*f),
                forall|t: int| 0 <= t < k ==> (#[trigger] aug@[t])@.len() == width,
                done == Seq::new(
                    k as nat,
                    |t: int|
                        if t == col {
                            scaled[col as int]
                        } else {
                            row_addmul(scaled[t], scaled[col as int], scaled[t][col as int])
                        },
                ),
                forall|t: int| 0 <= t < k ==> (#[trigger] scaled[t]).len() == width,
                forall|t: int|
                    0 <= t < k ==> (#[trigger] rows_model(aug@)[t]) == (if t < r2 && t != col {
                        done[t]
                    } else {
                        scaled[t]
                    }),
            decreases k - r2,
        {
            if r2 != col {
                assert(aug@[r2 as int]@ == scaled[r2 as int]) by {
                    assert(rows_model(aug@)[r2 as int] == aug@[r2 as int]@);
                }
                assert(aug@[col as int]@ == scaled[col as int]) by {
                    assert(rows_model(aug@)[col as int] == aug@[col as int]@);
                }
                let factor = aug[r2][col];
                assert(factor == scaled[r2 as int][col as int]);
                let mut newr: Vec<u8> = Vec::new();
                let mut c3: usize = 0;
                while c3 < width
                    invariant
                        c3 <= width,
                        r2 < k,
                        r2 != col,
                        col < k,
                        aug@.len() == k,
                        width == 2 * k,
                        is_gf8(*f),
                        forall|t: int| 0 <= t < k ==> (#[trigger] aug@[t])@.len() == width,
                        aug@[r2 as int]@ == scaled[r2 as int],
                        aug@[col as int]@ == scaled[col as int],
                        factor == scaled[r2 as int][col as int],
                        newr@ == row_addmul(scaled[r2 as int], scaled[col as int], factor).take(
                            c3 as int,
                        ),
                    decreases width - c3,
                {
                    let v = aug[r2][c3] ^ field_mul(f, factor, aug[col][c3]);
                    newr.push(v);
                    assert(row_addmul(scaled[r2 as int], scaled[col as int], factor).take(c3 + 1)
                        =~= row_addmul(scaled[r2 as int], scaled[col as int], factor).take(
                        c3 as int,
                    ).push(row_addmul(scaled[r2 as int], scaled[col as int], factor)[c3 as int]));
                    c3 = c3 + 1;
                }
                assert(newr@ =~= row_addmul(
                    scaled[r2 as int],
                    scaled[col as int],
                    scaled[r2 as int][col as int],
                ));
                let ghost nrv = newr@;
                let ghost before = aug@;
                aug[r2] = newr;
                proof {
                    assert forall|t: int| 0 <= t < k implies #[trigger] rows_model(aug@)[t] == (
                    if t < r2 + 1 && t != col {
                        done[t]
                    } else {
                        scaled[t]
                    }) by {
                        if t == r2 {
                            assert(rows_model(aug@)[t] == nrv);
                            assert(done[t] == row_addmul(
                                scaled[t],
                                scaled[col as int],
                                scaled[t][col as int],
                            ));
                        } else {
                            assert(aug@[t] == before[t]);
                            assert(rows_model(aug@)[t] == rows_model(before)[t]);
                        }
                    }
                }
            }
            r2 = r2 + 1;
        }
        proof {
            assert(rows_model(aug@) =~= done);
            assert(gauss_step(cur, col as int) == Some(done));
            assert(gauss_upto(aug0, col + 1) == Some(done));
        }
        col = col + 1;
    }

    // Read the inverse off the right half.
    let ghost eliminated = rows_model(aug@);
    let mut out: Vec<Vec<u8>> = Vec::new();
    let mut r3: usize = 0;
    while r3 < k
        invariant
            r3 <= k,
            1 <= k <= 0xffff,
            width == 2 * k,
            aug@.len() == k,
            forall|t: int| 0 <= t < k ==> (#[trigger] aug@[t])@.len() == width,
            eliminated == rows_model(aug@),
            out@.len() == r3,
            forall|t: int|
                0 <= t < r3 ==> (#[trigger] out@[t])@ == eliminated[t].subrange(
                    k as int,
                    2 * k as int,
                ),
        decreases k - r3,
    {
        let row = subrange_vec(&aug[r3], k, width);
        out.push(row);
        r3 = r3 + 1;
    }
    proof {
        assert(gauss_upto(aug0, k as int) == Some(eliminated));
        assert(rows_model(out@) =~= Seq::new(
            k as nat,
            |t: int| eliminated[t].subrange(k as int, 2 * k as int),
        ));
    }
    Some(out)
}

} // verus!
