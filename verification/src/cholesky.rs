//! Cholesky decomposition of a symmetric positive-definite matrix by the
//! Cholesky-Banachiewicz (row by row) recurrence, and the linear-system
//! solver built on it: decompose `A = L·Lᵀ`, forward-substitute `L·z = b`,
//! then back-substitute `Lᵀ·x = z`.
//!
//! Each routine's contract pins its result, bit for bit, to a spec-level
//! fold that performs the same IEEE-754 operations in the same order.  A
//! non-positive-definite input surfaces as NaN propagation through the
//! factor, exactly as the arithmetic produces it; it is not trapped.

use vstd::prelude::*;
use vstd::arithmetic::div_mod::lemma_fundamental_div_mod_converse;
use crate::MathError;
use crate::matrix::{
    cell, dot_bits, stride_at, is_perfect_square, is_symmetric, is_square, square_side, sym_ok,
    lemma_dot_bits_congruence, lemma_square_side,
};
use crate::scalar::{
    add_bits, div_bits, mul_bits, sqrt_bits, sub_bits, fadd, fdiv, fmul, fsqrt, fsub, F64_ZERO,
};

verus! {

/// A sequence of `count` positive zeros.
pub open spec fn zero_seq(count: int) -> Seq<u64> {
    Seq::new(count as nat, |_i: int| F64_ZERO)
}

/// The value the Cholesky-Banachiewicz recurrence writes at cell `(i, j)`
/// of the factor, given the matrix `a` and the partially built factor `l`:
/// the strided inner product of the prefixes of rows `j` and `i`, taken
/// from `a[i,j]`, then a square root on the diagonal or a division by the
/// diagonal of row `j` below it.
pub open spec fn chol_cell(a: Seq<u64>, l: Seq<u64>, n: int, i: int, j: int) -> u64 {
    let s = dot_bits(l, l, j * n, 1, i * n, 1, j);
    if i == j {
        sqrt_bits(sub_bits(cell(a, n, i, i), s))
    } else {
        div_bits(sub_bits(cell(a, n, i, j), s), cell(l, n, j, j))
    }
}

/// The factor after the first `j` cells of row `i` have been written on
/// top of `l`, left to right.
pub open spec fn chol_fill_row(a: Seq<u64>, n: int, l: Seq<u64>, i: int, j: int) -> Seq<u64>
    decreases j,
{
    if j <= 0 {
        l
    } else {
        let l1 = chol_fill_row(a, n, l, i, j - 1);
        l1.update(i * n + (j - 1), chol_cell(a, l1, n, i, j - 1))
    }
}

/// The factor after the first `i` rows have been written over an all-zero
/// matrix; row `r` holds `r + 1` cells.
pub open spec fn chol_fill(a: Seq<u64>, n: int, i: int) -> Seq<u64>
    decreases i,
{
    if i <= 0 {
        zero_seq(n * n)
    } else {
        let l = chol_fill(a, n, i - 1);
        chol_fill_row(a, n, l, i - 1, i)
    }
}

/// The complete lower-triangular Cholesky factor of the flat `n x n`
/// matrix `a`, as the Cholesky-Banachiewicz fold computes it.
pub open spec fn chol_bits(a: Seq<u64>, n: int) -> Seq<u64> {
    chol_fill(a, n, n)
}

/// Computes the Cholesky factor of `a`.  Rejects a non-square input as a
/// shape error and a visibly asymmetric one as degenerate; otherwise the
/// result is exactly the Cholesky-Banachiewicz fold over `a`.
#[verifier::loop_isolation(false)]
pub fn cholesky(a: &Vec<u64>) -> (r: Result<Vec<u64>, MathError>)
    ensures
        (match r {
            Ok(l) => is_perfect_square(a@.len() as int) && sym_ok(
                a@,
                square_side(a@.len() as int),
            ) && l@ == chol_bits(a@, square_side(a@.len() as int)) && l@.len() == a@.len(),
            Err(e) => (e == MathError::ShapeMismatch && !is_perfect_square(a@.len() as int)) || (e
                == MathError::NumericDegeneracy && is_perfect_square(a@.len() as int) && !sym_ok(
                a@,
                square_side(a@.len() as int),
            )),
        }),
{
    let n = match is_square(a) {
        Ok(n) => n,
        Err(_) => {
            return Err(MathError::ShapeMismatch);
        },
    };
    proof {
        lemma_square_side(a@.len() as int, n as int);
    }
    if !is_symmetric(a) {
        return Err(MathError::NumericDegeneracy);
    }
    let alen = a.len();
    let total = n * n;
    let mut l: Vec<u64> = Vec::new();
    for idx in 0..total
        invariant
            l@.len() == idx,
            forall|q: int| 0 <= q < idx ==> l@[q] == F64_ZERO,
    {
        l.push(F64_ZERO);
    }
    proof {
        assert(l@ =~= zero_seq((n as int) * (n as int)));
        assert(l@ == chol_fill(a@, n as int, 0));
    }
    for i in 0..n
        invariant
            l@.len() == (n as int) * (n as int),
            l@ == chol_fill(a@, n as int, i as int),
    {
        for j in 0..(i + 1)
            invariant
                i < n,
                l@.len() == (n as int) * (n as int),
                l@ == chol_fill_row(
                    a@,
                    n as int,
                    chol_fill(a@, n as int, i as int),
                    i as int,
                    j as int,
                ),
        {
            let mut s: u64 = F64_ZERO;
            for t in 0..j
                invariant
                    l@.len() == (n as int) * (n as int),
                    s == dot_bits(l@, l@, (j as int) * (n as int), 1, (i as int) * (n as int), 1, t as int),
            {
                proof {
                    assert((j as int) * (n as int) + (t as int) < (n as int) * (n as int) && (
                    i as int) * (n as int) + (t as int) < (n as int) * (n as int))
                        by (nonlinear_arith)
                        requires
                            0 <= (t as int) < (j as int),
                            (j as int) <= (i as int) < (n as int),
                    ;
                }
                s = fadd(s, fmul(l[j * n + t], l[i * n + t]));
                proof {
                    assert(l@[(j as int) * (n as int) + (t as int)] == stride_at(
                        l@,
                        (j as int) * (n as int),
                        1,
                        t as int,
                    ));
                    assert(l@[(i as int) * (n as int) + (t as int)] == stride_at(
                        l@,
                        (i as int) * (n as int),
                        1,
                        t as int,
                    ));
                }
            }
            proof {
                assert((i as int) * (n as int) + (j as int) < (n as int) * (n as int) && (j as int)
                    * (n as int) + (j as int) < (n as int) * (n as int)) by (nonlinear_arith)
                    requires
                        0 <= (j as int) <= (i as int) < (n as int),
                ;
            }
            let v = if i == j {
                fsqrt(fsub(a[i * n + i], s))
            } else {
                fdiv(fsub(a[i * n + j], s), l[j * n + j])
            };
            let ghost l_before = l@;
            l.set(i * n + j, v);
            proof {
                assert(v == chol_cell(a@, l_before, n as int, i as int, j as int));
                assert(l@ == chol_fill_row(
                    a@,
                    n as int,
                    chol_fill(a@, n as int, i as int),
                    i as int,
                    j as int + 1,
                ));
            }
        }
        proof {
            assert(l@ == chol_fill(a@, n as int, i as int + 1));
        }
    }
    Ok(l)
}

/// Writing one more cell of row `i` keeps the length and touches nothing
/// above the diagonal.
proof fn lemma_chol_fill_row_upper(a: Seq<u64>, n: int, l: Seq<u64>, i: int, j: int)
    requires
        0 <= i < n,
        0 <= j <= i + 1,
        l.len() == n * n,
        forall|i2: int, j2: int|
            0 <= i2 < n && i2 < j2 < n ==> #[trigger] cell(l, n, i2, j2) == F64_ZERO,
    ensures
        chol_fill_row(a, n, l, i, j).len() == n * n,
        forall|i2: int, j2: int|
            0 <= i2 < n && i2 < j2 < n ==> #[trigger] cell(chol_fill_row(a, n, l, i, j), n, i2, j2)
                == F64_ZERO,
    decreases j,
{
    if j > 0 {
        lemma_chol_fill_row_upper(a, n, l, i, j - 1);
        let l1 = chol_fill_row(a, n, l, i, j - 1);
        let res = chol_fill_row(a, n, l, i, j);
        assert(i * n + (j - 1) < n * n) by (nonlinear_arith)
            requires
                0 <= i < n,
                0 <= j - 1 < n,
        ;
        assert forall|i2: int, j2: int|
            0 <= i2 < n && i2 < j2 < n implies #[trigger] cell(res, n, i2, j2) == F64_ZERO by {
            assert(i2 * n + j2 < n * n) by (nonlinear_arith)
                requires
                    0 <= i2 < n,
                    0 <= j2 < n,
            ;
            if i2 * n + j2 == i * n + (j - 1) {
                lemma_fundamental_div_mod_converse(i2 * n + j2, n, i2, j2);
                lemma_fundamental_div_mod_converse(i * n + (j - 1), n, i, j - 1);
                assert(i2 == i && j2 == j - 1);
                assert(false);
            }
            assert(cell(res, n, i2, j2) == cell(l1, n, i2, j2));
        }
    }
}

/// After any number of rows the factor keeps its length and stays zero
/// above the diagonal.
proof fn lemma_chol_fill_upper(a: Seq<u64>, n: int, i: int)
    requires
        0 <= i <= n,
    ensures
        chol_fill(a, n, i).len() == n * n,
        forall|i2: int, j2: int|
            0 <= i2 < n && i2 < j2 < n ==> #[trigger] cell(chol_fill(a, n, i), n, i2, j2)
                == F64_ZERO,
    decreases i,
{
    if i <= 0 {
        assert(zero_seq(n * n).len() == n * n);
        assert forall|i2: int, j2: int|
            0 <= i2 < n && i2 < j2 < n implies #[trigger] cell(zero_seq(n * n), n, i2, j2)
            == F64_ZERO by {
            assert(0 <= i2 * n + j2 < n * n) by (nonlinear_arith)
                requires
                    0 <= i2 < n,
                    0 <= j2 < n,
            ;
        }
    } else {
        lemma_chol_fill_upper(a, n, i - 1);
        lemma_chol_fill_row_upper(a, n, chol_fill(a, n, i - 1), i - 1, i);
    }
}

/// The factor is lower triangular: it has the shape of its input, and
/// every entry strictly above the diagonal is zero.
pub proof fn lemma_chol_bits_lower_triangular(a: Seq<u64>, n: int)
    requires
        n >= 0,
    ensures
        chol_bits(a, n).len() == n * n,
        forall|i: int, j: int|
            0 <= i < n && i < j < n ==> #[trigger] cell(chol_bits(a, n), n, i, j) == F64_ZERO,
{
    lemma_chol_fill_upper(a, n, n);
}

/// Filling cells of row `i` leaves every position outside that row's
/// written prefix unchanged.
proof fn lemma_fill_row_frame(a: Seq<u64>, n: int, l: Seq<u64>, i: int, j: int, pos: int)
    requires
        0 <= i < n,
        0 <= j <= i + 1,
        l.len() == n * n,
        0 <= pos < n * n,
        forall|t: int| 0 <= t < j ==> pos != #[trigger] (i * n + t),
    ensures
        chol_fill_row(a, n, l, i, j)[pos] == l[pos],
    decreases j,
{
    if j > 0 {
        lemma_fill_row_frame(a, n, l, i, j - 1, pos);
        lemma_chol_fill_row_len(a, n, l, i, j - 1);
        assert(0 <= i * n + (j - 1) < n * n) by (nonlinear_arith)
            requires
                0 <= i < n,
                0 <= j - 1 < n,
        ;
    }
}

/// Later cells of a row do not disturb the cells already written in it.
proof fn lemma_fill_row_extend(a: Seq<u64>, n: int, l: Seq<u64>, i: int, j: int, jj: int, c: int)
    requires
        0 <= i < n,
        0 <= j <= jj <= i + 1,
        0 <= c < j,
        l.len() == n * n,
    ensures
        chol_fill_row(a, n, l, i, jj)[i * n + c] == chol_fill_row(a, n, l, i, j)[i * n + c],
    decreases jj,
{
    if jj > j {
        lemma_fill_row_extend(a, n, l, i, j, jj - 1, c);
        assert(0 <= i * n + (jj - 1) < n * n && 0 <= i * n + c < n * n) by (nonlinear_arith)
            requires
                0 <= i < n,
                0 <= jj - 1 < n,
                0 <= c < n,
        ;
        lemma_chol_fill_row_len(a, n, l, i, jj - 1);
        assert(i * n + c != i * n + (jj - 1));
    }
}

/// Filling a row keeps the flat length.
proof fn lemma_chol_fill_row_len(a: Seq<u64>, n: int, l: Seq<u64>, i: int, j: int)
    requires
        0 <= i < n,
        0 <= j <= n,
        l.len() == n * n,
    ensures
        chol_fill_row(a, n, l, i, j).len() == n * n,
    decreases j,
{
    if j > 0 {
        lemma_chol_fill_row_len(a, n, l, i, j - 1);
        assert(0 <= i * n + (j - 1) < n * n) by (nonlinear_arith)
            requires
                0 <= i < n,
                0 <= j - 1 < n,
        ;
    }
}

/// Rows written later never disturb the rows before row `i`: every
/// position below the start of row `i` is the same in every later fill
/// state.
proof fn lemma_fill_frame(a: Seq<u64>, n: int, i: int, ii: int, pos: int)
    requires
        0 <= i <= ii <= n,
        0 <= pos < i * n,
    ensures
        chol_fill(a, n, ii)[pos] == chol_fill(a, n, i)[pos],
    decreases ii,
{
    if ii > i {
        lemma_fill_frame(a, n, i, ii - 1, pos);
        lemma_chol_fill_len(a, n, ii - 1);
        assert(pos < (ii - 1) * n) by (nonlinear_arith)
            requires
                pos < i * n,
                i <= ii - 1,
                n >= 0,
        ;
        assert forall|t: int| 0 <= t < ii implies pos != #[trigger] ((ii - 1) * n + t) by {
            assert(pos < (ii - 1) * n + t || t < 0) by (nonlinear_arith)
                requires
                    pos < (ii - 1) * n,
                    t >= 0,
            ;
        }
        assert(0 <= pos < n * n) by (nonlinear_arith)
            requires
                0 <= pos < i * n,
                i <= n,
                0 <= n,
        ;
        lemma_fill_row_frame(a, n, chol_fill(a, n, ii - 1), ii - 1, ii, pos);
    }
}

/// Every fill state has the full flat length.
proof fn lemma_chol_fill_len(a: Seq<u64>, n: int, i: int)
    requires
        0 <= i <= n,
    ensures
        chol_fill(a, n, i).len() == n * n,
    decreases i,
{
    if i > 0 {
        lemma_chol_fill_len(a, n, i - 1);
        lemma_chol_fill_row_len(a, n, chol_fill(a, n, i - 1), i - 1, i);
    }
}

/// The factor satisfies the Cholesky-Banachiewicz recurrence over itself:
/// each cell on or below the diagonal equals the recurrence value computed
/// from the finished factor — the strided inner product of the prefixes of
/// its row and its column's row, a square root on the diagonal, a division
/// by the earlier diagonal below it.
pub proof fn lemma_chol_bits_recurrence(a: Seq<u64>, n: int)
    requires
        n >= 0,
    ensures
        chol_bits(a, n).len() == n * n,
        forall|i: int, j: int|
            0 <= j <= i < n ==> #[trigger] cell(chol_bits(a, n), n, i, j) == chol_cell(
                a,
                chol_bits(a, n),
                n,
                i,
                j,
            ),
{
    let bl = chol_bits(a, n);
    lemma_chol_fill_len(a, n, n);
    assert forall|i: int, j: int|
        0 <= j <= i < n implies #[trigger] cell(bl, n, i, j) == chol_cell(a, bl, n, i, j) by {
        let base = chol_fill(a, n, i);
        let sj = chol_fill_row(a, n, base, i, j);
        let si1 = chol_fill_row(a, n, base, i, i + 1);
        lemma_chol_fill_len(a, n, i);
        lemma_chol_fill_row_len(a, n, base, i, j);
        lemma_chol_fill_row_len(a, n, base, i, i + 1);
        assert(0 <= i * n + j < n * n && (j + 1) * n <= i * n + j + n) by (nonlinear_arith)
            requires
                0 <= j <= i < n,
        ;
        // The final factor holds, at (i, j), the value written there: rows
        // after `i` leave it alone, and so do the later cells of row `i`.
        assert(chol_fill(a, n, i + 1) == si1);
        assert(i * n + j < (i + 1) * n) by (nonlinear_arith)
            requires
                0 <= j < n,
                i >= 0,
        ;
        lemma_fill_frame(a, n, i + 1, n, i * n + j);
        lemma_fill_row_extend(a, n, base, i, j + 1, i + 1, j);
        assert(bl[i * n + j] == sj.update(i * n + j, chol_cell(a, sj, n, i, j))[i * n + j]);
        assert(bl[i * n + j] == chol_cell(a, sj, n, i, j));
        // Every cell the recurrence reads is already final in the state it
        // was computed from.
        assert forall|t: int| 0 <= t < j implies #[trigger] stride_at(sj, j * n, 1, t)
            == stride_at(bl, j * n, 1, t) by {
            lemma_chol_read_final(a, n, i, j, j, t);
        }
        assert forall|t: int| 0 <= t < j implies #[trigger] stride_at(sj, i * n, 1, t)
            == stride_at(bl, i * n, 1, t) by {
            lemma_chol_read_final(a, n, i, j, i, t);
        }
        lemma_dot_bits_congruence(
            sj,
            sj,
            j * n,
            1,
            i * n,
            1,
            bl,
            bl,
            j * n,
            1,
            i * n,
            1,
            j,
        );
        if i != j {
            lemma_chol_read_final(a, n, i, j, j, j);
            assert(cell(sj, n, j, j) == cell(bl, n, j, j));
        }
        assert(chol_cell(a, sj, n, i, j) == chol_cell(a, bl, n, i, j));
    }
}

/// While cell `(i, j)` of the factor is being computed, any cell `(r, t)`
/// it may read — `r` equal to `i` or to `j`, `t` below `j`, or the earlier
/// diagonal `(j, j)` with `j` below `i` — already holds its final value.
proof fn lemma_chol_read_final(a: Seq<u64>, n: int, i: int, j: int, r: int, t: int)
    requires
        0 <= j <= i < n,
        0 <= t < n,
        r == i || r == j,
        t < j || (r == j && t == j && j < i),
    ensures
        chol_fill_row(a, n, chol_fill(a, n, i), i, j)[r * n + t] == chol_bits(a, n)[r * n + t],
{
    let base = chol_fill(a, n, i);
    let sj = chol_fill_row(a, n, base, i, j);
    lemma_chol_fill_len(a, n, i);
    assert(0 <= r * n + t < n * n && r * n + t < (r + 1) * n) by (nonlinear_arith)
        requires
            0 <= r < n,
            0 <= t < n,
    ;
    if r == i && t < j {
        // A cell of row `i` already written in this pass: later cells of
        // the row and later rows leave it alone.
        lemma_fill_row_extend(a, n, base, i, t + 1, j, t);
        lemma_fill_row_extend(a, n, base, i, t + 1, i + 1, t);
        lemma_fill_frame(a, n, i + 1, n, r * n + t);
        assert(chol_fill(a, n, i + 1) == chol_fill_row(a, n, base, i, i + 1));
    } else {
        // A cell of an earlier row: this pass writes only row `i`, and
        // later rows start above it.
        assert(r < i);
        assert(r * n + t < i * n) by (nonlinear_arith)
            requires
                r + 1 <= i,
                r * n + t < (r + 1) * n,
                n >= 0,
        ;
        assert forall|tt: int| 0 <= tt < j implies r * n + t != #[trigger] (i * n + tt) by {
            assert(r * n + t < i * n + tt || tt < 0) by (nonlinear_arith)
                requires
                    r * n + t < i * n,
                    tt >= 0,
            ;
        }
        lemma_fill_row_frame(a, n, base, i, j, r * n + t);
        lemma_fill_frame(a, n, i, n, r * n + t);
    }
}

/// The solution of `L·z = b` by forward substitution, entry by entry: the
/// first `i` entries, each one `(b[i] - dot(row-i prefix of L, z)) / L[i,i]`.
pub open spec fn fwd_upto(l: Seq<u64>, b: Seq<u64>, n: int, i: int) -> Seq<u64>
    decreases i,
{
    if i <= 0 {
        Seq::empty()
    } else {
        let z = fwd_upto(l, b, n, i - 1);
        z.push(
            div_bits(
                sub_bits(b[i - 1], dot_bits(l, z, (i - 1) * n, 1, 0, 1, i - 1)),
                cell(l, n, i - 1, i - 1),
            ),
        )
    }
}

/// The complete forward-substitution solution of `L·z = b`.
pub open spec fn fwd_bits(l: Seq<u64>, b: Seq<u64>, n: int) -> Seq<u64> {
    fwd_upto(l, b, n, n)
}

/// Forward substitution: solves `L·z = b` for lower-triangular `L`.
#[verifier::loop_isolation(false)]
fn forward_substitute(l: &Vec<u64>, b: &Vec<u64>, n: usize) -> (z: Vec<u64>)
    requires
        l@.len() == (n as int) * (n as int),
        b@.len() == n,
    ensures
        z@ == fwd_bits(l@, b@, n as int),
        z@.len() == n,
{
    let lt = l.len();
    let mut z: Vec<u64> = Vec::new();
    for i in 0..n
        invariant
            lt == l@.len(),
            z@.len() == i,
            z@ == fwd_upto(l@, b@, n as int, i as int),
    {
        let mut s: u64 = F64_ZERO;
        for t in 0..i
            invariant
                z@.len() == i,
                s == dot_bits(l@, z@, (i as int) * (n as int), 1, 0, 1, t as int),
        {
            proof {
                assert((i as int) * (n as int) + (t as int) < (n as int) * (n as int))
                    by (nonlinear_arith)
                    requires
                        0 <= (t as int) < (i as int) < (n as int),
                ;
            }
            s = fadd(s, fmul(l[i * n + t], z[t]));
            proof {
                assert(l@[(i as int) * (n as int) + (t as int)] == stride_at(
                    l@,
                    (i as int) * (n as int),
                    1,
                    t as int,
                ));
                assert(z@[t as int] == stride_at(z@, 0, 1, t as int));
            }
        }
        proof {
            assert((i as int) * (n as int) + (i as int) < (n as int) * (n as int))
                by (nonlinear_arith)
                requires
                    0 <= (i as int) < (n as int),
            ;
        }
        z.push(fdiv(fsub(b[i], s), l[i * n + i]));
    }
    z
}

/// The solution of `Lᵀ·x = z` by back substitution: the last `count`
/// entries written over zeros, from the bottom row up, each one
/// `(z[i] - dot(column-i tail of L, x tail)) / L[i,i]`.
pub open spec fn bwd_upto(l: Seq<u64>, zz: Seq<u64>, n: int, count: int) -> Seq<u64>
    decreases count,
{
    if count <= 0 {
        zero_seq(n)
    } else {
        let x = bwd_upto(l, zz, n, count - 1);
        let i = n - count;
        x.update(
            i,
            div_bits(
                sub_bits(zz[i], dot_bits(l, x, (i + 1) * n + i, n, i + 1, 1, n - 1 - i)),
                cell(l, n, i, i),
            ),
        )
    }
}

/// The complete back-substitution solution of `Lᵀ·x = z`.
pub open spec fn bwd_bits(l: Seq<u64>, zz: Seq<u64>, n: int) -> Seq<u64> {
    bwd_upto(l, zz, n, n)
}

/// Back substitution: solves `Lᵀ·x = z` for lower-triangular `L`, reading
/// `L` by columns so that no transposed copy is materialized.
#[verifier::loop_isolation(false)]
fn back_substitute(l: &Vec<u64>, zz: &Vec<u64>, n: usize) -> (x: Vec<u64>)
    requires
        l@.len() == (n as int) * (n as int),
        zz@.len() == n,
    ensures
        x@ == bwd_bits(l@, zz@, n as int),
        x@.len() == n,
{
    let lt = l.len();
    let mut x: Vec<u64> = Vec::new();
    for q in 0..n
        invariant
            x@.len() == q,
            forall|w: int| 0 <= w < q ==> x@[w] == F64_ZERO,
    {
        x.push(F64_ZERO);
    }
    proof {
        assert(x@ =~= zero_seq(n as int));
        assert(x@ == bwd_upto(l@, zz@, n as int, 0));
    }
    for k in 0..n
        invariant
            x@.len() == n,
            x@ == bwd_upto(l@, zz@, n as int, k as int),
    {
        let i = n - 1 - k;
        let m = n - 1 - i;
        let mut s: u64 = F64_ZERO;
        for t in 0..m
            invariant
                i == n - 1 - k,
                m == n - 1 - i,
                x@.len() == n,
                s == dot_bits(
                    l@,
                    x@,
                    ((i as int) + 1) * (n as int) + (i as int),
                    n as int,
                    (i as int) + 1,
                    1,
                    t as int,
                ),
        {
            proof {
                assert(((i as int) + 1 + (t as int)) * (n as int) + (i as int) < (n as int) * (
                n as int) && ((i as int) + 1) * (n as int) + (i as int) + (t as int) * (n as int)
                    == ((i as int) + 1 + (t as int)) * (n as int) + (i as int))
                    by (nonlinear_arith)
                    requires
                        0 <= (t as int) < (m as int),
                        (m as int) == (n as int) - 1 - (i as int),
                        0 <= (i as int) < (n as int),
                ;
            }
            s = fadd(s, fmul(l[(i + 1 + t) * n + i], x[i + 1 + t]));
            proof {
                assert(l@[((i as int) + 1 + (t as int)) * (n as int) + (i as int)] == stride_at(
                    l@,
                    ((i as int) + 1) * (n as int) + (i as int),
                    n as int,
                    t as int,
                ));
                assert(x@[(i as int) + 1 + (t as int)] == stride_at(
                    x@,
                    (i as int) + 1,
                    1,
                    t as int,
                ));
            }
        }
        proof {
            assert((i as int) * (n as int) + (i as int) < (n as int) * (n as int))
                by (nonlinear_arith)
                requires
                    0 <= (i as int) < (n as int),
            ;
        }
        let v = fdiv(fsub(zz[i], s), l[i * n + i]);
        x.set(i, v);
        proof {
            assert(x@ == bwd_upto(l@, zz@, n as int, k as int + 1));
        }
    }
    x
}

/// The solution the solver produces for `A·x = b`: factor, then forward
/// and back substitution, all as spec-level folds.
pub open spec fn solve_bits(a: Seq<u64>, b: Seq<u64>) -> Seq<u64> {
    let n = square_side(a.len() as int);
    let l = chol_bits(a, n);
    bwd_bits(l, fwd_bits(l, b, n), n)
}

/// Solves `A·x = b` for symmetric positive-definite `A` via the Cholesky
/// factor.  Shape errors cover a non-square `A` and a right-hand side of
/// the wrong length; a visibly asymmetric `A` is degenerate.  For an
/// accepted input the result is exactly the factor-substitute-substitute
/// fold; positive-definiteness is not checked, and its absence surfaces as
/// NaN entries.
pub fn solve(a: &Vec<u64>, b: &Vec<u64>) -> (r: Result<Vec<u64>, MathError>)
    ensures
        (match r {
            Ok(x) => is_perfect_square(a@.len() as int) && b@.len() == square_side(
                a@.len() as int,
            ) && sym_ok(a@, square_side(a@.len() as int)) && x@ == solve_bits(a@, b@)
                && x@.len() == b@.len(),
            Err(e) => (e == MathError::ShapeMismatch && (!is_perfect_square(a@.len() as int)
                || b@.len() != square_side(a@.len() as int))) || (e
                == MathError::NumericDegeneracy && is_perfect_square(a@.len() as int) && b@.len()
                == square_side(a@.len() as int) && !sym_ok(a@, square_side(a@.len() as int))),
        }),
{
    let n = match is_square(a) {
        Ok(n) => n,
        Err(_) => {
            return Err(MathError::ShapeMismatch);
        },
    };
    proof {
        lemma_square_side(a@.len() as int, n as int);
    }
    if b.len() != n {
        return Err(MathError::ShapeMismatch);
    }
    let l = match cholesky(a) {
        Ok(l) => l,
        Err(e) => {
            return Err(e);
        },
    };
    let z = forward_substitute(&l, b, n);
    let x = back_substitute(&l, &z, n);
    Ok(x)
}

} // verus!
