//! Dense matrices as flat, row-major vectors of double bit patterns:
//! shape validators, the design-matrix helpers, and matrix multiplication
//! with optional transposition of either operand.

use vstd::prelude::*;
use vstd::arithmetic::div_mod::{
    lemma_div_multiples_vanish, lemma_multiply_divide_lt,
    lemma_fundamental_div_mod, lemma_fundamental_div_mod_converse, lemma_mod_bound,
};
use vstd::arithmetic::mul::{lemma_mul_basics, lemma_mul_inequality, lemma_mul_strict_inequality};
use crate::MathError;
use crate::scalar::{
    add_bits, mul_bits, sub_bits, abs_bits, lt_bits, fadd, fmul, fsub, fabs, flt, F64_ONE,
    F64_ZERO,
};

verus! {

/// Bit pattern of the relative tolerance (`1e-9`) under which two entries
/// of a working matrix are accepted as equal by the symmetry check.
pub const F64_SYM_TOL: u64 = 0x3E11_2E0B_E826_D695;

/// Element `t` of the arithmetic progression through `u` that starts at
/// offset `o` and advances by stride `s`.
pub open spec fn stride_at(u: Seq<u64>, o: int, s: int, t: int) -> u64 {
    u[o + t * s]
}

/// The left fold of `acc + u[o1 + t*s1] * v[o2 + t*s2]` over `t < k`,
/// starting from positive zero: one strided inner product, exactly as an
/// accumulation loop over IEEE-754 doubles computes it.
pub open spec fn dot_bits(u: Seq<u64>, v: Seq<u64>, o1: int, s1: int, o2: int, s2: int, k: int) -> u64
    decreases k,
{
    if k <= 0 {
        F64_ZERO
    } else {
        add_bits(
            dot_bits(u, v, o1, s1, o2, s2, k - 1),
            mul_bits(stride_at(u, o1, s1, k - 1), stride_at(v, o2, s2, k - 1)),
        )
    }
}

/// Two strided inner products over pointwise-equal progressions are equal.
pub proof fn lemma_dot_bits_congruence(
    u1: Seq<u64>,
    v1: Seq<u64>,
    o1: int,
    s1: int,
    p1: int,
    t1: int,
    u2: Seq<u64>,
    v2: Seq<u64>,
    o2: int,
    s2: int,
    p2: int,
    t2: int,
    k: int,
)
    requires
        forall|t: int| 0 <= t < k ==> #[trigger] stride_at(u1, o1, s1, t) == stride_at(u2, o2, s2, t),
        forall|t: int| 0 <= t < k ==> #[trigger] stride_at(v1, p1, t1, t) == stride_at(v2, p2, t2, t),
    ensures
        dot_bits(u1, v1, o1, s1, p1, t1, k) == dot_bits(u2, v2, o2, s2, p2, t2, k),
    decreases k,
{
    if k > 0 {
        lemma_dot_bits_congruence(u1, v1, o1, s1, p1, t1, u2, v2, o2, s2, p2, t2, k - 1);
    }
}

/// Entry `(i, j)` of a flat row-major matrix with `n` columns.
pub open spec fn cell(m: Seq<u64>, n: int, i: int, j: int) -> u64 {
    m[i * n + j]
}

/// Whether `l` is a perfect square.
pub open spec fn is_perfect_square(l: int) -> bool {
    exists|k: int| 0 <= k && #[trigger] (k * k) == l
}

/// Returns the side length of the square matrix `a`, or a shape error when
/// the flat length is not a perfect square.
pub fn is_square(a: &Vec<u64>) -> (r: Result<usize, MathError>)
    ensures
        (match r {
            Ok(k) => a@.len() == k * k,
            Err(e) => e == MathError::ShapeMismatch && !is_perfect_square(a@.len() as int),
        }),
{
    let len = a.len();
    let mut i: usize = 0;
    let mut sq: u128 = 0;
    loop
        invariant_except_break
            i <= len,
            sq == (i as int) * (i as int),
            i >= 1 ==> (i - 1) * (i - 1) < len,
        ensures
            i <= len,
            sq == (i as int) * (i as int),
            (i as int) * (i as int) >= len,
            i >= 1 ==> (i - 1) * (i - 1) < len,
        decreases len - i,
    {
        if sq >= len as u128 {
            break;
        }
        proof {
            assert((i as int) * (i as int) < len);
            assert(i + 1 <= len && ((i + 1) as int) * ((i + 1) as int) <= u128::MAX as int) by (nonlinear_arith)
                requires
                    (i as int) * (i as int) < len as int,
                    len <= usize::MAX,
            ;
        }
        i = i + 1;
        sq = (i as u128) * (i as u128);
    }
    if sq == len as u128 {
        Ok(i)
    } else {
        proof {
            assert forall|k: int| 0 <= k && #[trigger] (k * k) == len implies false by {
                if k < i {
                    assert(k * k < len) by (nonlinear_arith)
                        requires
                            0 <= k < i as int,
                            i >= 1,
                            (i - 1) * (i - 1) < len,
                    ;
                } else {
                    assert(k * k > len) by (nonlinear_arith)
                        requires
                            k >= i as int,
                            i * i >= len,
                            i * i != len,
                    ;
                }
            }
        }
        Err(MathError::ShapeMismatch)
    }
}

/// Returns the column count of the flat matrix `x` with `n` rows, or a
/// shape error when the length is not an exact multiple of `n`.
pub fn is_matrix(x: &Vec<u64>, n: usize) -> (r: Result<usize, MathError>)
    ensures
        (match r {
            Ok(p) => n >= 1 && x@.len() == n * p && p == x@.len() as int / n as int,
            Err(e) => e == MathError::ShapeMismatch && (n == 0 || x@.len() as int % n as int != 0),
        }),
{
    if n == 0 || x.len() % n != 0 {
        Err(MathError::ShapeMismatch)
    } else {
        let p = x.len() / n;
        proof {
            lemma_fundamental_div_mod(x@.len() as int, n as int);
        }
        Ok(p)
    }
}

/// The design-matrix invariant on the flat matrix `x` with `n` rows: the
/// shape is valid, there is at least one column, and the first column is
/// identically one.  One is the unique bit pattern that compares equal to
/// one, so bit equality here is exactly the numeric test.
pub open spec fn is_design_bits(x: Seq<u64>, n: int) -> bool {
    let p = x.len() as int / n;
    n >= 1 && x.len() as int % n == 0 && p >= 1 && (forall|i: int|
        0 <= i < n ==> x[#[trigger] (i * p)] == F64_ONE)
}

/// Whether `x` with `n` rows is a design matrix: well-shaped, with its
/// first (intercept) column all exactly one.
pub fn is_design(x: &Vec<u64>, n: usize) -> (r: bool)
    ensures
        r == is_design_bits(x@, n as int),
{
    let p = match is_matrix(x, n) {
        Ok(p) => p,
        Err(_) => {
            return false;
        },
    };
    proof {
        assert((n as int) * (p as int) == (p as int) * (n as int)) by (nonlinear_arith);
        lemma_fundamental_div_mod_converse(x@.len() as int, n as int, p as int, 0);
    }
    if p == 0 {
        return false;
    }
    let len = x.len();
    for i in 0..n
        invariant
            n >= 1,
            p >= 1,
            len == x@.len(),
            x@.len() == n * p,
            p == x@.len() as int / n as int,
            x@.len() as int % n as int == 0,
            forall|k: int| 0 <= k < i ==> x@[#[trigger] (k * (p as int))] == F64_ONE,
    {
        proof {
            lemma_mul_strict_inequality(i as int, n as int, p as int);
            lemma_mul_inequality(i as int + 1, n as int, p as int);
        }
        if x[i * p] != F64_ONE {
            return false;
        }
    }
    true
}

/// The flat `n x (c+1)` matrix whose first column is one and whose
/// remaining columns are those of the flat `n x c` matrix `x`.
pub open spec fn design_bits(x: Seq<u64>, n: int) -> Seq<u64> {
    let c = x.len() as int / n;
    Seq::new((n * (c + 1)) as nat, |idx: int|
        {
            let i = idx / (c + 1);
            let j = idx % (c + 1);
            if j == 0 {
                F64_ONE
            } else {
                x[i * c + (j - 1)]
            }
        })
}

/// Prepends an intercept column of ones to the flat `n`-row matrix `x`.
pub fn design(x: &Vec<u64>, n: usize) -> (r: Vec<u64>)
    requires
        n >= 1,
        x@.len() as int % n as int == 0,
    ensures
        r@ == design_bits(x@, n as int),
{
    let len = x.len();
    let c = len / n;
    proof {
        lemma_fundamental_div_mod(x@.len() as int, n as int);
    }
    let mut r: Vec<u64> = Vec::new();
    proof {
        lemma_mul_basics(c as int + 1);
    }
    for i in 0..n
        invariant
            n >= 1,
            len == x@.len(),
            c == x@.len() as int / n as int,
            x@.len() == n * c,
            r@.len() == (i as int) * (c as int + 1),
            forall|idx: int|
                0 <= idx < (i as int) * (c as int + 1) ==> r@[idx] == design_bits(
                    x@,
                    n as int,
                )[idx],
    {
        let ghost r_row_start = r@.len() as int;
        r.push(F64_ONE);
        proof {
            lemma_design_entry(x@, n as int, i as int, 0, r_row_start);
        }
        for j in 0..c
            invariant
                n >= 1,
                i < n,
                len == x@.len(),
                c == x@.len() as int / n as int,
                x@.len() == n * c,
                r_row_start == (i as int) * (c as int + 1),
                r@.len() == (i as int) * (c as int + 1) + 1 + j,
                forall|idx: int|
                    0 <= idx < (i as int) * (c as int + 1) + 1 + j ==> r@[idx] == design_bits(
                        x@,
                        n as int,
                    )[idx],
        {
            proof {
                assert(i as int * (c as int) + j < n as int * (c as int)) by (nonlinear_arith)
                    requires
                        0 <= (i as int) < (n as int),
                        0 <= (j as int) < (c as int),
                ;
            }
            r.push(x[i * c + j]);
            proof {
                lemma_design_entry(x@, n as int, i as int, j as int + 1, r_row_start);
            }
        }
        proof {
            lemma_mul_inequality(i as int + 1, n as int, c as int + 1);
            assert((i as int + 1) * (c as int + 1) == i as int * (c as int + 1) + c + 1) by (nonlinear_arith);
        }
    }
    proof {
        assert(r@ =~= design_bits(x@, n as int));
    }
    r
}

/// Whether two entries agree within the symmetry tolerance: the magnitude
/// of their difference is below `F64_SYM_TOL` scaled by one plus the two
/// magnitudes.  False whenever a NaN is involved, since NaN comparisons are
/// false.
pub open spec fn close_bits(x: u64, y: u64) -> bool {
    lt_bits(
        abs_bits(sub_bits(x, y)),
        mul_bits(F64_SYM_TOL, add_bits(F64_ONE, add_bits(abs_bits(x), abs_bits(y)))),
    )
}

/// Tolerance comparison of two entries.
pub fn entries_close(x: u64, y: u64) -> (r: bool)
    ensures
        r == close_bits(x, y),
{
    let diff = fabs(fsub(x, y));
    let scale = fadd(F64_ONE, fadd(fabs(x), fabs(y)));
    flt(diff, fmul(F64_SYM_TOL, scale))
}

/// Whether entries `(i, j)` and `(j, i)` of the flat `n x n` matrix `a`
/// agree within tolerance.
pub open spec fn sym_at(a: Seq<u64>, n: int, i: int, j: int) -> bool {
    close_bits(a[i * n + j], a[j * n + i])
}

/// Whether the flat `n x n` matrix `a` is symmetric within tolerance.
pub open spec fn sym_ok(a: Seq<u64>, n: int) -> bool {
    forall|i: int, j: int| 0 <= i < n && 0 <= j < n ==> #[trigger] sym_at(a, n, i, j)
}

/// The side length of a square flat matrix, as a spec value.
pub open spec fn square_side(l: int) -> int {
    choose|k: int| 0 <= k && #[trigger] (k * k) == l
}

/// A nonnegative side whose square is `len` is the side every reader of
/// `square_side` sees.
pub proof fn lemma_square_side(len: int, n: int)
    requires
        n >= 0,
        n * n == len,
    ensures
        is_perfect_square(len),
        square_side(len) == n,
{
    assert(is_perfect_square(len));
    let k = square_side(len);
    assert(0 <= k && k * k == len);
    assert(k == n) by (nonlinear_arith)
        requires
            0 <= k,
            0 <= n,
            k * k == n * n,
    ;
}

/// Whether `a` is a square matrix that is symmetric within the tolerance
/// `F64_SYM_TOL`, entry against transposed entry.
#[verifier::loop_isolation(false)]
pub fn is_symmetric(a: &Vec<u64>) -> (r: bool)
    ensures
        r == (is_perfect_square(a@.len() as int) && sym_ok(a@, square_side(a@.len() as int))),
{
    let n = match is_square(a) {
        Ok(n) => n,
        Err(_) => {
            return false;
        },
    };
    let len = a.len();
    proof {
        assert(square_side(a@.len() as int) == n as int) by {
            assert(0 <= n as int && (n as int) * (n as int) == a@.len());
            let k = square_side(a@.len() as int);
            assert(0 <= k && k * k == a@.len());
            assert(k == n as int) by (nonlinear_arith)
                requires
                    0 <= k,
                    0 <= n as int,
                    k * k == (n as int) * (n as int),
            ;
        }
    }
    for i in 0..n
        invariant
            forall|ii: int, jj: int|
                0 <= ii < i && 0 <= jj < n ==> #[trigger] sym_at(a@, n as int, ii, jj),
    {
        for j in 0..n
            invariant
                forall|ii: int, jj: int|
                    0 <= ii < i && 0 <= jj < n ==> #[trigger] sym_at(a@, n as int, ii, jj),
                forall|jj: int| 0 <= jj < j ==> #[trigger] sym_at(a@, n as int, i as int, jj),
        {
            proof {
                assert(i as int * (n as int) + j < (n as int) * (n as int) && j as int * (n as int)
                    + i < (n as int) * (n as int)) by (nonlinear_arith)
                    requires
                        0 <= (i as int) < (n as int),
                        0 <= (j as int) < (n as int),
                ;
                assert((n as int) * (n as int) == len);
            }
            if !entries_close(a[i * n + j], a[j * n + i]) {
                proof {
                    assert(!sym_at(a@, n as int, i as int, j as int));
                }
                return false;
            }
        }
    }
    true
}

/// Offset of row `i` of the effective left operand in the flat data of
/// `a`: row `i` of `a` itself, or column `i` when `a` is taken transposed.
pub open spec fn mm_oa(ta: bool, i: int, ca: int) -> int {
    if ta {
        i
    } else {
        i * ca
    }
}

/// Stride between consecutive elements of that row.
pub open spec fn mm_sa(ta: bool, ca: int) -> int {
    if ta {
        ca
    } else {
        1
    }
}

/// Offset of column `j` of the effective right operand in the flat data of
/// `b`: column `j` of `b` itself, or row `j` when `b` is taken transposed.
pub open spec fn mm_ob(tb: bool, j: int, cb: int) -> int {
    if tb {
        j * cb
    } else {
        j
    }
}

/// Stride between consecutive elements of that column.
pub open spec fn mm_sb(tb: bool, cb: int) -> int {
    if tb {
        1
    } else {
        cb
    }
}

/// Entry `(i, j)` of the product: the strided inner product of row `i` of
/// the effective left operand with column `j` of the effective right one,
/// accumulated left to right over the shared inner dimension.
pub open spec fn mm_entry(
    a: Seq<u64>,
    b: Seq<u64>,
    ra: int,
    ca: int,
    rb: int,
    cb: int,
    ta: bool,
    tb: bool,
    i: int,
    j: int,
) -> u64 {
    dot_bits(
        a,
        b,
        mm_oa(ta, i, ca),
        mm_sa(ta, ca),
        mm_ob(tb, j, cb),
        mm_sb(tb, cb),
        if ta {
            ra
        } else {
            ca
        },
    )
}

/// Row count of the product.
pub open spec fn mm_rows(ra: int, ca: int, ta: bool) -> int {
    if ta {
        ca
    } else {
        ra
    }
}

/// Column count of the product.
pub open spec fn mm_cols(rb: int, cb: int, tb: bool) -> int {
    if tb {
        rb
    } else {
        cb
    }
}

/// Whether the two flat operands, their row counts and the transpose flags
/// describe a well-formed product: both lengths divide evenly into rows,
/// and the effective inner dimensions agree.
pub open spec fn mm_shape_ok(
    alen: int,
    blen: int,
    ra: int,
    rb: int,
    ta: bool,
    tb: bool,
) -> bool {
    ra >= 1 && rb >= 1 && alen % ra == 0 && blen % rb == 0 && (if ta {
        ra
    } else {
        alen / ra
    }) == (if tb {
        blen / rb
    } else {
        rb
    })
}

/// The flat product matrix, row-major, entry by entry.
pub open spec fn mm_bits(a: Seq<u64>, b: Seq<u64>, ra: int, rb: int, ta: bool, tb: bool) -> Seq<
    u64,
> {
    let ca = a.len() as int / ra;
    let cb = b.len() as int / rb;
    let m = mm_rows(ra, ca, ta);
    let nn = mm_cols(rb, cb, tb);
    Seq::new(
        (m * nn) as nat,
        |idx: int| mm_entry(a, b, ra, ca, rb, cb, ta, tb, idx / nn, idx % nn),
    )
}

/// Dense matrix product of two flat row-major matrices, with either
/// operand optionally taken transposed in place (no transposed copy is
/// materialized).  Returns the flat product, or a shape error exactly when
/// the operands do not describe a well-formed product.
#[verifier::loop_isolation(false)]
#[verifier::rlimit(60)]
pub fn matmul(
    a: &Vec<u64>,
    b: &Vec<u64>,
    rows_a: usize,
    rows_b: usize,
    transpose_a: bool,
    transpose_b: bool,
) -> (r: Result<Vec<u64>, MathError>)
    ensures
        (match r {
            Ok(c) => mm_shape_ok(
                a@.len() as int,
                b@.len() as int,
                rows_a as int,
                rows_b as int,
                transpose_a,
                transpose_b,
            ) && c@ == mm_bits(a@, b@, rows_a as int, rows_b as int, transpose_a, transpose_b),
            Err(e) => e == MathError::ShapeMismatch && !mm_shape_ok(
                a@.len() as int,
                b@.len() as int,
                rows_a as int,
                rows_b as int,
                transpose_a,
                transpose_b,
            ),
        }),
{
    if rows_a == 0 || rows_b == 0 {
        return Err(MathError::ShapeMismatch);
    }
    let la = a.len();
    let lb = b.len();
    if la % rows_a != 0 || lb % rows_b != 0 {
        return Err(MathError::ShapeMismatch);
    }
    let ca = la / rows_a;
    let cb = lb / rows_b;
    proof {
        lemma_fundamental_div_mod(la as int, rows_a as int);
        lemma_fundamental_div_mod(lb as int, rows_b as int);
    }
    let kk = if transpose_a {
        rows_a
    } else {
        ca
    };
    let inner_r = if transpose_b {
        cb
    } else {
        rows_b
    };
    if kk != inner_r {
        return Err(MathError::ShapeMismatch);
    }
    let m = if transpose_a {
        ca
    } else {
        rows_a
    };
    let nn = if transpose_b {
        rows_b
    } else {
        cb
    };
    let ghost ra = rows_a as int;
    let ghost rb = rows_b as int;
    let mut out: Vec<u64> = Vec::new();
    proof {
        lemma_mul_basics(nn as int);
    }
    for i in 0..m
        invariant
            out@.len() == (i as int) * (nn as int),
            forall|idx: int|
                0 <= idx < (i as int) * (nn as int) ==> out@[idx] == mm_entry(
                    a@,
                    b@,
                    ra,
                    ca as int,
                    rb,
                    cb as int,
                    transpose_a,
                    transpose_b,
                    idx / (nn as int),
                    idx % (nn as int),
                ),
    {
        for j in 0..nn
            invariant
                out@.len() == (i as int) * (nn as int) + (j as int),
                forall|idx: int|
                    0 <= idx < (i as int) * (nn as int) + (j as int) ==> out@[idx] == mm_entry(
                        a@,
                        b@,
                        ra,
                        ca as int,
                        rb,
                        cb as int,
                        transpose_a,
                        transpose_b,
                        idx / (nn as int),
                        idx % (nn as int),
                    ),
        {
            let mut acc: u64 = F64_ZERO;
            for t in 0..kk
                invariant
                    acc == dot_bits(
                        a@,
                        b@,
                        mm_oa(transpose_a, i as int, ca as int),
                        mm_sa(transpose_a, ca as int),
                        mm_ob(transpose_b, j as int, cb as int),
                        mm_sb(transpose_b, cb as int),
                        t as int,
                    ),
            {
                let ia = if transpose_a {
                    proof {
                        assert((t as int) * (ca as int) + (i as int) < (rows_a as int) * (
                        ca as int)) by (nonlinear_arith)
                            requires
                                0 <= (t as int) < (rows_a as int),
                                0 <= (i as int) < (ca as int),
                        ;
                    }
                    t * ca + i
                } else {
                    proof {
                        assert((i as int) * (ca as int) + (t as int) < (rows_a as int) * (
                        ca as int)) by (nonlinear_arith)
                            requires
                                0 <= (i as int) < (rows_a as int),
                                0 <= (t as int) < (ca as int),
                        ;
                    }
                    i * ca + t
                };
                let ib = if transpose_b {
                    proof {
                        assert((j as int) * (cb as int) + (t as int) < (rows_b as int) * (
                        cb as int)) by (nonlinear_arith)
                            requires
                                0 <= (j as int) < (rows_b as int),
                                0 <= (t as int) < (cb as int),
                        ;
                    }
                    j * cb + t
                } else {
                    proof {
                        assert((t as int) * (cb as int) + (j as int) < (rows_b as int) * (
                        cb as int)) by (nonlinear_arith)
                            requires
                                0 <= (t as int) < (rows_b as int),
                                0 <= (j as int) < (cb as int),
                        ;
                    }
                    t * cb + j
                };
                proof {
                    assert(ia as int == mm_oa(transpose_a, i as int, ca as int) + (t as int)
                        * mm_sa(transpose_a, ca as int));
                    assert(ib as int == mm_ob(transpose_b, j as int, cb as int) + (t as int)
                        * mm_sb(transpose_b, cb as int));
                }
                acc = fadd(acc, fmul(a[ia], b[ib]));
            }
            let ghost idx0 = (i as int) * (nn as int) + (j as int);
            out.push(acc);
            proof {
                lemma_fundamental_div_mod_converse(idx0, nn as int, i as int, j as int);
            }
        }
        proof {
            assert((i as int + 1) * (nn as int) == (i as int) * (nn as int) + (nn as int))
                by (nonlinear_arith);
        }
    }
    proof {
        assert(out@ =~= mm_bits(a@, b@, ra, rb, transpose_a, transpose_b));
    }
    Ok(out)
}

/// Entry `(i, j)` of the design extension sits at flat position
/// `i * (c + 1) + j` and is one in the first column, `x[i * c + j - 1]`
/// after it.
proof fn lemma_design_entry(x: Seq<u64>, n: int, i: int, j: int, pos: int)
    requires
        n >= 1,
        x.len() == n * (x.len() as int / n),
        0 <= i < n,
        0 <= j < x.len() as int / n + 1,
        pos == i * (x.len() as int / n + 1),
    ensures
        0 <= pos + j < design_bits(x, n).len(),
        design_bits(x, n)[pos + j] == (if j == 0 {
            F64_ONE
        } else {
            x[i * (x.len() as int / n) + (j - 1)]
        }),
{
    let c = x.len() as int / n;
    assert(c >= 0 && pos + j < n * (c + 1) && (c + 1) * i == i * (c + 1)) by (nonlinear_arith)
        requires
            0 <= i < n,
            0 <= j < c + 1,
            pos == i * (c + 1),
            n * c == x.len(),
    ;
    lemma_fundamental_div_mod_converse(pos + j, c + 1, i, j);
}

/// The flat transpose of a flat `rows x cols` matrix: a `cols x rows`
/// matrix whose entry `(t, i)` is entry `(i, t)` of the original.
pub open spec fn transpose_bits(a: Seq<u64>, rows: int, cols: int) -> Seq<u64> {
    Seq::new((rows * cols) as nat, |idx: int| a[(idx % rows) * cols + idx / rows])
}

/// Entry `(t, i)` of the transpose, at flat position `t * rows + i`, is
/// entry `(i, t)` of the original.
proof fn lemma_transpose_entry(a: Seq<u64>, rows: int, cols: int, i: int, t: int)
    requires
        rows >= 1,
        cols >= 1,
        a.len() == rows * cols,
        0 <= i < rows,
        0 <= t < cols,
    ensures
        0 <= t * rows + i < transpose_bits(a, rows, cols).len(),
        transpose_bits(a, rows, cols)[t * rows + i] == a[i * cols + t],
{
    assert(t * rows + i < rows * cols && (rows * cols == cols * rows)) by (nonlinear_arith)
        requires
            0 <= i < rows,
            0 <= t < cols,
    ;
    lemma_fundamental_div_mod_converse(t * rows + i, rows, t, i);
}

/// The product is unchanged by transposing either operand in memory and
/// flipping its transpose flag: with `a` an `m x k` matrix and `b` a
/// `k x n` matrix, all four flag combinations yield the same flat product,
/// bit for bit, because every entry folds the very same operand pairs in
/// the very same order.
pub proof fn lemma_matmul_transpose_agrees(a: Seq<u64>, b: Seq<u64>, m: int, k: int, n: int)
    requires
        m >= 1,
        k >= 1,
        n >= 1,
        a.len() == m * k,
        b.len() == k * n,
    ensures
        mm_bits(transpose_bits(a, m, k), b, k, k, true, false) == mm_bits(a, b, m, k, false, false),
        mm_bits(a, transpose_bits(b, k, n), m, n, false, true) == mm_bits(a, b, m, k, false, false),
        mm_bits(transpose_bits(a, m, k), transpose_bits(b, k, n), k, n, true, true) == mm_bits(
            a,
            b,
            m,
            k,
            false,
            false,
        ),
{
    let at = transpose_bits(a, m, k);
    let bt = transpose_bits(b, k, n);
    assert(at.len() == k * m && bt.len() == n * k) by (nonlinear_arith)
        requires
            at.len() == m * k,
            bt.len() == k * n,
    ;
    lemma_div_multiples_vanish(k, m);
    lemma_div_multiples_vanish(n, k);
    lemma_div_multiples_vanish(m, k);
    lemma_div_multiples_vanish(k, n);
    assert(a.len() as int / m == k);
    assert(b.len() as int / k == n);
    assert(at.len() as int / k == m);
    assert(bt.len() as int / n == k);
    let base = mm_bits(a, b, m, k, false, false);
    let lhs1 = mm_bits(at, b, k, k, true, false);
    let lhs2 = mm_bits(a, bt, m, n, false, true);
    let lhs3 = mm_bits(at, bt, k, n, true, true);
    assert(base.len() == m * n);
    assert(lhs1.len() == m * n);
    assert(lhs2.len() == m * n);
    assert(lhs3.len() == m * n);
    assert forall|idx: int| 0 <= idx < m * n implies lhs1[idx] == base[idx] && lhs2[idx]
        == base[idx] && lhs3[idx] == base[idx] by {
        assert(idx < n * m) by (nonlinear_arith)
            requires
                idx < m * n,
        ;
        lemma_multiply_divide_lt(idx, n, m);
        lemma_mod_bound(idx, n);
        let i = idx / n;
        let j = idx % n;
        assert forall|t: int| 0 <= t < k implies #[trigger] stride_at(at, i, m, t) == stride_at(
            a,
            i * k,
            1,
            t,
        ) by {
            lemma_transpose_entry(a, m, k, i, t);
            assert(stride_at(at, i, m, t) == at[i + t * m]);
            assert(stride_at(a, i * k, 1, t) == a[i * k + t]);
        }
        assert forall|t: int| 0 <= t < k implies #[trigger] stride_at(bt, j * k, 1, t)
            == stride_at(b, j, n, t) by {
            lemma_transpose_entry(b, k, n, t, j);
            assert(stride_at(bt, j * k, 1, t) == bt[j * k + t]);
            assert(stride_at(b, j, n, t) == b[j + t * n]);
        }
        assert forall|t: int| 0 <= t < k implies #[trigger] stride_at(b, j, n, t) == stride_at(
            b,
            j,
            n,
            t,
        ) by {
        }
        lemma_dot_bits_congruence(at, b, i, m, j, n, a, b, i * k, 1, j, n, k);
        lemma_dot_bits_congruence(a, bt, i * k, 1, j * k, 1, a, b, i * k, 1, j, n, k);
        lemma_dot_bits_congruence(at, bt, i, m, j * k, 1, a, b, i * k, 1, j, n, k);
        assert(lhs1[idx] == dot_bits(at, b, i, m, j, n, k));
        assert(lhs2[idx] == dot_bits(a, bt, i * k, 1, j * k, 1, k));
        assert(lhs3[idx] == dot_bits(at, bt, i, m, j * k, 1, k));
        assert(base[idx] == dot_bits(a, b, i * k, 1, j, n, k));
    }
    assert(lhs1 =~= base);
    assert(lhs2 =~= base);
    assert(lhs3 =~= base);
}

} // verus!
