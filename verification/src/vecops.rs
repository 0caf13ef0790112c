//! Elementwise arithmetic on equal-length vectors of double bit patterns,
//! plus the sum and mean reductions the fitting engine consumes.

use vstd::prelude::*;
use crate::scalar::{
    add_bits, sub_bits, mul_bits, div_bits, fadd, fsub, fmul, fdiv, f64_bits_of_int,
    f64_of_usize, F64_EXACT_INT_BOUND, F64_ZERO,
};

verus! {

/// The elementwise IEEE-754 sum of two equal-length sequences.
pub open spec fn vadd_bits(u: Seq<u64>, v: Seq<u64>) -> Seq<u64> {
    Seq::new(u.len(), |i: int| add_bits(u[i], v[i]))
}

/// The elementwise IEEE-754 difference of two equal-length sequences.
pub open spec fn vsub_bits(u: Seq<u64>, v: Seq<u64>) -> Seq<u64> {
    Seq::new(u.len(), |i: int| sub_bits(u[i], v[i]))
}

/// The elementwise IEEE-754 product of two equal-length sequences.
pub open spec fn vmul_bits(u: Seq<u64>, v: Seq<u64>) -> Seq<u64> {
    Seq::new(u.len(), |i: int| mul_bits(u[i], v[i]))
}

/// The elementwise IEEE-754 quotient of two equal-length sequences.
pub open spec fn vdiv_bits(u: Seq<u64>, v: Seq<u64>) -> Seq<u64> {
    Seq::new(u.len(), |i: int| div_bits(u[i], v[i]))
}

/// Elementwise addition.
pub fn vadd(u: &Vec<u64>, v: &Vec<u64>) -> (r: Vec<u64>)
    requires
        u@.len() == v@.len(),
    ensures
        r@ == vadd_bits(u@, v@),
{
    let n = u.len();
    let mut r: Vec<u64> = Vec::new();
    for i in 0..n
        invariant
            u@.len() == n,
            v@.len() == n,
            r@.len() == i,
            forall|k: int| 0 <= k < i ==> r@[k] == add_bits(u@[k], v@[k]),
    {
        r.push(fadd(u[i], v[i]));
    }
    proof {
        assert(r@ =~= vadd_bits(u@, v@));
    }
    r
}

/// Elementwise subtraction.
pub fn vsub(u: &Vec<u64>, v: &Vec<u64>) -> (r: Vec<u64>)
    requires
        u@.len() == v@.len(),
    ensures
        r@ == vsub_bits(u@, v@),
{
    let n = u.len();
    let mut r: Vec<u64> = Vec::new();
    for i in 0..n
        invariant
            u@.len() == n,
            v@.len() == n,
            r@.len() == i,
            forall|k: int| 0 <= k < i ==> r@[k] == sub_bits(u@[k], v@[k]),
    {
        r.push(fsub(u[i], v[i]));
    }
    proof {
        assert(r@ =~= vsub_bits(u@, v@));
    }
    r
}

/// Elementwise multiplication.
pub fn vmul(u: &Vec<u64>, v: &Vec<u64>) -> (r: Vec<u64>)
    requires
        u@.len() == v@.len(),
    ensures
        r@ == vmul_bits(u@, v@),
{
    let n = u.len();
    let mut r: Vec<u64> = Vec::new();
    for i in 0..n
        invariant
            u@.len() == n,
            v@.len() == n,
            r@.len() == i,
            forall|k: int| 0 <= k < i ==> r@[k] == mul_bits(u@[k], v@[k]),
    {
        r.push(fmul(u[i], v[i]));
    }
    proof {
        assert(r@ =~= vmul_bits(u@, v@));
    }
    r
}

/// Elementwise division.
pub fn vdiv(u: &Vec<u64>, v: &Vec<u64>) -> (r: Vec<u64>)
    requires
        u@.len() == v@.len(),
    ensures
        r@ == vdiv_bits(u@, v@),
{
    let n = u.len();
    let mut r: Vec<u64> = Vec::new();
    for i in 0..n
        invariant
            u@.len() == n,
            v@.len() == n,
            r@.len() == i,
            forall|k: int| 0 <= k < i ==> r@[k] == div_bits(u@[k], v@[k]),
    {
        r.push(fdiv(u[i], v[i]));
    }
    proof {
        assert(r@ =~= vdiv_bits(u@, v@));
    }
    r
}

/// The left fold of IEEE-754 addition over the first `k` elements of `s`,
/// starting from positive zero: the value an accumulation loop holds after
/// `k` steps.
pub open spec fn sum_bits(s: Seq<u64>, k: int) -> u64
    decreases k,
{
    if k <= 0 {
        F64_ZERO
    } else {
        add_bits(sum_bits(s, k - 1), s[k - 1])
    }
}

/// The sum of a whole sequence, folded left to right.
pub open spec fn sum_all_bits(s: Seq<u64>) -> u64 {
    sum_bits(s, s.len() as int)
}

/// Sums a vector left to right.
pub fn sum(v: &Vec<u64>) -> (r: u64)
    ensures
        r == sum_all_bits(v@),
{
    let n = v.len();
    let mut acc: u64 = F64_ZERO;
    for i in 0..n
        invariant
            v@.len() == n,
            acc == sum_bits(v@, i as int),
    {
        acc = fadd(acc, v[i]);
    }
    acc
}

/// The arithmetic mean: the left-to-right sum divided by the exactly
/// encoded element count.
pub open spec fn mean_bits(s: Seq<u64>) -> u64 {
    div_bits(sum_all_bits(s), f64_bits_of_int(s.len()))
}

/// The arithmetic mean of a vector.
pub fn mean(v: &Vec<u64>) -> (r: u64)
    requires
        v@.len() < F64_EXACT_INT_BOUND,
    ensures
        r == mean_bits(v@),
{
    let s = sum(v);
    let n = f64_of_usize(v.len());
    fdiv(s, n)
}

} // verus!
