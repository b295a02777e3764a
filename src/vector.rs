use crate::error::MathError;
use vstd::prelude::*;

verus! {

/// An owned sequence of integers, the operand of a dot product.
pub struct Vector {
    pub data: Vec<i64>,
}

impl View for Vector {
    type V = Seq<i64>;

    open spec fn view(&self) -> Seq<i64> {
        self.data@
    }
}

impl From<Vec<i64>> for Vector {
    fn from(data: Vec<i64>) -> (r: Vector)
        ensures
            r@ == data@,
    {
        Vector { data }
    }
}

impl vstd::std_specs::convert::FromSpecImpl<Vec<i64>> for Vector {
    open spec fn obeys_from_spec() -> bool {
        true
    }

    open spec fn from_spec(v: Vec<i64>) -> Vector {
        Vector { data: v }
    }
}

impl Vector {
    pub fn len(&self) -> (r: usize)
        ensures
            r == self@.len(),
    {
        self.data.len()
    }
}

/// Whether an integer is representable as an `i64`.
pub open spec fn fits_i64(x: int) -> bool {
    i64::MIN <= x <= i64::MAX
}

/// The product of the elements at position `n`.
#[verifier::opaque]
pub open spec fn term(a: Seq<i64>, b: Seq<i64>, n: int) -> int {
    a[n] * b[n]
}

/// The sum of `a[t] * b[t]` over `t` in `0..n`.
pub open spec fn dot_upto(a: Seq<i64>, b: Seq<i64>, n: int) -> int
    decreases n,
{
    if n <= 0 {
        0
    } else {
        dot_upto(a, b, n - 1) + term(a, b, n - 1)
    }
}

/// The inner product of two sequences of the same length.
pub open spec fn dot(a: Seq<i64>, b: Seq<i64>) -> int {
    dot_upto(a, b, a.len() as int)
}

/// The first `n` products and running sums of the inner product of `a` and
/// `b`, taken in index order, are representable as `i64`.
pub open spec fn prefix_fits(a: Seq<i64>, b: Seq<i64>, n: int) -> bool
    decreases n,
{
    n <= 0 || (prefix_fits(a, b, n - 1) && fits_i64(term(a, b, n - 1)) && fits_i64(
        dot_upto(a, b, n),
    ))
}

/// Every product and every running sum of the inner product of `a` and `b`,
/// taken in index order, is representable as an `i64`.
pub open spec fn dot_fits(a: Seq<i64>, b: Seq<i64>) -> bool {
    prefix_fits(a, b, a.len() as int)
}

/// What fits over a prefix fits over every shorter prefix.
pub proof fn lemma_prefix_fits_shorter(a: Seq<i64>, b: Seq<i64>, n: int, m: int)
    requires
        prefix_fits(a, b, n),
        m <= n,
    ensures
        prefix_fits(a, b, m),
    decreases n - m,
{
    if m < n {
        lemma_prefix_fits_shorter(a, b, n - 1, m);
    }
}

/// The inner product of `a` and `b`: the running sum, from zero, of the
/// elementwise products in index order.
pub fn dot_product(a: Vector, b: Vector) -> (r: Result<i64, MathError>)
    requires
        a@.len() == b@.len() ==> dot_fits(a@, b@),
    ensures
        a@.len() != b@.len() <==> r == Err::<i64, MathError>(MathError::DimensionMismatch),
        a@.len() == b@.len() ==> r == Ok::<i64, MathError>(dot(a@, b@) as i64),
{
    if a.len() != b.len() {
        return Err(MathError::DimensionMismatch);
    }
    let mut sum: i64 = 0;
    let mut i: usize = 0;
    while i < a.len()
        invariant
            a@.len() == b@.len(),
            dot_fits(a@, b@),
            0 <= i <= a@.len(),
            sum as int == dot_upto(a@, b@, i as int),
        decreases a@.len() - i,
    {
        proof {
            lemma_prefix_fits_shorter(a@, b@, a@.len() as int, i + 1);
            reveal(term);
        }
        let p: i64 = a.data[i] * b.data[i];
        sum = sum + p;
        i = i + 1;
    }
    Ok(sum)
}

} // verus!
