//! Index arithmetic of the dense state vector over a mixed-radix chain.
//!
//! Basis convention: site 0 is the most significant digit, so the amplitude
//! index of `|x_0, x_1, …, x_{n-1}⟩` is `((x_0·d_1 + x_1)·d_2 + x_2)…`, the
//! chain value of the digit string.
use crate::chain::{
    all_positive, digits_in_range, digits_of, lemma_digits_of_value, lemma_prod_first,
    lemma_prod_take_le, lemma_prod_take_step, lemma_value_bound, lemma_value_first, prod, value,
};
use vstd::arithmetic::div_mod::lemma_fundamental_div_mod_converse;
use vstd::prelude::*;

verus! {

/// Every prefix product of the chain fits in a machine word.
pub open spec fn prefix_products_fit(d: Seq<usize>) -> bool {
    forall|i: int| 0 <= i <= d.len() ==> #[trigger] prod(d.take(i)) <= usize::MAX
}

/// Every product of the dimensions to the right of a site fits in a
/// machine word (the whole product need not).
pub open spec fn suffix_products_fit(d: Seq<usize>) -> bool {
    forall|i: int| 1 <= i <= d.len() ==> #[trigger] prod(d.skip(i)) <= usize::MAX
}

/// Product of all local dimensions (total Hilbert-space dimension).
pub fn total_dim(dims: &[usize]) -> (n: usize)
    requires
        prefix_products_fit(dims@),
    ensures
        n == prod(dims@),
{
    let mut n: usize = 1;
    let mut i: usize = 0;
    assert(dims@.take(0) =~= Seq::<usize>::empty());
    while i < dims.len()
        invariant
            i <= dims@.len(),
            prefix_products_fit(dims@),
            n == prod(dims@.take(i as int)),
        decreases dims@.len() - i,
    {
        proof {
            lemma_prod_take_step(dims@, i as int);
            assert(prod(dims@.take(i as int + 1)) <= usize::MAX);
        }
        n = n * dims[i];
        i = i + 1;
    }
    assert(dims@.take(i as int) =~= dims@);
    n
}

/// Stride of each site in the flattened index (site 0 most significant):
/// the product of the dimensions to its right.
pub fn strides(dims: &[usize]) -> (s: Vec<usize>)
    requires
        suffix_products_fit(dims@),
    ensures
        s@.len() == dims@.len(),
        forall|i: int| 0 <= i < s@.len() ==> #[trigger] s@[i] == prod(dims@.skip(i + 1)),
{
    let n = dims.len();
    let mut s: Vec<usize> = Vec::new();
    let mut j: usize = 0;
    while j < n
        invariant
            j <= n,
            n == dims@.len(),
            s@.len() == j,
            forall|k: int| 0 <= k < j ==> #[trigger] s@[k] == 1,
        decreases n - j,
    {
        s.push(1);
        j = j + 1;
    }
    if n == 0 {
        return s;
    }
    proof {
        assert(dims@.skip(n as int).len() == 0);
    }
    let mut i: usize = n - 1;
    while i > 0
        invariant
            i < n,
            n == dims@.len(),
            s@.len() == n,
            suffix_products_fit(dims@),
            forall|k: int| i <= k < n ==> #[trigger] s@[k] == prod(dims@.skip(k + 1)),
        decreases i,
    {
        proof {
            lemma_prod_first(dims@.skip(i as int));
            assert(dims@.skip(i as int).skip(1) =~= dims@.skip(i as int + 1));
            assert(prod(dims@.skip(i as int)) <= usize::MAX);
            let a = prod(dims@.skip(i as int + 1));
            let b = dims@[i as int] as int;
            assert(a * b == b * a) by (nonlinear_arith);
        }
        let v = s[i] * dims[i];
        s.set(i - 1, v);
        i = i - 1;
    }
    s
}

/// Place-value sum `Σ x_i · Π_{j>i} d_j` of a digit string.
pub open spec fn place_sum(d: Seq<usize>, x: Seq<usize>) -> int
    decreases x.len(),
{
    if x.len() == 0 || d.len() == 0 {
        0
    } else {
        x[0] * prod(d.skip(1)) + place_sum(d.skip(1), x.skip(1))
    }
}

/// The strides are the place values: weighting each digit by its site's
/// stride gives the chain value of the digit string.
pub proof fn law_strides_are_place_values(d: Seq<usize>, x: Seq<usize>)
    requires
        x.len() == d.len(),
    ensures
        place_sum(d, x) == value(d, x),
    decreases x.len(),
{
    if x.len() > 0 {
        lemma_value_first(d, x);
        law_strides_are_place_values(d.skip(1), x.skip(1));
    }
}

/// Flattened amplitude index of the basis state `|digits⟩`.
pub fn flat_index(dims: &[usize], digits: &[usize]) -> (idx: usize)
    requires
        digits_in_range(dims@, digits@),
        prod(dims@) <= usize::MAX,
    ensures
        idx == value(dims@, digits@),
        idx < prod(dims@),
{
    proof {
        assert(all_positive(dims@));
    }
    let mut acc: usize = 0;
    let mut i: usize = 0;
    while i < dims.len()
        invariant
            i <= dims@.len(),
            digits_in_range(dims@, digits@),
            all_positive(dims@),
            prod(dims@) <= usize::MAX,
            acc == value(dims@.take(i as int), digits@.take(i as int)),
        decreases dims@.len() - i,
    {
        let ghost dt = dims@.take(i as int + 1);
        let ghost xt = digits@.take(i as int + 1);
        proof {
            assert(dt.drop_last() =~= dims@.take(i as int));
            assert(xt.drop_last() =~= digits@.take(i as int));
            assert(digits_in_range(dt, xt));
            lemma_value_bound(dt, xt);
            lemma_prod_take_le(dims@, i as int + 1);
            let a = acc as int;
            let dl = dims@[i as int] as int;
            assert(a * dl <= a * dl + digits@[i as int]);
            assert(value(dt, xt) == a * dl + digits@[i as int]);
        }
        acc = acc * dims[i] + digits[i];
        i = i + 1;
    }
    proof {
        assert(dims@.take(i as int) =~= dims@);
        assert(digits@.take(i as int) =~= digits@);
        lemma_value_bound(dims@, digits@);
    }
    acc
}

fn digits_prefix(dims: &[usize], n: usize, x: usize) -> (out: Vec<usize>)
    requires
        n <= dims@.len(),
        all_positive(dims@),
    ensures
        out@ == digits_of(dims@.take(n as int), x as int),
    decreases n,
{
    if n == 0 {
        assert(dims@.take(0).len() == 0);
        Vec::new()
    } else {
        let d = dims[n - 1];
        let mut out = digits_prefix(dims, n - 1, x / d);
        out.push(x % d);
        proof {
            let t = dims@.take(n as int);
            assert(t.drop_last() =~= dims@.take(n as int - 1));
            assert(t.last() == d);
        }
        out
    }
}

/// Digits of a flattened basis index (site 0 most significant).
pub fn index_digits(dims: &[usize], idx: usize) -> (out: Vec<usize>)
    requires
        all_positive(dims@),
    ensures
        out@ == digits_of(dims@, idx as int),
        idx < prod(dims@) ==> digits_in_range(dims@, out@) && value(dims@, out@) == idx,
{
    let out = digits_prefix(dims, dims.len(), idx);
    proof {
        assert(dims@.take(dims@.len() as int) =~= dims@);
        if idx < prod(dims@) {
            lemma_digits_of_value(dims@, idx as int);
        }
    }
    out
}

/// Basis states and amplitude indices correspond one to one: the digits of
/// a digit string's value are the string itself.
pub proof fn law_digits_of_value_roundtrip(d: Seq<usize>, x: Seq<usize>)
    requires
        digits_in_range(d, x),
    ensures
        digits_of(d, value(d, x)) == x,
    decreases x.len(),
{
    if x.len() > 0 {
        let dl = d.last() as int;
        let v = value(d.drop_last(), x.drop_last());
        assert(digits_in_range(d.drop_last(), x.drop_last()));
        lemma_value_bound(d.drop_last(), x.drop_last());
        lemma_fundamental_div_mod_converse(value(d, x), dl, v, x.last() as int);
        law_digits_of_value_roundtrip(d.drop_last(), x.drop_last());
        assert(digits_of(d, value(d, x)) =~= x);
    } else {
        assert(d.len() == 0);
    }
}

} // verus!
