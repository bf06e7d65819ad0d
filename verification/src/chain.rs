//! Mixed-radix arithmetic of a dimension chain: products of local
//! dimensions and the value of a digit string (site 0 most significant).
use vstd::arithmetic::div_mod::{lemma_fundamental_div_mod, lemma_mod_bound, lemma_mod_multiples_vanish};
use vstd::prelude::*;

verus! {

/// Product of the local dimensions of a chain segment.
pub open spec fn prod(p: Seq<usize>) -> int
    decreases p.len(),
{
    if p.len() == 0 {
        1
    } else {
        prod(p.drop_last()) * p.last()
    }
}

/// Every local dimension is at least one.
pub open spec fn all_positive(p: Seq<usize>) -> bool {
    forall|i: int| 0 <= i < p.len() ==> p[i] >= 1
}

/// The prefix products grow by one factor per site.
pub proof fn lemma_prod_take_step(p: Seq<usize>, i: int)
    requires
        0 <= i < p.len(),
    ensures
        prod(p.take(i + 1)) == prod(p.take(i)) * p[i],
{
    assert(p.take(i + 1).drop_last() =~= p.take(i));
}

/// A product of positive dimensions is positive.
pub proof fn lemma_prod_positive(p: Seq<usize>)
    requires
        all_positive(p),
    ensures
        prod(p) >= 1,
    decreases p.len(),
{
    if p.len() > 0 {
        lemma_prod_positive(p.drop_last());
        let a = prod(p.drop_last());
        let b = p.last() as int;
        assert(a * b >= 1) by (nonlinear_arith) requires a >= 1, b >= 1;
    }
}

/// The product splits at any cut: left part times right part.
pub proof fn lemma_prod_split(p: Seq<usize>, j: int)
    requires
        0 <= j <= p.len(),
    ensures
        prod(p) == prod(p.take(j)) * prod(p.skip(j)),
    decreases p.len(),
{
    if j == p.len() {
        assert(p.take(j) =~= p);
        assert(p.skip(j).len() == 0);
    } else {
        let q = p.drop_last();
        lemma_prod_split(q, j);
        assert(q.take(j) =~= p.take(j));
        assert(p.skip(j).drop_last() =~= q.skip(j));
        assert(p.skip(j).last() == p.last());
        let a = prod(p.take(j));
        let b = prod(q.skip(j));
        let c = p.last() as int;
        assert(a * b * c == a * (b * c)) by (nonlinear_arith);
    }
}

/// Segments of a chain of positive dimensions divide the whole product.
pub proof fn lemma_prod_take_le(p: Seq<usize>, j: int)
    requires
        0 <= j <= p.len(),
        all_positive(p),
    ensures
        1 <= prod(p.take(j)) <= prod(p),
        1 <= prod(p.skip(j)) <= prod(p),
{
    lemma_prod_split(p, j);
    lemma_prod_positive(p.take(j));
    lemma_prod_positive(p.skip(j));
    let a = prod(p.take(j));
    let b = prod(p.skip(j));
    assert(a <= a * b && b <= a * b) by (nonlinear_arith) requires a >= 1, b >= 1;
}

/// Value of a digit string over a chain, site 0 most significant:
/// `((x_0·d_1 + x_1)·d_2 + x_2)…`.
pub open spec fn value(d: Seq<usize>, x: Seq<usize>) -> int
    decreases x.len(),
{
    if x.len() == 0 || d.len() == 0 {
        0
    } else {
        value(d.drop_last(), x.drop_last()) * d.last() + x.last()
    }
}

/// Value of a digit string read in reversed place value (site 0 least
/// significant): `x_0 + d_0·(x_1 + d_1·(…))`.
pub open spec fn value_lsb_first(d: Seq<usize>, x: Seq<usize>) -> int
    decreases x.len(),
{
    if x.len() == 0 || d.len() == 0 {
        0
    } else {
        x[0] + d[0] * value_lsb_first(d.skip(1), x.skip(1))
    }
}

/// Every digit lies below its site's dimension.
pub open spec fn digits_in_range(d: Seq<usize>, x: Seq<usize>) -> bool {
    &&& x.len() == d.len()
    &&& forall|i: int| 0 <= i < x.len() ==> x[i] < d[i]
}

/// The mixed-radix digits of `x` over a chain (site 0 most significant),
/// peeled from the least significant end: `x mod d_{n-1}`, then the rest.
pub open spec fn digits_of(d: Seq<usize>, x: int) -> Seq<usize>
    decreases d.len(),
{
    if d.len() == 0 {
        Seq::empty()
    } else {
        digits_of(d.drop_last(), x / (d.last() as int)).push((x % (d.last() as int)) as usize)
    }
}

/// In-range digit strings encode values below the chain's product.
pub proof fn lemma_value_bound(d: Seq<usize>, x: Seq<usize>)
    requires
        digits_in_range(d, x),
    ensures
        0 <= value(d, x) < prod(d),
    decreases x.len(),
{
    if x.len() > 0 {
        lemma_value_bound(d.drop_last(), x.drop_last());
        let v = value(d.drop_last(), x.drop_last());
        let p = prod(d.drop_last());
        let dl = d.last() as int;
        let xl = x.last() as int;
        assert(v * dl + xl < p * dl) by (nonlinear_arith)
            requires 0 <= v < p, 0 <= xl < dl;
        assert(v * dl >= 0) by (nonlinear_arith) requires v >= 0, dl >= 0;
    }
}

/// The digits of a value below the chain's product are in range and encode it.
pub proof fn lemma_digits_of_value(d: Seq<usize>, x: int)
    requires
        all_positive(d),
        0 <= x < prod(d),
    ensures
        digits_in_range(d, digits_of(d, x)),
        value(d, digits_of(d, x)) == x,
    decreases d.len(),
{
    if d.len() > 0 {
        let dl = d.last() as int;
        let p = prod(d.drop_last());
        lemma_fundamental_div_mod(x, dl);
        lemma_mod_bound(x, dl);
        let q = x / dl;
        assert(0 <= q < p) by (nonlinear_arith)
            requires x == dl * q + x % dl, 0 <= x % dl < dl, 0 <= x < p * dl, dl >= 1;
        lemma_digits_of_value(d.drop_last(), q);
        let ds = digits_of(d, x);
        assert(ds.drop_last() =~= digits_of(d.drop_last(), q));
        assert(ds.last() == (x % dl) as usize);
        assert(value(d, ds) == value(d.drop_last(), ds.drop_last()) * dl + ds.last());
        assert(q * dl + x % dl == x) by (nonlinear_arith) requires x == dl * q + x % dl;
    }
}

/// The value splits off its most significant digit.
pub proof fn lemma_value_first(d: Seq<usize>, x: Seq<usize>)
    requires
        x.len() == d.len(),
        x.len() >= 1,
    ensures
        value(d, x) == x[0] * prod(d.skip(1)) + value(d.skip(1), x.skip(1)),
    decreases x.len(),
{
    if x.len() == 1 {
        assert(d.skip(1).len() == 0);
        assert(d.drop_last().len() == 0);
        assert(prod(d.skip(1)) == 1);
        assert(value(d.skip(1), x.skip(1)) == 0);
        assert(value(d, x) == value(d.drop_last(), x.drop_last()) * d.last() + x.last());
        assert(value(d.drop_last(), x.drop_last()) == 0);
        assert(x.last() == x[0]);
    } else {
        lemma_value_first(d.drop_last(), x.drop_last());
        assert(d.drop_last().skip(1) =~= d.skip(1).drop_last());
        assert(x.drop_last().skip(1) =~= x.skip(1).drop_last());
        let a = x[0] as int;
        let pt = prod(d.skip(1).drop_last());
        let vt = value(d.skip(1).drop_last(), x.skip(1).drop_last());
        let dl = d.last() as int;
        assert(value(d, x) == value(d.drop_last(), x.drop_last()) * dl + x.last());
        assert(d.skip(1).last() == d.last());
        assert(x.skip(1).last() == x.last());
        assert(prod(d.skip(1)) == pt * dl);
        assert(value(d.skip(1), x.skip(1)) == vt * dl + x.last());
        assert(x.drop_last()[0] == x[0]);
        assert(value(d.drop_last(), x.drop_last()) == a * pt + vt);
        assert((a * pt + vt) * dl + x.last() == a * (pt * dl) + (vt * dl + x.last())) by (nonlinear_arith);
    }
}

/// The product splits off its first factor.
pub proof fn lemma_prod_first(d: Seq<usize>)
    requires
        d.len() >= 1,
    ensures
        prod(d) == d[0] * prod(d.skip(1)),
{
    lemma_prod_split(d, 1);
    assert(d.take(1).drop_last() =~= Seq::<usize>::empty());
    assert(d.take(1).last() == d[0]);
    assert(prod(d.take(1)) == prod(d.take(1).drop_last()) * d[0]);
    let a = prod(d.take(1).drop_last());
    assert(a == 1);
    let b = d[0] as int;
    assert(a * b == b) by (nonlinear_arith) requires a == 1;
    assert(prod(d.take(1)) == d[0]);
}

/// An owned copy of a dimension list.
pub(crate) fn copy_dims(s: &[usize]) -> (v: Vec<usize>)
    ensures
        v@ == s@,
{
    let mut v: Vec<usize> = Vec::new();
    let mut i: usize = 0;
    while i < s.len()
        invariant
            i <= s@.len(),
            v@ == s@.take(i as int),
        decreases s@.len() - i,
    {
        v.push(s[i]);
        i = i + 1;
        assert(v@ =~= s@.take(i as int));
    }
    assert(s@.take(s@.len() as int) =~= s@);
    v
}

/// Greatest common divisor by Euclid's recursion.
pub open spec fn gcd_spec(a: nat, b: nat) -> nat
    decreases b,
{
    if b == 0 {
        a
    } else {
        gcd_spec(b, a % b)
    }
}

/// The product `d·q`.
pub open spec fn times(d: int, q: int) -> int {
    d * q
}

/// `d` divides `x`.
pub open spec fn divides(d: int, x: int) -> bool {
    exists|q: int| x == #[trigger] times(d, q)
}

/// Euclid's recursion computes the greatest common divisor: the result
/// divides both arguments, and every common divisor divides the result.
pub proof fn law_gcd_is_greatest_common_divisor(a: nat, b: nat, d: int)
    ensures
        divides(gcd_spec(a, b) as int, a as int),
        divides(gcd_spec(a, b) as int, b as int),
        divides(d, a as int) && divides(d, b as int) ==> divides(d, gcd_spec(a, b) as int),
    decreases b,
{
    if b == 0 {
        assert(a == times(a as int, 1));
        assert(0 == times(a as int, 0));
    } else {
        law_gcd_is_greatest_common_divisor(b, a % b, d);
        let g = gcd_spec(a, b) as int;
        lemma_fundamental_div_mod(a as int, b as int);
        let q = a as int / b as int;
        let r = a as int % b as int;
        let u = choose|u: int| b == times(g, u);
        let v = choose|v: int| r == times(g, v);
        assert(a == times(g, u * q + v)) by (nonlinear_arith)
            requires a == b * q + r, b == g * u, r == g * v;
        if divides(d, a as int) && divides(d, b as int) {
            let x = choose|x: int| a == times(d, x);
            let y = choose|y: int| b == times(d, y);
            assert(r == times(d, x - y * q)) by (nonlinear_arith)
                requires a == b * q + r, a == d * x, b == d * y;
        }
    }
}


/// Bézout coefficients `(u, v)` of `(a, b)` by the extended Euclidean
/// recursion.
pub open spec fn bezout(a: nat, b: nat) -> (int, int)
    decreases b,
{
    if b == 0 {
        (1, 0)
    } else {
        let (u, v) = bezout(b, a % b);
        (v, u - (a / b) as int * v)
    }
}

/// Bézout's identity: `u·a + v·b = gcd(a, b)`.
pub proof fn lemma_bezout(a: nat, b: nat)
    ensures
        bezout(a, b).0 * a + bezout(a, b).1 * b == gcd_spec(a, b),
    decreases b,
{
    if b > 0 {
        lemma_bezout(b, a % b);
        let (u, v) = bezout(b, a % b);
        lemma_fundamental_div_mod(a as int, b as int);
        let q = (a / b) as int;
        let r = (a % b) as int;
        assert(v * a + (u - q * v) * b == u * b + v * r) by (nonlinear_arith)
            requires a == b * q + r;
        assert(bezout(a, b) == (v, u - q * v));
        assert(gcd_spec(a, b) == gcd_spec(b, a % b));
        assert(u * b + v * r == gcd_spec(b, a % b));
    } else {
        assert(bezout(a, b) == (1int, 0int));
        assert(1 * a + 0 * b == a) by (nonlinear_arith);
    }
}


/// The digit complement `x_i ↦ d_i − 1 − x_i` of every site: the reflection
/// of each site's levels.
pub open spec fn complement_digits(d: Seq<usize>, x: Seq<usize>) -> Seq<usize> {
    Seq::new(x.len(), |i: int| (d[i] - 1 - x[i]) as usize)
}

/// Complementing every digit reflects the ring: the value `x` becomes
/// `N − 1 − x`.
pub proof fn law_complement_reflects_the_ring(d: Seq<usize>, x: Seq<usize>)
    requires
        digits_in_range(d, x),
    ensures
        digits_in_range(d, complement_digits(d, x)),
        value(d, complement_digits(d, x)) == prod(d) - 1 - value(d, x),
    decreases x.len(),
{
    let y = complement_digits(d, x);
    if x.len() == 0 {
        assert(prod(d) == 1);
    } else {
        let dp = d.drop_last();
        let xp = x.drop_last();
        assert(digits_in_range(dp, xp));
        law_complement_reflects_the_ring(dp, xp);
        assert(y.drop_last() =~= complement_digits(dp, xp));
        let dl = d.last() as int;
        let xl = x.last() as int;
        let v = value(dp, xp);
        let pp = prod(dp);
        assert(value(d, y) == (pp - 1 - v) * dl + (dl - 1 - xl));
        assert((pp - 1 - v) * dl + (dl - 1 - xl) == pp * dl - 1 - (v * dl + xl)) by (nonlinear_arith);
    }
}

} // verus!
