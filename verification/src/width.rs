//! The a-priori width calculus of streamed permutations: the operator
//! Schmidt rank of modular multiplication across a chain cut, computed from
//! number theory alone.
//!
//! For a cut splitting the chain into a left ring of size `L` and a right
//! block of size `S` (`N = L·S`), the multiplier `x → k·x mod N` factors over
//! the crossing message `c(b) = ⌊k·b / S⌋`, and its width across the cut is
//! the number of distinct residues `c(b) mod L` for `b ∈ [0, S)`.
use std::collections::HashSet;
use crate::text::{decimal, push_decimal};
use crate::chain::{all_positive, bezout, divides, gcd_spec, lemma_bezout, law_gcd_is_greatest_common_divisor, times, lemma_prod_split, lemma_prod_take_le, lemma_prod_take_step, prod};
use vstd::arithmetic::div_mod::*;
use vstd::prelude::*;
use vstd::relations::injective_on;
use vstd::set_lib::*;

verus! {

/// Largest right-block size the enumerating branch will scan.
pub const ENUM_LIMIT: u128 = 8_000_000;

/// Left rings up to this size are counted with a bit table.
pub const BITSET_LIMIT: u128 = 33_554_432;

/// A per-cut width statement: the exact rank, or only the a-priori bound.
#[derive(Clone, Copy, PartialEq, Eq, Debug)]
pub enum Width {
    /// The exact operator Schmidt rank across the cut.
    Exact(u128),
    /// Only the bound `min(k mod N, L, S)`: the crossing set was too large
    /// to enumerate and no closed form applies.
    UpperBound(u128),
}

impl Width {
    /// The carried number, exact or bound.
    pub open spec fn spec_value(self) -> u128 {
        match self {
            Width::Exact(v) => v,
            Width::UpperBound(v) => v,
        }
    }

    pub fn value(self) -> (v: u128)
        ensures
            v == self.spec_value(),
    {
        match self {
            Width::Exact(v) => v,
            Width::UpperBound(v) => v,
        }
    }

    pub fn is_exact(self) -> (b: bool)
        ensures
            b == (self is Exact),
    {
        match self {
            Width::Exact(_) => true,
            Width::UpperBound(_) => false,
        }
    }

    /// The report text: the number itself when exact, `≤` and the bound
    /// otherwise.
    pub open spec fn text(self) -> Seq<char> {
        match self {
            Width::Exact(v) => decimal(v as nat),
            Width::UpperBound(v) => seq!['≤'] + decimal(v as nat),
        }
    }

    /// Render the width as text (see [`Width::text`]).
    pub fn to_string(self) -> (s: String)
        ensures
            s@ == self.text(),
    {
        let mut out = String::new();
        match self {
            Width::Exact(v) => {
                push_decimal(&mut out, v);
            },
            Width::UpperBound(v) => {
                proof {
                    reveal_strlit("≤");
                }
                out.append("≤");
                push_decimal(&mut out, v);
            },
        }
        out
    }
}

/// The residue of the crossing message of input `b`: `⌊k·b/S⌋ mod L`.
pub open spec fn carry_residue(k: int, l: int, s: int, b: int) -> int {
    (k * b / s) % l
}

/// The residues reached by the inputs `b ∈ [0, n)`.
pub open spec fn crossing_upto(k: int, l: int, s: int, n: int) -> Set<int> {
    Set::new(|c: int| exists|b: int| 0 <= b < n && c == carry_residue(k, l, s, b))
}

/// The crossing set `{⌊k·b/S⌋ mod L : b ∈ [0, S)}` of a cut.
pub open spec fn crossing_set(k: int, l: int, s: int) -> Set<int> {
    crossing_upto(k, l, s, s)
}

pub open spec fn min3(a: int, b: int, c: int) -> int {
    if a <= b && a <= c {
        a
    } else if b <= c {
        b
    } else {
        c
    }
}

/// The width statement for `×k` across the cut `(l, s)`: exact when the
/// closed form applies (`k mod N ≤ S`) or the right block is enumerable,
/// otherwise the bound `min(k mod N, L, S)`.
pub open spec fn cut_width_spec(k: u128, l: u128, s: u128) -> Width {
    let kr = k as int % (l as int * s as int);
    if kr > s && s > ENUM_LIMIT {
        Width::UpperBound(min3(kr, l as int, s as int) as u128)
    } else {
        Width::Exact(crossing_set(k as int, l as int, s as int).len() as u128)
    }
}

/// The inputs on which the count can be formed without overflow.
pub open spec fn cut_fits(k: u128, l: u128, s: u128) -> bool {
    &&& l >= 1
    &&& s >= 1
    &&& l * s <= u128::MAX
}

/// Every residue lies in `[0, l)`, so the crossing sets are finite.
pub proof fn lemma_crossing_upto_bounded(k: int, l: int, s: int, n: int)
    requires
        l >= 1,
        s >= 1,
        k >= 0,
    ensures
        crossing_upto(k, l, s, n).subset_of(set_int_range(0, l)),
        crossing_upto(k, l, s, n).finite(),
        crossing_upto(k, l, s, n).len() <= l,
{
    assert forall|c: int| crossing_upto(k, l, s, n).contains(c) implies set_int_range(0, l).contains(c) by {
        let b = choose|b: int| 0 <= b < n && c == carry_residue(k, l, s, b);
        lemma_mod_bound(k * b / s, l);
    }
    lemma_int_range(0, l);
    lemma_len_subset(crossing_upto(k, l, s, n), set_int_range(0, l));
}

/// Extending the scanned inputs by one adds exactly that input's residue.
pub proof fn lemma_crossing_upto_step(k: int, l: int, s: int, n: int)
    requires
        n >= 0,
    ensures
        crossing_upto(k, l, s, n + 1) == crossing_upto(k, l, s, n).insert(carry_residue(k, l, s, n)),
{
    assert(crossing_upto(k, l, s, n + 1) =~= crossing_upto(k, l, s, n).insert(carry_residue(k, l, s, n)));
}

/// Shifting `k` by a multiple of the ring `N = l·s` leaves every residue unchanged.
pub proof fn lemma_residue_shift(k: int, q: int, l: int, s: int, b: int)
    requires
        l >= 1,
        s >= 1,
        q >= 0,
        k >= 0,
        b >= 0,
    ensures
        carry_residue(k + q * (l * s), l, s, b) == carry_residue(k, l, s, b),
{
    let t = q * l * b;
    assert((k + q * (l * s)) * b == k * b + s * t) by (nonlinear_arith)
        requires t == q * l * b;
    let x = k * b;
    assert(x >= 0) by (nonlinear_arith) requires x == k * b, k >= 0, b >= 0;
    lemma_fundamental_div_mod(x, s);
    let r = x % s;
    lemma_mod_bound(x, s);
    assert(x + s * t == s * (x / s + t) + r) by (nonlinear_arith)
        requires x == s * (x / s) + r;
    lemma_div_multiples_vanish_fancy(x / s + t, r, s);
    assert((x + s * t) / s == x / s + t);
    assert(t == l * (q * b)) by (nonlinear_arith) requires t == q * l * b;
    lemma_mod_multiples_vanish(q * b, x / s, l);
    assert((x / s + t) % l == (x / s) % l) by {
        assert(x / s + t == l * (q * b) + x / s);
    }
}

/// The crossing set depends on `k` only through `k mod N`.
pub proof fn lemma_crossing_set_reduce(k: int, l: int, s: int)
    requires
        l >= 1,
        s >= 1,
        k >= 0,
    ensures
        crossing_set(k, l, s) == crossing_set(k % (l * s), l, s),
{
    let n = l * s;
    assert(n >= 1) by (nonlinear_arith) requires n == l * s, l >= 1, s >= 1;
    lemma_fundamental_div_mod(k, n);
    lemma_mod_bound(k, n);
    let q = k / n;
    let kr = k % n;
    assert(q >= 0) by {
        lemma_div_pos_is_pos(k, n);
    }
    assert(k == kr + q * (l * s)) by (nonlinear_arith)
        requires k == n * q + kr, n == l * s;
    assert forall|b: int| 0 <= b < s implies carry_residue(k, l, s, b) == carry_residue(kr, l, s, b) by {
        lemma_residue_shift(kr, q, l, s, b);
    }
    assert(crossing_set(k, l, s) =~= crossing_set(kr, l, s)) by {
        assert forall|c: int| crossing_set(k, l, s).contains(c) implies crossing_set(kr, l, s).contains(c) by {
            let b = choose|b: int| 0 <= b < s && c == carry_residue(k, l, s, b);
            assert(c == carry_residue(kr, l, s, b));
        }
        assert forall|c: int| crossing_set(kr, l, s).contains(c) implies crossing_set(k, l, s).contains(c) by {
            let b = choose|b: int| 0 <= b < s && c == carry_residue(kr, l, s, b);
            assert(c == carry_residue(k, l, s, b));
        }
    }
}

/// The zero multiplier crosses a single message value.
pub proof fn lemma_crossing_set_zero(l: int, s: int)
    requires
        l >= 1,
        s >= 1,
    ensures
        crossing_set(0, l, s) == set![0int],
        crossing_set(0, l, s).len() == 1,
{
    assert forall|b: int| #![trigger carry_residue(0, l, s, b)] 0 <= b < s implies carry_residue(0, l, s, b) == 0 by {
        assert(0 * b == 0);
        lemma_div_basics(s);
        lemma_small_mod(0, l as nat);
    }
    assert(carry_residue(0, l, s, 0) == 0);
    assert(crossing_set(0, l, s) =~= set![0int]);
}

/// For `0 < k ≤ s` every carry value below `k` is reached.
proof fn lemma_carry_hit(k: int, s: int, c: int) -> (b: int)
    requires
        0 < k <= s,
        0 <= c < k,
    ensures
        0 <= b < s,
        k * b / s == c,
{
    let b = (c * s + k - 1) / k;
    assert(c * s + k - 1 >= 0) by (nonlinear_arith) requires c >= 0, s >= 1, k >= 1;
    lemma_fundamental_div_mod(c * s + k - 1, k);
    lemma_mod_bound(c * s + k - 1, k);
    let r = (c * s + k - 1) % k;
    assert(b >= 0) by {
        lemma_div_pos_is_pos(c * s + k - 1, k);
    }
    assert(k * b == c * s + k - 1 - r) by (nonlinear_arith)
        requires c * s + k - 1 == k * b + r;
    assert(k * b - c * s < s);
    assert(k * b == c * s + (k * b - c * s));
    lemma_fundamental_div_mod_converse(k * b, s, c, k * b - c * s);
    assert(k * b < k * s) by (nonlinear_arith)
        requires k * b == c * s + k - 1 - r, r >= 0, c <= k - 1, k <= s, k >= 1;
    assert(b < s) by (nonlinear_arith) requires k * b < k * s, k >= 1;
    b
}

/// Closed form: for `0 < k ≤ s` the crossing set is exactly `[0, min(k, l))`.
pub proof fn lemma_crossing_set_small_k(k: int, l: int, s: int)
    requires
        l >= 1,
        0 < k <= s,
    ensures
        crossing_set(k, l, s) == set_int_range(0, if k <= l { k } else { l }),
        crossing_set(k, l, s).len() == (if k <= l { k } else { l }),
{
    let m = if k <= l { k } else { l };
    assert forall|c: int| crossing_set(k, l, s).contains(c) implies set_int_range(0, m).contains(c) by {
        let b = choose|b: int| 0 <= b < s && c == carry_residue(k, l, s, b);
        assert(k * b >= 0) by (nonlinear_arith) requires k >= 0, b >= 0;
        assert(k * b < k * s) by (nonlinear_arith) requires b < s, k > 0;
        assert(k * b / s < k) by {
            lemma_div_is_ordered(k * b, k * s, s);
            lemma_div_multiples_vanish(k, s);
            assert(k * s == s * k) by (nonlinear_arith);
            if k * b / s == k {
                lemma_fundamental_div_mod(k * b, s);
                lemma_mod_bound(k * b, s);
                assert(s * (k * b / s) >= s * k);
                assert(false) by (nonlinear_arith)
                    requires k * b == s * (k * b / s) + (k * b) % s, (k * b) % s >= 0,
                        k * b / s == k, k * b < k * s;
            }
        }
        lemma_div_pos_is_pos(k * b, s);
        lemma_mod_bound(k * b / s, l);
        lemma_mod_decreases((k * b / s) as nat, l as nat);
    }
    assert forall|c: int| set_int_range(0, m).contains(c) implies crossing_set(k, l, s).contains(c) by {
        let b = lemma_carry_hit(k, s, c);
        lemma_small_mod(c as nat, l as nat);
        assert(c == carry_residue(k, l, s, b));
    }
    assert(crossing_set(k, l, s) =~= set_int_range(0, m));
    lemma_int_range(0, m);
}

/// Operator width of `×k` across a cut with left ring `l` and right block
/// `s`: the count `|{⌊k·b/s⌋ mod l : b ∈ [0, s)}|`, or only the bound
/// `min(k mod N, l, s)` when that set is out of reach.
pub fn mult_cut_width(k: u128, l: u128, s: u128) -> (w: Width)
    requires
        cut_fits(k, l, s),
    ensures
        w == cut_width_spec(k, l, s),
{
    let n = l * s;
    proof {
        assert(n >= 1) by (nonlinear_arith) requires n == l * s, l >= 1, s >= 1;
    }
    let kr = k % n;
    proof {
        lemma_crossing_set_reduce(k as int, l as int, s as int);
        lemma_crossing_upto_bounded(kr as int, l as int, s as int, s as int);
    }
    if kr == 0 {
        proof {
            lemma_crossing_set_zero(l as int, s as int);
        }
        return Width::Exact(1);
    }
    if kr <= s {
        proof {
            lemma_crossing_set_small_k(kr as int, l as int, s as int);
        }
        return Width::Exact(if kr <= l { kr } else { l });
    }
    if s <= ENUM_LIMIT {
        let count = if l <= BITSET_LIMIT {
            count_residues_table(kr, l, s)
        } else {
            count_residues_hashed(kr, l, s)
        };
        return Width::Exact(count);
    }
    Width::UpperBound(if kr <= l && kr <= s {
        kr
    } else if l <= s {
        l
    } else {
        s
    })
}

/// The residue `⌊k·b/s⌋ mod l`, computed as `(q·b + ⌊r·b/s⌋) mod l` with
/// `k = q·s + r`, so that no intermediate exceeds `k`.
fn carry_at(k: u128, l: u128, s: u128, b: u128) -> (c: u128)
    requires
        l >= 1,
        1 <= s <= ENUM_LIMIT,
        k < l * s,
        l * s <= u128::MAX,
        b < s,
    ensures
        c == carry_residue(k as int, l as int, s as int, b as int),
{
    let q = k / s;
    let r = k % s;
    proof {
        let (ki, si, bi, qi, ri) = (k as int, s as int, b as int, q as int, r as int);
        lemma_fundamental_div_mod(ki, si);
        assert(ri * bi < si * si) by (nonlinear_arith) requires 0 <= ri < si, 0 <= bi < si;
        assert(si * si <= ENUM_LIMIT * ENUM_LIMIT) by (nonlinear_arith) requires 1 <= si <= ENUM_LIMIT;
        lemma_hoist_over_denominator(ri * bi, qi * bi, si as nat);
        assert(ri * bi + (qi * bi) * si == ki * bi) by (nonlinear_arith) requires ki == si * qi + ri;
        assert(ki * bi <= ki * si) by (nonlinear_arith) requires 0 <= bi < si, ki >= 0;
        lemma_div_is_ordered(ki * bi, ki * si, si);
        lemma_div_by_multiple(ki, si);
        lemma_div_pos_is_pos(ri * bi, si);
        assert(qi * bi >= 0) by (nonlinear_arith) requires qi >= 0, bi >= 0;
    }
    (q * b + r * b / s) % l
}

/// Counts the distinct residues with a bit table over the left ring.
fn count_residues_table(k: u128, l: u128, s: u128) -> (count: u128)
    requires
        1 <= l <= BITSET_LIMIT,
        1 <= s <= ENUM_LIMIT,
        k < l * s,
        l * s <= u128::MAX,
    ensures
        count == crossing_set(k as int, l as int, s as int).len(),
{
    let mut seen: Vec<bool> = Vec::new();
    let mut j: u128 = 0;
    while j < l
        invariant
            j <= l <= BITSET_LIMIT,
            seen@.len() == j,
            forall|i: int| 0 <= i < j ==> !seen@[i],
        decreases l - j,
    {
        seen.push(false);
        j = j + 1;
    }
    let mut count: u128 = 0;
    let mut b: u128 = 0;
    proof {
        lemma_crossing_upto_bounded(k as int, l as int, s as int, 0);
        assert(crossing_upto(k as int, l as int, s as int, 0) =~= Set::empty());
    }
    while b < s
        invariant
            1 <= l <= BITSET_LIMIT,
            1 <= s <= ENUM_LIMIT,
            k < l * s,
            l * s <= u128::MAX,
            b <= s,
            seen@.len() == l,
            count == crossing_upto(k as int, l as int, s as int, b as int).len(),
            forall|i: int| 0 <= i < l ==> (seen@[i] <==> crossing_upto(k as int, l as int, s as int, b as int).contains(i)),
        decreases s - b,
    {
        proof {
            lemma_crossing_upto_step(k as int, l as int, s as int, b as int);
            lemma_crossing_upto_bounded(k as int, l as int, s as int, b as int);
            lemma_crossing_upto_bounded(k as int, l as int, s as int, b as int + 1);
        }
        let c = carry_at(k, l, s, b);
        let ci = c as usize;
        if !seen[ci] {
            seen.set(ci, true);
            count = count + 1;
        }
        b = b + 1;
    }
    count
}

/// Counts the distinct residues with a hash set, for huge left rings.
fn count_residues_hashed(k: u128, l: u128, s: u128) -> (count: u128)
    requires
        l >= 1,
        1 <= s <= ENUM_LIMIT,
        k < l * s,
        l * s <= u128::MAX,
    ensures
        count == crossing_set(k as int, l as int, s as int).len(),
{
    broadcast use vstd::std_specs::hash::group_hash_axioms;
    let mut seen: HashSet<u128> = HashSet::new();
    let mut count: u128 = 0;
    let mut b: u128 = 0;
    proof {
        lemma_crossing_upto_bounded(k as int, l as int, s as int, 0);
        assert(crossing_upto(k as int, l as int, s as int, 0) =~= Set::empty());
    }
    while b < s
        invariant
            l >= 1,
            1 <= s <= ENUM_LIMIT,
            k < l * s,
            l * s <= u128::MAX,
            b <= s,
            count == crossing_upto(k as int, l as int, s as int, b as int).len(),
            count <= b,
            forall|c: u128| seen@.contains(c) <==> crossing_upto(k as int, l as int, s as int, b as int).contains(c as int),
        decreases s - b,
    {
        proof {
            lemma_crossing_upto_step(k as int, l as int, s as int, b as int);
            lemma_crossing_upto_bounded(k as int, l as int, s as int, b as int);
            lemma_crossing_upto_bounded(k as int, l as int, s as int, b as int + 1);
        }
        let c = carry_at(k, l, s, b);
        let fresh = seen.insert(c);
        if fresh {
            count = count + 1;
        }
        proof {
            let next = crossing_upto(k as int, l as int, s as int, b as int + 1);
            assert forall|x: u128| seen@.contains(x) <==> next.contains(x as int) by {
                if next.contains(x as int) {
                    lemma_crossing_upto_bounded(k as int, l as int, s as int, b as int + 1);
                }
            }
        }
        b = b + 1;
    }
    count
}

/// Under an inverse pair `k·k⁻¹ ≡ 1 (mod l·s)`, the inverse's residue at
/// `b' = k·b mod s` is `−k⁻¹` times the residue at `b`.
proof fn lemma_inverse_residue(k: int, ki: int, l: int, s: int, j: int, b: int)
    requires
        l >= 1,
        s >= 1,
        k >= 0,
        ki >= 0,
        k * ki - 1 == j * (l * s),
        0 <= b < s,
    ensures
        carry_residue(ki, l, s, (k * b) % s) == (-ki * carry_residue(k, l, s, b)) % l,
{
    let q = k * b / s;
    let bp = (k * b) % s;
    lemma_fundamental_div_mod(k * b, s);
    assert(ki * bp == ki * (k * b) - s * (ki * q)) by (nonlinear_arith)
        requires bp == k * b - s * q;
    assert(ki * (k * b) == b + s * (j * l * b)) by (nonlinear_arith)
        requires k * ki - 1 == j * (l * s);
    assert(s * (j * l * b - ki * q) == s * (j * l * b) - s * (ki * q)) by (nonlinear_arith);
    assert(ki * bp == b + s * (j * l * b - ki * q));
    lemma_div_multiples_vanish_fancy(j * l * b - ki * q, b, s);
    assert(ki * bp / s == j * l * b - ki * q);
    assert(j * l * b - ki * q == l * (j * b) + (-ki * q)) by (nonlinear_arith);
    lemma_mod_multiples_vanish(j * b, -ki * q, l);
    lemma_mul_mod_noop_right(-ki, q, l);
}

/// Multiplication by `−k⁻¹` is injective on the residues mod `l`.
proof fn lemma_inverse_scale_injective(k: int, ki: int, l: int, s: int, j: int, c1: int, c2: int)
    requires
        l >= 1,
        s >= 1,
        k * ki - 1 == j * (l * s),
        0 <= c1 < l,
        0 <= c2 < l,
        (-ki * c1) % l == (-ki * c2) % l,
    ensures
        c1 == c2,
{
    let d = c1 - c2;
    lemma_mod_equivalence(-ki * c1, -ki * c2, l);
    assert(-ki * c1 - -ki * c2 == -ki * d) by (nonlinear_arith) requires d == c1 - c2;
    assert((-ki * d) % l == 0);
    lemma_mul_mod_noop_right(-k, -ki * d, l);
    assert((-k) * 0 == 0);
    lemma_small_mod(0, l as nat);
    assert(((-k) * (-ki * d)) % l == 0);
    assert((-k) * (-ki * d) == (k * ki) * d) by (nonlinear_arith);
    assert((j * (l * s) + 1) * d == l * (j * s * d) + d) by (nonlinear_arith);
    assert(k * ki == j * (l * s) + 1);
    assert((-k) * (-ki * d) == l * (j * s * d) + d);
    lemma_mod_multiples_vanish(j * s * d, d, l);
    assert(d % l == 0);
    if d > 0 {
        lemma_small_mod(d as nat, l as nat);
    } else if d < 0 {
        lemma_fundamental_div_mod_converse(d, l, -1, d + l);
    }
}

/// Width is symmetric under inversion: when `k·k⁻¹ ≡ 1 (mod l·s)`, the
/// crossing set of `k⁻¹` is the image of that of `k` under the bijection
/// `c ↦ −k⁻¹·c mod l`, so the two multipliers (adjoint to each other)
/// have the same width across every cut.
pub proof fn law_width_symmetric_under_inversion(k: int, ki: int, l: int, s: int)
    requires
        l >= 1,
        s >= 1,
        k >= 0,
        ki >= 0,
        (k * ki - 1) % (l * s) == 0,
    ensures
        crossing_set(ki, l, s) == crossing_set(k, l, s).map(|c: int| (-ki * c) % l),
        crossing_set(ki, l, s).len() == crossing_set(k, l, s).len(),
{
    let n = l * s;
    assert(n >= 1) by (nonlinear_arith) requires n == l * s, l >= 1, s >= 1;
    lemma_fundamental_div_mod(k * ki - 1, n);
    let j = (k * ki - 1) / n;
    assert(k * ki - 1 == j * (l * s)) by (nonlinear_arith)
        requires k * ki - 1 == n * j + 0, n == l * s;
    let f = |c: int| (-ki * c) % l;
    let a = crossing_set(k, l, s);
    let bset = crossing_set(ki, l, s);
    assert forall|c: int| bset.contains(c) implies a.map(f).contains(c) by {
        let bp = choose|bp: int| 0 <= bp < s && c == carry_residue(ki, l, s, bp);
        let b = (ki * bp) % s;
        lemma_mod_bound(ki * bp, s);
        lemma_mul_mod_noop_right(k, ki * bp, s);
        assert(k * (ki * bp) == s * (j * l * bp) + bp) by (nonlinear_arith)
            requires k * ki - 1 == j * (l * s);
        lemma_mod_multiples_vanish(j * l * bp, bp, s);
        lemma_small_mod(bp as nat, s as nat);
        assert((k * b) % s == bp);
        lemma_inverse_residue(k, ki, l, s, j, b);
        assert(a.contains(carry_residue(k, l, s, b)));
        assert(f(carry_residue(k, l, s, b)) == c);
    }
    assert forall|c: int| a.map(f).contains(c) implies bset.contains(c) by {
        let c0 = choose|c0: int| a.contains(c0) && f(c0) == c;
        let b = choose|b: int| 0 <= b < s && c0 == carry_residue(k, l, s, b);
        lemma_inverse_residue(k, ki, l, s, j, b);
        lemma_mod_bound(k * b, s);
        assert(c == carry_residue(ki, l, s, (k * b) % s));
    }
    assert(bset =~= a.map(f));
    lemma_crossing_upto_bounded(k, l, s, s);
    assert(injective_on(f, a)) by {
        assert forall|c1: int, c2: int| a.contains(c1) && a.contains(c2) && #[trigger] f(c1) == #[trigger] f(c2) implies c1 == c2 by {
            assert(set_int_range(0, l).contains(c1));
            assert(set_int_range(0, l).contains(c2));
            lemma_inverse_scale_injective(k, ki, l, s, j, c1, c2);
        }
    }
    lemma_map_size(a, bset, f);
}

/// The closed form of the width: for `0 < k mod N ≤ s` the width across the
/// cut is exactly `min(k mod N, l)`, with no enumeration.
pub proof fn law_closed_form_width(k: u128, l: u128, s: u128)
    requires
        l >= 1,
        s >= 1,
        l * s <= u128::MAX,
        0 < k as int % (l as int * s as int) <= s,
    ensures
        cut_width_spec(k, l, s) == Width::Exact(
            (if k as int % (l as int * s as int) <= l { k as int % (l as int * s as int) } else { l as int }) as u128,
        ),
{
    let kr = k as int % (l as int * s as int);
    lemma_crossing_set_reduce(k as int, l as int, s as int);
    lemma_crossing_set_small_k(kr, l as int, s as int);
}

/// Resonances: when `k ≡ j·S + e (mod N)` with `e ∈ {0, 1}` the crossing
/// message is exactly `j·b`, and over a right block at least as large as
/// the left ring it takes `L / gcd(j, L)` values — the multiples of
/// `gcd(j, L)` below `L` (at the diamond's waist, `×2401 = 20·120 + 1`
/// gives `24/gcd(20, 24) = 6` and `×1921 = 16·120 + 1` gives `3`).
pub proof fn law_resonant_width(k: int, l: int, s: int, j: int, e: int)
    requires
        1 <= l <= s,
        k >= 0,
        j >= 0,
        0 <= e <= 1,
        k % (l * s) == j * s + e,
    ensures
        crossing_set(k, l, s) == Set::new(
            |c: int| exists|t: int| 0 <= t < l / (gcd_spec(j as nat, l as nat) as int) && c == #[trigger] times(gcd_spec(j as nat, l as nat) as int, t),
        ),
        crossing_set(k, l, s).len() == l / (gcd_spec(j as nat, l as nat) as int),
{
    let g = gcd_spec(j as nat, l as nat) as int;
    lemma_crossing_set_reduce(k, l, s);
    law_gcd_is_greatest_common_divisor(j as nat, l as nat, 1);
    let jq = choose|q: int| j == times(g, q);
    let lq = choose|q: int| l == times(g, q);
    assert(g >= 1) by (nonlinear_arith) requires l == g * lq, l >= 1, g >= 0;
    assert(lq >= 1) by (nonlinear_arith) requires l == g * lq, l >= 1, g >= 1;
    lemma_fundamental_div_mod_converse(l, g, lq, 0);
    assert(l / g == lq);
    lemma_bezout(j as nat, l as nat);
    let (u, v) = bezout(j as nat, l as nat);
    assert(u * j + v * l == g);
    let m = Set::new(|c: int| exists|t: int| 0 <= t < lq && c == #[trigger] times(g, t));
    let kr = j * s + e;
    let cs = crossing_set(kr, l, s);
    assert(j * s >= 0) by (nonlinear_arith) requires j >= 0, s >= 1;
    assert forall|b: int| 0 <= b < s implies #[trigger] carry_residue(kr, l, s, b) == (j * b) % l by {
        assert(kr * b == (j * b) * s + e * b) by (nonlinear_arith) requires kr == j * s + e;
        assert(0 <= e * b < s) by (nonlinear_arith) requires 0 <= e <= 1, 0 <= b < s;
        lemma_fundamental_div_mod_converse(kr * b, s, j * b, e * b);
    }
    assert forall|c: int| cs.contains(c) implies m.contains(c) by {
        let b = choose|b: int| 0 <= b < s && c == #[trigger] carry_residue(kr, l, s, b);
        assert(c == (j * b) % l);
        lemma_fundamental_div_mod(j * b, l);
        lemma_mod_bound(j * b, l);
        let q = (j * b) / l;
        let t = jq * b - lq * q;
        assert(c == g * t) by (nonlinear_arith)
            requires c == j * b - l * q, j == g * jq, l == g * lq, t == jq * b - lq * q;
        assert(c == times(g, t));
        assert(0 <= t < lq) by (nonlinear_arith)
            requires c == g * t, 0 <= c < l, l == g * lq, g >= 1;
    }
    assert forall|c: int| m.contains(c) implies cs.contains(c) by {
        let t = choose|t: int| 0 <= t < lq && c == #[trigger] times(g, t);
        let b = (u * t) % l;
        lemma_mod_bound(u * t, l);
        lemma_mul_mod_noop_right(j, u * t, l);
        assert(j * (u * t) == g * t + l * (-v * t)) by (nonlinear_arith)
            requires u * j + v * l == g;
        lemma_mod_multiples_vanish(-v * t, g * t, l);
        assert(0 <= g * t < l) by (nonlinear_arith)
            requires 0 <= t < lq, l == g * lq, g >= 1;
        lemma_small_mod((g * t) as nat, l as nat);
        assert((j * b) % l == c);
        assert(carry_residue(kr, l, s, b) == c);
    }
    assert(cs =~= m);
    let f = |t: int| times(g, t);
    lemma_int_range(0, lq);
    assert(m =~= set_int_range(0, lq).map(f)) by {
        assert forall|c: int| m.contains(c) implies set_int_range(0, lq).map(f).contains(c) by {
            let t = choose|t: int| 0 <= t < lq && c == #[trigger] times(g, t);
            assert(set_int_range(0, lq).contains(t));
        }
    }
    assert(injective_on(f, set_int_range(0, lq))) by {
        assert forall|t1: int, t2: int| set_int_range(0, lq).contains(t1) && set_int_range(0, lq).contains(t2) && #[trigger] f(t1) == #[trigger] f(t2) implies t1 == t2 by {
            assert(g * t1 == g * t2);
            assert(t1 == t2) by (nonlinear_arith) requires g * t1 == g * t2, g >= 1;
        }
    }
    lemma_map_size(set_int_range(0, lq), m, f);
}

/// Scanning `n` inputs reaches at most `n` residues.
proof fn lemma_crossing_upto_card(k: int, l: int, s: int, n: int)
    requires
        l >= 1,
        s >= 1,
        k >= 0,
        n >= 0,
    ensures
        crossing_upto(k, l, s, n).len() <= n,
    decreases n,
{
    if n == 0 {
        assert(crossing_upto(k, l, s, 0) =~= Set::<int>::empty());
        broadcast use vstd::set::axiom_set_empty_len;
    } else {
        lemma_crossing_upto_card(k, l, s, n - 1);
        lemma_crossing_upto_step(k, l, s, n - 1);
        lemma_crossing_upto_bounded(k, l, s, n - 1);
        vstd::set::axiom_set_insert_len(crossing_upto(k, l, s, n - 1), carry_residue(k, l, s, n - 1));
    }
}

/// Every width statement lies within the a-priori bound `min(k mod N, L, S)`
/// (for `k ≢ 0`): the crossing set sits in `[0, L)`, has at most one residue
/// per input `b ∈ [0, S)`, and has `min(k, L)` elements when `k ≤ S`.
pub proof fn law_width_within_bound(k: u128, l: u128, s: u128)
    requires
        l >= 1,
        s >= 1,
        l * s <= u128::MAX,
        k as int % (l as int * s as int) >= 1,
    ensures
        cut_width_spec(k, l, s).spec_value() <= min3(k as int % (l as int * s as int), l as int, s as int),
{
    let kr = k as int % (l as int * s as int);
    if !(kr > s && s > ENUM_LIMIT) {
        lemma_crossing_upto_bounded(k as int, l as int, s as int, s as int);
        lemma_crossing_upto_card(k as int, l as int, s as int, s as int);
        if kr <= s {
            law_closed_form_width(k, l, s);
        }
    }
}

/// `k` may be reduced mod `N = l·s`: the multipliers `k` and `k + N` have
/// the same width across the cut.
pub proof fn law_width_reduces_mod_ring(k: u128, l: u128, s: u128)
    requires
        l >= 1,
        s >= 1,
        k + l * s <= u128::MAX,
    ensures
        cut_width_spec((k + l * s) as u128, l, s) == cut_width_spec(k, l, s),
{
    let n = l as int * s as int;
    assert(n >= 1) by (nonlinear_arith) requires n == l * s, l >= 1, s >= 1;
    lemma_crossing_set_reduce(k as int, l as int, s as int);
    lemma_crossing_set_reduce(k as int + n, l as int, s as int);
    lemma_mod_add_multiples_vanish(k as int, n);
}

/// The foreign multiplier's action: `x → k·x mod m` on `[0, m)`, identity
/// on the tail.
pub open spec fn foreign_mult_spec(k: int, m: int, x: int) -> int {
    if x < m {
        (k * x) % m
    } else {
        x
    }
}

/// The **foreign multiplier** `x → k·x mod m` on `[0, m)`, identity on the
/// tail `[m, n)` — modular multiplication in a ring the chain does not
/// natively carry, extended to a permutation of the chain's own `Z_n`.
/// Its cut ranks measure the reduction penalty of foreign-modulus arithmetic.
#[derive(Clone, Copy, Debug)]
pub struct ForeignMult {
    pub n: usize,
    pub k: usize,
    pub m: usize,
}

impl ForeignMult {
    /// The multiplier's parameters are valid: `1 ≤ m ≤ n` and
    /// `gcd(k, m) = 1`.
    pub open spec fn wf(self) -> bool {
        &&& 1 <= self.m <= self.n
        &&& gcd_spec(self.k as nat, self.m as nat) == 1
    }

    /// The permuted position of `x` (the product `k·x` must fit a machine
    /// word when `x < m`).
    pub fn apply(&self, x: usize) -> (y: usize)
        requires
            self.wf(),
            x < self.m ==> self.k * x <= usize::MAX,
        ensures
            y == foreign_mult_spec(self.k as int, self.m as int, x as int),
    {
        if x < self.m {
            self.k * x % self.m
        } else {
            x
        }
    }
}

/// The foreign multiplier `x → k·x mod m` (identity on `[m, n)`), as a
/// permutation of `Z_n`. Requires `gcd(k, m) = 1` and `1 ≤ m ≤ n`.
pub fn foreign_mult(n: usize, k: usize, m: usize) -> (f: ForeignMult)
    requires
        1 <= m <= n,
        gcd_spec(k as nat, m as nat) == 1,
    ensures
        f == (ForeignMult { n, k, m }),
        f.wf(),
{
    ForeignMult { n, k, m }
}

/// The width statement of `×k` across the bond after site `m` of a
/// profile: left ring `Π_{i≤m} d_i`, right block `Π_{i>m} d_i`.
pub open spec fn profile_cut_width(p: Seq<usize>, k: u128, m: int) -> Width {
    cut_width_spec(k, prod(p.take(m + 1)) as u128, prod(p.skip(m + 1)) as u128)
}

/// Per-bond width profile of `×k` on a dimension profile: entry `m` is the
/// width across the bond between sites `m` and `m+1`.
pub fn mult_width_profile(profile: &[usize], k: u128) -> (ws: Vec<Width>)
    requires
        profile@.len() >= 1,
        profile@.len() == 1 || all_positive(profile@),
        prod(profile@) <= u128::MAX,
    ensures
        ws@.len() == profile@.len() - 1,
        forall|m: int| 0 <= m < ws@.len() ==> ws@[m] == profile_cut_width(profile@, k, m),
{
    if profile.len() == 1 {
        return Vec::new();
    }
    let p = Ghost(profile@);
    let mut n: u128 = 1;
    let mut i: usize = 0;
    while i < profile.len()
        invariant
            p@.len() >= 1,
            all_positive(p@),
            prod(p@) <= u128::MAX,
            p@ == profile@,
            i <= profile@.len(),
            n == prod(p@.take(i as int)),
        decreases profile@.len() - i,
    {
        proof {
            lemma_prod_take_step(p@, i as int);
            lemma_prod_take_le(p@, i as int + 1);
        }
        n = n * profile[i] as u128;
        i = i + 1;
    }
    proof {
        assert(p@.take(p@.len() as int) =~= p@);
    }
    let mut out: Vec<Width> = Vec::new();
    let mut left: u128 = 1;
    let mut m: usize = 0;
    while m < profile.len() - 1
        invariant
            p@.len() >= 1,
            all_positive(p@),
            prod(p@) <= u128::MAX,
            p@ == profile@,
            n == prod(p@),
            m + 1 <= profile@.len(),
            left == prod(p@.take(m as int)),
            out@.len() == m,
            forall|j: int| 0 <= j < m ==> out@[j] == profile_cut_width(p@, k, j),
        decreases profile@.len() - m,
    {
        proof {
            lemma_prod_take_step(p@, m as int);
            lemma_prod_take_le(p@, m as int + 1);
            lemma_prod_split(p@, m as int + 1);
        }
        left = left * profile[m] as u128;
        let ghost right_spec = prod(p@.skip(m as int + 1));
        proof {
            lemma_prod_take_le(p@, m as int + 1);
            lemma_div_multiples_vanish(right_spec, left as int);
        }
        let right = n / left;
        assert(right == right_spec);
        proof {
            lemma_prod_split(p@, m as int + 1);
        }
        let w = mult_cut_width(k, left, right);
        out.push(w);
        m = m + 1;
    }
    out
}

/// The cuts of a dimension profile: entry `m` is the left ring
/// `Π_{i≤m} d_i` and the right block `Π_{i>m} d_i` of the bond between
/// sites `m` and `m+1`.
pub fn profile_cuts(profile: &[usize]) -> (cuts: Vec<(usize, usize)>)
    requires
        profile@.len() >= 1,
        profile@.len() == 1 || all_positive(profile@),
        prod(profile@) <= usize::MAX,
    ensures
        cuts@.len() == profile@.len() - 1,
        forall|m: int| 0 <= m < cuts@.len() ==> #[trigger] cuts@[m] == (prod(profile@.take(m + 1)) as usize, prod(profile@.skip(m + 1)) as usize),
        forall|m: int| 0 <= m < cuts@.len() ==> 1 <= #[trigger] cuts@[m].0 && 1 <= cuts@[m].1 && cuts@[m].0 * cuts@[m].1 == prod(profile@),
{
    if profile.len() == 1 {
        return Vec::new();
    }
    let p = Ghost(profile@);
    let mut n: usize = 1;
    let mut i: usize = 0;
    while i < profile.len()
        invariant
            all_positive(p@),
            prod(p@) <= usize::MAX,
            p@ == profile@,
            i <= profile@.len(),
            n == prod(p@.take(i as int)),
        decreases profile@.len() - i,
    {
        proof {
            lemma_prod_take_step(p@, i as int);
            lemma_prod_take_le(p@, i as int + 1);
        }
        n = n * profile[i];
        i = i + 1;
    }
    proof {
        assert(p@.take(p@.len() as int) =~= p@);
    }
    let mut out: Vec<(usize, usize)> = Vec::new();
    let mut left: usize = 1;
    let mut m: usize = 0;
    while m < profile.len() - 1
        invariant
            p@.len() >= 2,
            all_positive(p@),
            prod(p@) <= usize::MAX,
            p@ == profile@,
            n == prod(p@),
            m + 1 <= profile@.len(),
            left == prod(p@.take(m as int)),
            out@.len() == m,
            forall|j: int| 0 <= j < m ==> #[trigger] out@[j] == (prod(p@.take(j + 1)) as usize, prod(p@.skip(j + 1)) as usize),
            forall|j: int| 0 <= j < m ==> 1 <= #[trigger] out@[j].0 && 1 <= out@[j].1 && out@[j].0 * out@[j].1 == prod(p@),
        decreases profile@.len() - m,
    {
        proof {
            lemma_prod_take_step(p@, m as int);
            lemma_prod_take_le(p@, m as int + 1);
            lemma_prod_split(p@, m as int + 1);
        }
        left = left * profile[m];
        let ghost right_spec = prod(p@.skip(m as int + 1));
        proof {
            lemma_div_multiples_vanish(right_spec, left as int);
        }
        let right = n / left;
        out.push((left, right));
        m = m + 1;
    }
    out
}


/// `perm` is a permutation of `Z_n`: every entry below `n`, no two equal.
pub open spec fn is_permutation(perm: Seq<usize>, n: int) -> bool {
    &&& perm.len() == n
    &&& forall|x: int| 0 <= x < n ==> #[trigger] perm[x] < n
    &&& forall|x1: int, x2: int| 0 <= x1 < x2 < n ==> #[trigger] perm[x1] != #[trigger] perm[x2]
}

/// The keys of the basis transition `x → y` across a cut with left ring `l`
/// and right block `s`: `x = a·s + b ↦ y = a'·s + b'` is the pair
/// `((a', a), (b', b))` of left and right index pairs, each flattened, with
/// the smaller side first.
pub open spec fn cut_keys(l: int, s: int, x: int, y: int) -> (int, int) {
    let a = x / s;
    let b = x % s;
    let ap = y / s;
    let bp = y % s;
    if l <= s {
        (ap * l + a, bp * s + b)
    } else {
        (bp * s + b, ap * l + a)
    }
}

/// The cut keys of every basis transition of a permutation table of
/// `Z_{l·s}`, or `None` when the table is not a permutation. The operator
/// Schmidt rank of the permutation across the cut is the rank of the 0/1
/// matrix with a one at each returned `(small, large)` pair.
pub fn perm_cut_keys(l: usize, s: usize, perm: &[usize]) -> (keys: Option<Vec<(usize, usize)>>)
    requires
        l >= 1,
        s >= 1,
        l * s <= usize::MAX,
        l * l <= usize::MAX + 1,
        s * s <= usize::MAX + 1,
    ensures
        keys is Some <==> is_permutation(perm@, l * s),
        keys matches Some(k) ==> k@.len() == l * s && forall|x: int|
            0 <= x < l * s ==> (#[trigger] k@[x].0 as int, k@[x].1 as int) == cut_keys(
                l as int,
                s as int,
                x,
                perm@[x] as int,
            ),
{
    let n = l * s;
    if perm.len() != n {
        return None;
    }
    let mut hit: Vec<bool> = Vec::new();
    let mut i: usize = 0;
    while i < n
        invariant
            i <= n,
            hit@.len() == i,
            forall|j: int| 0 <= j < i ==> !#[trigger] hit@[j],
        decreases n - i,
    {
        hit.push(false);
        i = i + 1;
    }
    let mut keys: Vec<(usize, usize)> = Vec::new();
    let mut x: usize = 0;
    while x < n
        invariant
            n == l * s,
            l >= 1,
            s >= 1,
            l * l <= usize::MAX + 1,
            s * s <= usize::MAX + 1,
            perm@.len() == n,
            x <= n,
            hit@.len() == n,
            forall|y: int| 0 <= y < n ==> (#[trigger] hit@[y] <==> exists|j: int| 0 <= j < x && perm@[j] == y),
            forall|j: int| 0 <= j < x ==> #[trigger] perm@[j] < n,
            forall|j1: int, j2: int| 0 <= j1 < j2 < x ==> #[trigger] perm@[j1] != #[trigger] perm@[j2],
            keys@.len() == x,
            forall|j: int|
                0 <= j < x ==> (#[trigger] keys@[j].0 as int, keys@[j].1 as int) == cut_keys(
                    l as int,
                    s as int,
                    j,
                    perm@[j] as int,
                ),
        decreases n - x,
    {
        let y = perm[x];
        if y >= n {
            return None;
        }
        if hit[y] {
            proof {
                let j = choose|j: int| 0 <= j < x && perm@[j] == y;
                assert(perm@[j] == perm@[x as int]);
            }
            return None;
        }
        hit.set(y, true);
        let a = x / s;
        let b = x % s;
        let ap = y / s;
        let bp = y % s;
        proof {
            lemma_cut_key_bounds(l as int, s as int, x as int, y as int);
        }
        let key = if l <= s {
            (ap * l + a, bp * s + b)
        } else {
            (bp * s + b, ap * l + a)
        };
        keys.push(key);
        proof {
            assert forall|yy: int| 0 <= yy < n implies (#[trigger] hit@[yy] <==> exists|j: int| 0 <= j < x + 1 && perm@[j] == yy) by {
                if yy == y {
                    assert(perm@[x as int] == yy);
                } else if hit@[yy] {
                    let j = choose|j: int| 0 <= j < x && perm@[j] == yy;
                    assert(0 <= j < x + 1 && perm@[j] == yy);
                }
            }
            assert forall|j1: int, j2: int| 0 <= j1 < j2 < x + 1 implies #[trigger] perm@[j1] != #[trigger] perm@[j2] by {
                if j2 == x {
                    if perm@[j1] == perm@[j2] {
                        assert(hit@[y as int]);
                    }
                }
            }
        }
        x = x + 1;
    }
    Some(keys)
}

/// The flattened index pairs of a cut transition stay within the squared
/// sizes of their sides.
proof fn lemma_cut_key_bounds(l: int, s: int, x: int, y: int)
    requires
        l >= 1,
        s >= 1,
        0 <= x < l * s,
        0 <= y < l * s,
    ensures
        0 <= (y / s) * l + x / s < l * l,
        0 <= (y % s) * s + x % s < s * s,
{
    lemma_fundamental_div_mod(x, s);
    lemma_fundamental_div_mod(y, s);
    vstd::arithmetic::div_mod::lemma_mod_bound(x, s);
    vstd::arithmetic::div_mod::lemma_mod_bound(y, s);
    let a = x / s;
    let ap = y / s;
    assert(0 <= a < l) by (nonlinear_arith) requires x == s * a + x % s, 0 <= x % s < s, 0 <= x < l * s, s >= 1;
    assert(0 <= ap < l) by (nonlinear_arith) requires y == s * ap + y % s, 0 <= y % s < s, 0 <= y < l * s, s >= 1;
    assert(0 <= ap * l + a < l * l) by (nonlinear_arith) requires 0 <= a < l, 0 <= ap < l;
    let b = x % s;
    let bp = y % s;
    assert(0 <= bp * s + b < s * s) by (nonlinear_arith) requires 0 <= b < s, 0 <= bp < s;
}

} // verus!
