//! Stepwise cascade operators: finite-state **transducers** over the chain.
//!
//! A [`Transducer`] sweeps the chain once, carrying a message of dimension
//! `m` on the moving front: at each site it reads `(message_in, digit_in)`
//! and writes `(message_out, digit_out)` by a local rule. The carry adder is
//! the `m = 2` member; modular multiplication by `k` is the `m = k` member,
//! `v = k·digit_in + carry_in ; digit_out = v mod d ; carry_out = v div d`;
//! and division is the geometrically opposed machine whose remainders sweep
//! most-significant-first.
//!
//! Digit convention: site 0 is the most significant digit; arithmetic
//! carries flow from site `n-1` toward site `0` ([`Direction::RightToLeft`]).
use crate::chain::{all_positive, bezout, complement_digits, copy_dims, gcd_spec, lemma_bezout, digits_in_range, digits_of, lemma_digits_of_value, lemma_prod_first, lemma_prod_positive, lemma_value_bound, lemma_value_first, prod, value, value_lsb_first};
use vstd::arithmetic::div_mod::{lemma_fundamental_div_mod, lemma_fundamental_div_mod_converse, lemma_mod_bound};
use vstd::prelude::*;

verus! {

/// Which way the message front sweeps the chain.
#[derive(Clone, Copy, PartialEq, Eq, Debug)]
pub enum Direction {
    /// Message enters at site 0, exits after site `n-1`.
    LeftToRight,
    /// Message enters at site `n-1`, exits after site 0 — the direction of
    /// arithmetic carries in this crate's digit convention.
    RightToLeft,
}

/// Boundary condition for the message front at either end of the sweep:
/// a definite front state, or a sum over every front state (enter in
/// superposition / postselect nothing at the exit).
#[derive(Clone, Copy, PartialEq, Eq, Debug)]
pub enum Boundary {
    /// The front enters/exits in a definite state.
    Fixed(usize),
    /// Sum over all front states at this end.
    SumAll,
}

/// A classical transducer over the chain: per-site rules
/// `(message_in, digit_in) → (message_out, digit_out)`, stored as
/// `rules[i][message_in * d_i + digit_in]`.
pub struct Transducer {
    pub profile: Vec<usize>,
    pub msg_dim: usize,
    pub rules: Vec<Vec<(usize, usize)>>,
    pub direction: Direction,
}

/// Position of `(message, digit)` in a site's rule table.
pub open spec fn cell(m: int, d: int, p: int) -> int {
    m * d + p
}

/// The rule tables of a transducer as mathematical sequences.
pub open spec fn rules_view(t: &Transducer) -> Seq<Seq<(usize, usize)>> {
    t.rules@.map_values(|v: Vec<(usize, usize)>| v@)
}

/// The adder step at a site of dimension `d` adding digit `c`:
/// `v = digit + c + carry ; (v div d, v mod d)`.
pub open spec fn add_step(d: int, c: int, msg: int, p: int) -> (usize, usize) {
    (((p + c + msg) / d) as usize, ((p + c + msg) % d) as usize)
}

/// The multiplier step: `v = k·digit + carry ; (v div d, v mod d)`.
pub open spec fn mult_step(k: int, d: int, msg: int, p: int) -> (usize, usize) {
    (((k * p + msg) / d) as usize, ((k * p + msg) % d) as usize)
}

/// The division step: `t = r·d + digit ; (t mod k, t div k)`.
pub open spec fn div_step(k: int, d: int, rem: int, p: int) -> (usize, usize) {
    (((rem * d + p) % k) as usize, ((rem * d + p) / k) as usize)
}

/// The pass-through step: message and digit unchanged.
pub open spec fn pass_step(msg: int, p: int) -> (usize, usize) {
    (msg as usize, p as usize)
}

/// A site table of `m · d` entries whose entry at `cell(msg, d, p)` is
/// `f(msg, p)`.
pub open spec fn table_is(t: Seq<(usize, usize)>, m: int, d: int, f: spec_fn(int, int) -> (usize, usize)) -> bool {
    &&& t.len() == m * d
    &&& forall|msg: int, p: int| 0 <= msg < m && 0 <= p < d ==> #[trigger] t[cell(msg, d, p)] == f(msg, p)
}

/// The adder tables adding the digit string `cd` (carry dimension 2).
pub open spec fn is_adder_rules(d: Seq<usize>, r: Seq<Seq<(usize, usize)>>, cd: Seq<usize>) -> bool {
    &&& r.len() == d.len()
    &&& cd.len() == d.len()
    &&& forall|i: int| 0 <= i < d.len() ==> table_is(#[trigger] r[i], 2, d[i] as int, |msg: int, p: int| add_step(d[i] as int, cd[i] as int, msg, p))
}

/// The multiplier tables for `×k` (carry dimension `k`).
pub open spec fn is_mult_rules(d: Seq<usize>, r: Seq<Seq<(usize, usize)>>, k: int) -> bool {
    &&& r.len() == d.len()
    &&& forall|i: int| 0 <= i < d.len() ==> table_is(#[trigger] r[i], k, d[i] as int, |msg: int, p: int| mult_step(k, d[i] as int, msg, p))
}

/// The division tables for `÷k` (remainder dimension `k`).
pub open spec fn is_div_rules(d: Seq<usize>, r: Seq<Seq<(usize, usize)>>, k: int) -> bool {
    &&& r.len() == d.len()
    &&& forall|i: int| 0 <= i < d.len() ==> table_is(#[trigger] r[i], k, d[i] as int, |rem: int, p: int| div_step(k, d[i] as int, rem, p))
}

/// The multiplier tables for `×k` with site `skip` replaced by pass-through.
pub open spec fn is_mult_skipping_rules(d: Seq<usize>, r: Seq<Seq<(usize, usize)>>, k: int, skip: int) -> bool {
    &&& r.len() == d.len()
    &&& 0 <= skip < d.len()
    &&& table_is(r[skip], k, d[skip] as int, |msg: int, p: int| pass_step(msg, p))
    &&& forall|i: int| 0 <= i < d.len() && i != skip ==> table_is(#[trigger] r[i], k, d[i] as int, |msg: int, p: int| mult_step(k, d[i] as int, msg, p))
}

/// Runs the machine right to left (entry at the last site): returns the
/// output digits and the message leaving site 0.
pub open spec fn sweep_rtl(d: Seq<usize>, r: Seq<Seq<(usize, usize)>>, x: Seq<usize>, entry: int) -> (Seq<usize>, int)
    decreases x.len(),
{
    if x.len() == 0 || d.len() == 0 || r.len() == 0 {
        (Seq::empty(), entry)
    } else {
        let step = r.last()[cell(entry, d.last() as int, x.last() as int)];
        let prefix = sweep_rtl(d.drop_last(), r.drop_last(), x.drop_last(), step.0 as int);
        (prefix.0.push(step.1), prefix.1)
    }
}

/// Runs the machine left to right (entry at site 0): returns the output
/// digits and the message leaving the last site.
pub open spec fn sweep_ltr(d: Seq<usize>, r: Seq<Seq<(usize, usize)>>, x: Seq<usize>, entry: int) -> (Seq<usize>, int)
    decreases x.len(),
{
    if x.len() == 0 || d.len() == 0 || r.len() == 0 {
        (Seq::empty(), entry)
    } else {
        let step = r[0][cell(entry, d[0] as int, x[0] as int)];
        let rest = sweep_ltr(d.skip(1), r.skip(1), x.skip(1), step.0 as int);
        (seq![step.1] + rest.0, rest.1)
    }
}

/// Index arithmetic of a table cell: it lies inside the table.
proof fn lemma_cell_bound(msg: int, m: int, d: int, p: int)
    requires
        0 <= msg < m,
        0 <= p < d,
    ensures
        0 <= cell(msg, d, p) < m * d,
        cell(msg, d, p) + 1 <= m * d,
{
    assert(0 <= msg * d + p < m * d) by (nonlinear_arith) requires 0 <= msg < m, 0 <= p < d;
}

/// The local multiplier step conserves value: `carry_out·d + digit_out =
/// k·digit_in + carry_in`, with the carry staying below `k`.
proof fn lemma_mult_step(k: int, d: int, msg: int, p: int)
    requires
        k >= 1,
        d >= 1,
        k * d <= usize::MAX,
        0 <= msg < k,
        0 <= p < d,
    ensures
        mult_step(k, d, msg, p).0 * d + mult_step(k, d, msg, p).1 == k * p + msg,
        0 <= mult_step(k, d, msg, p).0 < k,
        0 <= mult_step(k, d, msg, p).1 < d,
{
    let v = k * p + msg;
    assert(0 <= v < k * d) by (nonlinear_arith) requires v == k * p + msg, 0 <= msg < k, 0 <= p < d, k >= 1;
    lemma_fundamental_div_mod(v, d);
    lemma_mod_bound(v, d);
    assert(0 <= v / d < k) by (nonlinear_arith)
        requires v == d * (v / d) + v % d, 0 <= v % d < d, 0 <= v < k * d, d >= 1;
    assert((v / d) * d == d * (v / d)) by (nonlinear_arith);
}

/// The local division step conserves value: `k·digit_out + r_out =
/// r_in·d + digit_in`, with the output digit below `d`.
proof fn lemma_div_step(k: int, d: int, rem: int, p: int)
    requires
        k >= 1,
        d >= 1,
        k * d <= usize::MAX,
        0 <= rem < k,
        0 <= p < d,
    ensures
        k * div_step(k, d, rem, p).1 + div_step(k, d, rem, p).0 == rem * d + p,
        0 <= div_step(k, d, rem, p).0 < k,
        0 <= div_step(k, d, rem, p).1 < d,
{
    let t = rem * d + p;
    assert(0 <= t < k * d) by (nonlinear_arith) requires t == rem * d + p, 0 <= rem < k, 0 <= p < d, d >= 1;
    lemma_fundamental_div_mod(t, k);
    lemma_mod_bound(t, k);
    assert(0 <= t / k < d) by (nonlinear_arith)
        requires t == k * (t / k) + t % k, 0 <= t % k < k, 0 <= t < k * d, k >= 1;
}

/// The inverse of the multiplier step: from `(carry_out, digit_out)` back to
/// `(carry_in, digit_in)` through `v = carry_out·d + digit_out`.
pub open spec fn mult_unstep(k: int, d: int, mo: int, po: int) -> (int, int) {
    ((mo * d + po) % k, (mo * d + po) / k)
}

/// The inverse of the division step: from `(r_out, digit_out)` back to
/// `(r_in, digit_in)` through `t = k·digit_out + r_out`.
pub open spec fn div_unstep(k: int, d: int, ro: int, po: int) -> (int, int) {
    ((k * po + ro) / d, (k * po + ro) % d)
}

/// Every site's multiplier rule is a bijection of `[0, k) × [0, d)`:
/// distinct `(carry_in, digit_in)` give distinct `(carry_out, digit_out)`,
/// and every output pair is produced.
pub proof fn law_mult_site_is_bijection(k: int, d: int)
    requires
        k >= 1,
        d >= 1,
        k * d <= usize::MAX,
    ensures
        forall|m1: int, p1: int, m2: int, p2: int|
            0 <= m1 < k && 0 <= p1 < d && 0 <= m2 < k && 0 <= p2 < d && #[trigger] mult_step(k, d, m1, p1) == #[trigger] mult_step(k, d, m2, p2)
                ==> m1 == m2 && p1 == p2,
        forall|mo: int, po: int| 0 <= mo < k && 0 <= po < d ==> {
            let (m, p) = #[trigger] mult_unstep(k, d, mo, po);
            0 <= m < k && 0 <= p < d && mult_step(k, d, m, p) == (mo as usize, po as usize)
        },
{
    assert forall|m1: int, p1: int, m2: int, p2: int|
        0 <= m1 < k && 0 <= p1 < d && 0 <= m2 < k && 0 <= p2 < d && #[trigger] mult_step(k, d, m1, p1) == #[trigger] mult_step(k, d, m2, p2)
        implies m1 == m2 && p1 == p2 by {
        lemma_mult_step(k, d, m1, p1);
        lemma_mult_step(k, d, m2, p2);
        assert(k * p1 + m1 == k * p2 + m2);
        lemma_fundamental_div_mod_converse(k * p1 + m1, k, p1, m1);
        lemma_fundamental_div_mod_converse(k * p2 + m2, k, p2, m2);
    }
    assert forall|mo: int, po: int| 0 <= mo < k && 0 <= po < d implies {
        let (m, p) = #[trigger] mult_unstep(k, d, mo, po);
        0 <= m < k && 0 <= p < d && mult_step(k, d, m, p) == (mo as usize, po as usize)
    } by {
        let v = mo * d + po;
        assert(0 <= v < k * d) by (nonlinear_arith) requires v == mo * d + po, 0 <= mo < k, 0 <= po < d;
        lemma_fundamental_div_mod(v, k);
        lemma_mod_bound(v, k);
        let p = v / k;
        let m = v % k;
        assert(0 <= p < d) by (nonlinear_arith) requires v == k * p + m, 0 <= m < k, 0 <= v < k * d, k >= 1;
        assert(k * p + m == v);
        lemma_fundamental_div_mod_converse(v, d, mo, po);
        assert(mult_step(k, d, m, p) == (mo as usize, po as usize));
    }
}

/// Every site's division rule is a bijection of `[0, k) × [0, d)`.
pub proof fn law_div_site_is_bijection(k: int, d: int)
    requires
        k >= 1,
        d >= 1,
        k * d <= usize::MAX,
    ensures
        forall|r1: int, p1: int, r2: int, p2: int|
            0 <= r1 < k && 0 <= p1 < d && 0 <= r2 < k && 0 <= p2 < d && #[trigger] div_step(k, d, r1, p1) == #[trigger] div_step(k, d, r2, p2)
                ==> r1 == r2 && p1 == p2,
        forall|ro: int, po: int| 0 <= ro < k && 0 <= po < d ==> {
            let (r, p) = #[trigger] div_unstep(k, d, ro, po);
            0 <= r < k && 0 <= p < d && div_step(k, d, r, p) == (ro as usize, po as usize)
        },
{
    assert forall|r1: int, p1: int, r2: int, p2: int|
        0 <= r1 < k && 0 <= p1 < d && 0 <= r2 < k && 0 <= p2 < d && #[trigger] div_step(k, d, r1, p1) == #[trigger] div_step(k, d, r2, p2)
        implies r1 == r2 && p1 == p2 by {
        lemma_div_step(k, d, r1, p1);
        lemma_div_step(k, d, r2, p2);
        assert(r1 * d + p1 == r2 * d + p2);
        lemma_fundamental_div_mod_converse(r1 * d + p1, d, r1, p1);
        lemma_fundamental_div_mod_converse(r2 * d + p2, d, r2, p2);
    }
    assert forall|ro: int, po: int| 0 <= ro < k && 0 <= po < d implies {
        let (r, p) = #[trigger] div_unstep(k, d, ro, po);
        0 <= r < k && 0 <= p < d && div_step(k, d, r, p) == (ro as usize, po as usize)
    } by {
        let t = k * po + ro;
        assert(0 <= t < k * d) by (nonlinear_arith) requires t == k * po + ro, 0 <= ro < k, 0 <= po < d;
        lemma_fundamental_div_mod(t, d);
        lemma_mod_bound(t, d);
        let r = t / d;
        let p = t % d;
        assert(0 <= r < k) by (nonlinear_arith) requires t == d * r + p, 0 <= p < d, 0 <= t < k * d, d >= 1;
        assert(r * d + p == t) by (nonlinear_arith) requires t == d * r + p;
        lemma_fundamental_div_mod_converse(t, k, po, ro);
        assert(div_step(k, d, r, p) == (ro as usize, po as usize));
    }
}

/// One carry step composed with the rest of the sweep conserves value.
proof fn lemma_carry_combine(vy: int, c: int, pp: int, dl: int, po: int, vx: int, mo: int, k: int, xl: int, e: int)
    requires
        vy + c * pp == k * vx + mo,
        mo * dl + po == k * xl + e,
    ensures
        (vy * dl + po) + c * (pp * dl) == k * (vx * dl + xl) + e,
{
    assert((vy * dl + po) + c * (pp * dl) == (vy + c * pp) * dl + po) by (nonlinear_arith);
    assert((k * vx + mo) * dl + po == k * (vx * dl) + (mo * dl + po)) by (nonlinear_arith);
    assert(k * (vx * dl) + (k * xl + e) == k * (vx * dl + xl) + e) by (nonlinear_arith);
}

/// The multiplier machine multiplies: swept right to left from carry
/// `e < k` over in-range digits `x`, it outputs in-range digits `y` and a
/// final carry `c < k` with `value(y) + c·N = k·value(x) + e`.
pub proof fn law_mult_sweep(d: Seq<usize>, r: Seq<Seq<(usize, usize)>>, k: int, x: Seq<usize>, e: int)
    requires
        forall|i: int| 0 <= i < d.len() ==> k * #[trigger] d[i] <= usize::MAX,
        k >= 1,
        all_positive(d),
        is_mult_rules(d, r, k),
        digits_in_range(d, x),
        0 <= e < k,
    ensures
        digits_in_range(d, sweep_rtl(d, r, x, e).0),
        0 <= sweep_rtl(d, r, x, e).1 < k,
        value(d, sweep_rtl(d, r, x, e).0) + sweep_rtl(d, r, x, e).1 * prod(d) == k * value(d, x) + e,
    decreases x.len(),
{
    if x.len() > 0 {
        let n = x.len() as int;
        let dl = d.last() as int;
        let xl = x.last() as int;
        assert(table_is(r[n - 1], k, dl, |msg: int, p: int| mult_step(k, dl, msg, p)));
        let step = r.last()[cell(e, dl, xl)];
        assert(step == mult_step(k, dl, e, xl));
        lemma_mult_step(k, dl, e, xl);
        let mo = step.0 as int;
        let po = step.1 as int;
        let (dp, rp, xp) = (d.drop_last(), r.drop_last(), x.drop_last());
        assert forall|i: int| 0 <= i < dp.len() implies table_is(#[trigger] rp[i], k, dp[i] as int, |msg: int, p: int| mult_step(k, dp[i] as int, msg, p)) by {
            assert(rp[i] == r[i]);
            assert(table_is(r[i], k, d[i] as int, |msg: int, p: int| mult_step(k, d[i] as int, msg, p)));
        }
        law_mult_sweep(dp, rp, k, xp, mo);
        let (yp, c) = sweep_rtl(dp, rp, xp, mo);
        let y = sweep_rtl(d, r, x, e).0;
        assert(y == yp.push(po as usize));
        assert(y.drop_last() =~= yp);
        let vy = value(dp, yp);
        let vx = value(dp, xp);
        let pp = prod(dp);
        assert(vy + c * pp == k * vx + mo);
        assert(value(d, y) == vy * dl + po);
        assert(value(d, x) == vx * dl + xl);
        assert(prod(d) == pp * dl);
        assert(mo * dl + po == k * xl + e);
        lemma_carry_combine(vy, c, pp, dl, po, vx, mo, k, xl, e);
    }
}

/// The multiplier transducer computes `|x⟩ → |k·x mod N⟩`: entered with
/// carry 0 and its final carry dropped, its output encodes `k·x mod N`.
pub proof fn law_mult_is_modular_multiplication(d: Seq<usize>, r: Seq<Seq<(usize, usize)>>, k: int, x: Seq<usize>)
    requires
        forall|i: int| 0 <= i < d.len() ==> k * #[trigger] d[i] <= usize::MAX,
        k >= 1,
        all_positive(d),
        is_mult_rules(d, r, k),
        digits_in_range(d, x),
    ensures
        value(d, sweep_rtl(d, r, x, 0).0) == (k * value(d, x)) % prod(d),
{
    law_mult_sweep(d, r, k, x, 0);
    let (y, c) = sweep_rtl(d, r, x, 0);
    lemma_value_bound(d, y);
    lemma_fundamental_div_mod_converse(k * value(d, x), prod(d), c, value(d, y));
}

/// Multipliers compose: sweeping `×k₂` after `×k₁` encodes the same value
/// as sweeping `×(k₁·k₂)` directly (`×7 ∘ ×11 = ×77`).
pub proof fn law_mult_composes(
    d: Seq<usize>,
    r1: Seq<Seq<(usize, usize)>>,
    r2: Seq<Seq<(usize, usize)>>,
    r12: Seq<Seq<(usize, usize)>>,
    k1: int,
    k2: int,
    x: Seq<usize>,
)
    requires
        k1 >= 1,
        k2 >= 1,
        forall|i: int| 0 <= i < d.len() ==> k1 * k2 * #[trigger] d[i] <= usize::MAX,
        all_positive(d),
        is_mult_rules(d, r1, k1),
        is_mult_rules(d, r2, k2),
        is_mult_rules(d, r12, k1 * k2),
        digits_in_range(d, x),
    ensures
        value(d, sweep_rtl(d, r2, sweep_rtl(d, r1, x, 0).0, 0).0) == value(d, sweep_rtl(d, r12, x, 0).0),
{
    assert forall|i: int| 0 <= i < d.len() implies k1 * #[trigger] d[i] <= usize::MAX && k2 * d[i] <= usize::MAX by {
        let di = d[i] as int;
        assert(k1 * di <= k1 * k2 * di && k2 * di <= k1 * k2 * di) by (nonlinear_arith)
            requires k1 >= 1, k2 >= 1, di >= 0;
    }
    law_mult_sweep(d, r1, k1, x, 0);
    law_mult_is_modular_multiplication(d, r1, k1, x);
    let y1 = sweep_rtl(d, r1, x, 0).0;
    law_mult_is_modular_multiplication(d, r2, k2, y1);
    assert(k1 * k2 >= 1) by (nonlinear_arith) requires k1 >= 1, k2 >= 1;
    law_mult_is_modular_multiplication(d, r12, k1 * k2, x);
    lemma_prod_positive(d);
    let v = value(d, x);
    let n = prod(d);
    vstd::arithmetic::div_mod::lemma_mul_mod_noop_right(k2, k1 * v, n);
    assert(k2 * (k1 * v) == (k1 * k2) * v) by (nonlinear_arith);
}

/// The division machine's superposed entry collapses to a single branch:
/// when `gcd(k, N) = 1`, exactly one entry remainder `m < k` exits with
/// remainder 0, and on that branch `k·y ≡ x (mod N)`, i.e. `y = k⁻¹·x`.
pub proof fn law_div_single_surviving_branch(d: Seq<usize>, r: Seq<Seq<(usize, usize)>>, k: int, x: Seq<usize>)
    requires
        forall|i: int| 0 <= i < d.len() ==> k * #[trigger] d[i] <= usize::MAX,
        k >= 1,
        all_positive(d),
        is_div_rules(d, r, k),
        digits_in_range(d, x),
        gcd_spec(k as nat, prod(d) as nat) == 1,
    ensures
        exists|m: int| 0 <= m < k && #[trigger] sweep_ltr(d, r, x, m).1 == 0,
        forall|m1: int, m2: int|
            0 <= m1 < k && 0 <= m2 < k && #[trigger] sweep_ltr(d, r, x, m1).1 == 0 && #[trigger] sweep_ltr(d, r, x, m2).1
                == 0 ==> m1 == m2,
        forall|m: int|
            0 <= m < k && #[trigger] sweep_ltr(d, r, x, m).1 == 0 ==> (k * value(d, sweep_ltr(d, r, x, m).0)) % prod(d)
                == value(d, x),
{
    lemma_prod_positive(d);
    let n = prod(d);
    let vx = value(d, x);
    lemma_value_bound(d, x);
    lemma_bezout(k as nat, n as nat);
    let (u, v) = bezout(k as nat, n as nat);
    assert(u * k + v * n == 1);
    // Existence: the entry remainder m ≡ −x·v (mod k).
    let t = -vx * v;
    lemma_fundamental_div_mod(t, k);
    lemma_mod_bound(t, k);
    let m0 = t % k;
    let q = t / k;
    law_div_sweep(d, r, k, x, m0);
    let (y0, e0) = sweep_ltr(d, r, x, m0);
    assert(m0 * n == t * n - (k * q) * n) by (nonlinear_arith)
        requires m0 == t - k * q;
    assert(t * n == -vx * (v * n)) by (nonlinear_arith)
        requires t == -vx * v;
    assert(v * n == 1 - u * k);
    assert(-vx * (1 - u * k) == -vx + vx * u * k) by (nonlinear_arith);
    assert(k * (vx * u - q * n) == vx * u * k - (k * q) * n) by (nonlinear_arith);
    assert(m0 * n + vx == k * (vx * u - q * n));
    lemma_fundamental_div_mod_converse(m0 * n + vx, k, vx * u - q * n, 0);
    lemma_fundamental_div_mod_converse(m0 * n + vx, k, value(d, y0), e0);
    assert(sweep_ltr(d, r, x, m0).1 == 0);
    // Uniqueness: two surviving remainders differ by a multiple of k.
    assert forall|m1: int, m2: int|
        0 <= m1 < k && 0 <= m2 < k && #[trigger] sweep_ltr(d, r, x, m1).1 == 0 && #[trigger] sweep_ltr(d, r, x, m2).1
            == 0 implies m1 == m2 by {
        law_div_sweep(d, r, k, x, m1);
        law_div_sweep(d, r, k, x, m2);
        let y1 = value(d, sweep_ltr(d, r, x, m1).0);
        let y2 = value(d, sweep_ltr(d, r, x, m2).0);
        assert(m1 * n + vx == k * y1);
        assert(m2 * n + vx == k * y2);
        let z = (y1 - y2) * v + (m1 - m2) * u;
        let dm = m1 - m2;
        assert(dm * n == k * (y1 - y2)) by (nonlinear_arith)
            requires m1 * n + vx == k * y1, m2 * n + vx == k * y2, dm == m1 - m2;
        assert(dm == dm * (u * k + v * n)) by (nonlinear_arith) requires u * k + v * n == 1;
        assert(dm * (u * k + v * n) == k * (dm * u) + v * (dm * n)) by (nonlinear_arith);
        assert(v * (dm * n) == v * (k * (y1 - y2)));
        assert(v * (k * (y1 - y2)) + k * (dm * u) == k * z) by (nonlinear_arith)
            requires z == (y1 - y2) * v + dm * u;
        assert(m1 - m2 == k * z);
        assert(m1 - m2 == 0) by (nonlinear_arith)
            requires m1 - m2 == k * z, -k < m1 - m2 < k, k >= 1;
    }
    // The surviving branch divides: k·y = m·N + x.
    assert forall|m: int| 0 <= m < k && #[trigger] sweep_ltr(d, r, x, m).1 == 0 implies (k * value(
        d,
        sweep_ltr(d, r, x, m).0,
    )) % n == vx by {
        law_div_sweep(d, r, k, x, m);
        lemma_fundamental_div_mod_converse(k * value(d, sweep_ltr(d, r, x, m).0), n, m, vx);
    }
}

/// In the reversed-place reading (site 0 least significant) the multiplier
/// swept left to right multiplies: `value_lsb_first(y) + c·N =
/// k·value_lsb_first(x) + e`.
pub proof fn law_mult_sweep_lsb_first(d: Seq<usize>, r: Seq<Seq<(usize, usize)>>, k: int, x: Seq<usize>, e: int)
    requires
        k >= 1,
        forall|i: int| 0 <= i < d.len() ==> k * #[trigger] d[i] <= usize::MAX,
        all_positive(d),
        is_mult_rules(d, r, k),
        digits_in_range(d, x),
        0 <= e < k,
    ensures
        digits_in_range(d, sweep_ltr(d, r, x, e).0),
        0 <= sweep_ltr(d, r, x, e).1 < k,
        value_lsb_first(d, sweep_ltr(d, r, x, e).0) + sweep_ltr(d, r, x, e).1 * prod(d) == k * value_lsb_first(d, x) + e,
    decreases x.len(),
{
    if x.len() > 0 {
        let d0 = d[0] as int;
        let x0 = x[0] as int;
        assert(table_is(r[0], k, d0, |msg: int, p: int| mult_step(k, d0, msg, p)));
        let step = r[0][cell(e, d0, x0)];
        assert(step == mult_step(k, d0, e, x0));
        lemma_mult_step(k, d0, e, x0);
        let mo = step.0 as int;
        let po = step.1 as int;
        let (dt, rt, xt) = (d.skip(1), r.skip(1), x.skip(1));
        assert forall|i: int| 0 <= i < dt.len() implies table_is(#[trigger] rt[i], k, dt[i] as int, |msg: int, p: int| mult_step(k, dt[i] as int, msg, p)) by {
            assert(rt[i] == r[i + 1]);
            assert(table_is(r[i + 1], k, d[i + 1] as int, |msg: int, p: int| mult_step(k, d[i + 1] as int, msg, p)));
        }
        law_mult_sweep_lsb_first(dt, rt, k, xt, mo);
        let (yt, c) = sweep_ltr(dt, rt, xt, mo);
        let y = sweep_ltr(d, r, x, e).0;
        assert(y == seq![po as usize] + yt);
        assert(y.skip(1) =~= yt);
        lemma_prod_first(d);
        let pt = prod(dt);
        let vx = value_lsb_first(dt, xt);
        let vy = value_lsb_first(dt, yt);
        assert(value_lsb_first(d, y) == po + d0 * vy);
        assert(value_lsb_first(d, x) == x0 + d0 * vx);
        assert((po + d0 * vy) + c * (d0 * pt) == po + d0 * (vy + c * pt)) by (nonlinear_arith);
        assert(po + d0 * (k * vx + mo) == (mo * d0 + po) + k * (d0 * vx)) by (nonlinear_arith);
        assert(k * x0 + e + k * (d0 * vx) == k * (x0 + d0 * vx) + e) by (nonlinear_arith);
    }
}

/// The carry front tunnels through the skipped site: swept right to left
/// from carry `e < k`, the skipped digit is unchanged and the remaining
/// digits are multiplied, `value(y') + c·N' = k·value(x') + e` over the
/// chain with the skipped site removed.
pub proof fn law_mult_skipping_sweep(d: Seq<usize>, r: Seq<Seq<(usize, usize)>>, k: int, skip: int, x: Seq<usize>, e: int)
    requires
        k >= 1,
        forall|i: int| 0 <= i < d.len() ==> k * #[trigger] d[i] <= usize::MAX,
        all_positive(d),
        is_mult_skipping_rules(d, r, k, skip),
        digits_in_range(d, x),
        0 <= e < k,
    ensures
        digits_in_range(d, sweep_rtl(d, r, x, e).0),
        sweep_rtl(d, r, x, e).0[skip] == x[skip],
        0 <= sweep_rtl(d, r, x, e).1 < k,
        value(d.remove(skip), sweep_rtl(d, r, x, e).0.remove(skip)) + sweep_rtl(d, r, x, e).1 * prod(d.remove(skip))
            == k * value(d.remove(skip), x.remove(skip)) + e,
    decreases x.len(),
{
    let n = x.len() as int;
    let dl = d.last() as int;
    let xl = x.last() as int;
    let (dp, rp, xp) = (d.drop_last(), r.drop_last(), x.drop_last());
    let y = sweep_rtl(d, r, x, e).0;
    if skip == n - 1 {
        assert(table_is(r[n - 1], k, dl, |msg: int, p: int| pass_step(msg, p)));
        let step = r.last()[cell(e, dl, xl)];
        assert(step == pass_step(e, xl));
        assert(k * dl <= usize::MAX);
        assert(k <= k * dl) by (nonlinear_arith) requires dl >= 1, k >= 1;
        assert(step.0 as int == e);
        assert(step.1 as int == xl);
        assert forall|i: int| 0 <= i < dp.len() implies table_is(#[trigger] rp[i], k, dp[i] as int, |msg: int, p: int| mult_step(k, dp[i] as int, msg, p)) by {
            assert(rp[i] == r[i]);
            assert(table_is(r[i], k, d[i] as int, |msg: int, p: int| mult_step(k, d[i] as int, msg, p)));
        }
        law_mult_sweep(dp, rp, k, xp, e);
        let (yp, c) = sweep_rtl(dp, rp, xp, e);
        assert(y == yp.push(xl as usize));
        assert(d.remove(skip) =~= dp);
        assert(x.remove(skip) =~= xp);
        assert(y.remove(skip) =~= yp);
    } else {
        assert(table_is(r[n - 1], k, dl, |msg: int, p: int| mult_step(k, dl, msg, p)));
        let step = r.last()[cell(e, dl, xl)];
        assert(step == mult_step(k, dl, e, xl));
        lemma_mult_step(k, dl, e, xl);
        let mo = step.0 as int;
        let po = step.1 as int;
        assert(table_is(rp[skip], k, dp[skip] as int, |msg: int, p: int| pass_step(msg, p)));
        assert forall|i: int| 0 <= i < dp.len() && i != skip implies table_is(#[trigger] rp[i], k, dp[i] as int, |msg: int, p: int| mult_step(k, dp[i] as int, msg, p)) by {
            assert(rp[i] == r[i]);
            assert(table_is(r[i], k, d[i] as int, |msg: int, p: int| mult_step(k, d[i] as int, msg, p)));
        }
        law_mult_skipping_sweep(dp, rp, k, skip, xp, mo);
        let (yp, c) = sweep_rtl(dp, rp, xp, mo);
        assert(y == yp.push(po as usize));
        let (ds, xs, ys) = (dp.remove(skip), xp.remove(skip), yp.remove(skip));
        assert(d.remove(skip) =~= ds.push(d.last()));
        assert(x.remove(skip) =~= xs.push(x.last()));
        assert(y.remove(skip) =~= ys.push(po as usize));
        assert(d.remove(skip).drop_last() =~= ds);
        assert(x.remove(skip).drop_last() =~= xs);
        assert(y.remove(skip).drop_last() =~= ys);
        let vy = value(ds, ys);
        let vx = value(ds, xs);
        let ps = prod(ds);
        assert(value(d.remove(skip), y.remove(skip)) == vy * dl + po);
        assert(value(d.remove(skip), x.remove(skip)) == vx * dl + xl);
        assert(prod(d.remove(skip)) == ps * dl);
        lemma_carry_combine(vy, c, ps, dl, po, vx, mo, k, xl, e);
    }
}

/// Division runs the other way: swept left to right (most significant
/// first) from an entry remainder `m < k`, it outputs in-range digits `y`
/// and an exit remainder `r < k` with `m·N + value(x) = k·value(y) + r`.
/// On the branch whose exit remainder is 0, `k·y = x + m·N`, i.e.
/// `y ≡ k⁻¹·x (mod N)` whenever `k` is invertible.
pub proof fn law_div_sweep(d: Seq<usize>, r: Seq<Seq<(usize, usize)>>, k: int, x: Seq<usize>, m: int)
    requires
        forall|i: int| 0 <= i < d.len() ==> k * #[trigger] d[i] <= usize::MAX,
        k >= 1,
        all_positive(d),
        is_div_rules(d, r, k),
        digits_in_range(d, x),
        0 <= m < k,
    ensures
        digits_in_range(d, sweep_ltr(d, r, x, m).0),
        0 <= sweep_ltr(d, r, x, m).1 < k,
        m * prod(d) + value(d, x) == k * value(d, sweep_ltr(d, r, x, m).0) + sweep_ltr(d, r, x, m).1,
    decreases x.len(),
{
    if x.len() > 0 {
        let d0 = d[0] as int;
        let x0 = x[0] as int;
        assert(table_is(r[0], k, d0, |rem: int, p: int| div_step(k, d0, rem, p)));
        let step = r[0][cell(m, d0, x0)];
        assert(step == div_step(k, d0, m, x0));
        lemma_div_step(k, d0, m, x0);
        let ro = step.0 as int;
        let po = step.1 as int;
        let (dt, rt, xt) = (d.skip(1), r.skip(1), x.skip(1));
        assert forall|i: int| 0 <= i < dt.len() implies table_is(#[trigger] rt[i], k, dt[i] as int, |rem: int, p: int| div_step(k, dt[i] as int, rem, p)) by {
            assert(rt[i] == r[i + 1]);
            assert(table_is(r[i + 1], k, d[i + 1] as int, |rem: int, p: int| div_step(k, d[i + 1] as int, rem, p)));
        }
        law_div_sweep(dt, rt, k, xt, ro);
        let (yt, c) = sweep_ltr(dt, rt, xt, ro);
        let y = sweep_ltr(d, r, x, m).0;
        assert(y == seq![po as usize] + yt);
        assert(y.skip(1) =~= yt);
        lemma_value_first(d, x);
        lemma_value_first(d, y);
        lemma_prod_first(d);
        let pt = prod(dt);
        let vx = value(dt, xt);
        let vy = value(dt, yt);
        assert(ro * pt + vx == k * vy + c);
        assert(k * po + ro == m * d0 + x0);
        let s1 = m * d0 + x0;
        assert(m * (d0 * pt) + x0 * pt == s1 * pt) by (nonlinear_arith) requires s1 == m * d0 + x0;
        assert(s1 * pt == k * (po * pt) + ro * pt) by (nonlinear_arith) requires s1 == k * po + ro;
        assert(k * (po * pt) + k * vy == k * (po * pt + vy)) by (nonlinear_arith);
        assert(m * (d0 * pt) + (x0 * pt + vx) == k * (po * pt + vy) + c);
    }
}

/// The adder machine adds: swept right to left from carry `e ∈ {0, 1}`, it
/// outputs in-range digits `y` and a final carry `c ∈ {0, 1}` with
/// `value(y) + c·N = value(x) + value(cd) + e`.
pub proof fn law_adder_sweep(d: Seq<usize>, r: Seq<Seq<(usize, usize)>>, cd: Seq<usize>, x: Seq<usize>, e: int)
    requires
        all_positive(d),
        is_adder_rules(d, r, cd),
        digits_in_range(d, cd),
        digits_in_range(d, x),
        0 <= e < 2,
    ensures
        digits_in_range(d, sweep_rtl(d, r, x, e).0),
        0 <= sweep_rtl(d, r, x, e).1 < 2,
        value(d, sweep_rtl(d, r, x, e).0) + sweep_rtl(d, r, x, e).1 * prod(d) == value(d, x) + value(d, cd) + e,
    decreases x.len(),
{
    if x.len() > 0 {
        let n = x.len() as int;
        let dl = d.last() as int;
        let xl = x.last() as int;
        let cl = cd.last() as int;
        assert(cd[n - 1] == cd.last());
        assert(table_is(r[n - 1], 2, dl, |msg: int, p: int| add_step(dl, cd[n - 1] as int, msg, p)));
        let step = r.last()[cell(e, dl, xl)];
        assert(step == add_step(dl, cl, e, xl));
        let v = xl + cl + e;
        lemma_fundamental_div_mod(v, dl);
        lemma_mod_bound(v, dl);
        assert(0 <= v / dl < 2) by (nonlinear_arith)
            requires v == dl * (v / dl) + v % dl, 0 <= v % dl < dl, 0 <= v < 2 * dl, dl >= 1;
        let mo = step.0 as int;
        let po = step.1 as int;
        assert(mo * dl + po == v) by (nonlinear_arith) requires v == dl * mo + po;
        let (dp, rp, xp, cp) = (d.drop_last(), r.drop_last(), x.drop_last(), cd.drop_last());
        assert forall|i: int| 0 <= i < dp.len() implies table_is(#[trigger] rp[i], 2, dp[i] as int, |msg: int, p: int| add_step(dp[i] as int, cp[i] as int, msg, p)) by {
            assert(rp[i] == r[i]);
            assert(table_is(r[i], 2, d[i] as int, |msg: int, p: int| add_step(d[i] as int, cd[i] as int, msg, p)));
        }
        law_adder_sweep(dp, rp, cp, xp, mo);
        let (yp, c) = sweep_rtl(dp, rp, xp, mo);
        let y = sweep_rtl(d, r, x, e).0;
        assert(y == yp.push(po as usize));
        assert(y.drop_last() =~= yp);
        let vy = value(dp, yp);
        let vx = value(dp, xp);
        let vc = value(dp, cp);
        let pp = prod(dp);
        assert(value(d, y) == vy * dl + po);
        assert(value(d, x) == vx * dl + xl);
        assert(value(d, cd) == vc * dl + cl);
        assert((vy * dl + po) + c * (pp * dl) == (vx * dl + xl) + (vc * dl + cl) + e) by (nonlinear_arith)
            requires vy + c * pp == vx + vc + mo, mo * dl + po == xl + cl + e;
    }
}

/// The adder transducer computes `|x⟩ → |x + c mod N⟩`: its digit string
/// is that of `c mod N`, and entered with carry 0 (final carry dropped) its
/// output encodes `(x + c) mod N`.
pub proof fn law_adder_is_modular_addition(d: Seq<usize>, r: Seq<Seq<(usize, usize)>>, c: int, x: Seq<usize>)
    requires
        all_positive(d),
        c >= 0,
        is_adder_rules(d, r, digits_of(d, c % prod(d))),
        digits_in_range(d, x),
    ensures
        value(d, sweep_rtl(d, r, x, 0).0) == (value(d, x) + c) % prod(d),
{
    lemma_prod_positive(d);
    lemma_mod_bound(c, prod(d));
    lemma_digits_of_value(d, c % prod(d));
    law_adder_sweep(d, r, digits_of(d, c % prod(d)), x, 0);
    let (y, carry) = sweep_rtl(d, r, x, 0);
    lemma_value_bound(d, y);
    lemma_fundamental_div_mod_converse(value(d, x) + c % prod(d), prod(d), carry, value(d, y));
    vstd::arithmetic::div_mod::lemma_add_mod_noop(value(d, x), c, prod(d));
    lemma_value_bound(d, x);
    vstd::arithmetic::div_mod::lemma_small_mod(value(d, x) as nat, prod(d) as nat);
    vstd::arithmetic::div_mod::lemma_mod_twice(c, prod(d));
}

/// Opposed fronts annihilate: with `gcd(k, N) = 1`, running the division
/// machine on the output of the multiplier, the surviving branch returns
/// exactly the input digits — `÷k ∘ ×k` is the identity.
pub proof fn law_div_undoes_mult(
    d: Seq<usize>,
    rm: Seq<Seq<(usize, usize)>>,
    rd: Seq<Seq<(usize, usize)>>,
    k: int,
    x: Seq<usize>,
    m: int,
)
    requires
        forall|i: int| 0 <= i < d.len() ==> k * #[trigger] d[i] <= usize::MAX,
        k >= 1,
        all_positive(d),
        is_mult_rules(d, rm, k),
        is_div_rules(d, rd, k),
        digits_in_range(d, x),
        gcd_spec(k as nat, prod(d) as nat) == 1,
        0 <= m < k,
        sweep_ltr(d, rd, sweep_rtl(d, rm, x, 0).0, m).1 == 0,
    ensures
        sweep_ltr(d, rd, sweep_rtl(d, rm, x, 0).0, m).0 == x,
{
    let y = sweep_rtl(d, rm, x, 0).0;
    law_mult_sweep(d, rm, k, x, 0);
    law_mult_is_modular_multiplication(d, rm, k, x);
    law_div_single_surviving_branch(d, rd, k, y);
    law_div_sweep(d, rd, k, y, m);
    let z = sweep_ltr(d, rd, y, m).0;
    lemma_prod_positive(d);
    let n = prod(d);
    let vx = value(d, x);
    let vz = value(d, z);
    lemma_value_bound(d, x);
    lemma_value_bound(d, z);
    assert((k * vz) % n == (k * vx) % n);
    vstd::arithmetic::div_mod::lemma_mod_equivalence(k * vz, k * vx, n);
    lemma_fundamental_div_mod(k * vz - k * vx, n);
    let q = (k * vz - k * vx) / n;
    assert(k * vz - k * vx == n * q);
    lemma_bezout(k as nat, n as nat);
    let (u, v) = bezout(k as nat, n as nat);
    let t = u * q + v * (vz - vx);
    assert(vz - vx == n * t) by (nonlinear_arith)
        requires k * vz - k * vx == n * q, u * k + v * n == 1, t == u * q + v * (vz - vx);
    assert(vz - vx == 0) by (nonlinear_arith)
        requires vz - vx == n * t, 0 <= vz < n, 0 <= vx < n;
    crate::dense::law_digits_of_value_roundtrip(d, x);
    crate::dense::law_digits_of_value_roundtrip(d, z);
}

/// Adders braid with multipliers into affine maps: sweeping `+c` after
/// `×k` encodes `(k·x + c) mod N`.
pub proof fn law_affine_composition(
    d: Seq<usize>,
    rm: Seq<Seq<(usize, usize)>>,
    ra: Seq<Seq<(usize, usize)>>,
    k: int,
    c: int,
    x: Seq<usize>,
)
    requires
        forall|i: int| 0 <= i < d.len() ==> k * #[trigger] d[i] <= usize::MAX,
        k >= 1,
        c >= 0,
        all_positive(d),
        is_mult_rules(d, rm, k),
        is_adder_rules(d, ra, digits_of(d, c % prod(d))),
        digits_in_range(d, x),
    ensures
        value(d, sweep_rtl(d, ra, sweep_rtl(d, rm, x, 0).0, 0).0) == (k * value(d, x) + c) % prod(d),
{
    let y = sweep_rtl(d, rm, x, 0).0;
    law_mult_sweep(d, rm, k, x, 0);
    law_mult_is_modular_multiplication(d, rm, k, x);
    law_adder_is_modular_addition(d, ra, c, y);
    lemma_prod_positive(d);
    vstd::arithmetic::div_mod::lemma_add_mod_noop(k * value(d, x), c, prod(d));
    vstd::arithmetic::div_mod::lemma_mod_twice(k * value(d, x), prod(d));
    lemma_mod_bound(c, prod(d));
    vstd::arithmetic::div_mod::lemma_mod_twice(c, prod(d));
    vstd::arithmetic::div_mod::lemma_add_mod_noop(k * value(d, x) % prod(d), c, prod(d));
}

/// Negation at machine width 2: complementing every digit and then adding
/// one with the carry cascade computes `x → −x mod N`.
pub proof fn law_complement_then_increment_negates(d: Seq<usize>, r: Seq<Seq<(usize, usize)>>, x: Seq<usize>)
    requires
        all_positive(d),
        is_adder_rules(d, r, digits_of(d, 1int % prod(d))),
        digits_in_range(d, x),
    ensures
        value(d, sweep_rtl(d, r, complement_digits(d, x), 0).0) == (prod(d) - value(d, x)) % prod(d),
{
    crate::chain::law_complement_reflects_the_ring(d, x);
    law_adder_is_modular_addition(d, r, 1, complement_digits(d, x));
}

/// The looped boundary selects the ring `Z_{N−1}` for the multiplier: on
/// every branch whose exit carry is fed back as its entry carry, the output
/// encodes `k·x mod (N−1)`.
pub proof fn law_looped_multiplier_computes_mod_n_minus_one(
    d: Seq<usize>,
    r: Seq<Seq<(usize, usize)>>,
    k: int,
    x: Seq<usize>,
    e: int,
)
    requires
        forall|i: int| 0 <= i < d.len() ==> k * #[trigger] d[i] <= usize::MAX,
        k >= 1,
        all_positive(d),
        prod(d) >= 2,
        is_mult_rules(d, r, k),
        digits_in_range(d, x),
        0 <= e < k,
        sweep_rtl(d, r, x, e).1 == e,
    ensures
        value(d, sweep_rtl(d, r, x, e).0) % (prod(d) - 1) == (k * value(d, x)) % (prod(d) - 1),
{
    law_mult_sweep(d, r, k, x, e);
    let n1 = prod(d) - 1;
    let y = value(d, sweep_rtl(d, r, x, e).0);
    assert(y == n1 * (-e) + k * value(d, x)) by (nonlinear_arith)
        requires y + e * (n1 + 1) == k * value(d, x) + e;
    vstd::arithmetic::div_mod::lemma_mod_multiples_vanish(-e, k * value(d, x), n1);
}

/// The looped boundary selects `Z_{N−1}` for the adder too (end-around
/// carry, ones'-complement addition): on every branch whose exit carry is
/// its entry carry, the output encodes `x + (c mod N)` modulo `N−1`.
pub proof fn law_looped_adder_computes_mod_n_minus_one(
    d: Seq<usize>,
    r: Seq<Seq<(usize, usize)>>,
    c: int,
    x: Seq<usize>,
    e: int,
)
    requires
        all_positive(d),
        prod(d) >= 2,
        c >= 0,
        is_adder_rules(d, r, digits_of(d, c % prod(d))),
        digits_in_range(d, x),
        0 <= e < 2,
        sweep_rtl(d, r, x, e).1 == e,
    ensures
        value(d, sweep_rtl(d, r, x, e).0) % (prod(d) - 1) == (value(d, x) + c % prod(d)) % (prod(d) - 1),
{
    lemma_mod_bound(c, prod(d));
    lemma_digits_of_value(d, c % prod(d));
    law_adder_sweep(d, r, digits_of(d, c % prod(d)), x, e);
    let n1 = prod(d) - 1;
    let y = value(d, sweep_rtl(d, r, x, e).0);
    let t = value(d, x) + c % prod(d);
    assert(y == n1 * (-e) + t) by (nonlinear_arith)
        requires y + e * (n1 + 1) == t + e;
    vstd::arithmetic::div_mod::lemma_mod_multiples_vanish(-e, t, n1);
}

/// The reversal-twisted boundary (exit carry `k−1−e` fed back as entry
/// carry `e`) selects `Z_{N+1}` in diminished-one encoding: reading chain
/// value `x` as `v = x + 1`, every surviving branch of the multiplier
/// realizes `v → k·v mod (N+1)`.
pub proof fn law_twisted_multiplier_computes_mod_n_plus_one(
    d: Seq<usize>,
    r: Seq<Seq<(usize, usize)>>,
    k: int,
    x: Seq<usize>,
    e: int,
)
    requires
        forall|i: int| 0 <= i < d.len() ==> k * #[trigger] d[i] <= usize::MAX,
        k >= 1,
        all_positive(d),
        is_mult_rules(d, r, k),
        digits_in_range(d, x),
        0 <= e < k,
        sweep_rtl(d, r, x, e).1 == k - 1 - e,
    ensures
        (value(d, sweep_rtl(d, r, x, e).0) + 1) % (prod(d) + 1) == (k * (value(d, x) + 1)) % (prod(d) + 1),
{
    law_mult_sweep(d, r, k, x, e);
    lemma_prod_positive(d);
    let n1 = prod(d) + 1;
    let y = value(d, sweep_rtl(d, r, x, e).0);
    let v = value(d, x);
    assert(y + 1 == n1 * (-(k - 1 - e)) + k * (v + 1)) by (nonlinear_arith)
        requires y + (k - 1 - e) * (n1 - 1) == k * v + e;
    vstd::arithmetic::div_mod::lemma_mod_multiples_vanish(-(k - 1 - e), k * (v + 1), n1);
}

/// The reversal-twisted adder (exit carry `1−e` fed back as entry carry `e`)
/// realizes diminished-one addition mod `N+1`: reading `v = x + 1`, every
/// surviving branch maps `v → v + (c mod N) + 1` modulo `N+1`.
pub proof fn law_twisted_adder_computes_mod_n_plus_one(
    d: Seq<usize>,
    r: Seq<Seq<(usize, usize)>>,
    c: int,
    x: Seq<usize>,
    e: int,
)
    requires
        all_positive(d),
        c >= 0,
        is_adder_rules(d, r, digits_of(d, c % prod(d))),
        digits_in_range(d, x),
        0 <= e < 2,
        sweep_rtl(d, r, x, e).1 == 1 - e,
    ensures
        (value(d, sweep_rtl(d, r, x, e).0) + 1) % (prod(d) + 1) == (value(d, x) + 1 + c % prod(d) + 1) % (prod(d) + 1),
{
    lemma_prod_positive(d);
    lemma_mod_bound(c, prod(d));
    lemma_digits_of_value(d, c % prod(d));
    law_adder_sweep(d, r, digits_of(d, c % prod(d)), x, e);
    let n1 = prod(d) + 1;
    let y = value(d, sweep_rtl(d, r, x, e).0);
    let t = value(d, x) + 1 + c % prod(d) + 1;
    assert(y + 1 == n1 * (-(1 - e)) + t) by (nonlinear_arith)
        requires y + (1 - e) * (n1 - 1) == value(d, x) + c % prod(d) + e, t == value(d, x) + 1 + c % prod(d) + 1;
    vstd::arithmetic::div_mod::lemma_mod_multiples_vanish(-(1 - e), t, n1);
}

/// Which local rule a table builder fills in.
enum RuleKind {
    Add(usize),
    Mult,
    Div,
    Pass,
}

spec fn kind_step(kind: RuleKind, k: int, d: int, msg: int, p: int) -> (usize, usize) {
    match kind {
        RuleKind::Add(c) => add_step(d, c as int, msg, p),
        RuleKind::Mult => mult_step(k, d, msg, p),
        RuleKind::Div => div_step(k, d, msg, p),
        RuleKind::Pass => pass_step(msg, p),
    }
}

/// One local step of the given kind, computed without overflow.
fn site_step(kind: &RuleKind, k: usize, d: usize, msg: usize, p: usize) -> (out: (usize, usize))
    requires
        1 <= k,
        1 <= d,
        k * d <= usize::MAX,
        kind is Add ==> 2 * d <= usize::MAX,
        msg < k,
        p < d,
        kind matches RuleKind::Add(c) ==> c < d && k == 2,
    ensures
        out == kind_step(*kind, k as int, d as int, msg as int, p as int),
{
    match kind {
        RuleKind::Add(c) => {
            let v = p + *c + msg;
            (v / d, v % d)
        },
        RuleKind::Mult => {
            proof {
                assert(k * p + msg < k * d) by (nonlinear_arith) requires p < d, msg < k;
            }
            let v = k * p + msg;
            (v / d, v % d)
        },
        RuleKind::Div => {
            proof {
                assert(msg * d + p < k * d) by (nonlinear_arith) requires p < d, msg < k;
            }
            let t = msg * d + p;
            (t % k, t / k)
        },
        RuleKind::Pass => (msg, p),
    }
}

/// The table of one site: `m·d` entries, entry `msg·d + p` = the step.
fn build_table(kind: &RuleKind, k: usize, d: usize) -> (t: Vec<(usize, usize)>)
    requires
        1 <= k,
        k * d <= usize::MAX,
        kind is Add ==> 2 * d <= usize::MAX,
        kind matches RuleKind::Add(c) ==> c < d && k == 2,
    ensures
        t@.len() == k * d,
        forall|msg: int, p: int| 0 <= msg < k && 0 <= p < d ==> #[trigger] t@[cell(msg, d as int, p)] == kind_step(*kind, k as int, d as int, msg, p),
{
    let mut t: Vec<(usize, usize)> = Vec::new();
    if d == 0 {
        assert(k * d == 0) by (nonlinear_arith) requires d == 0;
        return t;
    }
    let mut msg: usize = 0;
    while msg < k
        invariant
            1 <= k,
            1 <= d,
            k * d <= usize::MAX,
            kind is Add ==> 2 * d <= usize::MAX,
            kind matches RuleKind::Add(c) ==> c < d && k == 2,
            msg <= k,
            t@.len() == msg * d,
            forall|m2: int, p2: int| 0 <= m2 < msg && 0 <= p2 < d ==> #[trigger] t@[cell(m2, d as int, p2)] == kind_step(*kind, k as int, d as int, m2, p2),
        decreases k - msg,
    {
        let mut p: usize = 0;
        while p < d
            invariant
                1 <= k,
                1 <= d,
                k * d <= usize::MAX,
                kind is Add ==> 2 * d <= usize::MAX,
                kind matches RuleKind::Add(c) ==> c < d && k == 2,
                msg < k,
                p <= d,
                t@.len() == msg * d + p,
                forall|m2: int, p2: int| 0 <= m2 < msg && 0 <= p2 < d ==> #[trigger] t@[cell(m2, d as int, p2)] == kind_step(*kind, k as int, d as int, m2, p2),
                forall|p2: int| 0 <= p2 < p ==> #[trigger] t@[cell(msg as int, d as int, p2)] == kind_step(*kind, k as int, d as int, msg as int, p2),
            decreases d - p,
        {
            let step = site_step(kind, k, d, msg, p);
            proof {
                lemma_cell_bound(msg as int, k as int, d as int, p as int);
                assert forall|m2: int, p2: int| 0 <= m2 < msg && 0 <= p2 < d implies cell(m2, d as int, p2) < msg * d by {
                    lemma_cell_bound(m2, msg as int, d as int, p2);
                }
            }
            t.push(step);
            p = p + 1;
        }
        proof {
            assert((msg + 1) * d == msg * d + d) by (nonlinear_arith);
            assert forall|p2: int| 0 <= p2 < d implies #[trigger] t@[cell(msg as int, d as int, p2)] == kind_step(*kind, k as int, d as int, msg as int, p2) by {}
        }
        msg = msg + 1;
    }
    t
}

/// Builds the per-site tables of one rule kind (the adder supplies its own).
fn build_rules(profile: &[usize], k: usize, kind_at: &Vec<RuleKind>) -> (r: Vec<Vec<(usize, usize)>>)
    requires
        1 <= k,
        kind_at@.len() == profile@.len(),
        forall|i: int| 0 <= i < profile@.len() ==> k * profile@[i] <= usize::MAX,
        forall|i: int| 0 <= i < profile@.len() ==> (#[trigger] kind_at@[i] is Add ==> 2 * profile@[i] <= usize::MAX),
        forall|i: int| 0 <= i < profile@.len() ==> (#[trigger] kind_at@[i] matches RuleKind::Add(c) ==> c < profile@[i] && k == 2),
    ensures
        r@.len() == profile@.len(),
        forall|i: int| 0 <= i < profile@.len() ==> (#[trigger] r@[i])@.len() == k * profile@[i],
        forall|i: int, msg: int, p: int| 0 <= i < profile@.len() && 0 <= msg < k && 0 <= p < profile@[i] ==>
            #[trigger] r@[i]@[cell(msg, profile@[i] as int, p)] == kind_step(kind_at@[i], k as int, profile@[i] as int, msg, p),
{
    let mut r: Vec<Vec<(usize, usize)>> = Vec::new();
    let mut i: usize = 0;
    while i < profile.len()
        invariant
            1 <= k,
            kind_at@.len() == profile@.len(),
            forall|j: int| 0 <= j < profile@.len() ==> k * profile@[j] <= usize::MAX,
            forall|j: int| 0 <= j < profile@.len() ==> (#[trigger] kind_at@[j] is Add ==> 2 * profile@[j] <= usize::MAX),
            forall|j: int| 0 <= j < profile@.len() ==> (#[trigger] kind_at@[j] matches RuleKind::Add(c) ==> c < profile@[j] && k == 2),
            i <= profile@.len(),
            r@.len() == i,
            forall|j: int| 0 <= j < i ==> (#[trigger] r@[j])@.len() == k * profile@[j],
            forall|j: int, msg: int, p: int| 0 <= j < i && 0 <= msg < k && 0 <= p < profile@[j] ==>
                #[trigger] r@[j]@[cell(msg, profile@[j] as int, p)] == kind_step(kind_at@[j], k as int, profile@[j] as int, msg, p),
        decreases profile@.len() - i,
    {
        let ghost kd = kind_at@[i as int];
        assert(kd is Add ==> 2 * profile@[i as int] <= usize::MAX);
        assert(kd matches RuleKind::Add(c) ==> c < profile@[i as int] && k == 2);
        let t = build_table(&kind_at[i], k, profile[i]);
        r.push(t);
        i = i + 1;
    }
    r
}

/// The site tables as a sequence satisfy the per-site description.
proof fn lemma_rules_view(t: &Transducer)
    ensures
        rules_view(t).len() == t.rules@.len(),
        forall|i: int| 0 <= i < t.rules@.len() ==> #[trigger] rules_view(t)[i] == t.rules@[i]@,
{
}

impl Transducer {
    /// The `+c mod N` adder: message = the additive carry bit (`m = 2`),
    /// adding at each site the digit of `c mod N`.
    pub fn adder(profile: &[usize], c_add: u128) -> (t: Transducer)
        requires
            all_positive(profile@),
            prod(profile@) <= u128::MAX,
            forall|i: int| 0 <= i < profile@.len() ==> 2 * profile@[i] <= usize::MAX,
        ensures
            t.profile@ == profile@,
            t.msg_dim == 2,
            t.direction == Direction::RightToLeft,
            is_adder_rules(profile@, rules_view(&t), digits_of(profile@, c_add as int % prod(profile@))),
    {
        let n = profile.len();
        let ghost d = profile@;
        let mut big_n: u128 = 1;
        let mut i: usize = 0;
        while i < n
            invariant
                n == d.len(),
                d == profile@,
                all_positive(d),
                prod(d) <= u128::MAX,
                i <= n,
                big_n == prod(d.take(i as int)),
            decreases n - i,
        {
            proof {
                crate::chain::lemma_prod_take_step(d, i as int);
                crate::chain::lemma_prod_take_le(d, i as int + 1);
            }
            big_n = big_n * profile[i] as u128;
            i = i + 1;
        }
        proof {
            assert(d.take(n as int) =~= d);
            lemma_prod_positive(d);
        }
        let ghost cr = c_add as int % prod(d);
        let mut rem = c_add % big_n;
        let mut c_digits: Vec<usize> = Vec::new();
        let mut j: usize = 0;
        while j < n
            invariant
                j <= n,
                c_digits@.len() == j,
            decreases n - j,
        {
            c_digits.push(0);
            j = j + 1;
        }
        let mut i: usize = n;
        while i > 0
            invariant
                n == d.len(),
                d == profile@,
                all_positive(d),
                i <= n,
                c_digits@.len() == n,
                rem >= 0,
                digits_of(d, cr) =~= digits_of(d.take(i as int), rem as int) + c_digits@.subrange(i as int, n as int),
            decreases i,
        {
            let di = profile[i - 1] as u128;
            proof {
                assert(d.take(i as int).drop_last() =~= d.take(i - 1));
                assert(d.take(i as int).last() == d[i - 1]);
            }
            c_digits.set(i - 1, (rem % di) as usize);
            rem = rem / di;
            i = i - 1;
        }
        proof {
            assert(d.take(0).len() == 0);
            assert(c_digits@.subrange(0, n as int) =~= c_digits@);
            lemma_digits_of_value(d, cr);
        }
        let mut kinds: Vec<RuleKind> = Vec::new();
        let mut q: usize = 0;
        while q < n
            invariant
                n == d.len(),
                d == profile@,
                c_digits@ == digits_of(d, cr),
                digits_in_range(d, c_digits@),
                q <= n,
                kinds@.len() == q,
                forall|j: int| 0 <= j < q ==> #[trigger] kinds@[j] == RuleKind::Add(c_digits@[j]),
            decreases n - q,
        {
            kinds.push(RuleKind::Add(c_digits[q]));
            q = q + 1;
        }
        let rules = build_rules(profile, 2, &kinds);
        let t = Transducer { profile: copy_dims(profile), msg_dim: 2, rules, direction: Direction::RightToLeft };
        proof {
            lemma_rules_view(&t);
            assert forall|i: int| 0 <= i < d.len() implies table_is(#[trigger] rules_view(&t)[i], 2, d[i] as int, |msg: int, p: int| add_step(d[i] as int, c_digits@[i] as int, msg, p)) by {
                assert(kinds@[i] == RuleKind::Add(c_digits@[i]));
            }
        }
        t
    }

    /// The `×k mod N` multiplier: message = the multiplication carry
    /// (`m = k`), sweeping right to left. Unitary as an operator iff
    /// `gcd(k, N) = 1`. Direct construction is limited to modest `k`; each
    /// site's rule table holds `k·d` entries, so `k·d` must fit in a `usize`.
    pub fn mult(profile: &[usize], k: usize) -> (t: Transducer)
        requires
            1 <= k <= 512,
            forall|i: int| 0 <= i < profile@.len() ==> k * profile@[i] <= usize::MAX,
        ensures
            t.profile@ == profile@,
            t.msg_dim == k,
            t.direction == Direction::RightToLeft,
            is_mult_rules(profile@, rules_view(&t), k as int),
    {
        Transducer::mult_directed(profile, k, Direction::RightToLeft)
    }

    /// [`Transducer::mult`] with an explicit sweep direction: `RightToLeft`
    /// multiplies the standard reading of the chain (LSB at site `n-1`),
    /// `LeftToRight` the reversed-place reading (LSB at site 0).
    pub fn mult_directed(profile: &[usize], k: usize, direction: Direction) -> (t: Transducer)
        requires
            1 <= k <= 512,
            forall|i: int| 0 <= i < profile@.len() ==> k * profile@[i] <= usize::MAX,
        ensures
            t.profile@ == profile@,
            t.msg_dim == k,
            t.direction == direction,
            is_mult_rules(profile@, rules_view(&t), k as int),
    {
        let kinds = uniform_kinds(profile.len(), true);
        let rules = build_rules(profile, k, &kinds);
        let t = Transducer { profile: copy_dims(profile), msg_dim: k, rules, direction };
        proof {
            lemma_rules_view(&t);
        }
        t
    }

    /// Modular **division**, the geometrically opposed machine to
    /// [`Transducer::mult`]: long division most-significant-first with the
    /// remainder `r ∈ [0, k)` on the front, `t = r·d + digit ;
    /// digit_out = t div k ; r' = t mod k`. Entered in superposition of every
    /// wrap multiple and postselected on a zero exit remainder, it realizes
    /// `×k⁻¹ mod N` at width `k`.
    pub fn div(profile: &[usize], k: usize) -> (t: Transducer)
        requires
            1 <= k <= 512,
            forall|i: int| 0 <= i < profile@.len() ==> k * profile@[i] <= usize::MAX,
        ensures
            t.profile@ == profile@,
            t.msg_dim == k,
            t.direction == Direction::LeftToRight,
            is_div_rules(profile@, rules_view(&t), k as int),
    {
        let kinds = uniform_kinds(profile.len(), false);
        let rules = build_rules(profile, k, &kinds);
        let t = Transducer { profile: copy_dims(profile), msg_dim: k, rules, direction: Direction::LeftToRight };
        proof {
            lemma_rules_view(&t);
        }
        t
    }

    /// The `×k` multiplier with the carry front **tunnelling** through site
    /// `skip`: that site passes message and digit through unchanged, so the
    /// operator is the identity on it and `×k` on the remaining digits —
    /// the controlled-arithmetic building block (control at `skip`).
    pub fn mult_skipping(profile: &[usize], skip: usize, k: usize) -> (t: Transducer)
        requires
            1 <= k <= 512,
            skip < profile@.len(),
            forall|i: int| 0 <= i < profile@.len() ==> k * profile@[i] <= usize::MAX,
        ensures
            t.profile@ == profile@,
            t.msg_dim == k,
            t.direction == Direction::RightToLeft,
            is_mult_skipping_rules(profile@, rules_view(&t), k as int, skip as int),
    {
        let mut kinds: Vec<RuleKind> = Vec::new();
        let mut i: usize = 0;
        while i < profile.len()
            invariant
                i <= profile@.len(),
                skip < profile@.len(),
                kinds@.len() == i,
                forall|j: int| 0 <= j < i ==> (#[trigger] kinds@[j] is Pass <==> j == skip),
                forall|j: int| 0 <= j < i ==> (#[trigger] kinds@[j] is Pass || kinds@[j] is Mult),
            decreases profile@.len() - i,
        {
            if i == skip {
                kinds.push(RuleKind::Pass);
            } else {
                kinds.push(RuleKind::Mult);
            }
            i = i + 1;
        }
        let rules = build_rules(profile, k, &kinds);
        let t = Transducer { profile: copy_dims(profile), msg_dim: k, rules, direction: Direction::RightToLeft };
        proof {
            lemma_rules_view(&t);
            assert(kinds@[skip as int] is Pass);
        }
        t
    }
}

/// `n` copies of the multiplier (or division) rule kind.
fn uniform_kinds(n: usize, mult: bool) -> (kinds: Vec<RuleKind>)
    ensures
        kinds@.len() == n,
        forall|j: int| 0 <= j < n ==> (if mult { #[trigger] kinds@[j] is Mult } else { kinds@[j] is Div }),
{
    let mut kinds: Vec<RuleKind> = Vec::new();
    let mut i: usize = 0;
    while i < n
        invariant
            i <= n,
            kinds@.len() == i,
            forall|j: int| 0 <= j < i ==> (if mult { #[trigger] kinds@[j] is Mult } else { kinds@[j] is Div }),
        decreases n - i,
    {
        if mult {
            kinds.push(RuleKind::Mult);
        } else {
            kinds.push(RuleKind::Div);
        }
        i = i + 1;
    }
    kinds
}


/// The machine's tables fit its dimensions: one table of `m·d` rules per
/// site, every rule landing on a valid message and digit, and the doubled
/// physical index `d²` representable.
pub open spec fn machine_wf(t: &Transducer) -> bool {
    let d = t.profile@;
    let r = rules_view(t);
    let m = t.msg_dim as int;
    &&& d.len() >= 1
    &&& r.len() == d.len()
    &&& m >= 1
    &&& forall|i: int|
        0 <= i < d.len() ==> m * d[i] <= usize::MAX && d[i] * d[i] <= usize::MAX && (#[trigger] r[i]).len() == m * d[i]
    &&& forall|i: int, c: int| 0 <= i < d.len() && 0 <= c < r[i].len() ==> (#[trigger] r[i][c]).0 < m && r[i][c].1 < d[i]
}

/// The site where the message front enters.
pub open spec fn entry_site(t: &Transducer) -> int {
    match t.direction {
        Direction::RightToLeft => t.profile@.len() - 1,
        Direction::LeftToRight => 0,
    }
}

/// The site where the message front leaves.
pub open spec fn exit_site(t: &Transducer) -> int {
    match t.direction {
        Direction::RightToLeft => 0,
        Direction::LeftToRight => t.profile@.len() - 1,
    }
}

/// Bond dimensions `(left, right)` of site `i` of the lifted operator: 1 on
/// the side where the message enters or leaves the chain, `m` otherwise.
pub open spec fn lift_bonds(t: &Transducer, i: int) -> (int, int) {
    let m = t.msg_dim as int;
    let at_entry = if i == entry_site(t) { 1 } else { m };
    let at_exit = if i == exit_site(t) { 1 } else { m };
    match t.direction {
        Direction::RightToLeft => (at_exit, at_entry),
        Direction::LeftToRight => (at_entry, at_exit),
    }
}

/// Number of messages entering site `i`: one at the entry site with a
/// fixed entry boundary, all `m` otherwise.
pub open spec fn entering_count(t: &Transducer, i: int, entry: Boundary) -> int {
    if i == entry_site(t) && entry is Fixed {
        1
    } else {
        t.msg_dim as int
    }
}

/// The `j`-th message entering site `i`.
pub open spec fn entering_msg(t: &Transducer, i: int, entry: Boundary, j: int) -> int {
    if i == entry_site(t) && entry is Fixed {
        entry->Fixed_0 as int
    } else {
        j
    }
}

/// The operator entry `(left bond, p_out·d + p_in, right bond)` that the
/// rule for `(msg_in, p_in)` contributes at site `i`, or nothing when the
/// exit boundary postselects its outgoing message away. The message bonds
/// are trivial (index 0) where the front enters or leaves the chain.
pub open spec fn lift_entry(t: &Transducer, i: int, exit: Boundary, msg_in: int, p_in: int) -> Option<(usize, usize, usize)> {
    let d = t.profile@[i] as int;
    let rule = rules_view(t)[i][cell(msg_in, d, p_in)];
    let mo = rule.0 as int;
    let po = rule.1 as int;
    if i == exit_site(t) && exit is Fixed && mo != exit->Fixed_0 {
        None
    } else {
        let b_in = if i == entry_site(t) { 0 } else { msg_in };
        let b_out = if i == exit_site(t) { 0 } else { mo };
        let (l, r) = match t.direction {
            Direction::RightToLeft => (b_out, b_in),
            Direction::LeftToRight => (b_in, b_out),
        };
        Some((l as usize, (po * d + p_in) as usize, r as usize))
    }
}

/// The entries contributed by the first `k` (message, digit) inputs of
/// site `i`, messages outer and digits inner, in order.
pub open spec fn lift_entries(t: &Transducer, i: int, entry: Boundary, exit: Boundary, k: int) -> Seq<(usize, usize, usize)>
    decreases k,
{
    if k <= 0 {
        Seq::empty()
    } else {
        let d = t.profile@[i] as int;
        let msg = entering_msg(t, i, entry, (k - 1) / d);
        let prev = lift_entries(t, i, entry, exit, k - 1);
        match lift_entry(t, i, exit, msg, (k - 1) % d) {
            Some(e) => prev.push(e),
            None => prev,
        }
    }
}

impl Transducer {
    /// The sparsity pattern of site `i` of the machine lifted to an operator
    /// with the given boundaries: the bond dimensions and, for every
    /// entering message and input digit, the one-entry its rule
    /// contributes (entries may repeat; repeated ones add up).
    pub fn lift_site(&self, i: usize, entry: Boundary, exit: Boundary) -> (res: (usize, usize, Vec<(usize, usize, usize)>))
        requires
            machine_wf(self),
            i < self.profile@.len(),
            entry is Fixed ==> entry->Fixed_0 < self.msg_dim,
        ensures
            (res.0 as int, res.1 as int) == lift_bonds(self, i as int),
            res.2@ == lift_entries(self, i as int, entry, exit, entering_count(self, i as int, entry) * self.profile@[i as int]),
            forall|q: int|
                0 <= q < res.2@.len() ==> (#[trigger] res.2@[q]).0 < res.0 && res.2@[q].1 < self.profile@[i as int]
                    * self.profile@[i as int] && res.2@[q].2 < res.1,
    {
        let n = self.profile.len();
        let d = self.profile[i];
        let m = self.msg_dim;
        proof {
            lemma_rules_view(self);
            assert(rules_view(self)[i as int].len() == m * d);
        }
        let (es, xs) = match self.direction {
            Direction::RightToLeft => (n - 1, 0),
            Direction::LeftToRight => (0, n - 1),
        };
        let at_entry = if i == es {
            1
        } else {
            m
        };
        let at_exit = if i == xs {
            1
        } else {
            m
        };
        let (dl, dr) = match self.direction {
            Direction::RightToLeft => (at_exit, at_entry),
            Direction::LeftToRight => (at_entry, at_exit),
        };
        let fixed_entry = i == es && matches!(entry, Boundary::Fixed(_));
        let count = if fixed_entry {
            1
        } else {
            m
        };
        let mut out: Vec<(usize, usize, usize)> = Vec::new();
        let mut j: usize = 0;
        while j < count
            invariant
                machine_wf(self),
                i < n,
                n == self.profile@.len(),
                d == self.profile@[i as int],
                m == self.msg_dim,
                m * d <= usize::MAX,
                d * d <= usize::MAX,
                es == entry_site(self),
                xs == exit_site(self),
                (dl as int, dr as int) == lift_bonds(self, i as int),
                fixed_entry == (i == es && entry is Fixed),
                count == entering_count(self, i as int, entry),
                entry is Fixed ==> entry->Fixed_0 < m,
                rules_view(self)[i as int] == self.rules@[i as int]@,
                rules_view(self)[i as int].len() == m * d,
                j <= count,
                out@ == lift_entries(self, i as int, entry, exit, j * d),
                forall|q: int| 0 <= q < out@.len() ==> (#[trigger] out@[q]).0 < dl && out@[q].1 < d * d && out@[q].2 < dr,
            decreases count - j,
        {
            let msg_in = if fixed_entry {
                match entry {
                    Boundary::Fixed(s) => s,
                    Boundary::SumAll => 0,
                }
            } else {
                j
            };
            let mut p: usize = 0;
            while p < d
                invariant
                    machine_wf(self),
                    i < n,
                    n == self.profile@.len(),
                    d == self.profile@[i as int],
                    m == self.msg_dim,
                    m * d <= usize::MAX,
                    d * d <= usize::MAX,
                    es == entry_site(self),
                    xs == exit_site(self),
                    (dl as int, dr as int) == lift_bonds(self, i as int),
                    fixed_entry == (i == es && entry is Fixed),
                    count == entering_count(self, i as int, entry),
                    rules_view(self)[i as int] == self.rules@[i as int]@,
                    rules_view(self)[i as int].len() == m * d,
                    j < count,
                    msg_in < m,
                    msg_in == entering_msg(self, i as int, entry, j as int),
                    p <= d,
                    out@ == lift_entries(self, i as int, entry, exit, j * d + p),
                    forall|q: int| 0 <= q < out@.len() ==> (#[trigger] out@[q]).0 < dl && out@[q].1 < d * d && out@[q].2 < dr,
                decreases d - p,
            {
                let ghost k = j * d + p;
                proof {
                    lemma_cell_bound(msg_in as int, m as int, d as int, p as int);
                    assert(j * d + p + 1 <= count * d) by (nonlinear_arith)
                        requires j < count, p < d;
                    assert(count * d <= m * d) by (nonlinear_arith)
                        requires count <= m, d >= 0;
                    lemma_fundamental_div_mod_converse(k as int, d as int, j as int, p as int);
                }
                let c = msg_in * d + p;
                let (mo, po) = self.rules[i][c];
                proof {
                    assert(rules_view(self)[i as int][c as int] == (mo, po));
                    assert(mo < m && po < d);
                    assert(po * d + p < d * d) by (nonlinear_arith)
                        requires po < d, p < d;
                }
                let keep = !(i == xs && match exit {
                    Boundary::Fixed(s) => mo != s,
                    Boundary::SumAll => false,
                });
                if keep {
                    let b_in = if i == es {
                        0
                    } else {
                        msg_in
                    };
                    let b_out = if i == xs {
                        0
                    } else {
                        mo
                    };
                    let (l, r) = match self.direction {
                        Direction::RightToLeft => (b_out, b_in),
                        Direction::LeftToRight => (b_in, b_out),
                    };
                    out.push((l, po * d + p, r));
                }
                p = p + 1;
            }
            proof {
                assert((j + 1) * d == j * d + d) by (nonlinear_arith);
            }
            j = j + 1;
        }
        (dl, dr, out)
    }
}

/// The lifted entry `e` carries the rule for `(msg, p)` of site `i`: its
/// physical index is `p_out·d + p`, its bond on the outgoing side of the
/// sweep (left for right-to-left, right for left-to-right) holds the rule's
/// outgoing message, and its bond on the incoming side holds `msg` — each
/// trivial (0) where the front leaves or enters the chain.
pub open spec fn carries_rule(t: &Transducer, i: int, e: (usize, usize, usize), msg: int, p: int) -> bool {
    let d = t.profile@[i] as int;
    let rule = rules_view(t)[i][cell(msg, d, p)];
    let out_bond = match t.direction {
        Direction::RightToLeft => e.0,
        Direction::LeftToRight => e.2,
    };
    let in_bond = match t.direction {
        Direction::RightToLeft => e.2,
        Direction::LeftToRight => e.0,
    };
    &&& e.1 as int == rule.1 as int * d + p
    &&& out_bond as int == if i == exit_site(t) { 0 } else { rule.0 as int }
    &&& in_bond as int == if i == entry_site(t) { 0 } else { msg }
}

/// The lifted entry `e` comes from the `j`-th entering message and input
/// digit `p` of site `i` and carries that rule; at a fixed exit the rule
/// leaves the fixed message.
pub open spec fn lifted_from(t: &Transducer, i: int, entry: Boundary, exit: Boundary, e: (usize, usize, usize), j: int, p: int) -> bool {
    let msg = entering_msg(t, i, entry, j);
    &&& 0 <= j < entering_count(t, i, entry)
    &&& 0 <= p < t.profile@[i]
    &&& carries_rule(t, i, e, msg, p)
    &&& (i == exit_site(t) && exit is Fixed ==> rules_view(t)[i][cell(msg, t.profile@[i] as int, p)].0 == exit->Fixed_0)
}

/// The entry `e` is lifted from some rule of site `i`.
pub open spec fn lifted_from_some_rule(t: &Transducer, i: int, entry: Boundary, exit: Boundary, e: (usize, usize, usize)) -> bool {
    exists|j: int, p: int| #[trigger] lifted_from(t, i, entry, exit, e, j, p)
}

/// Every entry of `es` is lifted from a rule of site `i`.
pub open spec fn all_lifted_from_rules(t: &Transducer, i: int, entry: Boundary, exit: Boundary, es: Seq<(usize, usize, usize)>) -> bool {
    forall|q: int| 0 <= q < es.len() ==> #[trigger] lifted_from_some_rule(t, i, entry, exit, es[q])
}

/// Every entry of a lifted site chains the sweep: it comes from the rule of
/// an entering message `msg` and digit `p`, its outgoing-side bond is the
/// message the rule sends on (so that it meets the incoming-side bond of the
/// next site along the sweep), its incoming-side bond is `msg`, and at a
/// fixed exit only rules leaving the fixed message survive.
pub proof fn law_lift_entries_chain_the_sweep(t: &Transducer, i: int, entry: Boundary, exit: Boundary, k: int)
    requires
        machine_wf(t),
        0 <= i < t.profile@.len(),
        entry is Fixed ==> entry->Fixed_0 < t.msg_dim,
        0 <= k <= entering_count(t, i, entry) * t.profile@[i],
    ensures
        all_lifted_from_rules(t, i, entry, exit, lift_entries(t, i, entry, exit, k)),
    decreases k,
{
    if k > 0 {
        law_lift_entries_chain_the_sweep(t, i, entry, exit, k - 1);
        let d = t.profile@[i] as int;
        let m = t.msg_dim as int;
        let cnt = entering_count(t, i, entry);
        assert(d >= 1) by (nonlinear_arith) requires k <= cnt * d, k > 0, cnt >= 0;
        let j = (k - 1) / d;
        let p = (k - 1) % d;
        lemma_fundamental_div_mod(k - 1, d);
        lemma_mod_bound(k - 1, d);
        vstd::arithmetic::div_mod::lemma_div_pos_is_pos(k - 1, d);
        assert(j < cnt) by (nonlinear_arith) requires k - 1 == d * j + p, 0 <= p, k - 1 < cnt * d, d >= 1;
        let msg = entering_msg(t, i, entry, j);
        assert(0 <= msg < m);
        lemma_cell_bound(msg, m, d, p);
        let c = cell(msg, d, p);
        let rule = rules_view(t)[i][c];
        assert(rule.0 < m && rule.1 < d);
        assert(rule.1 * d + p < d * d) by (nonlinear_arith) requires rule.1 < d, 0 <= p < d;
        assert(rule.1 * d + p >= 0) by (nonlinear_arith) requires rule.1 >= 0, 0 <= p, d >= 1;
        let prev = lift_entries(t, i, entry, exit, k - 1);
        let cur = lift_entries(t, i, entry, exit, k);
        assert(all_lifted_from_rules(t, i, entry, exit, prev));
        match lift_entry(t, i, exit, msg, p) {
            Some(e) => {
                assert(cur == prev.push(e));
                assert(lifted_from(t, i, entry, exit, e, j, p));
                assert(lifted_from_some_rule(t, i, entry, exit, e));
                assert forall|q: int| 0 <= q < cur.len() implies #[trigger] lifted_from_some_rule(t, i, entry, exit, cur[q]) by {
                    if q == prev.len() {
                        assert(cur[q] == e);
                    } else {
                        assert(cur[q] == prev[q]);
                        assert(lifted_from_some_rule(t, i, entry, exit, prev[q]));
                    }
                }
                assert(all_lifted_from_rules(t, i, entry, exit, cur));
            },
            None => {
                assert(cur == prev);
                assert(all_lifted_from_rules(t, i, entry, exit, cur));
            },
        }
        assert(all_lifted_from_rules(t, i, entry, exit, cur));
    }
}

/// The rule for the `j`-th entering message and digit `p` of site `i`
/// survives the exit boundary: it is not postselected away.
pub open spec fn survives_exit(t: &Transducer, i: int, entry: Boundary, exit: Boundary, j: int, p: int) -> bool {
    let d = t.profile@[i] as int;
    let rule = rules_view(t)[i][cell(entering_msg(t, i, entry, j), d, p)];
    !(i == exit_site(t) && exit is Fixed && rule.0 != exit->Fixed_0)
}

/// No rule is lost in the lift: every entering message and digit whose rule
/// survives the exit boundary has its entry among the lifted entries.
pub proof fn law_lift_entries_cover_the_rules(t: &Transducer, i: int, entry: Boundary, exit: Boundary, k: int)
    requires
        machine_wf(t),
        0 <= i < t.profile@.len(),
        entry is Fixed ==> entry->Fixed_0 < t.msg_dim,
        0 <= k <= entering_count(t, i, entry) * t.profile@[i],
    ensures
        forall|j: int, p: int|
            0 <= p < t.profile@[i] && 0 <= j * t.profile@[i] + p < k && #[trigger] survives_exit(t, i, entry, exit, j, p)
                ==> exists|q: int| 0 <= q < lift_entries(t, i, entry, exit, k).len()
                    && #[trigger] lifted_from(t, i, entry, exit, lift_entries(t, i, entry, exit, k)[q], j, p),
    decreases k,
{
    if k > 0 {
        law_lift_entries_cover_the_rules(t, i, entry, exit, k - 1);
        let d = t.profile@[i] as int;
        let m = t.msg_dim as int;
        let cnt = entering_count(t, i, entry);
        assert(d >= 1) by (nonlinear_arith) requires k <= cnt * d, k > 0, cnt >= 0;
        let j0 = (k - 1) / d;
        let p0 = (k - 1) % d;
        lemma_fundamental_div_mod(k - 1, d);
        lemma_mod_bound(k - 1, d);
        vstd::arithmetic::div_mod::lemma_div_pos_is_pos(k - 1, d);
        assert(j0 < cnt) by (nonlinear_arith) requires k - 1 == d * j0 + p0, 0 <= p0, k - 1 < cnt * d, d >= 1;
        let msg = entering_msg(t, i, entry, j0);
        lemma_cell_bound(msg, m, d, p0);
        let rule = rules_view(t)[i][cell(msg, d, p0)];
        assert(rule.0 < m && rule.1 < d);
        assert(rule.1 * d + p0 < d * d) by (nonlinear_arith) requires rule.1 < d, 0 <= p0 < d;
        assert(rule.1 * d + p0 >= 0) by (nonlinear_arith) requires rule.1 >= 0, 0 <= p0, d >= 1;
        let prev = lift_entries(t, i, entry, exit, k - 1);
        let cur = lift_entries(t, i, entry, exit, k);
        assert forall|j: int, p: int|
            0 <= p < d && 0 <= j * d + p < k && #[trigger] survives_exit(t, i, entry, exit, j, p)
                implies exists|q: int| 0 <= q < cur.len() && #[trigger] lifted_from(t, i, entry, exit, cur[q], j, p) by {
            if j * d + p < k - 1 {
                let q = choose|q: int| 0 <= q < prev.len() && #[trigger] lifted_from(t, i, entry, exit, prev[q], j, p);
                match lift_entry(t, i, exit, msg, p0) {
                    Some(e) => {
                        assert(cur == prev.push(e));
                        assert(cur[q] == prev[q]);
                    },
                    None => {
                        assert(cur == prev);
                    },
                }
                assert(lifted_from(t, i, entry, exit, cur[q], j, p));
            } else {
                lemma_fundamental_div_mod_converse(k - 1, d, j, p);
                assert(j == j0 && p == p0);
                match lift_entry(t, i, exit, msg, p0) {
                    Some(e) => {
                        assert(cur == prev.push(e));
                        assert(cur[prev.len() as int] == e);
                        assert(lifted_from(t, i, entry, exit, cur[prev.len() as int], j, p));
                    },
                    None => {
                        assert(false);
                    },
                }
            }
        }
    }
}

} // verus!
