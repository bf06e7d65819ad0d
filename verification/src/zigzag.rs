//! Dimension-wave profiles: diamonds, waves, mirror pairs, waists and valleys.
//!
//! A dimension profile is the list of local dimensions along the chain. A
//! diamond expands from a low dimension up to a waist and collapses back
//! (`2,3,4,5,4,3,2`); a wave repeats the diamond, sharing the valleys.
//! Palindromic profiles admit mirror pairs `(i, n-1-i)`: equal-dimension
//! sites on opposite flanks.
use crate::radix::palindromic;
use crate::text::{centred, decimal, push_centred, push_right_aligned, right_aligned};
use vstd::arithmetic::div_mod::{lemma_fundamental_div_mod, lemma_mod_bound, lemma_mod_multiples_vanish};
use vstd::prelude::*;

verus! {

/// The diamond `lo, lo+1, …, hi, …, lo+1, lo` as a sequence.
pub open spec fn diamond_spec(lo: nat, hi: nat) -> Seq<usize> {
    Seq::new((2 * (hi - lo) + 1) as nat, |i: int| (if i <= hi - lo { lo + i } else { lo + 2 * (hi - lo) - i }) as usize)
}

/// Expand-and-collapse profile `lo, lo+1, …, hi, …, lo+1, lo`.
pub fn diamond(lo: usize, hi: usize) -> (p: Vec<usize>)
    requires
        1 <= lo <= hi,
        2 * (hi - lo) + 1 <= usize::MAX,
    ensures
        p@ == diamond_spec(lo as nat, hi as nat),
{
    let span = hi - lo;
    let mut p: Vec<usize> = Vec::new();
    for i in 0..span + 1
        invariant
            span == hi - lo,
            p@.len() == i,
            forall|j: int| 0 <= j < p@.len() ==> p@[j] == lo + j,
    {
        p.push(lo + i);
    }
    let mut w: usize = hi;
    while w > lo
        invariant
            lo <= w <= hi,
            p@.len() == (hi - lo + 1) + (hi - w),
            forall|i: int| 0 <= i <= hi - lo ==> p@[i] == lo + i,
            forall|i: int| hi - lo < i < p@.len() ==> p@[i] == lo + 2 * (hi - lo) - i,
        decreases w,
    {
        w = w - 1;
        p.push(w);
    }
    assert(p@ =~= diamond_spec(lo as nat, hi as nat));
    p
}

/// A repeated diamond sharing its valleys: entry `i` is the diamond's entry
/// at `i mod 2(hi-lo)`.
pub open spec fn wave_spec(lo: nat, hi: nat, periods: nat) -> Seq<usize> {
    let span = hi - lo;
    Seq::new(
        (2 * periods * span + 1) as nat,
        |i: int| if span == 0 { lo as usize } else { diamond_spec(lo, hi)[i % (2 * span)] },
    )
}

/// A repeated diamond sharing its valleys: `periods` copies of
/// `lo..hi..lo` glued at the `lo` sites. Length `2·periods·(hi-lo) + 1`.
pub fn wave(lo: usize, hi: usize, periods: usize) -> (p: Vec<usize>)
    requires
        1 <= lo <= hi,
        periods >= 1,
        2 * periods * (hi - lo) + 1 <= usize::MAX,
    ensures
        p@ == wave_spec(lo as nat, hi as nat, periods as nat),
        p@.len() == 2 * periods * (hi - lo) + 1,
{
    let span = hi - lo;
    proof {
        assert(2 * span + 1 <= 2 * periods * span + 1) by (nonlinear_arith)
            requires periods >= 1;
    }
    let d = diamond(lo, hi);
    let mut p = diamond(lo, hi);
    let ghost ws = wave_spec(lo as nat, hi as nat, periods as nat);
    let ghost ds = diamond_spec(lo as nat, hi as nat);
    proof {
        if span > 0 {
            assert forall|i: int| 0 <= i < 2 * span + 1 implies #[trigger] p@[i] == ws[i] by {
                if i < 2 * span {
                    vstd::arithmetic::div_mod::lemma_small_mod(i as nat, (2 * span) as nat);
                } else {
                    vstd::arithmetic::div_mod::lemma_mod_self_0(2 * span);
                }
            }
        }
    }
    let mut c: usize = 1;
    while c < periods
        invariant
            span == hi - lo,
            1 <= lo <= hi,
            1 <= c <= periods,
            2 * periods * span + 1 <= usize::MAX,
            d@ == ds,
            ds == diamond_spec(lo as nat, hi as nat),
            ws == wave_spec(lo as nat, hi as nat, periods as nat),
            p@.len() == 2 * span * c + 1,
            forall|i: int| 0 <= i < p@.len() ==> #[trigger] p@[i] == ws[i],
        decreases periods - c,
    {
        proof {
            assert(2 * span * (c + 1) + 1 <= 2 * periods * span + 1) by (nonlinear_arith)
                requires c + 1 <= periods;
            assert(2 * span * (c + 1) == 2 * span * c + 2 * span) by (nonlinear_arith);
        }
        let mut j: usize = 1;
        while j < d.len()
            invariant
                span == hi - lo,
                1 <= lo <= hi,
                1 <= c < periods,
                1 <= j <= 2 * span + 1,
                d@.len() == 2 * span + 1,
                2 * span * (c + 1) + 1 <= 2 * periods * span + 1,
                2 * span * (c + 1) == 2 * span * c + 2 * span,
                d@ == ds,
                ds == diamond_spec(lo as nat, hi as nat),
                ws == wave_spec(lo as nat, hi as nat, periods as nat),
                p@.len() == 2 * span * c + j,
                forall|i: int| 0 <= i < p@.len() ==> #[trigger] p@[i] == ws[i],
            decreases d@.len() - j,
        {
            proof {
                let idx = 2 * span * c + j;
                let m = 2 * span;
                lemma_mod_multiples_vanish(c as int, j as int, m as int);
                assert(m * c == 2 * span * c) by (nonlinear_arith) requires m == 2 * span;
                if j < m {
                    vstd::arithmetic::div_mod::lemma_small_mod(j as nat, m as nat);
                } else {
                    vstd::arithmetic::div_mod::lemma_mod_self_0(m as int);
                }
                assert(ws[idx] == d@[j as int]);
            }
            p.push(d[j]);
            j = j + 1;
        }
        c = c + 1;
    }
    proof {
        assert(2 * span * periods == 2 * periods * span) by (nonlinear_arith);
        assert(p@ =~= ws);
    }
    p
}

/// Diamonds read the same from either end.
pub proof fn law_diamond_is_palindromic(lo: nat, hi: nat)
    requires
        lo <= hi,
    ensures
        palindromic(diamond_spec(lo, hi)),
{
}

/// Waves read the same from either end.
pub proof fn law_wave_is_palindromic(lo: nat, hi: nat, periods: nat)
    requires
        lo <= hi,
    ensures
        palindromic(wave_spec(lo, hi, periods)),
{
    let w = wave_spec(lo, hi, periods);
    let span = hi - lo;
    if span > 0 {
        let m = 2 * span;
        let len = 2 * periods * span;
        assert forall|i: int| 0 <= i < w.len() implies #[trigger] w[i] == w[w.len() - 1 - i] by {
            let j = len - i;
            assert(w.len() - 1 - i == j);
            lemma_fundamental_div_mod(i, m);
            lemma_mod_bound(i, m);
            let q = i / m;
            let r = i % m;
            assert(len == m * periods) by (nonlinear_arith) requires len == 2 * periods * span, m == 2 * span;
            if r == 0 {
                assert(j == m * (periods - q)) by (nonlinear_arith) requires j == m * periods - m * q, i == m * q;
                lemma_mod_multiples_vanish(periods - q, 0, m);
                vstd::arithmetic::div_mod::lemma_mod_self_0(m);
                vstd::arithmetic::div_mod::lemma_small_mod(0, m as nat);
            } else {
                assert(j == m * (periods - q - 1) + (m - r)) by (nonlinear_arith)
                    requires j == m * periods - i, i == m * q + r;
                lemma_mod_multiples_vanish(periods - q - 1, m - r, m);
                vstd::arithmetic::div_mod::lemma_small_mod((m - r) as nat, m as nat);
            }
        }
    }
}

/// The mirror pairs `(i, n-1-i)`, `i < n/2`.
pub open spec fn mirror_spec(n: nat) -> Seq<(usize, usize)> {
    Seq::new(n / 2, |i: int| (i as usize, (n - 1 - i) as usize))
}

/// Mirror pairs `(i, n-1-i)` of a profile (excluding a middle fixed point).
/// For palindromic profiles (diamonds and waves) the paired sites have equal
/// dimension.
pub fn mirror_pairs(profile: &[usize]) -> (pairs: Vec<(usize, usize)>)
    ensures
        pairs@ == mirror_spec(profile@.len()),
{
    let n = profile.len();
    let mut pairs: Vec<(usize, usize)> = Vec::new();
    let mut i: usize = 0;
    while i < n / 2
        invariant
            n == profile@.len(),
            i <= n / 2,
            pairs@ =~= mirror_spec(n as nat).take(i as int),
        decreases n / 2 - i,
    {
        pairs.push((i, n - 1 - i));
        i = i + 1;
    }
    assert(mirror_spec(n as nat).take(i as int) =~= mirror_spec(n as nat));
    pairs
}

/// On a palindromic profile every mirror pair joins two sites of equal
/// dimension.
pub proof fn law_mirror_pairs_have_equal_dims(p: Seq<usize>)
    requires
        palindromic(p),
        p.len() <= usize::MAX,
    ensures
        forall|i: int|
            0 <= i < mirror_spec(p.len()).len() ==> p[#[trigger] mirror_spec(p.len())[i].0 as int]
                == p[mirror_spec(p.len())[i].1 as int],
{
    assert forall|i: int| 0 <= i < mirror_spec(p.len()).len() implies p[#[trigger] mirror_spec(p.len())[i].0 as int]
        == p[mirror_spec(p.len())[i].1 as int] by {
        assert(p[i] == p[p.len() - 1 - i]);
    }
}

/// Largest entry of a non-empty profile.
pub open spec fn seq_max(p: Seq<usize>) -> int
    decreases p.len(),
{
    if p.len() <= 1 {
        p[0] as int
    } else {
        let m = seq_max(p.drop_last());
        if p.last() > m {
            p.last() as int
        } else {
            m
        }
    }
}

/// Smallest entry of a non-empty profile.
pub open spec fn seq_min(p: Seq<usize>) -> int
    decreases p.len(),
{
    if p.len() <= 1 {
        p[0] as int
    } else {
        let m = seq_min(p.drop_last());
        if (p.last() as int) < m {
            p.last() as int
        } else {
            m
        }
    }
}

/// The indices `i < n` (ascending) at which the profile equals `v`.
pub open spec fn positions_of(p: Seq<usize>, v: int, n: int) -> Seq<usize>
    decreases n,
{
    if n <= 0 {
        Seq::empty()
    } else if p[n - 1] as int == v {
        positions_of(p, v, n - 1).push((n - 1) as usize)
    } else {
        positions_of(p, v, n - 1)
    }
}

proof fn lemma_seq_max_step(p: Seq<usize>, i: int)
    requires
        1 <= i < p.len(),
    ensures
        seq_max(p.take(i + 1)) == if p[i] > seq_max(p.take(i)) { p[i] as int } else { seq_max(p.take(i)) },
        seq_min(p.take(i + 1)) == if (p[i] as int) < seq_min(p.take(i)) { p[i] as int } else { seq_min(p.take(i)) },
{
    assert(p.take(i + 1).drop_last() =~= p.take(i));
}

/// Largest and smallest entries of a non-empty profile.
fn extremes(profile: &[usize]) -> (r: (usize, usize))
    requires
        profile@.len() >= 1,
    ensures
        r.0 == seq_max(profile@),
        r.1 == seq_min(profile@),
{
    let mut hi = profile[0];
    let mut lo = profile[0];
    let mut i: usize = 1;
    while i < profile.len()
        invariant
            1 <= i <= profile@.len(),
            hi == seq_max(profile@.take(i as int)),
            lo == seq_min(profile@.take(i as int)),
        decreases profile@.len() - i,
    {
        proof {
            lemma_seq_max_step(profile@, i as int);
        }
        if profile[i] > hi {
            hi = profile[i];
        }
        if profile[i] < lo {
            lo = profile[i];
        }
        i = i + 1;
    }
    assert(profile@.take(i as int) =~= profile@);
    (hi, lo)
}

/// Largest entry of a non-empty profile.
pub(crate) fn max_dim(profile: &[usize]) -> (m: usize)
    requires
        profile@.len() >= 1,
    ensures
        m == seq_max(profile@),
{
    extremes(profile).0
}

fn positions(profile: &[usize], v: usize) -> (out: Vec<usize>)
    ensures
        out@ == positions_of(profile@, v as int, profile@.len() as int),
{
    let mut out: Vec<usize> = Vec::new();
    let mut i: usize = 0;
    while i < profile.len()
        invariant
            i <= profile@.len(),
            out@ == positions_of(profile@, v as int, i as int),
        decreases profile@.len() - i,
    {
        if profile[i] == v {
            out.push(i);
        }
        i = i + 1;
    }
    out
}

/// Sites at the maximum dimension of the profile (the waists), ascending.
pub fn waist_positions(profile: &[usize]) -> (out: Vec<usize>)
    requires
        profile@.len() >= 1,
    ensures
        out@ == positions_of(profile@, seq_max(profile@), profile@.len() as int),
{
    let (hi, _) = extremes(profile);
    positions(profile, hi)
}

/// Sites at the minimum dimension of the profile (the valleys), ascending.
pub fn valley_positions(profile: &[usize]) -> (out: Vec<usize>)
    requires
        profile@.len() >= 1,
    ensures
        out@ == positions_of(profile@, seq_min(profile@), profile@.len() as int),
{
    let (_, lo) = extremes(profile);
    positions(profile, lo)
}

/// The cells of one sketch row: a dot where the site's dimension equals
/// `level`, blank otherwise, three characters per site.
pub open spec fn sketch_cells(p: Seq<usize>, level: int) -> Seq<char>
    decreases p.len(),
{
    if p.len() == 0 {
        Seq::empty()
    } else {
        sketch_cells(p.drop_last(), level) + if p.last() as int == level {
            seq![' ', '●', ' ']
        } else {
            seq![' ', ' ', ' ']
        }
    }
}

/// One sketch row: the level right-aligned in three columns, a space, the
/// cells and a newline.
pub open spec fn sketch_row(p: Seq<usize>, level: int) -> Seq<char> {
    right_aligned(decimal(level as nat), 3) + seq![' '] + sketch_cells(p, level) + seq!['\n']
}

/// The rows for levels `top` down to `lo`.
pub open spec fn sketch_rows(p: Seq<usize>, lo: int, top: int) -> Seq<char>
    decreases top - lo + 1,
{
    if top < lo {
        Seq::empty()
    } else {
        sketch_row(p, top) + sketch_rows(p, lo, top - 1)
    }
}

/// The index ruler: each site's index mod 100, centred in three columns.
pub open spec fn sketch_ruler(n: int) -> Seq<char>
    decreases n,
{
    if n <= 0 {
        Seq::empty()
    } else {
        sketch_ruler(n - 1) + centred(decimal(((n - 1) % 100) as nat), 3)
    }
}

/// The whole sketch: one row per level from the maximum down to the
/// minimum, then the ruler line.
pub open spec fn sketch(p: Seq<usize>) -> Seq<char> {
    sketch_rows(p, seq_min(p), seq_max(p)) + seq![' ', ' ', ' ', ' '] + sketch_ruler(p.len() as int) + seq!['\n']
}

proof fn lemma_sketch_rows_step(p: Seq<usize>, lo: int, hi: int, level: int)
    requires
        lo <= level <= hi,
    ensures
        sketch_rows(p, level, hi) == sketch_rows(p, level + 1, hi) + sketch_row(p, level),
    decreases hi - level,
{
    if level < hi {
        lemma_sketch_rows_step(p, lo, hi - 1, level);
        assert(sketch_rows(p, level, hi) =~= sketch_row(p, hi) + sketch_rows(p, level, hi - 1));
        assert(sketch_rows(p, level + 1, hi) =~= sketch_row(p, hi) + sketch_rows(p, level + 1, hi - 1));
    } else {
        assert(sketch_rows(p, level + 1, hi) =~= Seq::<char>::empty());
        assert(sketch_rows(p, level, level - 1) =~= Seq::<char>::empty());
    }
}

fn push_sketch_row(out: &mut String, profile: &[usize], level: usize)
    ensures
        final(out)@ == old(out)@ + sketch_row(profile@, level as int),
{
    let ghost start = out@;
    push_right_aligned(out, level as u128, 3);
    proof {
        reveal_strlit(" ");
        reveal_strlit(" ● ");
        reveal_strlit("   ");
        reveal_strlit("\n");
    }
    out.append(" ");
    let ghost head = out@;
    let mut i: usize = 0;
    while i < profile.len()
        invariant
            i <= profile@.len(),
            out@ == head + sketch_cells(profile@.take(i as int), level as int),
        decreases profile@.len() - i,
    {
        proof {
            assert(profile@.take(i as int + 1).drop_last() =~= profile@.take(i as int));
        }
        proof {
            reveal_strlit(" ● ");
            reveal_strlit("   ");
        }
        if profile[i] == level {
            out.append(" ● ");
        } else {
            out.append("   ");
        }
        i = i + 1;
        assert(out@ =~= head + sketch_cells(profile@.take(i as int), level as int));
    }
    proof {
        reveal_strlit("\n");
    }
    out.append("\n");
    assert(profile@.take(i as int) =~= profile@);
    assert(out@ =~= start + sketch_row(profile@, level as int));
}

/// ASCII sketch of the dimension wave: one row per level (highest first)
/// with a dot at each site of that dimension, then an index ruler.
pub fn ascii_profile(profile: &[usize]) -> (s: String)
    requires
        profile@.len() >= 1,
    ensures
        s@ == sketch(profile@),
{
    let (hi, lo) = extremes(profile);
    proof {
        lemma_max_ge_min(profile@);
    }
    let mut out = String::new();
    let mut level: usize = hi;
    loop
        invariant_except_break
            lo <= level <= hi,
            out@ == sketch_rows(profile@, level as int + 1, hi as int),
        invariant
            hi == seq_max(profile@),
            lo == seq_min(profile@),
        ensures
            out@ == sketch_rows(profile@, lo as int, hi as int),
        decreases level,
    {
        proof {
            lemma_sketch_rows_step(profile@, lo as int, hi as int, level as int);
        }
        push_sketch_row(&mut out, profile, level);
        if level == lo {
            break;
        }
        level = level - 1;
    }
    proof {
        reveal_strlit("    ");
        reveal_strlit("\n");
    }
    out.append("    ");
    let ghost head = out@;
    let mut i: usize = 0;
    while i < profile.len()
        invariant
            i <= profile@.len(),
            out@ == head + sketch_ruler(i as int),
        decreases profile@.len() - i,
    {
        push_centred(&mut out, (i % 100) as u128, 3);
        i = i + 1;
        assert(out@ =~= head + sketch_ruler(i as int));
    }
    proof {
        reveal_strlit("\n");
    }
    out.append("\n");
    assert(out@ =~= sketch(profile@));
    out
}

proof fn lemma_max_ge_min(p: Seq<usize>)
    requires
        p.len() >= 1,
    ensures
        seq_min(p) <= seq_max(p),
    decreases p.len(),
{
    if p.len() > 1 {
        lemma_max_ge_min(p.drop_last());
    }
}

} // verus!
