//! The integer side of the operator Schmidt rank of a permutation across a
//! cut: the Gram matrix `G = R·Rᵀ` of its 0/1 transition matrix
//! `R[(a',a),(b',b)] = [π(a·s+b) = a'·s+b']`, rows indexed by the distinct
//! keys of the smaller side in order of first appearance. The rank of `G`
//! (read from its spectrum) is the rank of the permutation across the cut.
use crate::width::{cut_keys, is_permutation, perm_cut_keys};
use vstd::arithmetic::div_mod::{lemma_fundamental_div_mod, lemma_fundamental_div_mod_converse, lemma_mod_bound, lemma_div_pos_is_pos};
use vstd::prelude::*;

verus! {

/// Number of `x ∈ [0, k)` satisfying `p`.
pub open spec fn count(p: spec_fn(int) -> bool, k: int) -> int
    decreases k,
{
    if k <= 0 {
        0
    } else {
        count(p, k - 1) + if p(k - 1) { 1int } else { 0int }
    }
}

proof fn lemma_count_bounds(p: spec_fn(int) -> bool, k: int)
    ensures
        0 <= count(p, k),
        k >= 0 ==> count(p, k) <= k,
    decreases k,
{
    if k > 0 {
        lemma_count_bounds(p, k - 1);
    }
}

/// A predicate that holds only on one residue `b` mod `s` is counted over
/// `[0, l·s)` by its values at `a·s + b`.
proof fn lemma_count_strided(p: spec_fn(int) -> bool, l: int, s: int, b: int)
    requires
        l >= 0,
        0 <= b < s,
        forall|x: int| #[trigger] p(x) ==> x % s == b,
    ensures
        count(p, l * s) == count(|a: int| p(a * s + b), l),
    decreases l,
{
    if l > 0 {
        lemma_count_strided(p, l - 1, s, b);
        lemma_count_block(p, l - 1, s, b, s);
        assert(l * s == (l - 1) * s + s) by (nonlinear_arith);
    } else {
        assert(l * s == 0) by (nonlinear_arith) requires l == 0;
    }
}

/// Inside one block `[a·s, a·s + t)` only the point `a·s + b` can count.
proof fn lemma_count_block(p: spec_fn(int) -> bool, a: int, s: int, b: int, t: int)
    requires
        a >= 0,
        0 <= b < s,
        0 <= t <= s,
        forall|x: int| #[trigger] p(x) ==> x % s == b,
    ensures
        count(p, a * s + t) == count(p, a * s) + if t > b && p(a * s + b) { 1int } else { 0int },
    decreases t,
{
    if t > 0 {
        lemma_count_block(p, a, s, b, t - 1);
        let x = a * s + t - 1;
        if t - 1 != b {
            if p(x) {
                lemma_fundamental_div_mod_converse(x, s, a, t - 1);
                assert(false);
            }
        }
    }
}

/// A predicate that holds only inside the block `[a·s, a·s + s)` is counted
/// over `[0, n)` by its values in that block.
proof fn lemma_count_in_block(p: spec_fn(int) -> bool, n: int, s: int, a: int)
    requires
        s >= 1,
        0 <= a,
        (a + 1) * s <= n,
        forall|x: int| #[trigger] p(x) ==> x / s == a,
    ensures
        count(p, n) == count(|t: int| p(a * s + t), s),
{
    lemma_count_zero_below(p, a * s, s, a);
    lemma_count_block_shift(p, s, a, s);
    lemma_count_flat_above(p, n, s, a);
    assert((a + 1) * s == a * s + s) by (nonlinear_arith);
}

proof fn lemma_count_zero_below(p: spec_fn(int) -> bool, k: int, s: int, a: int)
    requires
        s >= 1,
        0 <= k <= a * s,
        forall|x: int| #[trigger] p(x) ==> x / s == a,
    ensures
        count(p, k) == 0,
    decreases k,
{
    if k > 0 {
        lemma_count_zero_below(p, k - 1, s, a);
        if p(k - 1) {
            lemma_div_pos_is_pos(k - 1, s);
            vstd::arithmetic::div_mod::lemma_div_is_ordered(k - 1, a * s, s);
            vstd::arithmetic::div_mod::lemma_div_multiples_vanish(a, s);
            lemma_fundamental_div_mod(k - 1, s);
            lemma_mod_bound(k - 1, s);
            assert(false) by (nonlinear_arith)
                requires k - 1 == s * ((k - 1) / s) + (k - 1) % s, (k - 1) / s == a, 0 <= (k - 1) % s, k - 1 < a * s;
        }
    }
}

proof fn lemma_count_block_shift(p: spec_fn(int) -> bool, s: int, a: int, t: int)
    requires
        s >= 1,
        0 <= a,
        0 <= t <= s,
    ensures
        count(p, a * s + t) == count(p, a * s) + count(|u: int| p(a * s + u), t),
    decreases t,
{
    if t > 0 {
        lemma_count_block_shift(p, s, a, t - 1);
    }
}

proof fn lemma_count_flat_above(p: spec_fn(int) -> bool, k: int, s: int, a: int)
    requires
        s >= 1,
        0 <= a,
        (a + 1) * s <= k,
        forall|x: int| #[trigger] p(x) ==> x / s == a,
    ensures
        count(p, k) == count(p, (a + 1) * s),
    decreases k,
{
    if k > (a + 1) * s {
        lemma_count_flat_above(p, k - 1, s, a);
        if p(k - 1) {
            lemma_fundamental_div_mod(k - 1, s);
            lemma_mod_bound(k - 1, s);
            assert(false) by (nonlinear_arith)
                requires k - 1 == s * ((k - 1) / s) + (k - 1) % s, (k - 1) / s == a, (k - 1) % s < s, k - 1 >= (a + 1) * s;
        }
    }
}


/// The distinct small keys (first components) of `ks[0..i]`, in order of
/// first appearance.
pub open spec fn first_keys(ks: Seq<(usize, usize)>, i: int) -> Seq<usize>
    decreases i,
{
    if i <= 0 {
        Seq::empty()
    } else {
        let f = first_keys(ks, i - 1);
        if f.contains(ks[i - 1].0) {
            f
        } else {
            f.push(ks[i - 1].0)
        }
    }
}

/// Position of the first occurrence of `key` in `fs` (`fs.len()` if absent).
pub open spec fn key_pos(fs: Seq<usize>, key: usize) -> int
    decreases fs.len(),
{
    if fs.len() == 0 {
        0
    } else if fs[0] == key {
        0
    } else {
        1 + key_pos(fs.skip(1), key)
    }
}

/// The row of the transition `x`: the first-appearance index of its small key.
pub open spec fn key_id(ks: Seq<(usize, usize)>, x: int) -> int {
    key_pos(first_keys(ks, ks.len() as int), ks[x].0)
}

proof fn lemma_key_pos(fs: Seq<usize>, key: usize)
    ensures
        0 <= key_pos(fs, key) <= fs.len(),
        fs.contains(key) ==> key_pos(fs, key) < fs.len() && fs[key_pos(fs, key)] == key,
        !fs.contains(key) ==> key_pos(fs, key) == fs.len(),
    decreases fs.len(),
{
    if fs.len() > 0 && fs[0] != key {
        lemma_key_pos(fs.skip(1), key);
        if fs.contains(key) {
            let i = choose|i: int| 0 <= i < fs.len() && fs[i] == key;
            assert(fs.skip(1)[i - 1] == key);
        }
        if fs.skip(1).contains(key) {
            let i = choose|i: int| 0 <= i < fs.skip(1).len() && fs.skip(1)[i] == key;
            assert(fs[i + 1] == key);
        }
    }
}

/// Extending a sequence keeps the positions of keys already present.
proof fn lemma_key_pos_prefix(fs: Seq<usize>, gs: Seq<usize>, key: usize)
    requires
        fs.len() <= gs.len(),
        forall|i: int| 0 <= i < fs.len() ==> gs[i] == fs[i],
        fs.contains(key),
    ensures
        key_pos(gs, key) == key_pos(fs, key),
    decreases fs.len(),
{
    if fs[0] != key {
        let i = choose|i: int| 0 <= i < fs.len() && fs[i] == key;
        assert(fs.skip(1)[i - 1] == key);
        lemma_key_pos_prefix(fs.skip(1), gs.skip(1), key);
    }
}

proof fn lemma_first_keys_prefix(ks: Seq<(usize, usize)>, i: int, j: int)
    requires
        0 <= i <= j,
    ensures
        first_keys(ks, i).len() <= first_keys(ks, j).len(),
        forall|q: int| 0 <= q < first_keys(ks, i).len() ==> #[trigger] first_keys(ks, j)[q] == first_keys(ks, i)[q],
    decreases j,
{
    if j > i {
        lemma_first_keys_prefix(ks, i, j - 1);
    }
}

proof fn lemma_first_keys_contains(ks: Seq<(usize, usize)>, x: int, j: int)
    requires
        0 <= x < j,
    ensures
        first_keys(ks, j).contains(ks[x].0),
    decreases j,
{
    if j - 1 == x {
        let f = first_keys(ks, j - 1);
        if !f.contains(ks[x].0) {
            assert(first_keys(ks, j)[f.len() as int] == ks[x].0);
        }
    } else {
        lemma_first_keys_contains(ks, x, j - 1);
        let f = first_keys(ks, j - 1);
        let i = choose|i: int| 0 <= i < f.len() && f[i] == ks[x].0;
        lemma_first_keys_prefix(ks, j - 1, j);
        assert(first_keys(ks, j)[i] == ks[x].0);
    }
}

/// The first-appearance row of every transition, and the number of rows:
/// `ids[x] = key_id(ks, x)`, `m = |first_keys(ks)|`.
fn key_ids(ks: &Vec<(usize, usize)>, t: usize) -> (res: (Vec<usize>, usize))
    requires
        forall|x: int| 0 <= x < ks@.len() ==> #[trigger] ks@[x].0 < t,
        ks@.len() <= usize::MAX,
    ensures
        res.1 == first_keys(ks@, ks@.len() as int).len(),
        res.0@.len() == ks@.len(),
        forall|x: int| 0 <= x < ks@.len() ==> #[trigger] res.0@[x] == key_id(ks@, x) && res.0@[x] < res.1,
{
    let n = ks.len();
    let mut table: Vec<usize> = Vec::new();
    let mut q: usize = 0;
    while q < t
        invariant
            q <= t,
            table@.len() == q,
            forall|j: int| 0 <= j < q ==> #[trigger] table@[j] == usize::MAX,
        decreases t - q,
    {
        table.push(usize::MAX);
        q = q + 1;
    }
    let ghost kseq = ks@;
    let mut ids: Vec<usize> = Vec::new();
    let mut m: usize = 0;
    let mut x: usize = 0;
    while x < n
        invariant
            n == kseq.len(),
            kseq == ks@,
            n <= usize::MAX,
            forall|y: int| 0 <= y < n ==> #[trigger] kseq[y].0 < t,
            x <= n,
            table@.len() == t,
            m == first_keys(kseq, x as int).len(),
            m <= x,
            forall|key: int|
                0 <= key < t ==> #[trigger] table@[key] == if first_keys(kseq, x as int).contains(key as usize) {
                    key_pos(first_keys(kseq, x as int), key as usize) as usize
                } else {
                    usize::MAX
                },
            ids@.len() == x,
            forall|y: int| 0 <= y < x ==> #[trigger] ids@[y] == key_pos(first_keys(kseq, x as int), kseq[y].0) && ids@[y] < m,
        decreases n - x,
    {
        let key = ks[x].0;
        let f = Ghost(first_keys(kseq, x as int));
        let g = Ghost(first_keys(kseq, x as int + 1));
        proof {
            lemma_key_pos(f@, key);
            lemma_first_keys_prefix(kseq, x as int, x as int + 1);
        }
        let ghost old_table = table@;
        if table[key] == usize::MAX {
            proof {
                assert(!f@.contains(key));
                assert(g@ == f@.push(key));
                lemma_key_pos(g@, key);
                assert(g@.contains(key)) by {
                    assert(g@[m as int] == key);
                }
                assert forall|k2: usize| f@.contains(k2) implies key_pos(g@, k2) == key_pos(f@, k2) by {
                    lemma_key_pos_prefix(f@, g@, k2);
                }
                assert(key_pos(g@, key) == m) by {
                    if key_pos(g@, key) < m {
                        assert(f@[key_pos(g@, key)] == key);
                    }
                }
            }
            table.set(key, m);
            m = m + 1;
        } else {
            proof {
                assert(f@.contains(key));
                assert(g@ == f@);
            }
        }
        let id = table[key];
        ids.push(id);
        proof {
            assert(g@ == f@ || g@ == f@.push(key));
            lemma_key_pos(g@, key);
            assert(g@.contains(key)) by {
                lemma_first_keys_contains(kseq, x as int, x as int + 1);
            }
            assert(table@[key as int] == key_pos(g@, key) as usize) by {
                if g@ == f@ {
                    assert(f@.contains(key));
                } else {
                    assert(key_pos(g@, key) == m - 1) by {
                        lemma_key_pos(f@, key);
                        if !f@.contains(key) {
                            if key_pos(g@, key) < m - 1 {
                                assert(f@[key_pos(g@, key)] == key);
                            }
                        }
                    }
                }
            }
            assert forall|k2: int| 0 <= k2 < t implies #[trigger] table@[k2] == if g@.contains(k2 as usize) {
                key_pos(g@, k2 as usize) as usize
            } else {
                usize::MAX
            } by {
                lemma_key_pos(g@, k2 as usize);
                if k2 == key as int {
                    assert(k2 as usize == key);
                } else {
                    assert(table@[k2] == old_table[k2]);
                    assert(old_table[k2] == if f@.contains(k2 as usize) {
                        key_pos(f@, k2 as usize) as usize
                    } else {
                        usize::MAX
                    });
                    if f@.contains(k2 as usize) {
                        let i = choose|i: int| 0 <= i < f@.len() && f@[i] == k2 as usize;
                        assert(g@[i] == k2 as usize);
                        assert(g@.contains(k2 as usize));
                        lemma_key_pos_prefix(f@, g@, k2 as usize);
                    } else if g@.contains(k2 as usize) {
                        let i = choose|i: int| 0 <= i < g@.len() && g@[i] == k2 as usize;
                        if i < f@.len() {
                            assert(f@[i] == g@[i]);
                        } else {
                            assert(g@ == f@.push(key));
                            assert(i == f@.len());
                        }
                        assert(false);
                    }
                }
            }
            assert forall|y: int| 0 <= y < x + 1 implies #[trigger] ids@[y] == key_pos(g@, kseq[y].0) && ids@[y] < m by {
                if y < x {
                    lemma_first_keys_contains(kseq, y, x as int);
                    lemma_key_pos_prefix(f@, g@, kseq[y].0);
                    lemma_key_pos(f@, kseq[y].0);
                }
                lemma_first_keys_contains(kseq, y, x as int + 1);
                lemma_key_pos(g@, kseq[y].0);
            }
        }
        x = x + 1;
    }
    proof {
        assert forall|y: int| 0 <= y < n implies #[trigger] ids@[y] == key_id(kseq, y) && ids@[y] < m by {}
    }
    (ids, m)
}

/// The cut keys of every transition of a permutation table, as machine
/// pairs: entry `x` is `cut_keys(l, s, x, perm[x])`.
pub open spec fn key_seq(l: int, s: int, perm: Seq<usize>) -> Seq<(usize, usize)> {
    Seq::new((l * s) as nat, |x: int| (cut_keys(l, s, x, perm[x] as int).0 as usize, cut_keys(l, s, x, perm[x] as int).1 as usize))
}

/// The transitions of row `r2` that share the large key of transition `x1`.
pub open spec fn shares_large_key(ks: Seq<(usize, usize)>, x1: int, r2: int) -> spec_fn(int) -> bool {
    |x2: int| 0 <= x2 < ks.len() && key_id(ks, x2) == r2 && ks[x2].1 == ks[x1].1
}

/// The Gram entry `G[r1][r2]`, summed over the transitions `x1 < i`: each
/// transition of row `r1` adds the number of row-`r2` transitions that share
/// its large key.
pub open spec fn gram_upto(ks: Seq<(usize, usize)>, r1: int, r2: int, i: int) -> int
    decreases i,
{
    if i <= 0 {
        0
    } else {
        gram_upto(ks, r1, r2, i - 1) + if key_id(ks, i - 1) == r1 {
            count(shares_large_key(ks, i - 1, r2), ks.len() as int)
        } else {
            0int
        }
    }
}

/// `G[r1][r2] = Σ_{large keys} |row r1 ∩ group| · |row r2 ∩ group|`: the
/// number of pairs of transitions in rows `r1`, `r2` with one large key.
pub open spec fn gram_entry(ks: Seq<(usize, usize)>, r1: int, r2: int) -> int {
    gram_upto(ks, r1, r2, ks.len() as int)
}

/// Where the keys of one transition lie: the small key below the square of
/// the smaller side, and the large key carrying the transition's own index
/// on the larger side (`b = x mod s` when `l ≤ s`, `a = x / s` otherwise).
proof fn lemma_cut_key_ranges(l: int, s: int, x: int, y: int)
    requires
        l >= 1,
        s >= 1,
        0 <= x < l * s,
        0 <= y < l * s,
    ensures
        0 <= cut_keys(l, s, x, y).0,
        0 <= cut_keys(l, s, x, y).1,
        l <= s ==> cut_keys(l, s, x, y).0 < l * l && cut_keys(l, s, x, y).1 % s == x % s,
        l > s ==> cut_keys(l, s, x, y).0 < s * s && cut_keys(l, s, x, y).1 % l == x / s,
{
    let (a, b, ap, bp) = (x / s, x % s, y / s, y % s);
    lemma_fundamental_div_mod(x, s);
    lemma_fundamental_div_mod(y, s);
    lemma_mod_bound(x, s);
    lemma_mod_bound(y, s);
    lemma_div_pos_is_pos(x, s);
    lemma_div_pos_is_pos(y, s);
    assert(a < l) by (nonlinear_arith)
        requires x == s * a + b, 0 <= b, x < l * s, s >= 1;
    assert(ap < l) by (nonlinear_arith)
        requires y == s * ap + bp, 0 <= bp, y < l * s, s >= 1;
    if l <= s {
        assert(ap * l + a < l * l) by (nonlinear_arith)
            requires 0 <= ap < l, 0 <= a < l;
        assert(ap * l + a >= 0) by (nonlinear_arith) requires 0 <= ap, 0 <= a, l >= 1;
        assert(bp * s + b >= 0) by (nonlinear_arith) requires 0 <= bp, 0 <= b, s >= 1;
        lemma_fundamental_div_mod_converse(bp * s + b, s, bp, b);
    } else {
        assert(bp * s + b < s * s) by (nonlinear_arith)
            requires 0 <= bp < s, 0 <= b < s;
        assert(bp * s + b >= 0) by (nonlinear_arith) requires 0 <= bp, 0 <= b, s >= 1;
        assert(ap * l + a >= 0) by (nonlinear_arith) requires 0 <= ap, 0 <= a, l >= 1;
        lemma_fundamental_div_mod_converse(ap * l + a, l, ap, a);
    }
}

proof fn lemma_gram_upto_bound(ks: Seq<(usize, usize)>, r1: int, r2: int, i: int)
    requires
        0 <= i,
    ensures
        0 <= gram_upto(ks, r1, r2, i) <= i * ks.len(),
    decreases i,
{
    if i > 0 {
        lemma_gram_upto_bound(ks, r1, r2, i - 1);
        lemma_count_bounds(shares_large_key(ks, i - 1, r2), ks.len() as int);
        assert((i - 1) * ks.len() + ks.len() == i * ks.len()) by (nonlinear_arith);
    }
}

/// An `m × m` matrix of zeros.
fn zero_square(m: usize) -> (g: Vec<Vec<u128>>)
    ensures
        g@.len() == m,
        forall|r: int| 0 <= r < m ==> (#[trigger] g@[r])@.len() == m,
        forall|r: int, c: int| 0 <= r < m && 0 <= c < m ==> #[trigger] g@[r]@[c] == 0,
{
    let mut g: Vec<Vec<u128>> = Vec::new();
    let mut r: usize = 0;
    while r < m
        invariant
            r <= m,
            g@.len() == r,
            forall|q: int| 0 <= q < r ==> (#[trigger] g@[q])@.len() == m,
            forall|q: int, c: int| 0 <= q < r && 0 <= c < m ==> #[trigger] g@[q]@[c] == 0,
        decreases m - r,
    {
        let mut row: Vec<u128> = Vec::new();
        let mut c: usize = 0;
        while c < m
            invariant
                c <= m,
                row@.len() == c,
                forall|d: int| 0 <= d < c ==> #[trigger] row@[d] == 0,
            decreases m - c,
        {
            row.push(0);
            c = c + 1;
        }
        g.push(row);
        r = r + 1;
    }
    g
}

/// Adds to row `ids[x1]` of `g` one count for each candidate transition
/// `base + j·stride` (`j < cnt`) that shares the large key of `x1`.
fn accumulate_candidates(
    g: &mut Vec<Vec<u128>>,
    ks: &Vec<(usize, usize)>,
    ids: &Vec<usize>,
    m: usize,
    x1: usize,
    base: usize,
    stride: usize,
    cnt: usize,
)
    requires
        x1 < ks@.len(),
        cnt >= 1,
        base + (cnt - 1) * stride < ks@.len(),
        ids@.len() == ks@.len(),
        forall|x: int| 0 <= x < ks@.len() ==> #[trigger] ids@[x] == key_id(ks@, x) && ids@[x] < m,
        old(g)@.len() == m,
        forall|r: int| 0 <= r < m ==> (#[trigger] old(g)@[r])@.len() == m,
        forall|r: int, c: int| 0 <= r < m && 0 <= c < m ==> #[trigger] old(g)@[r]@[c] == gram_upto(ks@, r, c, x1 as int),
    ensures
        final(g)@.len() == m,
        forall|r: int| 0 <= r < m ==> (#[trigger] final(g)@[r])@.len() == m,
        forall|r: int, c: int| 0 <= r < m && 0 <= c < m ==> #[trigger] final(g)@[r]@[c] == gram_upto(ks@, r, c, x1 as int)
            + if r == ids@[x1 as int] {
                count(|j: int| shares_large_key(ks@, x1 as int, c)(base + j * stride), cnt as int)
            } else {
                0int
            },
{
    let ghost n = ks@.len() as int;
    assert(n <= usize::MAX) by {
        assert(ks@.len() == ks.len());
    }
    let r1 = ids[x1];
    let large = ks[x1].1;
    let mut j: usize = 0;
    while j < cnt
        invariant
            j <= cnt,
            n == ks@.len(),
            n <= usize::MAX,
            x1 < n,
            r1 == ids@[x1 as int],
            large == ks@[x1 as int].1,
            base + (cnt - 1) * stride < n,
            ids@.len() == n,
            forall|x: int| 0 <= x < n ==> #[trigger] ids@[x] == key_id(ks@, x) && ids@[x] < m,
            g@.len() == m,
            forall|r: int| 0 <= r < m ==> (#[trigger] g@[r])@.len() == m,
            forall|r: int, c: int| 0 <= r < m && 0 <= c < m ==> #[trigger] g@[r]@[c] == gram_upto(ks@, r, c, x1 as int)
                + if r == r1 {
                    count(|i: int| shares_large_key(ks@, x1 as int, c)(base + i * stride), j as int)
                } else {
                    0int
                },
        decreases cnt - j,
    {
        proof {
            assert(0 <= j * stride <= (cnt - 1) * stride) by (nonlinear_arith)
                requires j <= cnt - 1, stride >= 0, j >= 0;
        }
        let x2 = base + j * stride;
        let ghost old_g = g@;
        if ks[x2].1 == large {
            let r2 = ids[x2];
            proof {
                lemma_gram_upto_bound(ks@, r1 as int, r2 as int, x1 as int);
                lemma_count_bounds(|i: int| shares_large_key(ks@, x1 as int, r2 as int)(base + i * stride), j as int);
                assert((x1 + 1) * n <= n * n) by (nonlinear_arith) requires x1 < n, n >= 0;
                assert(n * n <= 0xffff_ffff_ffff_ffffu128 * 0xffff_ffff_ffff_ffffu128) by (nonlinear_arith)
                    requires 0 <= n <= 0xffff_ffff_ffff_ffffu128;
                assert(x1 * n + n == (x1 + 1) * n) by (nonlinear_arith);
            }
            let v = g[r1][r2];
            g[r1].set(r2, v + 1);
        }
        proof {
            assert forall|r: int, c: int| 0 <= r < m && 0 <= c < m implies #[trigger] g@[r]@[c] == gram_upto(ks@, r, c, x1 as int)
                + if r == r1 {
                    count(|i: int| shares_large_key(ks@, x1 as int, c)(base + i * stride), j + 1)
                } else {
                    0int
                } by {
                let q = |i: int| shares_large_key(ks@, x1 as int, c)(base + i * stride);
                assert(count(q, j + 1) == count(q, j as int) + if q(j as int) { 1int } else { 0int });
                assert(q(j as int) <==> (ks@[x2 as int].1 == large && ids@[x2 as int] == c));
            }
        }
        j = j + 1;
    }
}

/// The Gram matrix `G = R·Rᵀ` of a permutation table's transition matrix
/// across the cut with left ring `l` and right block `s`: one row and one
/// column per distinct small key, in order of first appearance, and
/// `G[r1][r2]` the number of pairs of transitions in rows `r1`, `r2` that
/// share a large key. `None` when the table is not a permutation of
/// `Z_{l·s}`. The rank of `G` is the operator Schmidt rank of the
/// permutation across the cut.
pub fn perm_cut_gram(l: usize, s: usize, perm: &[usize]) -> (res: Option<Vec<Vec<u128>>>)
    requires
        l >= 1,
        s >= 1,
        l * s <= usize::MAX,
        l * l <= usize::MAX + 1,
        s * s <= usize::MAX + 1,
    ensures
        res is Some <==> is_permutation(perm@, l * s),
        res matches Some(g) ==> {
            let ks = key_seq(l as int, s as int, perm@);
            let m = first_keys(ks, l * s).len();
            &&& g@.len() == m
            &&& forall|r: int| 0 <= r < m ==> (#[trigger] g@[r])@.len() == m
            &&& forall|r: int, c: int| 0 <= r < m && 0 <= c < m ==> #[trigger] g@[r]@[c] == gram_entry(ks, r, c)
        },
{
    let keys = match perm_cut_keys(l, s, perm) {
        Some(k) => k,
        None => {
            return None;
        },
    };
    let n = l * s;
    let ghost ks = keys@;
    let t = if l <= s {
        proof {
            assert(l * l <= l * s) by (nonlinear_arith) requires l <= s, l >= 1;
        }
        l * l
    } else {
        proof {
            assert(s * s <= l * s) by (nonlinear_arith) requires s < l, s >= 1;
        }
        s * s
    };
    proof {
        assert forall|x: int| #![trigger ks[x]] 0 <= x < n implies {
            &&& ks[x].0 < t
            &&& (l <= s ==> (ks[x].1 as int) % (s as int) == x % (s as int))
            &&& (l > s ==> (ks[x].1 as int) % (l as int) == x / (s as int))
        } by {
            lemma_cut_key_ranges(l as int, s as int, x, perm@[x] as int);
        }
        let kq = key_seq(l as int, s as int, perm@);
        assert forall|x: int| 0 <= x < n implies #[trigger] ks[x] == kq[x] by {
            let c = cut_keys(l as int, s as int, x, perm@[x] as int);
            assert((ks[x].0 as int, ks[x].1 as int) == c);
        }
        assert(ks =~= kq);
    }
    let (ids, m) = key_ids(&keys, t);
    let mut g = zero_square(m);
    let mut x1: usize = 0;
    while x1 < n
        invariant
            x1 <= n,
            n == l * s,
            l >= 1,
            s >= 1,
            ks == keys@,
            ks.len() == n,
            forall|x: int| #![trigger ks[x]] 0 <= x < n ==> {
                &&& (l <= s ==> (ks[x].1 as int) % (s as int) == x % (s as int))
                &&& (l > s ==> (ks[x].1 as int) % (l as int) == x / (s as int))
            },
            ids@.len() == n,
            forall|x: int| 0 <= x < n ==> #[trigger] ids@[x] == key_id(ks, x) && ids@[x] < m,
            g@.len() == m,
            forall|r: int| 0 <= r < m ==> (#[trigger] g@[r])@.len() == m,
            forall|r: int, c: int| 0 <= r < m && 0 <= c < m ==> #[trigger] g@[r]@[c] == gram_upto(ks, r, c, x1 as int),
        decreases n - x1,
    {
        let ghost before = g@;
        if l <= s {
            let b = x1 % s;
            proof {
                lemma_mod_bound(x1 as int, s as int);
                assert(b + (l - 1) * s < n) by (nonlinear_arith)
                    requires b < s, n == l * s, l >= 1;
            }
            accumulate_candidates(&mut g, &keys, &ids, m, x1, b, s, l);
            proof {
                assert forall|r: int, c: int| 0 <= r < m && 0 <= c < m implies #[trigger] g@[r]@[c] == gram_upto(ks, r, c, x1 + 1) by {
                    let p = shares_large_key(ks, x1 as int, c);
                    assert forall|x: int| #[trigger] p(x) implies x % (s as int) == b as int by {
                        assert((ks[x].1 as int) % (s as int) == x % (s as int));
                        assert((ks[x1 as int].1 as int) % (s as int) == (x1 as int) % (s as int));
                    }
                    lemma_count_strided(p, l as int, s as int, b as int);
                    assert((|j: int| p(b + j * s)) =~= (|a: int| p(a * s + b)));
                }
            }
        } else {
            let a = x1 / s;
            proof {
                lemma_fundamental_div_mod(x1 as int, s as int);
                lemma_mod_bound(x1 as int, s as int);
                lemma_div_pos_is_pos(x1 as int, s as int);
                assert(a < l) by (nonlinear_arith)
                    requires x1 == s * a + x1 % s, 0 <= x1 % s, x1 < l * s, s >= 1;
                assert(a * s + (s - 1) * 1 < n && (a + 1) * s <= n) by (nonlinear_arith)
                    requires a < l, n == l * s, s >= 1;
            }
            accumulate_candidates(&mut g, &keys, &ids, m, x1, a * s, 1, s);
            proof {
                assert forall|r: int, c: int| 0 <= r < m && 0 <= c < m implies #[trigger] g@[r]@[c] == gram_upto(ks, r, c, x1 + 1) by {
                    let p = shares_large_key(ks, x1 as int, c);
                    assert forall|x: int| #[trigger] p(x) implies x / (s as int) == a as int by {
                        assert((ks[x].1 as int) % (l as int) == x / (s as int));
                        assert((ks[x1 as int].1 as int) % (l as int) == (x1 as int) / (s as int));
                    }
                    lemma_count_in_block(p, n as int, s as int, a as int);
                    assert((|j: int| p(a * s + j * 1)) =~= (|u: int| p(a * s + u)));
                }
            }
        }
        x1 = x1 + 1;
    }
    Some(g)
}

/// `Σ_{i<a} |{j < b : q(i, j)}|`: the pairs of `[0, a) × [0, b)` that
/// satisfy `q`, counted row by row.
pub open spec fn pair_count(q: spec_fn(int, int) -> bool, a: int, b: int) -> int
    decreases a,
{
    if a <= 0 {
        0
    } else {
        pair_count(q, a - 1, b) + count(|j: int| q(a - 1, j), b)
    }
}

/// The relation with its arguments swapped.
pub open spec fn transpose(q: spec_fn(int, int) -> bool) -> spec_fn(int, int) -> bool {
    |i: int, j: int| q(j, i)
}

proof fn lemma_count_ext(p1: spec_fn(int) -> bool, p2: spec_fn(int) -> bool, k: int)
    requires
        forall|x: int| 0 <= x < k ==> #[trigger] p1(x) == p2(x),
    ensures
        count(p1, k) == count(p2, k),
    decreases k,
{
    if k > 0 {
        lemma_count_ext(p1, p2, k - 1);
    }
}

proof fn lemma_pair_count_ext(q1: spec_fn(int, int) -> bool, q2: spec_fn(int, int) -> bool, a: int, b: int)
    requires
        forall|i: int, j: int| 0 <= i < a && 0 <= j < b ==> #[trigger] q1(i, j) == q2(i, j),
    ensures
        pair_count(q1, a, b) == pair_count(q2, a, b),
    decreases a,
{
    if a > 0 {
        lemma_pair_count_ext(q1, q2, a - 1, b);
        lemma_count_ext(|j: int| q1(a - 1, j), |j: int| q2(a - 1, j), b);
    }
}

proof fn lemma_pair_count_no_columns(q: spec_fn(int, int) -> bool, a: int)
    ensures
        pair_count(q, a, 0) == 0,
    decreases a,
{
    if a > 0 {
        lemma_pair_count_no_columns(q, a - 1);
    }
}

/// Adding row `a` to `q` adds one column to its transpose.
proof fn lemma_pair_count_extend(q: spec_fn(int, int) -> bool, a: int, b: int)
    requires
        a >= 0,
    ensures
        pair_count(transpose(q), b, a + 1) == pair_count(transpose(q), b, a) + count(|j: int| q(a, j), b),
    decreases b,
{
    if b > 0 {
        lemma_pair_count_extend(q, a, b - 1);
        let t = transpose(q);
        assert(count(|i: int| t(b - 1, i), a + 1) == count(|i: int| t(b - 1, i), a) + if q(a, b - 1) { 1int } else { 0int });
        assert(count(|j: int| q(a, j), b) == count(|j: int| q(a, j), b - 1) + if q(a, b - 1) { 1int } else { 0int });
    }
}

/// Counting pairs row by row or column by column gives the same number.
proof fn lemma_pair_count_transpose(q: spec_fn(int, int) -> bool, a: int, b: int)
    requires
        a >= 0,
    ensures
        pair_count(q, a, b) == pair_count(transpose(q), b, a),
    decreases a,
{
    if a == 0 {
        lemma_pair_count_no_columns(transpose(q), b);
    } else {
        lemma_pair_count_transpose(q, a - 1, b);
        lemma_pair_count_extend(q, a - 1, b);
    }
}

/// The pairs `(x1, x2)` of transitions in rows `r1`, `r2` sharing a large key.
pub open spec fn row_pairs(ks: Seq<(usize, usize)>, r1: int, r2: int) -> spec_fn(int, int) -> bool {
    |x1: int, x2: int| 0 <= x1 < ks.len() && key_id(ks, x1) == r1 && shares_large_key(ks, x1, r2)(x2)
}

proof fn lemma_gram_upto_pairs(ks: Seq<(usize, usize)>, r1: int, r2: int, i: int)
    requires
        0 <= i <= ks.len(),
    ensures
        gram_upto(ks, r1, r2, i) == pair_count(row_pairs(ks, r1, r2), i, ks.len() as int),
    decreases i,
{
    if i > 0 {
        lemma_gram_upto_pairs(ks, r1, r2, i - 1);
        let q = row_pairs(ks, r1, r2);
        lemma_count_ext(|j: int| q(i - 1, j), if key_id(ks, i - 1) == r1 {
            shares_large_key(ks, i - 1, r2)
        } else {
            |j: int| false
        }, ks.len() as int);
        if key_id(ks, i - 1) != r1 {
            lemma_count_none(ks.len() as int);
        }
    }
}

proof fn lemma_count_none(k: int)
    ensures
        count(|j: int| false, k) == 0,
    decreases k,
{
    if k > 0 {
        lemma_count_none(k - 1);
    }
}

/// The Gram matrix of a cut is symmetric: `G[r1][r2] = G[r2][r1]`, both
/// counting the pairs of transitions in rows `r1` and `r2` that share a
/// large key.
pub proof fn law_gram_symmetric(ks: Seq<(usize, usize)>, r1: int, r2: int)
    ensures
        gram_entry(ks, r1, r2) == gram_entry(ks, r2, r1),
{
    let n = ks.len() as int;
    lemma_gram_upto_pairs(ks, r1, r2, n);
    lemma_gram_upto_pairs(ks, r2, r1, n);
    lemma_pair_count_transpose(row_pairs(ks, r1, r2), n, n);
    lemma_pair_count_ext(transpose(row_pairs(ks, r1, r2)), row_pairs(ks, r2, r1), n, n);
}

} // verus!
