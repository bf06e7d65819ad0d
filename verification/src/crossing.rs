//! **Crossing dimension-wave strands**: two strands `A` and `B` sharing one
//! chain, crossed pairwise — antiparallel (`A[i] ~ B[n−1−i]`, an X) or
//! parallel (`A[i] ~ B[i]`, a ladder) — and coupled where the paired sites
//! have equal dimension.
//!
//! The site order is a representation choice: [`Layout::Block`] lays `A`
//! then `B` (the A|B bipartition is the single bond `n−1`), while
//! [`Layout::Interleaved`] places each crossing pair on adjacent sites so
//! every coupler is nearest-neighbour.
use vstd::prelude::*;

verus! {

/// How the two strands' sites are ordered along the shared chain.
#[derive(Clone, Copy, PartialEq, Eq, Debug)]
pub enum Layout {
    Block,
    Interleaved,
}

/// Two dimension-wave strands sharing one chain, crossed pairwise.
pub struct Crossing {
    /// Strand `A` profile.
    pub a: Vec<usize>,
    /// Strand `B` profile.
    pub b: Vec<usize>,
    /// Antiparallel pairing `A[i] ~ B[n−1−i]` (the X); else parallel
    /// `A[i] ~ B[i]` (a ladder).
    pub antiparallel: bool,
    /// Site ordering along the shared chain.
    pub layout: Layout,
}

/// The partner of strand-A site `i` on strand B.
pub open spec fn partner_spec(x: &Crossing, i: int) -> int {
    if x.antiparallel {
        x.a@.len() - 1 - i
    } else {
        i
    }
}

/// Chain position of strand-A site `i`.
pub open spec fn ga_spec(x: &Crossing, i: int) -> int {
    match x.layout {
        Layout::Block => i,
        Layout::Interleaved => 2 * i,
    }
}

/// Chain position of strand-B site `j`.
pub open spec fn gb_spec(x: &Crossing, j: int) -> int {
    match x.layout {
        Layout::Block => x.a@.len() + j,
        Layout::Interleaved => 2 * (if x.antiparallel { x.a@.len() - 1 - j } else { j }) + 1,
    }
}

/// The strands are paired site by site and small enough to index the
/// doubled chain.
pub open spec fn paired(x: &Crossing) -> bool {
    &&& x.a@.len() == x.b@.len()
    &&& 2 * x.a@.len() + 1 <= usize::MAX
}

/// The crossing pairs `(A position, B position, shared dim)` among the
/// first `m` strand-A sites, where the paired sites have equal dimension.
pub open spec fn pairs_upto(x: &Crossing, m: int) -> Seq<(usize, usize, usize)>
    decreases m,
{
    if m <= 0 {
        Seq::empty()
    } else {
        let i = m - 1;
        let j = partner_spec(x, i);
        pairs_upto(x, m - 1) + (if x.a@[i] == x.b@[j] {
            seq![(ga_spec(x, i) as usize, gb_spec(x, j) as usize, x.a@[i])]
        } else {
            Seq::empty()
        })
    }
}

/// All crossing pairs.
pub open spec fn pairs_spec(x: &Crossing) -> Seq<(usize, usize, usize)> {
    pairs_upto(x, x.a@.len() as int)
}

/// The pairs among `ps` whose shared dimension lies in `levels`.
pub open spec fn pairs_at_levels(ps: Seq<(usize, usize, usize)>, levels: Seq<usize>) -> Seq<(usize, usize, usize)>
    decreases ps.len(),
{
    if ps.len() == 0 {
        Seq::empty()
    } else {
        pairs_at_levels(ps.drop_last(), levels) + (if levels.contains(ps.last().2) { seq![ps.last()] } else { Seq::empty() })
    }
}

/// Product of the shared dimensions of some pairs.
pub open spec fn pairs_dim_product(ps: Seq<(usize, usize, usize)>) -> int
    decreases ps.len(),
{
    if ps.len() == 0 {
        1
    } else {
        pairs_dim_product(ps.drop_last()) * ps.last().2
    }
}

impl Crossing {
    pub fn new(a: &[usize], b: &[usize], antiparallel: bool) -> (x: Crossing)
        requires
            a@.len() == b@.len(),
        ensures
            x.a@ == a@,
            x.b@ == b@,
            x.antiparallel == antiparallel,
            x.layout == Layout::Block,
    {
        Crossing { a: crate::chain::copy_dims(a), b: crate::chain::copy_dims(b), antiparallel, layout: Layout::Block }
    }

    /// Two identical strands (the usual X), in [`Layout::Block`].
    pub fn twin(strand: &[usize], antiparallel: bool) -> (x: Crossing)
        ensures
            x.a@ == strand@,
            x.b@ == strand@,
            x.antiparallel == antiparallel,
            x.layout == Layout::Block,
    {
        Crossing::new(strand, strand, antiparallel)
    }

    /// Same crossing, re-laid in `layout`.
    pub fn with_layout(self, layout: Layout) -> (x: Crossing)
        ensures
            x.a@ == self.a@,
            x.b@ == self.b@,
            x.antiparallel == self.antiparallel,
            x.layout == layout,
    {
        let mut x = self;
        x.layout = layout;
        x
    }

    /// Sites per strand.
    pub fn n(&self) -> (n: usize)
        ensures
            n == self.a@.len(),
    {
        self.a.len()
    }

    /// Chain position of strand-A site `i`.
    pub fn ga(&self, i: usize) -> (g: usize)
        requires
            self.layout == Layout::Interleaved ==> 2 * i <= usize::MAX,
        ensures
            g == ga_spec(self, i as int),
    {
        match self.layout {
            Layout::Block => i,
            Layout::Interleaved => 2 * i,
        }
    }

    /// Chain position of strand-B site `j`.
    pub fn gb(&self, j: usize) -> (g: usize)
        requires
            self.layout == Layout::Block ==> self.a@.len() + j <= usize::MAX,
            self.layout == Layout::Interleaved && self.antiparallel ==> j < self.a@.len(),
            self.layout == Layout::Interleaved ==> 2 * (if self.antiparallel { self.a@.len() - 1 - j } else { j as int }) + 1 <= usize::MAX,
        ensures
            g == gb_spec(self, j as int),
    {
        match self.layout {
            Layout::Block => self.n() + j,
            Layout::Interleaved => {
                let i = if self.antiparallel { self.n() - 1 - j } else { j };
                2 * i + 1
            },
        }
    }

    /// The bond whose entropy is the A|B entanglement — a single bond only
    /// in [`Layout::Block`], where A and B are contiguous.
    pub fn ab_cut(&self) -> (c: usize)
        requires
            self.layout == Layout::Block,
            self.a@.len() >= 1,
        ensures
            c == self.a@.len() - 1,
    {
        self.a.len() - 1
    }

    /// The partner of strand-A site `i` on strand B.
    fn partner(&self, i: usize) -> (j: usize)
        requires
            i < self.a@.len(),
        ensures
            j == partner_spec(self, i as int),
    {
        if self.antiparallel {
            self.n() - 1 - i
        } else {
            i
        }
    }

    /// Combined chain dimensions, in this crossing's layout order.
    pub fn dims(&self) -> (d: Vec<usize>)
        requires
            paired(self),
        ensures
            d@.len() == 2 * self.a@.len(),
            forall|i: int| 0 <= i < self.a@.len() ==> d@[ga_spec(self, i)] == #[trigger] self.a@[i],
            forall|j: int| 0 <= j < self.b@.len() ==> d@[gb_spec(self, j)] == #[trigger] self.b@[j],
    {
        let n = self.n();
        match self.layout {
            Layout::Block => {
                let mut d = crate::chain::copy_dims(self.a.as_slice());
                let mut j: usize = 0;
                while j < n
                    invariant
                        paired(self),
                        self.layout == Layout::Block,
                        n == self.a@.len(),
                        j <= n,
                        d@ =~= self.a@ + self.b@.take(j as int),
                    decreases n - j,
                {
                    d.push(self.b[j]);
                    j = j + 1;
                    assert(d@ =~= self.a@ + self.b@.take(j as int));
                }
                assert(self.b@.take(n as int) =~= self.b@);
                d
            },
            Layout::Interleaved => {
                let mut d: Vec<usize> = Vec::new();
                let mut i: usize = 0;
                while i < n
                    invariant
                        paired(self),
                        self.layout == Layout::Interleaved,
                        n == self.a@.len(),
                        i <= n,
                        d@.len() == 2 * i,
                        forall|q: int| 0 <= q < i ==> d@[2 * q] == #[trigger] self.a@[q],
                        forall|q: int| 0 <= q < i ==> d@[2 * q + 1] == #[trigger] self.b@[partner_spec(self, q)],
                    decreases n - i,
                {
                    let j = self.partner(i);
                    d.push(self.a[i]);
                    d.push(self.b[j]);
                    i = i + 1;
                }
                proof {
                    assert forall|j: int| 0 <= j < self.b@.len() implies d@[gb_spec(self, j)] == #[trigger] self.b@[j] by {
                        let q = if self.antiparallel { n - 1 - j } else { j };
                        assert(partner_spec(self, q) == j);
                        assert(d@[2 * q + 1] == self.b@[partner_spec(self, q)]);
                    }
                }
                d
            },
        }
    }

    /// Crossing pairs `(A position, B position, shared dim)` — only where
    /// the paired sites have equal dimension.
    pub fn pairs(&self) -> (ps: Vec<(usize, usize, usize)>)
        requires
            paired(self),
        ensures
            ps@ == pairs_spec(self),
    {
        let n = self.n();
        let mut ps: Vec<(usize, usize, usize)> = Vec::new();
        let mut i: usize = 0;
        while i < n
            invariant
                paired(self),
                n == self.a@.len(),
                i <= n,
                ps@ == pairs_upto(self, i as int),
            decreases n - i,
        {
            let j = self.partner(i);
            if self.a[i] == self.b[j] {
                let g1 = self.ga(i);
                let g2 = self.gb(j);
                ps.push((g1, g2, self.a[i]));
            }
            i = i + 1;
        }
        ps
    }

    /// Crossing pairs whose shared dimension is in `levels`.
    pub fn pairs_at(&self, levels: &[usize]) -> (ps: Vec<(usize, usize, usize)>)
        requires
            paired(self),
        ensures
            ps@ == pairs_at_levels(pairs_spec(self), levels@),
    {
        let all = self.pairs();
        let mut ps: Vec<(usize, usize, usize)> = Vec::new();
        let mut k: usize = 0;
        while k < all.len()
            invariant
                k <= all@.len(),
                ps@ == pairs_at_levels(all@.take(k as int), levels@),
            decreases all@.len() - k,
        {
            let (g1, g2, dim) = all[k];
            let hit = contains_level(levels, dim);
            if hit {
                ps.push((g1, g2, dim));
            }
            proof {
                assert(all@.take(k + 1).drop_last() =~= all@.take(k as int));
            }
            k = k + 1;
        }
        assert(all@.take(all@.len() as int) =~= all@);
        ps
    }

    /// Predicted A|B Schmidt rank of Bell-coupling `levels`: the product of
    /// the shared dimensions of the active pairs.
    pub fn bell_rank(&self, levels: &[usize]) -> (r: usize)
        requires
            paired(self),
            forall|k: int| 0 <= k <= pairs_at_levels(pairs_spec(self), levels@).len()
                ==> #[trigger] pairs_dim_product(pairs_at_levels(pairs_spec(self), levels@).take(k)) <= usize::MAX,
        ensures
            r == pairs_dim_product(pairs_at_levels(pairs_spec(self), levels@)),
    {
        let ps = self.pairs_at(levels);
        let mut r: usize = 1;
        let mut k: usize = 0;
        while k < ps.len()
            invariant
                k <= ps@.len(),
                forall|q: int| 0 <= q <= ps@.len() ==> #[trigger] pairs_dim_product(ps@.take(q)) <= usize::MAX,
                r == pairs_dim_product(ps@.take(k as int)),
            decreases ps@.len() - k,
        {
            proof {
                assert(ps@.take(k + 1).drop_last() =~= ps@.take(k as int));
                assert(pairs_dim_product(ps@.take(k + 1)) <= usize::MAX);
            }
            r = r * ps[k].2;
            k = k + 1;
        }
        assert(ps@.take(ps@.len() as int) =~= ps@);
        r
    }
}

/// Every crossing pair joins a strand-A site to its partner, both of the
/// shared dimension: pair `k` is `(ga(i), gb(partner(i)), a[i])` for some
/// site `i` with `a[i] = b[partner(i)]`.
pub proof fn law_pairs_join_partners(x: &Crossing, m: int, k: int) -> (i: int)
    requires
        paired(x),
        0 <= m <= x.a@.len(),
        0 <= k < pairs_upto(x, m).len(),
    ensures
        0 <= i < m,
        x.a@[i] == x.b@[partner_spec(x, i)],
        pairs_upto(x, m)[k] == (ga_spec(x, i) as usize, gb_spec(x, partner_spec(x, i)) as usize, x.a@[i]),
    decreases m,
{
    let prev = pairs_upto(x, m - 1);
    if k < prev.len() {
        law_pairs_join_partners(x, m - 1, k)
    } else {
        m - 1
    }
}

/// In the interleaved layout every crossing pair sits on adjacent chain
/// sites — every coupler is nearest-neighbour.
pub proof fn law_interleaved_pairs_are_adjacent(x: &Crossing)
    requires
        paired(x),
        x.layout == Layout::Interleaved,
    ensures
        forall|k: int| 0 <= k < pairs_spec(x).len() ==> (#[trigger] pairs_spec(x)[k]).1 == pairs_spec(x)[k].0 + 1,
{
    assert forall|k: int| 0 <= k < pairs_spec(x).len() implies (#[trigger] pairs_spec(x)[k]).1 == pairs_spec(x)[k].0 + 1 by {
        let i = law_pairs_join_partners(x, x.a@.len() as int, k);
    }
}

/// The strand site at chain position `p`: `(true, i)` for `A[i]`,
/// `(false, j)` for `B[j]`.
pub open spec fn chain_site(x: &Crossing, p: int) -> (bool, int) {
    let n = x.a@.len() as int;
    match x.layout {
        Layout::Block => if p < n { (true, p) } else { (false, p - n) },
        Layout::Interleaved => if p % 2 == 0 {
            (true, p / 2)
        } else {
            (false, if x.antiparallel { n - 1 - p / 2 } else { p / 2 })
        },
    }
}

/// Either layout is a bijection of the two strands onto the chain: strand-A
/// and strand-B sites land on distinct positions covering `[0, 2n)`.
pub proof fn law_layout_is_a_bijection(x: &Crossing)
    requires
        paired(x),
    ensures
        forall|i: int| 0 <= i < x.a@.len() ==> 0 <= #[trigger] ga_spec(x, i) < 2 * x.a@.len(),
        forall|j: int| 0 <= j < x.a@.len() ==> 0 <= #[trigger] gb_spec(x, j) < 2 * x.a@.len(),
        forall|i1: int, i2: int| 0 <= i1 < i2 < x.a@.len() ==> #[trigger] ga_spec(x, i1) != #[trigger] ga_spec(x, i2),
        forall|j1: int, j2: int| 0 <= j1 < j2 < x.a@.len() ==> #[trigger] gb_spec(x, j1) != #[trigger] gb_spec(x, j2),
        forall|i: int, j: int| 0 <= i < x.a@.len() && 0 <= j < x.a@.len() ==> #[trigger] ga_spec(x, i) != #[trigger] gb_spec(x, j),
        forall|p: int| 0 <= p < 2 * x.a@.len() ==> {
            let (on_a, i) = #[trigger] chain_site(x, p);
            0 <= i < x.a@.len() && (if on_a { ga_spec(x, i) == p } else { gb_spec(x, i) == p })
        },
{
    let n = x.a@.len() as int;
    assert forall|p: int| 0 <= p < 2 * n implies {
        let (on_a, i) = #[trigger] chain_site(x, p);
        0 <= i < n && (if on_a { ga_spec(x, i) == p } else { gb_spec(x, i) == p })
    } by {
        vstd::arithmetic::div_mod::lemma_fundamental_div_mod(p, 2);
        vstd::arithmetic::div_mod::lemma_mod_bound(p, 2);
    }
}

/// Whether `levels` contains `d`.
fn contains_level(levels: &[usize], d: usize) -> (b: bool)
    ensures
        b == levels@.contains(d),
{
    let mut k: usize = 0;
    while k < levels.len()
        invariant
            k <= levels@.len(),
            forall|q: int| 0 <= q < k ==> levels@[q] != d,
        decreases levels@.len() - k,
    {
        if levels[k] == d {
            return true;
        }
        k = k + 1;
    }
    false
}

/// Every crossing is coupled: each strand-A site whose partner has the same
/// dimension contributes its pair `(ga(i), gb(partner(i)), a[i])` — at any
/// dimension, 1 included.
pub proof fn law_pairs_are_complete(x: &Crossing, m: int)
    requires
        paired(x),
        0 <= m <= x.a@.len(),
    ensures
        forall|i: int|
            0 <= i < m && x.a@[i] == x.b@[partner_spec(x, i)] ==> pairs_upto(x, m).contains(
                (#[trigger] ga_spec(x, i) as usize, gb_spec(x, partner_spec(x, i)) as usize, x.a@[i]),
            ),
    decreases m,
{
    if m > 0 {
        law_pairs_are_complete(x, m - 1);
        let prev = pairs_upto(x, m - 1);
        let i0 = m - 1;
        let j0 = partner_spec(x, i0);
        let tail: Seq<(usize, usize, usize)> = if x.a@[i0] == x.b@[j0] {
            seq![(ga_spec(x, i0) as usize, gb_spec(x, j0) as usize, x.a@[i0])]
        } else {
            Seq::empty()
        };
        assert(pairs_upto(x, m) == prev + tail);
        assert forall|i: int|
            0 <= i < m && x.a@[i] == x.b@[partner_spec(x, i)] implies pairs_upto(x, m).contains(
                (#[trigger] ga_spec(x, i) as usize, gb_spec(x, partner_spec(x, i)) as usize, x.a@[i]),
            ) by {
            let t = (ga_spec(x, i) as usize, gb_spec(x, partner_spec(x, i)) as usize, x.a@[i]);
            if i < m - 1 {
                assert(prev.contains(t));
                let k = choose|k: int| 0 <= k < prev.len() && prev[k] == t;
                assert((prev + tail)[k] == t);
            } else {
                assert((prev + tail)[prev.len() as int] == t);
            }
        }
    }
}

/// Selecting pairs by level keeps every pair at a selected level.
pub proof fn law_pairs_at_levels_are_complete(ps: Seq<(usize, usize, usize)>, levels: Seq<usize>)
    ensures
        forall|k: int| 0 <= k < ps.len() && levels.contains(ps[k].2) ==> pairs_at_levels(ps, levels).contains(#[trigger] ps[k]),
    decreases ps.len(),
{
    if ps.len() > 0 {
        let init = ps.drop_last();
        law_pairs_at_levels_are_complete(init, levels);
        let prev = pairs_at_levels(init, levels);
        let tail: Seq<(usize, usize, usize)> = if levels.contains(ps.last().2) { seq![ps.last()] } else { Seq::empty() };
        assert(pairs_at_levels(ps, levels) == prev + tail);
        assert forall|k: int| 0 <= k < ps.len() && levels.contains(ps[k].2) implies pairs_at_levels(ps, levels).contains(#[trigger] ps[k]) by {
            if k < ps.len() - 1 {
                assert(init[k] == ps[k]);
                assert(prev.contains(init[k]));
                let q = choose|q: int| 0 <= q < prev.len() && prev[q] == init[k];
                assert((prev + tail)[q] == ps[k]);
            } else {
                assert((prev + tail)[prev.len() as int] == ps[k]);
            }
        }
    }
}

/// The crossing pairs are listed in strand order, each strand-A site at most
/// once: their A positions strictly increase, and all lie before site `m`.
pub proof fn law_pairs_follow_strand_order(x: &Crossing, m: int)
    requires
        paired(x),
        0 <= m <= x.a@.len(),
    ensures
        forall|k: int| 0 <= k < pairs_upto(x, m).len() ==> (#[trigger] pairs_upto(x, m)[k]).0 < ga_spec(x, m),
        forall|k1: int, k2: int|
            0 <= k1 < k2 < pairs_upto(x, m).len() ==> (#[trigger] pairs_upto(x, m)[k1]).0 < (#[trigger] pairs_upto(x, m)[k2]).0,
    decreases m,
{
    if m > 0 {
        law_pairs_follow_strand_order(x, m - 1);
        let prev = pairs_upto(x, m - 1);
        let i0 = m - 1;
        let j0 = partner_spec(x, i0);
        let tail: Seq<(usize, usize, usize)> = if x.a@[i0] == x.b@[j0] {
            seq![(ga_spec(x, i0) as usize, gb_spec(x, j0) as usize, x.a@[i0])]
        } else {
            Seq::empty()
        };
        let cur = pairs_upto(x, m);
        assert(cur == prev + tail);
        assert(ga_spec(x, m - 1) < ga_spec(x, m));
        assert(0 <= ga_spec(x, m - 1) < 2 * x.a@.len());
        assert forall|k: int| 0 <= k < cur.len() implies (#[trigger] cur[k]).0 < ga_spec(x, m) by {
            if k < prev.len() {
                assert(cur[k] == prev[k]);
            }
        }
        assert forall|k1: int, k2: int| 0 <= k1 < k2 < cur.len() implies (#[trigger] cur[k1]).0 < (#[trigger] cur[k2]).0 by {
            assert(cur[k1] == prev[k1]);
            if k2 < prev.len() {
                assert(cur[k2] == prev[k2]);
            } else {
                assert(prev[k1].0 < ga_spec(x, m - 1));
            }
        }
    }
}

} // verus!
