//! **Networks of crossing strands**: many dimension-wave strands sharing
//! one chain in a chosen site order, coupled by a graph of crossings.
//!
//! The cost of laying a coupling graph along one chain is governed by the
//! number of couplers crossing each contiguous cut (the graph's cutwidth
//! for the chosen order): a *bundle* coupled only across strands keeps every
//! rung local, an *overlay* of two crossing directions unions two matchings
//! into 4-cycles, and a *weave* of two transverse directions is a lattice.
use vstd::arithmetic::div_mod::{lemma_fundamental_div_mod_converse};
use vstd::prelude::*;

verus! {

/// An endpoint: `(strand, site)`.
pub type End = (usize, usize);

/// A coupler edge between two endpoints.
pub type Edge = (End, End);

/// Several dimension-wave strands sharing one chain in a chosen site order.
pub struct Network {
    /// Strand profiles.
    pub strands: Vec<Vec<usize>>,
    /// Chain position → `(strand, site)`.
    pub order: Vec<End>,
    /// `(strand, site)` → chain position, flattened strand by strand
    /// (maintained by the constructor; see [`Network::wf`]).
    pub pos: Vec<usize>,
    /// Start of each strand's block in `pos`.
    pub offsets: Vec<usize>,
}

/// The strand profiles as mathematical sequences.
pub open spec fn strands_view(st: Seq<Vec<usize>>) -> Seq<Seq<usize>> {
    st.map_values(|v: Vec<usize>| v@)
}

/// Total number of sites over all strands.
pub open spec fn total_sites(st: Seq<Seq<usize>>) -> int
    decreases st.len(),
{
    if st.len() == 0 {
        0
    } else {
        total_sites(st.drop_last()) + st.last().len()
    }
}

/// `(strand, site)` names a site of the strands.
pub open spec fn valid_end(st: Seq<Seq<usize>>, e: End) -> bool {
    e.0 < st.len() && e.1 < st[e.0 as int].len()
}

/// The order lists every site of the strands exactly once.
pub open spec fn lists_every_site_once(st: Seq<Seq<usize>>, order: Seq<End>) -> bool {
    &&& forall|p: int| 0 <= p < order.len() ==> valid_end(st, #[trigger] order[p])
    &&& forall|p: int, q: int| 0 <= p < q < order.len() ==> #[trigger] order[p] != #[trigger] order[q]
    &&& forall|e: End| valid_end(st, e) ==> exists|p: int| 0 <= p < order.len() && #[trigger] order[p] == e
}

/// Local dimension at chain position `p`.
pub open spec fn dim_at(st: Seq<Seq<usize>>, order: Seq<End>, p: int) -> usize {
    st[order[p].0 as int][order[p].1 as int]
}

spec fn offset(st: Seq<Seq<usize>>, s: int) -> int {
    total_sites(st.take(s))
}

proof fn lemma_offset_step(st: Seq<Seq<usize>>, s: int)
    requires
        0 <= s < st.len(),
    ensures
        offset(st, s + 1) == offset(st, s) + st[s].len(),
{
    assert(st.take(s + 1).drop_last() =~= st.take(s));
}

proof fn lemma_offset_mono(st: Seq<Seq<usize>>, s: int, t: int)
    requires
        0 <= s <= t <= st.len(),
    ensures
        offset(st, s) <= offset(st, t),
    decreases t - s,
{
    if s < t {
        lemma_offset_mono(st, s, t - 1);
        lemma_offset_step(st, t - 1);
    }
}

spec fn flat(st: Seq<Seq<usize>>, e: End) -> int {
    offset(st, e.0 as int) + e.1
}

proof fn lemma_flat_bounds(st: Seq<Seq<usize>>, e: End)
    requires
        valid_end(st, e),
    ensures
        0 <= flat(st, e) < total_sites(st),
{
    lemma_offset_step(st, e.0 as int);
    lemma_offset_mono(st, e.0 as int + 1, st.len() as int);
    assert(st.take(st.len() as int) =~= st);
    lemma_offset_mono(st, 0, e.0 as int);
}

proof fn lemma_flat_injective(st: Seq<Seq<usize>>, e1: End, e2: End)
    requires
        valid_end(st, e1),
        valid_end(st, e2),
        e1 != e2,
    ensures
        flat(st, e1) != flat(st, e2),
{
    if e1.0 < e2.0 {
        lemma_offset_step(st, e1.0 as int);
        lemma_offset_mono(st, e1.0 as int + 1, e2.0 as int);
    } else if e2.0 < e1.0 {
        lemma_offset_step(st, e2.0 as int);
        lemma_offset_mono(st, e2.0 as int + 1, e1.0 as int);
    }
}

impl Network {
    /// The strand profiles.
    pub open spec fn strands_seq(&self) -> Seq<Seq<usize>> {
        strands_view(self.strands@)
    }

    /// The chain order, position → `(strand, site)`.
    pub open spec fn order_seq(&self) -> Seq<End> {
        self.order@
    }

    /// The order lists every site once and the private position index
    /// inverts it.
    pub closed spec fn wf(&self) -> bool {
        let st = strands_view(self.strands@);
        &&& lists_every_site_once(st, self.order@)
        &&& self.offsets@.len() == st.len()
        &&& forall|s: int| 0 <= s < st.len() ==> #[trigger] self.offsets@[s] == offset(st, s)
        &&& self.pos@.len() == total_sites(st)
        &&& forall|p: int| 0 <= p < self.order@.len() ==> self.pos@[flat(st, #[trigger] self.order@[p])] == p
    }

    /// A well-formed network's order lists every site of its strands
    /// exactly once.
    pub proof fn lemma_wf_lists_every_site_once(&self)
        requires
            self.wf(),
        ensures
            lists_every_site_once(self.strands_seq(), self.order_seq()),
    {
    }

    /// A network over `strands` laid along the chain in `order`
    /// (position → `(strand, site)`); the order must list every site once.
    pub fn new(strands: Vec<Vec<usize>>, order: Vec<End>) -> (net: Network)
        requires
            lists_every_site_once(strands_view(strands@), order@),
            total_sites(strands_view(strands@)) <= usize::MAX,
        ensures
            net.strands_seq() == strands_view(strands@),
            net.order_seq() == order@,
            net.wf(),
    {
        let ghost st = strands_view(strands@);
        let mut offsets: Vec<usize> = Vec::new();
        let mut total: usize = 0;
        let mut s: usize = 0;
        while s < strands.len()
            invariant
                st == strands_view(strands@),
                total_sites(st) <= usize::MAX,
                s <= strands@.len(),
                offsets@.len() == s,
                total == offset(st, s as int),
                forall|t: int| 0 <= t < s ==> #[trigger] offsets@[t] == offset(st, t),
            decreases strands@.len() - s,
        {
            offsets.push(total);
            proof {
                lemma_offset_step(st, s as int);
                lemma_offset_mono(st, s as int + 1, st.len() as int);
                assert(st.take(st.len() as int) =~= st);
                assert(st[s as int] == strands@[s as int]@);
            }
            total = total + strands[s].len();
            s = s + 1;
        }
        proof {
            assert(st.take(st.len() as int) =~= st);
        }
        let mut pos: Vec<usize> = Vec::new();
        let mut j: usize = 0;
        while j < total
            invariant
                j <= total,
                pos@.len() == j,
            decreases total - j,
        {
            pos.push(0);
            j = j + 1;
        }
        let mut p: usize = 0;
        while p < order.len()
            invariant
                st == strands_view(strands@),
                lists_every_site_once(st, order@),
                total == total_sites(st),
                offsets@.len() == st.len(),
                forall|t: int| 0 <= t < st.len() ==> #[trigger] offsets@[t] == offset(st, t),
                pos@.len() == total,
                p <= order@.len(),
                forall|q: int| 0 <= q < p ==> pos@[flat(st, #[trigger] order@[q])] == q,
            decreases order@.len() - p,
        {
            let (s, i) = order[p];
            proof {
                assert(valid_end(st, order@[p as int]));
                lemma_flat_bounds(st, (s, i));
                assert forall|q: int| 0 <= q < p implies flat(st, #[trigger] order@[q]) != flat(st, (s, i)) by {
                    assert(valid_end(st, order@[q]));
                    lemma_flat_injective(st, order@[q], (s, i));
                }
            }
            assert(offsets@[s as int] == offset(st, s as int));
            let ghost old_pos = pos@;
            assert(forall|q: int| 0 <= q < p ==> old_pos[flat(st, #[trigger] order@[q])] == q);
            pos.set(offsets[s] + i, p);
            proof {
                assert(pos@ == old_pos.update(flat(st, (s, i)), p as usize));
                assert(order@[p as int] == (s, i));
                assert(pos@[flat(st, order@[p as int])] == p);
                assert forall|q: int| 0 <= q < p + 1 implies pos@[flat(st, #[trigger] order@[q])] == q by {
                    if q < p {
                        assert(valid_end(st, order@[q]));
                        lemma_flat_injective(st, order@[q], (s, i));
                        lemma_flat_bounds(st, order@[q]);
                        assert(old_pos[flat(st, order@[q])] == q);
                    }
                }
            }
            p = p + 1;
        }
        Network { strands, order, pos, offsets }
    }

    /// Combined chain dimensions, in chain order.
    pub fn dims(&self) -> (d: Vec<usize>)
        requires
            self.wf(),
        ensures
            d@.len() == self.order_seq().len(),
            forall|p: int| 0 <= p < d@.len() ==> d@[p] == dim_at(self.strands_seq(), self.order_seq(), p),
    {
        let mut d: Vec<usize> = Vec::new();
        let mut p: usize = 0;
        while p < self.order.len()
            invariant
                self.wf(),
                p <= self.order@.len(),
                d@.len() == p,
                forall|q: int| 0 <= q < p ==> d@[q] == dim_at(strands_view(self.strands@), self.order@, q),
            decreases self.order@.len() - p,
        {
            proof {
                assert(valid_end(strands_view(self.strands@), self.order@[p as int]));
            }
            let (s, i) = self.order[p];
            d.push(self.strands[s][i]);
            p = p + 1;
        }
        d
    }

    /// Total sites (the shared chain length).
    pub fn len(&self) -> (n: usize)
        ensures
            n == self.order_seq().len(),
    {
        self.order.len()
    }

    pub fn is_empty(&self) -> (b: bool)
        ensures
            b == (self.order_seq().len() == 0),
    {
        self.order.len() == 0
    }

    /// Chain position of `(strand, site)`.
    pub fn global(&self, s: usize, i: usize) -> (p: usize)
        requires
            self.wf(),
            valid_end(self.strands_seq(), (s, i)),
        ensures
            p < self.order_seq().len(),
            self.order_seq()[p as int] == (s, i),
    {
        let ghost st = strands_view(self.strands@);
        proof {
            let q = choose|q: int| 0 <= q < self.order@.len() && #[trigger] self.order@[q] == (s, i);
            assert(self.pos@[flat(st, self.order@[q])] == q);
            lemma_flat_bounds(st, (s, i));
            assert(self.offsets@[s as int] == offset(st, s as int));
        }
        let _n = self.pos.len();
        self.pos[self.offsets[s] + i]
    }

    /// Local dimension of an endpoint.
    pub fn dim(&self, e: End) -> (d: usize)
        requires
            self.wf(),
            valid_end(self.strands_seq(), e),
        ensures
            d == self.strands_seq()[e.0 as int][e.1 as int],
    {
        self.strands[e.0][e.1]
    }
}

/// Chain position of grid cell `(r, c)` in column-major order over `rows`.
pub open spec fn slot(c: int, rows: int, r: int) -> int {
    c * rows + r
}

proof fn lemma_slot(c: int, rows: int, r: int, cols: int)
    requires
        0 <= r < rows,
        0 <= c < cols,
    ensures
        0 <= slot(c, rows, r) < rows * cols,
        slot(c, rows, r) / rows == c,
        slot(c, rows, r) % rows == r,
{
    assert(0 <= c * rows + r < rows * cols) by (nonlinear_arith) requires 0 <= r < rows, 0 <= c < cols;
    assert(c * rows + r == rows * c + r) by (nonlinear_arith);
    lemma_fundamental_div_mod_converse(c * rows + r, rows, c, r);
}

/// `k` copies of one profile.
pub open spec fn copies(p: Seq<usize>, k: int) -> Seq<Seq<usize>> {
    Seq::new(k as nat, |s: int| p)
}

proof fn lemma_total_copies(p: Seq<usize>, k: int)
    requires
        k >= 0,
    ensures
        total_sites(copies(p, k)) == k * p.len(),
    decreases k,
{
    if k > 0 {
        assert(copies(p, k).drop_last() =~= copies(p, k - 1));
        assert(copies(p, k).last() == p);
        lemma_total_copies(p, k - 1);
        assert(total_sites(copies(p, k)) == total_sites(copies(p, k).drop_last()) + copies(p, k).last().len());
        assert((k - 1) * p.len() + p.len() == k * p.len()) by (nonlinear_arith);
    } else {
        assert(copies(p, k).len() == 0);
        assert(k * p.len() == 0) by (nonlinear_arith) requires k == 0;
    }
}

/// The column-major order of `rows` strands of `cols` sites: every column's
/// sites adjacent, strand index fastest.
pub open spec fn is_column_major(order: Seq<End>, rows: int, cols: int) -> bool {
    &&& order.len() == rows * cols
    &&& forall|c: int, r: int| 0 <= c < cols && 0 <= r < rows ==> #[trigger] order[slot(c, rows, r)] == (r as usize, c as usize)
}

proof fn lemma_column_major_lists_every_site(st: Seq<Seq<usize>>, order: Seq<End>, rows: int, cols: int)
    requires
        rows >= 0,
        cols >= 0,
        rows * cols <= usize::MAX,
        st.len() == rows,
        forall|r: int| 0 <= r < rows ==> (#[trigger] st[r]).len() == cols,
        is_column_major(order, rows, cols),
    ensures
        lists_every_site_once(st, order),
{
    if rows == 0 {
        assert(order.len() == 0) by (nonlinear_arith) requires order.len() == rows * cols, rows == 0;
        return;
    }
    assert forall|p: int| 0 <= p < order.len() implies valid_end(st, #[trigger] order[p]) && order[p] == ((p % rows) as usize, (p / rows) as usize) by {
        vstd::arithmetic::div_mod::lemma_fundamental_div_mod(p, rows);
        vstd::arithmetic::div_mod::lemma_mod_bound(p, rows);
        let c = p / rows;
        let r = p % rows;
        assert(0 <= c < cols) by (nonlinear_arith) requires p == rows * c + r, 0 <= r < rows, 0 <= p < rows * cols, rows >= 1;
        assert(p == slot(c, rows, r)) by (nonlinear_arith) requires p == rows * c + r;
        assert(order[slot(c, rows, r)] == (r as usize, c as usize));
        assert(rows <= rows * cols) by (nonlinear_arith) requires cols >= 1, rows >= 1;
    }
    assert forall|p: int, q: int| 0 <= p < q < order.len() implies #[trigger] order[p] != #[trigger] order[q] by {
        vstd::arithmetic::div_mod::lemma_fundamental_div_mod(p, rows);
        vstd::arithmetic::div_mod::lemma_fundamental_div_mod(q, rows);
        assert(order[p] == ((p % rows) as usize, (p / rows) as usize));
        assert(order[q] == ((q % rows) as usize, (q / rows) as usize));
        vstd::arithmetic::div_mod::lemma_mod_bound(p, rows);
        vstd::arithmetic::div_mod::lemma_mod_bound(q, rows);
        vstd::arithmetic::div_mod::lemma_div_pos_is_pos(p, rows);
        vstd::arithmetic::div_mod::lemma_div_pos_is_pos(q, rows);
        assert(p / rows <= p) by {
            vstd::arithmetic::div_mod::lemma_div_is_ordered_by_denominator(p, 1, rows);
        }
        assert(q / rows <= q) by {
            vstd::arithmetic::div_mod::lemma_div_is_ordered_by_denominator(q, 1, rows);
        }
    }
    assert forall|e: End| valid_end(st, e) implies exists|p: int| 0 <= p < order.len() && #[trigger] order[p] == e by {
        lemma_slot(e.1 as int, rows, e.0 as int, cols);
        assert(order[slot(e.1 as int, rows, e.0 as int)] == e);
    }
}

/// In column-major order every grid column occupies one contiguous block of
/// chain positions.
proof fn lemma_column_major_at(order: Seq<End>, rows: int, cols: int, p: int)
    requires
        rows >= 1,
        rows * cols <= usize::MAX,
        is_column_major(order, rows, cols),
        0 <= p < order.len(),
    ensures
        order[p] == ((p % rows) as usize, (p / rows) as usize),
        0 <= p / rows < cols,
        0 <= p % rows < rows,
{
    vstd::arithmetic::div_mod::lemma_fundamental_div_mod(p, rows);
    vstd::arithmetic::div_mod::lemma_mod_bound(p, rows);
    let c = p / rows;
    let r = p % rows;
    assert(0 <= c < cols) by (nonlinear_arith) requires p == rows * c + r, 0 <= r < rows, 0 <= p < rows * cols, rows >= 1;
    assert(p == slot(c, rows, r)) by (nonlinear_arith) requires p == rows * c + r;
    assert(order[slot(c, rows, r)] == (r as usize, c as usize));
}

/// Every rung of a bundle is local: the `k` sites of column `i` occupy the
/// contiguous chain positions `[i·k, i·k + k)`, so no two rungs straddle a
/// common cut — one crossing direction has cutwidth 1 for any number of
/// strands.
pub proof fn law_bundle_rungs_are_local(order: Seq<End>, k: int, n: int)
    requires
        k >= 1,
        k * n <= usize::MAX,
        is_column_major(order, k, n),
    ensures
        forall|p: int| 0 <= p < order.len() ==> (#[trigger] order[p]).1 * k <= p < order[p].1 * k + k,
        forall|a1: int, b1: int, a2: int, b2: int|
            0 <= a1 < b1 < order.len() && 0 <= a2 < b2 < order.len() && a2 < b1 && a1 < b2
                && (#[trigger] order[a1]).1 == (#[trigger] order[b1]).1
                && (#[trigger] order[a2]).1 == (#[trigger] order[b2]).1
                ==> order[a1].1 == order[a2].1,
{
    assert forall|p: int| 0 <= p < order.len() implies (#[trigger] order[p]).1 * k <= p < order[p].1 * k + k by {
        lemma_column_major_at(order, k, n, p);
        vstd::arithmetic::div_mod::lemma_fundamental_div_mod(p, k);
        let c = p / k;
        let r = p % k;
        assert(c * k <= p < c * k + k) by (nonlinear_arith) requires p == k * c + r, 0 <= r < k;
    }
    assert forall|a1: int, b1: int, a2: int, b2: int|
        0 <= a1 < b1 < order.len() && 0 <= a2 < b2 < order.len() && a2 < b1 && a1 < b2
            && (#[trigger] order[a1]).1 == (#[trigger] order[b1]).1
            && (#[trigger] order[a2]).1 == (#[trigger] order[b2]).1
        implies order[a1].1 == order[a2].1 by {
        let c = if a1 < a2 { a2 } else { a1 };
        lemma_column_major_at(order, k, n, a1);
        lemma_column_major_at(order, k, n, b1);
        lemma_column_major_at(order, k, n, a2);
        lemma_column_major_at(order, k, n, b2);
        vstd::arithmetic::div_mod::lemma_div_is_ordered(a1, c, k);
        vstd::arithmetic::div_mod::lemma_div_is_ordered(c, b1, k);
        vstd::arithmetic::div_mod::lemma_div_is_ordered(a2, c, k);
        vstd::arithmetic::div_mod::lemma_div_is_ordered(c, b2, k);
    }
}

/// Builds the column-major order of a `rows × cols` grid.
fn column_major(rows: usize, cols: usize) -> (order: Vec<End>)
    requires
        rows * cols <= usize::MAX,
    ensures
        is_column_major(order@, rows as int, cols as int),
{
    let mut order: Vec<End> = Vec::new();
    let mut c: usize = 0;
    while c < cols
        invariant
            rows * cols <= usize::MAX,
            c <= cols,
            order@.len() == c * rows,
            forall|c2: int, r2: int| 0 <= c2 < c && 0 <= r2 < rows ==> #[trigger] order@[slot(c2, rows as int, r2)] == (r2 as usize, c2 as usize),
        decreases cols - c,
    {
        let mut r: usize = 0;
        while r < rows
            invariant
                rows * cols <= usize::MAX,
                c < cols,
                r <= rows,
                order@.len() == c * rows + r,
                forall|c2: int, r2: int| 0 <= c2 < c && 0 <= r2 < rows ==> #[trigger] order@[slot(c2, rows as int, r2)] == (r2 as usize, c2 as usize),
                forall|r2: int| 0 <= r2 < r ==> #[trigger] order@[slot(c as int, rows as int, r2)] == (r2 as usize, c),
            decreases rows - r,
        {
            proof {
                assert(c * rows + r < rows * cols) by (nonlinear_arith) requires r < rows, c < cols;
                assert forall|c2: int, r2: int| 0 <= c2 < c && 0 <= r2 < rows implies slot(c2, rows as int, r2) < c * rows by {
                    assert(c2 * rows + r2 < c * rows) by (nonlinear_arith) requires c2 < c, r2 < rows;
                }
            }
            order.push((r, c));
            r = r + 1;
        }
        proof {
            assert((c + 1) * rows == c * rows + rows) by (nonlinear_arith);
        }
        c = c + 1;
    }
    proof {
        assert(cols * rows == rows * cols) by (nonlinear_arith);
    }
    order
}

/// `k` owned copies of a profile.
fn replicate(profile: &[usize], k: usize) -> (st: Vec<Vec<usize>>)
    ensures
        strands_view(st@) == copies(profile@, k as int),
{
    let mut st: Vec<Vec<usize>> = Vec::new();
    let mut s: usize = 0;
    while s < k
        invariant
            s <= k,
            st@.len() == s,
            forall|t: int| 0 <= t < s ==> (#[trigger] st@[t])@ == profile@,
        decreases k - s,
    {
        st.push(crate::chain::copy_dims(profile));
        s = s + 1;
    }
    assert(strands_view(st@) =~= copies(profile@, k as int));
    st
}

/// The sites of a profile with dimension above 1, in increasing order.
pub open spec fn rung_sites(p: Seq<usize>, m: int) -> Seq<usize>
    decreases m,
{
    if m <= 0 {
        Seq::empty()
    } else if p[m - 1] > 1 {
        rung_sites(p, m - 1).push((m - 1) as usize)
    } else {
        rung_sites(p, m - 1)
    }
}

/// A **bundle** of `k` identical strands, coupled only across the bundle
/// at each site (one GHZ rung per column) — one direction of crossing.
/// Sites are laid column-major (all strands' site `i` adjacent), so every
/// rung is local. Returns the network and its rungs (one per site of
/// dimension above 1, in site order).
pub fn bundle(profile: &[usize], k: usize) -> (res: (Network, Vec<Vec<End>>))
    requires
        k >= 1,
        k * profile@.len() <= usize::MAX,
    ensures
        res.0.wf(),
        res.0.strands_seq() == copies(profile@, k as int),
        is_column_major(res.0.order_seq(), k as int, profile@.len() as int),
        res.1@.len() == rung_sites(profile@, profile@.len() as int).len(),
        forall|g: int| 0 <= g < res.1@.len() ==> (#[trigger] res.1@[g])@ == Seq::new(
            k as nat,
            |s: int| (s as usize, rung_sites(profile@, profile@.len() as int)[g]),
        ),
{
    let n = profile.len();
    let strands = replicate(profile, k);
    let order = column_major(k, n);
    proof {
        lemma_total_copies(profile@, k as int);
        assert forall|r: int| 0 <= r < k implies (#[trigger] copies(profile@, k as int)[r]).len() == n by {}
        lemma_column_major_lists_every_site(copies(profile@, k as int), order@, k as int, n as int);
        assert(n * k == k * n) by (nonlinear_arith);
    }
    let mut groups: Vec<Vec<End>> = Vec::new();
    let mut i: usize = 0;
    while i < n
        invariant
            i <= n,
            n == profile@.len(),
            groups@.len() == rung_sites(profile@, i as int).len(),
            forall|g: int| 0 <= g < groups@.len() ==> (#[trigger] groups@[g])@ == Seq::new(
                k as nat,
                |s: int| (s as usize, rung_sites(profile@, i as int)[g]),
            ),
        decreases n - i,
    {
        if profile[i] > 1 {
            let mut grp: Vec<End> = Vec::new();
            let mut s: usize = 0;
            while s < k
                invariant
                    s <= k,
                    grp@ =~= Seq::new(s as nat, |t: int| (t as usize, i)),
                decreases k - s,
            {
                grp.push((s, i));
                s = s + 1;
            }
            groups.push(grp);
        }
        proof {
            let prev = rung_sites(profile@, i as int);
            let next = rung_sites(profile@, i as int + 1);
            assert forall|g: int| 0 <= g < prev.len() implies next[g] == prev[g] by {}
        }
        i = i + 1;
    }
    (Network::new(strands, order), groups)
}

/// The couplers of lattice cell `(r, c)` of a weave over the column profile
/// `p` with `rows` rows: the along-strand edge to `(r, c+1)` and the
/// across-strand edge to `(r+1, c)`. A plain weave (`all`) couples every
/// lattice edge; a wave weave skips edges touching a dimension-1 site.
pub open spec fn weave_cell_edges(p: Seq<usize>, rows: int, r: int, c: int, all: bool) -> Seq<Edge> {
    let cols = p.len() as int;
    let h = c + 1 < cols && (all || (p[c] > 1 && p[c + 1] > 1));
    let v = r + 1 < rows && (all || p[c] > 1);
    (if h { seq![((r as usize, c as usize), (r as usize, (c + 1) as usize))] } else { Seq::empty() })
        + (if v { seq![((r as usize, c as usize), ((r + 1) as usize, c as usize))] } else { Seq::empty() })
}

/// The couplers of the first `m` lattice cells, visited row by row.
pub open spec fn weave_edges(p: Seq<usize>, rows: int, m: int, all: bool) -> Seq<Edge>
    decreases m,
{
    if m <= 0 || p.len() == 0 {
        Seq::empty()
    } else {
        weave_edges(p, rows, m - 1, all) + weave_cell_edges(p, rows, (m - 1) / (p.len() as int), (m - 1) % (p.len() as int), all)
    }
}

/// Lays `rows` copies of the column profile `p` column-major and lists the
/// lattice couplers row by row.
fn weave_lattice(p: &Vec<usize>, rows: usize, all: bool) -> (res: (Network, Vec<Edge>))
    requires
        rows * p@.len() <= usize::MAX,
    ensures
        res.0.wf(),
        res.0.strands_seq() == copies(p@, rows as int),
        is_column_major(res.0.order_seq(), rows as int, p@.len() as int),
        res.1@ == weave_edges(p@, rows as int, rows * p@.len(), all),
{
    let cols = p.len();
    let strands = replicate(p.as_slice(), rows);
    let order = column_major(rows, cols);
    proof {
        lemma_total_copies(p@, rows as int);
        assert forall|r: int| 0 <= r < rows implies (#[trigger] copies(p@, rows as int)[r]).len() == cols by {}
        lemma_column_major_lists_every_site(copies(p@, rows as int), order@, rows as int, cols as int);
    }
    let mut edges: Vec<Edge> = Vec::new();
    let mut r: usize = 0;
    while r < rows
        invariant
            cols == p@.len(),
            rows * cols <= usize::MAX,
            r <= rows,
            edges@ == weave_edges(p@, rows as int, r * cols, all),
        decreases rows - r,
    {
        let mut c: usize = 0;
        while c < cols
            invariant
                cols == p@.len(),
                rows * cols <= usize::MAX,
                r < rows,
                c <= cols,
                edges@ == weave_edges(p@, rows as int, r * cols + c, all),
            decreases cols - c,
        {
            let ghost m = r * cols + c;
            proof {
                assert(m / (cols as int) == r && m % (cols as int) == c) by {
                    assert(m == cols * r + c) by (nonlinear_arith) requires m == r * cols + c;
                    lemma_fundamental_div_mod_converse(m, cols as int, r as int, c as int);
                }
                assert(r * cols + c < rows * cols) by (nonlinear_arith) requires r < rows, c < cols;
            }
            let ghost before = edges@;
            if c + 1 < cols && (all || (p[c] > 1 && p[c + 1] > 1)) {
                edges.push(((r, c), (r, c + 1)));
            }
            if r + 1 < rows && (all || p[c] > 1) {
                edges.push(((r, c), (r + 1, c)));
            }
            proof {
                assert(edges@ =~= before + weave_cell_edges(p@, rows as int, r as int, c as int, all));
            }
            c = c + 1;
        }
        proof {
            assert((r + 1) * cols == r * cols + cols) by (nonlinear_arith);
        }
        r = r + 1;
    }
    (Network::new(strands, order), edges)
}

/// A **weave**: `rows` strands of `cols` sites of dimension `d`, coupled on
/// every along-strand and across-strand lattice edge (a 2D lattice), laid
/// column-major. Returns the network and its edges.
pub fn weave(d: usize, rows: usize, cols: usize) -> (res: (Network, Vec<Edge>))
    requires
        rows >= 1,
        cols >= 1,
        rows * cols <= usize::MAX,
    ensures
        res.0.wf(),
        res.0.strands_seq() == copies(Seq::new(cols as nat, |c: int| d), rows as int),
        is_column_major(res.0.order_seq(), rows as int, cols as int),
        res.1@ == weave_edges(Seq::new(cols as nat, |c: int| d), rows as int, rows * cols, true),
{
    let mut p: Vec<usize> = Vec::new();
    let mut c: usize = 0;
    while c < cols
        invariant
            c <= cols,
            p@ =~= Seq::new(c as nat, |j: int| d),
        decreases cols - c,
    {
        p.push(d);
        c = c + 1;
    }
    weave_lattice(&p, rows, true)
}

/// A **wave weave**: `rows` copies of a dimension-wave `profile` stacked and
/// coupled on every along-wave and across-wave lattice edge whose sites all
/// have dimension above 1, laid column-major. Returns the network and its
/// edges.
pub fn wave_weave(profile: &[usize], rows: usize) -> (res: (Network, Vec<Edge>))
    requires
        rows * profile@.len() <= usize::MAX,
    ensures
        res.0.wf(),
        res.0.strands_seq() == copies(profile@, rows as int),
        is_column_major(res.0.order_seq(), rows as int, profile@.len() as int),
        res.1@ == weave_edges(profile@, rows as int, rows * profile@.len(), false),
{
    let p = crate::chain::copy_dims(profile);
    weave_lattice(&p, rows, false)
}

/// The overlay's site order: each 4-cycle `{A[i], B[i], A[j], B[j]}`
/// (`j = n−1−i`, `i < j`) laid contiguously from position `4i`, and for odd
/// `n` the middle pair `{A[i], B[i]}` (`i = j`) last.
pub open spec fn overlay_end(n: int, p: int) -> End {
    let b = p / 4;
    let o = p % 4;
    ((o % 2) as usize, (if o < 2 { b } else { n - 1 - b }) as usize)
}

/// Chain position of an endpoint in the overlay order.
pub open spec fn overlay_pos(n: int, e: End) -> int {
    let i = e.1 as int;
    if i <= n - 1 - i {
        4 * i + e.0
    } else {
        4 * (n - 1 - i) + 2 + e.0
    }
}

/// The couplers contributed by site `i`: the ladder `A[i]–B[i]`, and for
/// `i < n−1−i` with equal dimensions the two X edges `A[i]–B[j]`, `A[j]–B[i]`
/// (`d = 1` sites are decoupled).
pub open spec fn overlay_site_edges(p: Seq<usize>, i: int) -> Seq<Edge> {
    let n = p.len() as int;
    let j = n - 1 - i;
    (if p[i] > 1 { seq![((0usize, i as usize), (1usize, i as usize))] } else { Seq::empty() })
        + (if i < j && p[i] == p[j] && p[i] > 1 {
            seq![((0usize, i as usize), (1usize, j as usize)), ((0usize, j as usize), (1usize, i as usize))]
        } else {
            Seq::empty()
        })
}

/// The couplers of the first `m` sites.
pub open spec fn overlay_edges(p: Seq<usize>, m: int) -> Seq<Edge>
    decreases m,
{
    if m <= 0 {
        Seq::empty()
    } else {
        overlay_edges(p, m - 1) + overlay_site_edges(p, m - 1)
    }
}

proof fn lemma_overlay_end(n: int, p: int)
    requires
        0 <= p < 2 * n,
        n <= usize::MAX,
    ensures
        p / 4 <= n - 1 - p / 4,
        p % 4 >= 2 ==> p / 4 < n - 1 - p / 4,
        0 <= p % 4 < 4,
        0 <= overlay_end(n, p).1 < n,
        overlay_end(n, p).0 < 2,
        overlay_pos(n, overlay_end(n, p)) == p,
{
    vstd::arithmetic::div_mod::lemma_fundamental_div_mod(p, 4);
    vstd::arithmetic::div_mod::lemma_mod_bound(p, 4);
    let b = p / 4;
    let o = p % 4;
    assert(p == 4 * b + o);
    assert(b >= 0);
    if o == 0 {
        assert(o % 2 == 0);
    } else if o == 1 {
        assert(o % 2 == 1);
    } else if o == 2 {
        assert(o % 2 == 0);
    } else {
        assert(o % 2 == 1);
    }
}

/// Two strands crossed **both** ways at once — an antiparallel X
/// (`A[i]–B[n−1−i]`) and a parallel ladder (`A[i]–B[i]`), overlaid. The
/// coupling graph is a disjoint union of 4-cycles, each laid contiguously.
/// Returns the network and its cluster edges.
pub fn overlay(profile: &[usize]) -> (res: (Network, Vec<Edge>))
    requires
        2 * profile@.len() <= usize::MAX,
    ensures
        res.0.wf(),
        res.0.strands_seq() == copies(profile@, 2),
        res.0.order_seq().len() == 2 * profile@.len(),
        forall|q: int| 0 <= q < 2 * profile@.len() ==> #[trigger] res.0.order_seq()[q] == overlay_end(profile@.len() as int, q),
        res.1@ == overlay_edges(profile@, profile@.len() as int),
{
    let n = profile.len();
    let ghost ni = n as int;
    let strands = replicate(profile, 2);
    let mut order: Vec<End> = Vec::new();
    let mut i: usize = 0;
    while i < n
        invariant
            n == profile@.len(),
            ni == n,
            2 * n <= usize::MAX,
            i <= n,
            order@.len() == (if 2 * i <= n { 4 * i } else { 2 * n }),
            forall|q: int| 0 <= q < order@.len() ==> #[trigger] order@[q] == overlay_end(ni, q),
        decreases n - i,
    {
        let j = n - 1 - i;
        if i <= j {
            let ghost base = 4 * i;
            order.push((0, i));
            order.push((1, i));
            if j != i {
                order.push((0, j));
                order.push((1, j));
            }
            proof {
                assert forall|q: int| base <= q < order@.len() implies #[trigger] order@[q] == overlay_end(ni, q) by {
                    vstd::arithmetic::div_mod::lemma_fundamental_div_mod_converse(q, 4, i as int, q - base);
                }
            }
        }
        i = i + 1;
    }
    proof {
        let st = copies(profile@, 2);
        assert(order@.len() == 2 * n);
        lemma_total_copies(profile@, 2);
        assert forall|q: int| 0 <= q < order@.len() implies valid_end(st, #[trigger] order@[q]) by {
            lemma_overlay_end(ni, q);
        }
        assert forall|q: int, r: int| 0 <= q < r < order@.len() implies #[trigger] order@[q] != #[trigger] order@[r] by {
            lemma_overlay_end(ni, q);
            lemma_overlay_end(ni, r);
        }
        assert forall|e: End| valid_end(st, e) implies exists|q: int| 0 <= q < order@.len() && #[trigger] order@[q] == e by {
            let q = overlay_pos(ni, e);
            let i = e.1 as int;
            if i <= ni - 1 - i {
                vstd::arithmetic::div_mod::lemma_fundamental_div_mod_converse(q, 4, i, e.0 as int);
            } else {
                vstd::arithmetic::div_mod::lemma_fundamental_div_mod_converse(q, 4, ni - 1 - i, 2 + e.0);
            }
            assert(order@[q] == e);
        }
    }
    let mut edges: Vec<Edge> = Vec::new();
    let mut i: usize = 0;
    while i < n
        invariant
            n == profile@.len(),
            i <= n,
            edges@ == overlay_edges(profile@, i as int),
        decreases n - i,
    {
        let ghost before = edges@;
        if profile[i] > 1 {
            edges.push(((0, i), (1, i)));
        }
        let j = n - 1 - i;
        if i < j && profile[i] == profile[j] && profile[i] > 1 {
            edges.push(((0, i), (1, j)));
            edges.push(((0, j), (1, i)));
        }
        proof {
            assert(edges@ =~= before + overlay_site_edges(profile@, i as int));
        }
        i = i + 1;
    }
    (Network::new(strands, order), edges)
}

/// The ladder edge `A[i]–B[i]`.
pub open spec fn ladder_edge(i: int) -> Edge {
    ((0usize, i as usize), (1usize, i as usize))
}

/// The X edges `A[i]–B[n−1−i]` and `A[n−1−i]–B[i]`.
pub open spec fn x_edge_up(n: int, i: int) -> Edge {
    ((0usize, i as usize), (1usize, (n - 1 - i) as usize))
}

pub open spec fn x_edge_down(n: int, i: int) -> Edge {
    ((0usize, (n - 1 - i) as usize), (1usize, i as usize))
}

/// A coupler crosses the cut between chain positions `c` and `c + 1` of
/// the overlay order.
pub open spec fn overlay_crosses(n: int, e: Edge, c: int) -> bool {
    let a = overlay_pos(n, e.0);
    let b = overlay_pos(n, e.1);
    (a <= c < b) || (b <= c < a)
}

spec fn overlay_edge_form(n: int, i: int, e: Edge) -> bool {
    e == ladder_edge(i) || (i < n - 1 - i && (e == x_edge_up(n, i) || e == x_edge_down(n, i)))
}

proof fn lemma_overlay_edge_forms(p: Seq<usize>, m: int, e: Edge) -> (i: int)
    requires
        0 <= m <= p.len(),
        overlay_edges(p, m).contains(e),
    ensures
        0 <= i < m,
        overlay_edge_form(p.len() as int, i, e),
    decreases m,
{
    let prev = overlay_edges(p, m - 1);
    let here = overlay_site_edges(p, m - 1);
    assert(overlay_edges(p, m) == prev + here);
    if prev.contains(e) {
        lemma_overlay_edge_forms(p, m - 1, e)
    } else {
        let k = choose|k: int| 0 <= k < overlay_edges(p, m).len() && overlay_edges(p, m)[k] == e;
        assert(k >= prev.len());
        m - 1
    }
}

/// The (at most) two couplers that can cross the cut after position `c`.
pub open spec fn overlay_cut_first(n: int, c: int) -> Edge {
    if c % 4 == 0 { ladder_edge(c / 4) } else { x_edge_up(n, c / 4) }
}

pub open spec fn overlay_cut_second(n: int, c: int) -> Edge {
    if c % 4 == 0 {
        x_edge_up(n, c / 4)
    } else if c % 4 == 1 {
        x_edge_down(n, c / 4)
    } else {
        ladder_edge(n - 1 - c / 4)
    }
}

proof fn lemma_overlay_crossing_candidates(n: int, i: int, e: Edge, c: int)
    requires
        n <= usize::MAX,
        0 <= i < n,
        overlay_edge_form(n, i, e),
        overlay_crosses(n, e, c),
    ensures
        e == overlay_cut_first(n, c) || e == overlay_cut_second(n, c),
{
    let j = n - 1 - i;
    if e == ladder_edge(i) {
        if i <= j {
            assert(c == 4 * i);
            vstd::arithmetic::div_mod::lemma_fundamental_div_mod_converse(c, 4, i, 0);
        } else {
            assert(c == 4 * j + 2);
            vstd::arithmetic::div_mod::lemma_fundamental_div_mod_converse(c, 4, j, 2);
        }
    } else if e == x_edge_up(n, i) {
        assert(4 * i <= c < 4 * i + 3);
        vstd::arithmetic::div_mod::lemma_fundamental_div_mod_converse(c, 4, i, c - 4 * i);
    } else {
        assert(c == 4 * i + 1);
        vstd::arithmetic::div_mod::lemma_fundamental_div_mod_converse(c, 4, i, 1);
    }
}

/// Overlaying a second crossing direction costs exactly one more unit of
/// cutwidth: no cut of the overlay order is crossed by three distinct
/// couplers (the X and the ladder union into 4-cycles laid contiguously,
/// so every cut sees at most two edges).
pub proof fn law_overlay_cutwidth_two(p: Seq<usize>, c: int, e1: Edge, e2: Edge, e3: Edge)
    requires
        p.len() <= usize::MAX,
        overlay_edges(p, p.len() as int).contains(e1),
        overlay_edges(p, p.len() as int).contains(e2),
        overlay_edges(p, p.len() as int).contains(e3),
        e1 != e2,
        e1 != e3,
        e2 != e3,
    ensures
        !(overlay_crosses(p.len() as int, e1, c) && overlay_crosses(p.len() as int, e2, c) && overlay_crosses(p.len() as int, e3, c)),
{
    let n = p.len() as int;
    if overlay_crosses(n, e1, c) && overlay_crosses(n, e2, c) && overlay_crosses(n, e3, c) {
        let i1 = lemma_overlay_edge_forms(p, n, e1);
        let i2 = lemma_overlay_edge_forms(p, n, e2);
        let i3 = lemma_overlay_edge_forms(p, n, e3);
        lemma_overlay_crossing_candidates(n, i1, e1, c);
        lemma_overlay_crossing_candidates(n, i2, e2, c);
        lemma_overlay_crossing_candidates(n, i3, e3, c);
    }
}


/// In column-major order over `rows`, the coupler `e` joins chain positions
/// on opposite sides of the cut after position `b`.
pub open spec fn grid_crosses(rows: int, e: Edge, b: int) -> bool {
    let pa = slot(e.0.1 as int, rows, e.0.0 as int);
    let pb = slot(e.1.1 as int, rows, e.1.0 as int);
    (pa <= b) != (pb <= b)
}

/// The along-strand coupler `(r, c) – (r, c+1)`.
pub open spec fn along_edge(r: int, c: int) -> Edge {
    ((r as usize, c as usize), (r as usize, (c + 1) as usize))
}

/// Every weave coupler is an along-strand edge `(r, c)–(r, c+1)` or an
/// across-strand edge `(r, c)–(r+1, c)` of the lattice.
proof fn lemma_weave_edge_forms(p: Seq<usize>, rows: int, m: int, all: bool, e: Edge) -> (rc: (int, int))
    requires
        rows >= 1,
        0 <= m <= rows * p.len(),
        rows * p.len() <= usize::MAX,
        weave_edges(p, rows, m, all).contains(e),
    ensures
        0 <= rc.0 < rows,
        0 <= rc.1 < p.len(),
        (e == along_edge(rc.0, rc.1) && rc.1 + 1 < p.len()) || (e == ((rc.0 as usize, rc.1 as usize), ((rc.0 + 1) as usize, rc.1 as usize)) && rc.0 + 1 < rows),
        e == along_edge(rc.0, rc.1) && rc.1 + 1 < p.len() ==> all || (p[rc.1] > 1 && p[rc.1 + 1] > 1),
        e == ((rc.0 as usize, rc.1 as usize), ((rc.0 + 1) as usize, rc.1 as usize)) && rc.0 + 1 < rows ==> all || p[rc.1] > 1,
    decreases m,
{
    let cols = p.len() as int;
    let prev = weave_edges(p, rows, m - 1, all);
    if prev.contains(e) {
        lemma_weave_edge_forms(p, rows, m - 1, all, e)
    } else {
        let r = (m - 1) / cols;
        let c = (m - 1) % cols;
        vstd::arithmetic::div_mod::lemma_fundamental_div_mod(m - 1, cols);
        vstd::arithmetic::div_mod::lemma_mod_bound(m - 1, cols);
        vstd::arithmetic::div_mod::lemma_div_pos_is_pos(m - 1, cols);
        assert(r < rows) by (nonlinear_arith) requires m - 1 == cols * r + c, 0 <= c, m - 1 < rows * cols, cols >= 1;
        let cell = weave_cell_edges(p, rows, r, c, all);
        assert(weave_edges(p, rows, m, all) == prev + cell);
        let k = choose|k: int| 0 <= k < (prev + cell).len() && (prev + cell)[k] == e;
        assert(cell[k - prev.len()] == e);
        (r, c)
    }
}

/// The couplers of a prefix of the cells stay among those of a longer one.
proof fn lemma_weave_edges_grow(p: Seq<usize>, rows: int, m1: int, m2: int, all: bool, e: Edge)
    requires
        0 <= m1 <= m2,
        weave_edges(p, rows, m1, all).contains(e),
    ensures
        weave_edges(p, rows, m2, all).contains(e),
    decreases m2,
{
    if m2 > m1 {
        lemma_weave_edges_grow(p, rows, m1, m2 - 1, all, e);
        let prev = weave_edges(p, rows, m2 - 1, all);
        let k = choose|k: int| 0 <= k < prev.len() && prev[k] == e;
        let cols = p.len() as int;
        let whole = weave_edges(p, rows, m2, all);
        assert(whole == prev + weave_cell_edges(p, rows, (m2 - 1) / cols, (m2 - 1) % cols, all));
        assert(whole[k] == e);
    }
}

/// The column cuts of a woven lattice: laid column-major, the cut between
/// columns `c` and `c+1` is crossed exactly by the along-strand couplers
/// between those columns — one per row, all of them present in a plain
/// weave and in a wave weave whose two columns have dimension above 1, so
/// the cut is crossed by `rows` couplers (the area law) or none.
pub proof fn law_weave_column_cuts(p: Seq<usize>, rows: int, all: bool, c: int, e: Edge)
    requires
        rows >= 1,
        0 <= c < p.len() - 1,
        rows * p.len() <= usize::MAX,
    ensures
        weave_edges(p, rows, rows * p.len(), all).contains(e) ==> (grid_crosses(rows, e, slot(c + 1, rows, 0) - 1)
            <==> exists|r: int| 0 <= r < rows && e == #[trigger] along_edge(r, c)),
        forall|r: int|
            0 <= r < rows && (all || (p[c] > 1 && p[c + 1] > 1)) ==> weave_edges(p, rows, rows * p.len(), all).contains(
                #[trigger] along_edge(r, c),
            ),
{
    let cols = p.len() as int;
    let b = slot(c + 1, rows, 0) - 1;
    assert(cols <= usize::MAX) by (nonlinear_arith) requires rows * cols <= usize::MAX, rows >= 1, cols >= 0;
    if weave_edges(p, rows, rows * cols, all).contains(e) {
        let (r, c2) = lemma_weave_edge_forms(p, rows, rows * cols, all, e);
        lemma_slot(c2, rows, r, cols);
        if e == along_edge(r, c2) && c2 + 1 < cols {
            lemma_slot(c2 + 1, rows, r, cols);
            assert(grid_crosses(rows, e, b) <==> c2 == c) by (nonlinear_arith)
                requires
                    grid_crosses(rows, e, b) == ((c2 * rows + r <= b) != ((c2 + 1) * rows + r <= b)),
                    b == (c + 1) * rows + 0 - 1,
                    0 <= r < rows;
            if grid_crosses(rows, e, b) {
                assert(e == along_edge(r, c));
            } else {
                if exists|r2: int| 0 <= r2 < rows && e == #[trigger] along_edge(r2, c) {
                    let r2 = choose|r2: int| 0 <= r2 < rows && e == #[trigger] along_edge(r2, c);
                    assert(e.0.1 == c2 as usize && e.0.1 == c as usize);
                    assert(c2 == c);
                }
            }
        } else {
            let f = ((r as usize, c2 as usize), ((r + 1) as usize, c2 as usize));
            assert(e == f && r + 1 < rows);
            lemma_slot(c2, rows, r + 1, cols);
            assert(!grid_crosses(rows, e, b)) by (nonlinear_arith)
                requires
                    grid_crosses(rows, e, b) == ((c2 * rows + r <= b) != (c2 * rows + r + 1 <= b)),
                    b == (c + 1) * rows + 0 - 1,
                    0 <= r, r + 1 < rows;
            if exists|r2: int| 0 <= r2 < rows && e == #[trigger] along_edge(r2, c) {
                let r2 = choose|r2: int| 0 <= r2 < rows && e == #[trigger] along_edge(r2, c);
                assert(e.1.0 == r2 as usize && e.0.0 == r2 as usize);
            }
        }
    }
    assert forall|r: int| 0 <= r < rows && (all || (p[c] > 1 && p[c + 1] > 1)) implies weave_edges(
        p,
        rows,
        rows * cols,
        all,
    ).contains(#[trigger] along_edge(r, c)) by {
        let m = r * cols + c;
        assert(m == cols * r + c) by (nonlinear_arith) requires m == r * cols + c;
        lemma_fundamental_div_mod_converse(m, cols, r, c);
        assert(m + 1 <= rows * cols) by (nonlinear_arith) requires m == r * cols + c, 0 <= r < rows, 0 <= c < cols, cols >= 1;
        let prev = weave_edges(p, rows, m, all);
        let cell = weave_cell_edges(p, rows, r, c, all);
        assert(weave_edges(p, rows, m + 1, all) == prev + cell);
        assert(cell[0] == along_edge(r, c));
        assert((prev + cell)[prev.len() as int] == along_edge(r, c));
        lemma_weave_edges_grow(p, rows, m + 1, rows * cols, all, along_edge(r, c));
    }
}

/// The across-strand edge `(r, c)–(r+1, c)` of the lattice.
pub open spec fn across_edge(r: int, c: int) -> Edge {
    ((r as usize, c as usize), ((r + 1) as usize, c as usize))
}

/// A woven lattice couples the strands across at every column: each
/// across-strand edge `(r, c)–(r+1, c)` between neighbouring rows is a
/// coupler of a plain weave, and of a wave weave wherever the column's
/// dimension is above 1 — the last column included.
pub proof fn law_weave_couples_across(p: Seq<usize>, rows: int, all: bool)
    requires
        rows >= 1,
        rows * p.len() <= usize::MAX,
    ensures
        forall|r: int, c: int|
            0 <= r && r + 1 < rows && 0 <= c < p.len() && (all || p[c] > 1) ==> weave_edges(p, rows, rows * p.len(), all).contains(
                #[trigger] across_edge(r, c),
            ),
{
    let cols = p.len() as int;
    assert forall|r: int, c: int|
        0 <= r && r + 1 < rows && 0 <= c < cols && (all || p[c] > 1) implies weave_edges(p, rows, rows * cols, all).contains(
            #[trigger] across_edge(r, c),
        ) by {
        let m = r * cols + c;
        assert(m == cols * r + c) by (nonlinear_arith) requires m == r * cols + c;
        lemma_fundamental_div_mod_converse(m, cols, r, c);
        assert(m + 1 <= rows * cols) by (nonlinear_arith) requires m == r * cols + c, 0 <= r < rows, 0 <= c < cols, cols >= 1;
        let prev = weave_edges(p, rows, m, all);
        let cell = weave_cell_edges(p, rows, r, c, all);
        assert(weave_edges(p, rows, m + 1, all) == prev + cell);
        let h = c + 1 < cols && (all || (p[c] > 1 && p[c + 1] > 1));
        let hs: Seq<Edge> = if h { seq![((r as usize, c as usize), (r as usize, (c + 1) as usize))] } else { Seq::empty() };
        let vs: Seq<Edge> = seq![across_edge(r, c)];
        assert(cell == hs + vs);
        assert(cell[hs.len() as int] == across_edge(r, c));
        assert((prev + cell)[(prev.len() + hs.len()) as int] == across_edge(r, c));
        lemma_weave_edges_grow(p, rows, m + 1, rows * cols, all, across_edge(r, c));
    }
}

/// A wave weave couples only non-trivial sites: every coupler is an
/// along-strand edge between two columns of dimension above 1 or an
/// across-strand edge in a column of dimension above 1 (a plain weave
/// couples every lattice edge).
pub proof fn law_weave_couples_only_nontrivial_sites(p: Seq<usize>, rows: int, all: bool, e: Edge)
    requires
        rows >= 1,
        rows * p.len() <= usize::MAX,
        weave_edges(p, rows, rows * p.len(), all).contains(e),
    ensures
        exists|r: int, c: int|
            0 <= r < rows && 0 <= c < p.len() && ((e == #[trigger] along_edge(r, c) && c + 1 < p.len() && (all || (p[c] > 1
                && p[c + 1] > 1))) || (e == across_edge(r, c) && r + 1 < rows && (all || p[c] > 1))),
{
    let (r, c) = lemma_weave_edge_forms(p, rows, rows * p.len(), all, e);
    assert(0 <= r < rows && 0 <= c < p.len() && ((e == along_edge(r, c) && c + 1 < p.len() && (all || (p[c] > 1 && p[c
        + 1] > 1))) || (e == across_edge(r, c) && r + 1 < rows && (all || p[c] > 1))));
}

} // verus!
