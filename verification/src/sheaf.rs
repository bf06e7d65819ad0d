//! Integer structure of bulk sheaf towers: how a chain is cut into
//! contiguous groups for fusion, how a fused Choi carrier's interleaved
//! legs regroup into `(out, in)` halves, and per-layer cost summaries.
//!
//! Fusing neighbouring sites into one coarser qudit is lossless; the tower
//! of coarsenings is a multiresolution cache of one state. The partition
//! here decides which fine sites each coarse site absorbs.
use crate::chain::{all_positive, digits_in_range, digits_of, lemma_prod_take_le, prod, value};
use crate::dense::{flat_index, index_digits};
use crate::zigzag::seq_max;
use vstd::prelude::*;

verus! {

/// Sum of a list of sizes.
pub open spec fn seq_sum(s: Seq<usize>) -> int
    decreases s.len(),
{
    if s.len() == 0 {
        0
    } else {
        seq_sum(s.drop_last()) + s.last()
    }
}

/// Group sizes of a uniform partition of `n` sites into blocks of `block`:
/// full blocks, then the remainder as a last, shorter group.
pub open spec fn partition_sizes(n: nat, block: nat) -> Seq<usize>
    decreases n,
{
    if n == 0 || block == 0 {
        Seq::empty()
    } else if n <= block {
        seq![n as usize]
    } else {
        seq![block as usize] + partition_sizes((n - block) as nat, block)
    }
}

/// Each group is the slice of the chain between consecutive running sums
/// of the sizes.
pub open spec fn groups_follow_sizes(dims: Seq<usize>, sizes: Seq<usize>, groups: Seq<Seq<usize>>) -> bool {
    &&& groups.len() == sizes.len()
    &&& forall|j: int|
        0 <= j < groups.len() ==> #[trigger] groups[j] == dims.subrange(seq_sum(sizes.take(j)), seq_sum(sizes.take(j + 1)))
}

proof fn lemma_seq_sum_push(s: Seq<usize>, v: usize)
    ensures
        seq_sum(s.push(v)) == seq_sum(s) + v,
{
    assert(s.push(v).drop_last() =~= s);
}

proof fn lemma_seq_sum_prepend(v: usize, s: Seq<usize>)
    ensures
        seq_sum(seq![v] + s) == v + seq_sum(s),
    decreases s.len(),
{
    if s.len() == 0 {
        assert(seq![v] + s =~= seq![v]);
        assert(seq![v].drop_last() =~= Seq::<usize>::empty());
        assert(seq_sum(seq![v]) == seq_sum(seq![v].drop_last()) + v);
    } else {
        lemma_seq_sum_prepend(v, s.drop_last());
        assert((seq![v] + s).drop_last() =~= seq![v] + s.drop_last());
        assert((seq![v] + s).last() == s.last());
    }
}

/// The uniform partition covers the chain exactly, every group is
/// non-empty and no group exceeds the block size.
pub proof fn law_partition_covers_chain(n: nat, block: nat)
    requires
        1 <= block <= usize::MAX,
        n <= usize::MAX,
    ensures
        seq_sum(partition_sizes(n, block)) == n,
        forall|j: int|
            0 <= j < partition_sizes(n, block).len() ==> 1 <= #[trigger] partition_sizes(n, block)[j] <= block,
    decreases n,
{
    if n > block {
        law_partition_covers_chain((n - block) as nat, block);
        lemma_seq_sum_prepend(block as usize, partition_sizes((n - block) as nat, block));
        assert forall|j: int| 0 <= j < partition_sizes(n, block).len() implies 1 <= #[trigger] partition_sizes(n, block)[j] <= block by {
            if j > 0 {
                assert(partition_sizes(n, block)[j] == partition_sizes((n - block) as nat, block)[j - 1]);
            }
        }
    } else if n > 0 {
        assert(seq![n as usize].drop_last() =~= Seq::<usize>::empty());
        assert(seq_sum(seq![n as usize]) == seq_sum(seq![n as usize].drop_last()) + n);
    }
}

/// A uniform partition cuts the chain into `⌈n / block⌉` groups, every one
/// of them but the last a full block of `block` sites.
pub proof fn law_partition_blocks_are_full(n: nat, block: nat)
    requires
        1 <= block <= usize::MAX,
        n <= usize::MAX,
    ensures
        partition_sizes(n, block).len() == (n + block - 1) / (block as int),
        forall|j: int| 0 <= j < partition_sizes(n, block).len() - 1 ==> #[trigger] partition_sizes(n, block)[j] == block,
    decreases n,
{
    let b = block as int;
    if n == 0 {
        vstd::arithmetic::div_mod::lemma_fundamental_div_mod_converse(b - 1, b, 0, b - 1);
    } else if n <= block {
        vstd::arithmetic::div_mod::lemma_fundamental_div_mod_converse(n + b - 1, b, 1, n - 1);
    } else {
        let rest = (n - block) as nat;
        law_partition_blocks_are_full(rest, block);
        vstd::arithmetic::div_mod::lemma_hoist_over_denominator(rest + b - 1, 1, block);
        assert(partition_sizes(n, block) == seq![block as usize] + partition_sizes(rest, block));
        assert forall|j: int| 0 <= j < partition_sizes(n, block).len() - 1 implies #[trigger] partition_sizes(n, block)[j] == block by {
            if j > 0 {
                assert(partition_sizes(n, block)[j] == partition_sizes(rest, block)[j - 1]);
            }
        }
    }
}

/// The concatenation of a list of groups.
pub open spec fn concat(groups: Seq<Seq<usize>>) -> Seq<usize>
    decreases groups.len(),
{
    if groups.len() == 0 {
        Seq::empty()
    } else {
        concat(groups.drop_last()) + groups.last()
    }
}

/// Groups cut by running sums of sizes that total the chain length
/// reassemble the chain.
pub proof fn law_groups_reassemble_chain(dims: Seq<usize>, sizes: Seq<usize>, groups: Seq<Seq<usize>>)
    requires
        groups_follow_sizes(dims, sizes, groups),
        seq_sum(sizes) == dims.len(),
    ensures
        concat(groups) == dims,
{
    lemma_concat_prefix(dims, sizes, groups, groups.len() as int);
    assert(sizes.take(sizes.len() as int) =~= sizes);
    assert(groups.take(groups.len() as int) =~= groups);
}

proof fn lemma_seq_sum_mono(s: Seq<usize>, j: int, k: int)
    requires
        0 <= j <= k <= s.len(),
    ensures
        0 <= seq_sum(s.take(j)) <= seq_sum(s.take(k)),
    decreases k,
{
    if k > 0 && j < k {
        lemma_seq_sum_mono(s, j, k - 1);
        assert(s.take(k).drop_last() =~= s.take(k - 1));
    } else if k > 0 {
        lemma_seq_sum_mono(s, 0, k - 1);
        assert(s.take(k).drop_last() =~= s.take(k - 1));
    } else {
        assert(s.take(0).len() == 0);
    }
}

proof fn lemma_concat_prefix(dims: Seq<usize>, sizes: Seq<usize>, groups: Seq<Seq<usize>>, j: int)
    requires
        groups_follow_sizes(dims, sizes, groups),
        seq_sum(sizes) == dims.len(),
        0 <= j <= groups.len(),
    ensures
        concat(groups.take(j)) == dims.subrange(0, seq_sum(sizes.take(j))),
    decreases j,
{
    assert(sizes.take(sizes.len() as int) =~= sizes);
    if j == 0 {
        assert(sizes.take(0).len() == 0);
        assert(groups.take(0).len() == 0);
        assert(dims.subrange(0, 0) =~= Seq::<usize>::empty());
    } else {
        lemma_concat_prefix(dims, sizes, groups, j - 1);
        assert(groups.take(j).drop_last() =~= groups.take(j - 1));
        lemma_seq_sum_mono(sizes, j - 1, j);
        lemma_seq_sum_mono(sizes, j, sizes.len() as int);
        let a = seq_sum(sizes.take(j - 1));
        let b = seq_sum(sizes.take(j));
        assert(groups[j - 1] == dims.subrange(a, b));
        assert(dims.subrange(0, a) + dims.subrange(a, b) =~= dims.subrange(0, b));
    }
}

/// An owned copy of `s[a..b]`.
fn copy_range(s: &[usize], a: usize, b: usize) -> (v: Vec<usize>)
    requires
        a <= b <= s@.len(),
    ensures
        v@ == s@.subrange(a as int, b as int),
{
    let mut v: Vec<usize> = Vec::new();
    let mut i: usize = a;
    while i < b
        invariant
            a <= i <= b <= s@.len(),
            v@ == s@.subrange(a as int, i as int),
        decreases b - i,
    {
        v.push(s[i]);
        i = i + 1;
        assert(v@ =~= s@.subrange(a as int, i as int));
    }
    v
}

/// The dimension lists of a list of groups.
pub open spec fn groups_view(g: Seq<Vec<usize>>) -> Seq<Seq<usize>> {
    Seq::new(g.len(), |j: int| g[j]@)
}

/// Partition a dimension list into contiguous groups of at most `block`
/// sites, returning the group sizes and the grouped dimension values.
pub fn uniform_partition(dims: &[usize], block: usize) -> (res: (Vec<usize>, Vec<Vec<usize>>))
    requires
        block >= 1,
    ensures
        res.0@ == partition_sizes(dims@.len(), block as nat),
        groups_follow_sizes(dims@, res.0@, groups_view(res.1@)),
{
    let n = dims.len();
    let mut sizes: Vec<usize> = Vec::new();
    let mut groups: Vec<Vec<usize>> = Vec::new();
    let mut i: usize = 0;
    assert(sizes@.take(0) =~= sizes@);
    while i < n
        invariant
            n == dims@.len(),
            block >= 1,
            i <= n,
            i == seq_sum(sizes@),
            partition_sizes(n as nat, block as nat) == sizes@ + partition_sizes((n - i) as nat, block as nat),
            groups_follow_sizes(dims@, sizes@, groups_view(groups@)),
        decreases n - i,
    {
        let end = if n - i <= block {
            n
        } else {
            i + block
        };
        let g = copy_range(dims, i, end);
        let ghost old_sizes = sizes@;
        let ghost old_groups = groups_view(groups@);
        proof {
            let r = (n - i) as nat;
            if r <= block {
                assert(partition_sizes(r, block as nat) =~= seq![r as usize]);
            }
            assert(partition_sizes(r, block as nat) =~= seq![(end - i) as usize] + partition_sizes((n - end) as nat, block as nat));
        }
        sizes.push(end - i);
        groups.push(g);
        proof {
            lemma_seq_sum_push(old_sizes, (end - i) as usize);
            assert(sizes@.take(sizes@.len() - 1) =~= old_sizes);
            assert(sizes@.take(sizes@.len() as int) =~= sizes@);
            assert(old_sizes + partition_sizes((n - i) as nat, block as nat) =~= sizes@ + partition_sizes((n - end) as nat, block as nat));
            assert forall|j: int| 0 <= j < groups_view(groups@).len() implies #[trigger] groups_view(groups@)[j] == dims@.subrange(seq_sum(sizes@.take(j)), seq_sum(sizes@.take(j + 1))) by {
                if j < old_groups.len() {
                    assert(groups_view(groups@)[j] == old_groups[j]);
                    assert(sizes@.take(j) =~= old_sizes.take(j));
                    assert(sizes@.take(j + 1) =~= old_sizes.take(j + 1));
                }
            }
        }
        i = end;
    }
    proof {
        assert(partition_sizes(0, block as nat) =~= Seq::<usize>::empty());
        assert(sizes@ + Seq::<usize>::empty() =~= sizes@);
    }
    (sizes, groups)
}

/// Split a dimension list into consecutive groups of the given sizes.
pub fn split_groups(dims: &[usize], sizes: &[usize]) -> (groups: Vec<Vec<usize>>)
    requires
        seq_sum(sizes@) == dims@.len(),
    ensures
        groups_follow_sizes(dims@, sizes@, groups_view(groups@)),
{
    let mut groups: Vec<Vec<usize>> = Vec::new();
    let mut pos: usize = 0;
    let mut j: usize = 0;
    let n = dims.len();
    proof {
        assert(sizes@.take(0).len() == 0);
    }
    while j < sizes.len()
        invariant
            j <= sizes@.len(),
            n == dims@.len(),
            seq_sum(sizes@) == dims@.len(),
            pos == seq_sum(sizes@.take(j as int)),
            groups@.len() == j,
            forall|k: int|
                0 <= k < j ==> #[trigger] groups@[k]@ == dims@.subrange(seq_sum(sizes@.take(k)), seq_sum(sizes@.take(k + 1))),
        decreases sizes@.len() - j,
    {
        proof {
            assert(sizes@.take(j as int + 1).drop_last() =~= sizes@.take(j as int));
            lemma_seq_sum_mono(sizes@, j as int + 1, sizes@.len() as int);
            assert(sizes@.take(sizes@.len() as int) =~= sizes@);
        }
        let end = pos + sizes[j];
        let g = copy_range(dims, pos, end);
        groups.push(g);
        pos = end;
        j = j + 1;
    }
    proof {
        assert forall|k: int| 0 <= k < groups_view(groups@).len() implies #[trigger] groups_view(groups@)[k] == dims@.subrange(seq_sum(sizes@.take(k)), seq_sum(sizes@.take(k + 1))) by {
            assert(groups_view(groups@)[k] == groups@[k]@);
        }
    }
    groups
}

/// The doubled radices of a fused Choi carrier site: each fine dimension
/// twice, `(d₀, d₀, d₁, d₁, …)`.
pub open spec fn doubled(group: Seq<usize>) -> Seq<usize> {
    Seq::new(2 * group.len(), |i: int| group[i / 2])
}

/// The even-position digits (output legs) of an interleaved digit string.
pub open spec fn out_legs(ds: Seq<usize>, g: nat) -> Seq<usize> {
    Seq::new(g, |k: int| ds[2 * k])
}

/// The odd-position digits (input legs) of an interleaved digit string.
pub open spec fn in_legs(ds: Seq<usize>, g: nat) -> Seq<usize> {
    Seq::new(g, |k: int| ds[2 * k + 1])
}

/// The mixed-radix digits of any value lie below their radices.
proof fn lemma_digits_of_in_range(d: Seq<usize>, x: int)
    requires
        all_positive(d),
        x >= 0,
    ensures
        digits_in_range(d, digits_of(d, x)),
    decreases d.len(),
{
    if d.len() > 0 {
        let dl = d.last() as int;
        vstd::arithmetic::div_mod::lemma_mod_bound(x, dl);
        vstd::arithmetic::div_mod::lemma_div_pos_is_pos(x, dl);
        lemma_digits_of_in_range(d.drop_last(), x / dl);
        let ds = digits_of(d, x);
        assert(ds.drop_last() =~= digits_of(d.drop_last(), x / dl));
        assert forall|i: int| 0 <= i < ds.len() implies ds[i] < d[i] by {
            if i < ds.len() - 1 {
                assert(ds[i] == ds.drop_last()[i]);
            }
        }
    }
}

/// Decode a fused Choi-carrier physical index into its `(out, in)` halves.
/// Fusing carrier sites interleaves the doubled legs as
/// `(out₀,in₀,out₁,in₁,…)`; the coarse operator needs them regrouped as
/// `(out₀…out_{g-1}, in₀…in_{g-1})`, each half read as a chain value over
/// the group.
pub fn deinterleave_choi(idx: usize, group: &[usize]) -> (r: (usize, usize))
    requires
        all_positive(group@),
        prod(group@) <= usize::MAX,
        2 * group@.len() <= usize::MAX,
    ensures
        r.0 == value(group@, out_legs(digits_of(doubled(group@), idx as int), group@.len())),
        r.1 == value(group@, in_legs(digits_of(doubled(group@), idx as int), group@.len())),
        r.0 < prod(group@),
        r.1 < prod(group@),
{
    let g = group.len();
    let mut radices: Vec<usize> = Vec::new();
    let mut k: usize = 0;
    while k < g
        invariant
            k <= g,
            g == group@.len(),
            radices@.len() == 2 * k,
            forall|i: int| 0 <= i < 2 * k ==> #[trigger] radices@[i] == group@[i / 2],
        decreases g - k,
    {
        radices.push(group[k]);
        radices.push(group[k]);
        k = k + 1;
    }
    let ghost rad = doubled(group@);
    proof {
        assert(radices@ =~= rad);
        assert(all_positive(rad));
    }
    let digits = index_digits(&radices, idx);
    let ghost ds = digits_of(rad, idx as int);
    proof {
        lemma_digits_of_in_range(rad, idx as int);
    }
    let mut outs: Vec<usize> = Vec::new();
    let mut ins: Vec<usize> = Vec::new();
    let mut k: usize = 0;
    while k < g
        invariant
            k <= g,
            g == group@.len(),
            2 * g <= usize::MAX,
            digits@ == ds,
            rad == doubled(group@),
            digits_in_range(rad, ds),
            outs@ =~= out_legs(ds, g as nat).take(k as int),
            ins@ =~= in_legs(ds, g as nat).take(k as int),
        decreases g - k,
    {
        outs.push(digits[2 * k]);
        ins.push(digits[2 * k + 1]);
        k = k + 1;
    }
    proof {
        assert(outs@ =~= out_legs(ds, g as nat));
        assert(ins@ =~= in_legs(ds, g as nat));
        assert forall|i: int| 0 <= i < g implies outs@[i] < group@[i] && ins@[i] < group@[i] by {
            assert(rad[2 * i] == group@[i]);
            assert(rad[2 * i + 1] == group@[i]);
        }
    }
    let out = flat_index(group, &outs);
    let inn = flat_index(group, &ins);
    (out, inn)
}

/// Per-layer cost summary of a tower layer.
#[derive(Clone, Debug)]
pub struct LayerStats {
    pub num_sites: usize,
    pub dims: Vec<usize>,
    pub max_local_dim: usize,
    pub max_bond: usize,
    /// Total stored complex parameters (state size).
    pub state_params: usize,
}

impl LayerStats {
    /// The summary of a layer with local dimensions `dims`, largest bond
    /// `max_bond` and `state_params` stored parameters: the site count and
    /// largest local dimension (1 for an empty layer) are read off `dims`.
    pub fn new(dims: Vec<usize>, max_bond: usize, state_params: usize) -> (st: LayerStats)
        ensures
            st.dims@ == dims@,
            st.num_sites == dims@.len(),
            st.max_local_dim == if dims@.len() == 0 { 1 } else { seq_max(dims@) },
            st.max_bond == max_bond,
            st.state_params == state_params,
    {
        let num_sites = dims.len();
        let max_local_dim = if dims.len() == 0 {
            1
        } else {
            crate::zigzag::max_dim(&dims)
        };
        LayerStats { num_sites, dims, max_local_dim, max_bond, state_params }
    }
}

} // verus!
