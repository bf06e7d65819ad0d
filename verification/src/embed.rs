//! Hosted qubits: binary registers inside a qudit chain.
//!
//! A dimension-`d` site contains `k = floor(log2 d)` binary degrees of
//! freedom: levels `0 .. 2^k` are read as a big-endian `k`-bit register and
//! levels `≥ 2^k` are slack. A [`HostRegister`] assigns a global qubit index
//! to every hosted bit of a dimension profile (sites ascending, then bit
//! offset ascending; offset 0 is the most significant bit of a site).
use vstd::arithmetic::div_mod::{lemma_fundamental_div_mod, lemma_fundamental_div_mod_converse};
use vstd::arithmetic::power2::{lemma_pow2_pos, lemma_pow2_unfold, pow2};
use vstd::prelude::*;

verus! {

/// `floor(log2 d)` for `d ≥ 1`.
pub open spec fn log2_floor(d: nat) -> nat
    decreases d,
{
    if d <= 1 {
        0
    } else {
        1 + log2_floor(d / 2)
    }
}

/// A power of two that fits in a machine word has exponent below the word size.
proof fn lemma_pow2_fits(n: nat)
    requires
        pow2(n) <= usize::MAX,
    ensures
        n < usize::BITS,
{
    vstd::arithmetic::power2::lemma2_to64();
    if n >= usize::BITS {
        if n > usize::BITS {
            vstd::arithmetic::power2::lemma_pow2_strictly_increases(usize::BITS as nat, n);
        }
        assert(usize::BITS == 32 || usize::BITS == 64);
        assert(pow2(usize::BITS as nat) == usize::MAX + 1);
    }
}

/// Number of qubits a dimension-`d` site hosts: `floor(log2 d)`, the
/// largest `k` with `2^k ≤ d`.
pub fn capacity(d: usize) -> (k: usize)
    requires
        d >= 1,
    ensures
        k == log2_floor(d as nat),
        pow2(k as nat) <= d < pow2(k as nat + 1),
        k < usize::BITS,
{
    let mut v: usize = d;
    let mut k: usize = 0;
    proof {
        vstd::arithmetic::power2::lemma2_to64();
    }
    while v > 1
        invariant
            1 <= v <= d,
            k < usize::BITS,
            pow2(k as nat) >= 1,
            log2_floor(d as nat) == k + log2_floor(v as nat),
            pow2(k as nat) * v <= d < pow2(k as nat) * (v + 1),
        decreases v,
    {
        proof {
            lemma_pow2_unfold(k as nat + 1);
            let p = pow2(k as nat) as int;
            let vi = v as int;
            let v2 = vi / 2;
            assert(vi == 2 * v2 + vi % 2);
            assert(2 * p * v2 <= p * vi) by (nonlinear_arith) requires vi >= 2 * v2, p >= 0;
            assert(p * (vi + 1) <= 2 * p * (v2 + 1)) by (nonlinear_arith) requires vi + 1 <= 2 * (v2 + 1), p >= 0;
            assert(2 * p <= 2 * p * v2) by (nonlinear_arith) requires v2 >= 1, p >= 0;
            assert(pow2(k as nat + 1) == 2 * p);
            lemma_pow2_fits(k as nat + 1);
        }
        v = v / 2;
        k = k + 1;
    }
    proof {
        lemma_pow2_unfold(k as nat + 1);
        let p = pow2(k as nat) as int;
        assert(p * 1 == p && p * 2 == 2 * p) by (nonlinear_arith);
    }
    k
}

/// Bit `t` (0 = most significant) of a `k`-bit register level.
pub open spec fn bit_spec(level: int, t: int, k: int) -> int {
    (level / pow2((k - 1 - t) as nat) as int) % 2
}

/// Bit `t` (0 = most significant) of a `k`-bit register level.
pub fn bit_of(level: usize, t: usize, k: usize) -> (b: usize)
    requires
        t < k <= usize::BITS,
    ensures
        b == bit_spec(level as int, t as int, k as int),
        b < 2,
{
    let s = k - 1 - t;
    proof {
        vstd::bits::lemma_usize_shr_is_div(level, s);
        let x = level >> s;
        assert(x & 1 == x % 2) by (bit_vector);
        assert(x % 2 < 2);
    }
    (level >> s) & 1
}

/// The register level with bit `t` (0 = most significant) set to `b`.
pub open spec fn with_bit_spec(level: int, t: int, k: int, b: int) -> int {
    level + (b - bit_spec(level, t, k)) * pow2((k - 1 - t) as nat)
}

/// The register level with bit `t` (0 = most significant) set to `b ∈ {0, 1}`.
pub fn with_bit(level: usize, t: usize, k: usize, b: usize) -> (out: usize)
    requires
        t < k <= usize::BITS,
        b <= 1,
    ensures
        out == with_bit_spec(level as int, t as int, k as int, b as int),
{
    let s = k - 1 - t;
    proof {
        vstd::bits::lemma_usize_shr_is_div(level, s);
        vstd::bits::lemma_usize_pow2_no_overflow(s as nat);
        vstd::bits::lemma_usize_shl_is_mul(1, s);
        assert(((level & !(1usize << s)) | ((b * (1usize << s)) as usize)) == level - ((level >> s) & 1) * (1usize << s) + b * (1usize << s)) by (bit_vector)
            requires s < usize::BITS, b <= 1;
        let x = level >> s;
        assert(x & 1 == x % 2) by (bit_vector);
        let p = pow2(s as nat) as int;
        assert((1usize << s) == p);
        let bit = (x % 2) as int;
        assert(bit == bit_spec(level as int, t as int, k as int));
        assert(b * p <= p) by (nonlinear_arith) requires b <= 1, p >= 0;
        assert(level - bit * p + b * p == level + (b - bit) * p) by (nonlinear_arith);
    }
    let mask = 1usize << s;
    (level & !mask) | (b * mask)
}

/// The global qubit list of sites `0..m`: each site's bit offsets in order.
pub open spec fn host_map(caps: Seq<usize>, m: int) -> Seq<(usize, usize)>
    decreases m,
{
    if m <= 0 {
        Seq::empty()
    } else {
        host_map(caps, m - 1) + Seq::new(caps[m - 1] as nat, |t: int| ((m - 1) as usize, t as usize))
    }
}

/// Index of the first qubit hosted by site `s`.
pub open spec fn qubit_offset(caps: Seq<usize>, s: int) -> int {
    host_map(caps, s).len() as int
}

/// Value of a big-endian bit string.
pub open spec fn bits_value(bs: Seq<usize>) -> int
    decreases bs.len(),
{
    if bs.len() == 0 {
        0
    } else {
        bits_value(bs.drop_last()) * 2 + bs.last()
    }
}

/// Assignment of global qubit indices to the hosted bits of a dimension
/// profile: `qubit_map[q] = (site, bit offset)`.
pub struct HostRegister {
    pub dims: Vec<usize>,
    pub caps: Vec<usize>,
    pub qubit_map: Vec<(usize, usize)>,
}

impl HostRegister {
    /// The capacities and qubit map agree with the profile.
    pub open spec fn wf(&self) -> bool {
        &&& self.caps@.len() == self.dims@.len()
        &&& forall|i: int| 0 <= i < self.dims@.len() ==> self.dims@[i] >= 1 && #[trigger] self.caps@[i] == log2_floor(self.dims@[i] as nat)
        &&& forall|i: int| 0 <= i < self.dims@.len() ==> #[trigger] self.caps@[i] < usize::BITS
        &&& self.qubit_map@ == host_map(self.caps@, self.dims@.len() as int)
    }

    pub fn new(dims: &[usize]) -> (reg: HostRegister)
        requires
            forall|i: int| 0 <= i < dims@.len() ==> #[trigger] dims@[i] >= 1,
        ensures
            reg.dims@ == dims@,
            reg.wf(),
    {
        let mut caps: Vec<usize> = Vec::new();
        let mut qubit_map: Vec<(usize, usize)> = Vec::new();
        let mut site: usize = 0;
        while site < dims.len()
            invariant
                forall|i: int| 0 <= i < dims@.len() ==> #[trigger] dims@[i] >= 1,
                site <= dims@.len(),
                caps@.len() == site,
                forall|i: int| 0 <= i < site ==> #[trigger] caps@[i] == log2_floor(dims@[i] as nat),
                forall|i: int| 0 <= i < site ==> #[trigger] caps@[i] < usize::BITS,
                qubit_map@ == host_map(caps@, site as int),
            decreases dims@.len() - site,
        {
            let k = capacity(dims[site]);
            let ghost old_caps = caps@;
            caps.push(k);
            let ghost base = qubit_map@;
            proof {
                lemma_host_map_prefix(caps@, old_caps, site as int);
            }
            let mut t: usize = 0;
            while t < k
                invariant
                    t <= k,
                    qubit_map@ == base + Seq::new(t as nat, |j: int| (site, j as usize)),
                decreases k - t,
            {
                qubit_map.push((site, t));
                t = t + 1;
                assert(qubit_map@ =~= base + Seq::new(t as nat, |j: int| (site, j as usize)));
            }
            proof {
                assert(caps@[site as int] == k);
                assert(host_map(caps@, site as int + 1) =~= host_map(caps@, site as int) + Seq::new(k as nat, |j: int| (site, j as usize)));
            }
            site = site + 1;
        }
        HostRegister { dims: crate::chain::copy_dims(dims), caps, qubit_map }
    }

    pub fn num_qubits(&self) -> (q: usize)
        ensures
            q == self.qubit_map@.len(),
    {
        self.qubit_map.len()
    }

    /// The chain basis digits encoding the qubit basis state `|bits⟩`: each
    /// site's level is the big-endian value of its hosted bits (slack
    /// levels unused).
    pub fn qubit_basis_to_digits(&self, bits: &[usize]) -> (digits: Vec<usize>)
        requires
            self.wf(),
            bits@.len() == self.qubit_map@.len(),
            forall|q: int| 0 <= q < bits@.len() ==> #[trigger] bits@[q] < 2,
        ensures
            digits@.len() == self.dims@.len(),
            forall|s: int| 0 <= s < self.dims@.len() ==> #[trigger] digits@[s] == bits_value(
                bits@.subrange(qubit_offset(self.caps@, s), qubit_offset(self.caps@, s) + self.caps@[s]),
            ),
    {
        let n = self.dims.len();
        let ghost caps = self.caps@;
        let mut digits: Vec<usize> = Vec::new();
        let mut j: usize = 0;
        while j < n
            invariant
                j <= n,
                digits@.len() == j,
                forall|i: int| 0 <= i < j ==> digits@[i] == 0,
            decreases n - j,
        {
            digits.push(0);
            j = j + 1;
        }
        proof {
            lemma_host_map_len_mono(caps, n as int);
            assert forall|s: int| 0 <= s < n implies #[trigger] digits@[s] == partial_digit(bits@, caps, s, 0) by {
                lemma_host_map_offsets(caps, s, n as int);
                let off = qubit_offset(caps, s);
                assert(bits@.subrange(off, off) =~= Seq::<usize>::empty());
            }
        }
        let mut q: usize = 0;
        while q < bits.len()
            invariant
                self.wf(),
                caps == self.caps@,
                n == self.dims@.len(),
                bits@.len() == self.qubit_map@.len(),
                forall|q2: int| 0 <= q2 < bits@.len() ==> #[trigger] bits@[q2] < 2,
                q <= bits@.len(),
                digits@.len() == n,
                forall|s: int| 0 <= s < n ==> #[trigger] digits@[s] == partial_digit(bits@, caps, s, q as int),
            decreases bits@.len() - q,
        {
            let (site, t) = self.qubit_map[q];
            let ghost ncaps = self.caps.len();
            proof {
                assert(caps.len() == ncaps);
                lemma_host_map_index(caps, n as int, q as int);
            }
            let k = self.caps[site];
            let b = bits[q];
            let old = digits[site];
            let v = with_bit(old, t, k, b);
            proof {
                lemma_partial_step(bits@, caps, site as int, q as int);
                assert forall|s: int| 0 <= s < n && s != site implies partial_digit(bits@, caps, s, q as int + 1) == partial_digit(bits@, caps, s, q as int) by {
                    lemma_partial_other(caps, n as int, site as int, s, q as int);
                }
            }
            digits.set(site, v);
            q = q + 1;
        }
        proof {
            assert forall|s: int| 0 <= s < n implies #[trigger] digits@[s] == bits_value(
                bits@.subrange(qubit_offset(caps, s), qubit_offset(caps, s) + caps[s]),
            ) by {
                lemma_host_map_offsets(caps, s, n as int);
                let k = caps[s] as int;
                assert(pow2(0) == 1) by {
                    vstd::arithmetic::power2::lemma2_to64();
                }
                let v = bits_value(bits@.subrange(qubit_offset(caps, s), qubit_offset(caps, s) + k));
                assert(v * 1 == v) by (nonlinear_arith);
            }
        }
        digits
    }
}

/// Digit of site `s` after the first `q` qubits have been written.
pub open spec fn partial_digit(bits: Seq<usize>, caps: Seq<usize>, s: int, q: int) -> int {
    let off = qubit_offset(caps, s);
    let k = caps[s] as int;
    let t = if q <= off { 0 } else if q >= off + k { k } else { q - off };
    bits_value(bits.subrange(off, off + t)) * pow2((k - t) as nat) as int
}

proof fn lemma_host_map_prefix(caps: Seq<usize>, c2: Seq<usize>, m: int)
    requires
        0 <= m,
        m <= c2.len(),
        c2.len() <= caps.len(),
        forall|i: int| 0 <= i < c2.len() ==> caps[i] == c2[i],
    ensures
        host_map(caps, m) == host_map(c2, m),
    decreases m,
{
    if m > 0 {
        lemma_host_map_prefix(caps, c2, m - 1);
    }
}

proof fn lemma_host_map_len_mono(caps: Seq<usize>, m: int)
    requires
        0 <= m <= caps.len(),
    ensures
        forall|s: int, t: int| 0 <= s <= t <= m ==> qubit_offset(caps, s) <= qubit_offset(caps, t),
        forall|s: int| 0 <= s < m ==> #[trigger] qubit_offset(caps, s + 1) == qubit_offset(caps, s) + caps[s],
    decreases m,
{
    if m > 0 {
        lemma_host_map_len_mono(caps, m - 1);
        assert(qubit_offset(caps, m) == qubit_offset(caps, m - 1) + caps[m - 1]);
    }
}

proof fn lemma_host_map_offsets(caps: Seq<usize>, s: int, m: int)
    requires
        0 <= s < m <= caps.len(),
    ensures
        qubit_offset(caps, s) + caps[s] <= host_map(caps, m).len(),
{
    lemma_host_map_len_mono(caps, m);
    assert(qubit_offset(caps, s + 1) <= qubit_offset(caps, m));
}

/// Qubit `q` of the map is bit `q − offset(s)` of the site `s` whose range
/// holds `q`.
proof fn lemma_host_map_index(caps: Seq<usize>, m: int, q: int)
    requires
        0 <= m <= caps.len(),
        caps.len() <= usize::MAX,
        0 <= q < host_map(caps, m).len(),
    ensures
        0 <= host_map(caps, m)[q].0 < m,
        qubit_offset(caps, host_map(caps, m)[q].0 as int) <= q,
        q == qubit_offset(caps, host_map(caps, m)[q].0 as int) + host_map(caps, m)[q].1,
        host_map(caps, m)[q].1 < caps[host_map(caps, m)[q].0 as int],
    decreases m,
{
    let prev = host_map(caps, m - 1);
    assert(qubit_offset(caps, m - 1) == prev.len());
    if q < prev.len() {
        lemma_host_map_index(caps, m - 1, q);
        assert(host_map(caps, m)[q] == prev[q]);
    } else {
        let t = q - prev.len();
        assert(host_map(caps, m)[q] == ((m - 1) as usize, t as usize));
        assert(((m - 1) as usize) as int == m - 1);
        assert((t as usize) as int == t);
    }
}

proof fn lemma_bits_value_nonneg(bs: Seq<usize>)
    ensures
        bits_value(bs) >= 0,
    decreases bs.len(),
{
    if bs.len() > 0 {
        lemma_bits_value_nonneg(bs.drop_last());
    }
}

/// Writing qubit `q` (bit `t` of site `s`) extends that site's partial
/// digit by one bit.
proof fn lemma_partial_step(bits: Seq<usize>, caps: Seq<usize>, s: int, q: int)
    requires
        0 <= s < caps.len(),
        qubit_offset(caps, s) <= q < qubit_offset(caps, s) + caps[s],
        q < bits.len(),
        bits[q] < 2,
        caps[s] < usize::BITS,
    ensures
        with_bit_spec(partial_digit(bits, caps, s, q), q - qubit_offset(caps, s), caps[s] as int, bits[q] as int)
            == partial_digit(bits, caps, s, q + 1),
{
    let off = qubit_offset(caps, s);
    let k = caps[s] as int;
    let t = q - off;
    let vt = bits_value(bits.subrange(off, off + t));
    let sub1 = bits.subrange(off, off + t + 1);
    assert(sub1.drop_last() =~= bits.subrange(off, off + t));
    assert(bits_value(sub1) == vt * 2 + bits[q]);
    let e = (k - 1 - t) as nat;
    lemma_pow2_unfold(e + 1);
    let pe = pow2(e) as int;
    assert(pow2((k - t) as nat) == 2 * pe);
    lemma_pow2_pos(e);
    lemma_bits_value_nonneg(bits.subrange(off, off + t));
    let old = vt * (2 * pe);
    assert(old == (2 * vt) * pe) by (nonlinear_arith) requires old == vt * (2 * pe);
    vstd::arithmetic::div_mod::lemma_div_multiples_vanish(2 * vt, pe);
    assert(pe * (2 * vt) == (2 * vt) * pe) by (nonlinear_arith);
    assert(old / pe == 2 * vt);
    vstd::arithmetic::div_mod::lemma_mod_multiples_basic(vt, 2);
    assert((2 * vt) % 2 == 0) by {
        assert(2 * vt == vt * 2);
    }
    assert(bit_spec(old, t, k) == 0);
    assert(old + (bits[q] - 0) * pe == (vt * 2 + bits[q]) * pe) by (nonlinear_arith)
        requires old == (2 * vt) * pe;
    if t + 1 == k {
        assert(q + 1 >= off + k);
    }
}

/// Writing a qubit of site `s` leaves every other site's digit unchanged.
proof fn lemma_partial_other(caps: Seq<usize>, m: int, s: int, s2: int, q: int)
    requires
        0 <= s < m,
        0 <= s2 < m,
        m <= caps.len(),
        s != s2,
        qubit_offset(caps, s) <= q < qubit_offset(caps, s) + caps[s],
    ensures
        forall|bits: Seq<usize>| partial_digit(bits, caps, s2, q + 1) == #[trigger] partial_digit(bits, caps, s2, q),
{
    lemma_host_map_len_mono(caps, m);
    if s2 < s {
        assert(qubit_offset(caps, s2 + 1) <= qubit_offset(caps, s));
    } else {
        assert(qubit_offset(caps, s + 1) <= qubit_offset(caps, s2));
    }
}


/// A bit string splits at any position: the prefix's value shifted past the
/// suffix, plus the suffix's value.
proof fn lemma_bits_value_split(bs: Seq<usize>, j: int)
    requires
        0 <= j <= bs.len(),
    ensures
        bits_value(bs) == bits_value(bs.take(j)) * pow2((bs.len() - j) as nat) + bits_value(bs.skip(j)),
    decreases bs.len(),
{
    if j == bs.len() {
        assert(bs.take(j) =~= bs);
        assert(bs.skip(j).len() == 0);
        assert(pow2(0) == 1) by {
            vstd::arithmetic::power2::lemma2_to64();
        }
        let v = bits_value(bs);
        assert(v * 1 == v) by (nonlinear_arith);
    } else {
        let q = bs.drop_last();
        lemma_bits_value_split(q, j);
        assert(q.take(j) =~= bs.take(j));
        assert(bs.skip(j).drop_last() =~= q.skip(j));
        assert(bs.skip(j).last() == bs.last());
        let e = (q.len() - j) as nat;
        lemma_pow2_unfold(e + 1);
        let a = bits_value(bs.take(j));
        let p = pow2(e) as int;
        let r = bits_value(q.skip(j));
        assert((a * p + r) * 2 + bs.last() == a * (2 * p) + (r * 2 + bs.last())) by (nonlinear_arith);
    }
}

/// A string of binary digits has a value below `2^len`.
proof fn lemma_bits_value_bound(bs: Seq<usize>)
    requires
        forall|i: int| 0 <= i < bs.len() ==> #[trigger] bs[i] < 2,
    ensures
        0 <= bits_value(bs) < pow2(bs.len()),
    decreases bs.len(),
{
    if bs.len() == 0 {
        assert(pow2(0) == 1) by {
            vstd::arithmetic::power2::lemma2_to64();
        }
    } else {
        let q = bs.drop_last();
        assert forall|i: int| 0 <= i < q.len() implies #[trigger] q[i] < 2 by {
            assert(q[i] == bs[i]);
        }
        lemma_bits_value_bound(q);
        lemma_pow2_unfold(bs.len());
    }
}

/// Reading bit `t` of a register level recovers bit `t` of the binary
/// string that encoded it.
proof fn lemma_bit_of_bits_value(bs: Seq<usize>, t: int)
    requires
        0 <= t < bs.len(),
        forall|i: int| 0 <= i < bs.len() ==> #[trigger] bs[i] < 2,
    ensures
        bit_spec(bits_value(bs), t, bs.len() as int) == bs[t],
{
    let k = bs.len() as int;
    let e = (k - 1 - t) as nat;
    lemma_bits_value_split(bs, t + 1);
    let pre = bs.take(t + 1);
    let suf = bs.skip(t + 1);
    assert forall|i: int| 0 <= i < suf.len() implies #[trigger] suf[i] < 2 by {
        assert(suf[i] == bs[t + 1 + i]);
    }
    lemma_bits_value_bound(suf);
    lemma_bits_value_nonneg(pre);
    lemma_pow2_pos(e);
    let a = bits_value(pre);
    let p = pow2(e) as int;
    let r = bits_value(suf);
    vstd::arithmetic::div_mod::lemma_fundamental_div_mod_converse(a * p + r, p, a, r);
    assert(pre.drop_last() =~= bs.take(t));
    assert(pre.last() == bs[t]);
    lemma_bits_value_nonneg(bs.take(t));
    let b = bits_value(bs.take(t));
    vstd::arithmetic::div_mod::lemma_fundamental_div_mod_converse(a, 2, b, bs[t] as int);
}

/// Hosted basis encoding is exact: for the digits that
/// [`HostRegister::qubit_basis_to_digits`] produces, each site's level lies
/// in its register subspace (below `2^k`, hence below the site dimension)
/// and bit `t` of the level is the qubit hosted there.
pub proof fn law_basis_encoding_roundtrip(caps: Seq<usize>, bits: Seq<usize>, s: int, t: int)
    requires
        forall|q: int| 0 <= q < bits.len() ==> #[trigger] bits[q] < 2,
        0 <= s < caps.len(),
        0 <= t < caps[s],
        bits.len() == host_map(caps, caps.len() as int).len(),
    ensures
        ({
            let off = qubit_offset(caps, s);
            let level = bits_value(bits.subrange(off, off + caps[s]));
            &&& 0 <= level < pow2(caps[s] as nat)
            &&& bit_spec(level, t, caps[s] as int) == bits[off + t]
        }),
{
    let off = qubit_offset(caps, s);
    let k = caps[s] as int;
    lemma_host_map_offsets(caps, s, caps.len() as int);
    lemma_host_map_len_mono(caps, caps.len() as int);
    let sub = bits.subrange(off, off + k);
    assert forall|i: int| 0 <= i < sub.len() implies #[trigger] sub[i] < 2 by {
        assert(sub[i] == bits[off + i]);
    }
    lemma_bits_value_bound(sub);
    lemma_bit_of_bits_value(sub, t);
}


/// Decomposition of a level around bit `t` of a `k`-bit register: with
/// `p = 2^(k-1-t)`, `l = 2p·q + bit·p + r` with `r < p`.
proof fn lemma_bit_decompose(l: int, t: int, k: int)
    requires
        0 <= t < k,
        l >= 0,
    ensures
        ({
            let p = pow2((k - 1 - t) as nat) as int;
            let q = (l / p) / 2;
            &&& p >= 1
            &&& q >= 0
            &&& 0 <= l % p < p
            &&& l == 2 * p * q + bit_spec(l, t, k) * p + l % p
            &&& 0 <= bit_spec(l, t, k) < 2
        }),
{
    let p = pow2((k - 1 - t) as nat) as int;
    lemma_pow2_pos((k - 1 - t) as nat);
    vstd::arithmetic::div_mod::lemma_fundamental_div_mod(l, p);
    vstd::arithmetic::div_mod::lemma_mod_bound(l, p);
    vstd::arithmetic::div_mod::lemma_div_pos_is_pos(l, p);
    let h = l / p;
    vstd::arithmetic::div_mod::lemma_fundamental_div_mod(h, 2);
    vstd::arithmetic::div_mod::lemma_mod_bound(h, 2);
    vstd::arithmetic::div_mod::lemma_div_pos_is_pos(h, 2);
    let q = h / 2;
    assert(l == 2 * p * q + (h % 2) * p + l % p) by (nonlinear_arith)
        requires l == p * h + l % p, h == 2 * q + h % 2;
}

/// Setting bit `t` to `b` and reading it back gives `b`; setting it back to
/// its old value restores the level; a register level stays a register
/// level.
proof fn lemma_with_bit_facts(l: int, t: int, k: int, b: int)
    requires
        0 <= t < k,
        l >= 0,
        0 <= b < 2,
    ensures
        with_bit_spec(l, t, k, b) >= 0,
        bit_spec(with_bit_spec(l, t, k, b), t, k) == b,
        with_bit_spec(with_bit_spec(l, t, k, b), t, k, bit_spec(l, t, k)) == l,
        l < pow2(k as nat) ==> with_bit_spec(l, t, k, b) < pow2(k as nat),
{
    lemma_bit_decompose(l, t, k);
    let p = pow2((k - 1 - t) as nat) as int;
    let q = (l / p) / 2;
    let r = l % p;
    let bit = bit_spec(l, t, k);
    let w = with_bit_spec(l, t, k, b);
    assert(w == l + (b - bit) * p);
    assert(w == p * (2 * q + b) + r) by (nonlinear_arith)
        requires l == 2 * p * q + bit * p + r, w == l + (b - bit) * p;
    assert(w >= 0) by (nonlinear_arith) requires w == p * (2 * q + b) + r, p >= 1, q >= 0, b >= 0, r >= 0;
    vstd::arithmetic::div_mod::lemma_fundamental_div_mod_converse(w, p, 2 * q + b, r);
    vstd::arithmetic::div_mod::lemma_fundamental_div_mod_converse(2 * q + b, 2, q, b);
    assert(bit_spec(w, t, k) == b);
    assert(with_bit_spec(w, t, k, bit) == w + (bit - b) * p);
    assert(w + (bit - b) * p == l) by (nonlinear_arith)
        requires w == l + (b - bit) * p;
    if l < pow2(k as nat) {
        vstd::arithmetic::power2::lemma_pow2_adds((t + 1) as nat, (k - 1 - t) as nat);
        let big = pow2((t + 1) as nat) as int;
        vstd::arithmetic::power2::lemma_pow2_unfold((t + 1) as nat);
        let top = pow2(t as nat) as int;
        assert(big == 2 * top);
        assert(pow2(k as nat) == big * p);
        assert(q < top) by (nonlinear_arith)
            requires l == 2 * p * q + bit * p + r, l < big * p, big == 2 * top, p >= 1, bit >= 0, r >= 0;
        assert(w < big * p) by (nonlinear_arith)
            requires w == p * (2 * q + b) + r, r < p, b <= 1, q + 1 <= top, big == 2 * top, p >= 1;
    }
}

/// Where the qubit–bit swap sends the basis state `col = a·d + l` of the
/// pair `(qubit site, host site)`: on register levels `l < 2^k` the qubit
/// `a` and bit `t` of `l` trade places; slack levels stay put.
pub open spec fn swap_target(d: int, k: int, t: int, col: int) -> int {
    let a = col / d;
    let l = col % d;
    if l < pow2(k as nat) {
        bit_spec(l, t, k) * d + with_bit_spec(l, t, k, a)
    } else {
        col
    }
}

/// The basis permutation of the full SWAP between a physical qubit and bit
/// `t` of the register of a dimension-`d_host` site, on the ordered pair
/// `(qubit site, host site)` (basis index `a·d_host + l`).
pub fn qubit_bit_swap_target(d_host: usize, t: usize, col: usize) -> (row: usize)
    requires
        t < log2_floor(d_host as nat),
        col < 2 * d_host,
        2 * d_host <= usize::MAX,
    ensures
        row == swap_target(d_host as int, log2_floor(d_host as nat) as int, t as int, col as int),
        row < 2 * d_host,
{
    let k = capacity(d_host);
    let a = col / d_host;
    let l = col % d_host;
    proof {
        vstd::arithmetic::div_mod::lemma_fundamental_div_mod(col as int, d_host as int);
        assert(a < 2) by (nonlinear_arith)
            requires col == d_host * a + l, col < 2 * d_host, l >= 0, d_host >= 1;
        vstd::bits::lemma_usize_pow2_no_overflow(k as nat);
        vstd::bits::lemma_usize_shl_is_mul(1, k);
    }
    let reg = 1usize << k;
    if l < reg {
        let b = bit_of(l, t, k);
        let w = with_bit(l, t, k, a);
        proof {
            lemma_with_bit_facts(l as int, t as int, k as int, a as int);
            assert(b * d_host + w < 2 * d_host) by (nonlinear_arith)
                requires b <= 1, w < reg, reg <= d_host;
        }
        b * d_host + w
    } else {
        col
    }
}

/// The qubit–bit swap is an involution that leaves slack untouched: applied
/// twice it restores every basis state of the pair, it stays within the
/// pair's `2·d` states, and it fixes every state whose host level is slack.
pub proof fn law_qubit_bit_swap_is_involution(d: int, t: int, col: int)
    requires
        d >= 1,
        0 <= t < log2_floor(d as nat),
        0 <= col < 2 * d,
    ensures
        0 <= swap_target(d, log2_floor(d as nat) as int, t, col) < 2 * d,
        swap_target(d, log2_floor(d as nat) as int, t, swap_target(d, log2_floor(d as nat) as int, t, col)) == col,
        col % d >= pow2(log2_floor(d as nat)) ==> swap_target(d, log2_floor(d as nat) as int, t, col) == col,
{
    let k = log2_floor(d as nat) as int;
    lemma_log2_floor_bound(d as nat);
    assert(d >= 2);
    vstd::arithmetic::div_mod::lemma_fundamental_div_mod(col, d);
    vstd::arithmetic::div_mod::lemma_mod_bound(col, d);
    vstd::arithmetic::div_mod::lemma_div_pos_is_pos(col, d);
    let a = col / d;
    let l = col % d;
    assert(a < 2) by (nonlinear_arith) requires col == d * a + l, col < 2 * d, l >= 0, d >= 1;
    if l < pow2(k as nat) {
        lemma_with_bit_facts(l, t, k, a);
        lemma_bit_decompose(l, t, k);
        let b = bit_spec(l, t, k);
        let w = with_bit_spec(l, t, k, a);
        let row = b * d + w;
        assert(w < d);
        assert(row < 2 * d) by (nonlinear_arith) requires row == b * d + w, b <= 1, w < d, b >= 0, d >= 0;
        vstd::arithmetic::div_mod::lemma_fundamental_div_mod_converse(row, d, b, w);
        assert(swap_target(d, k, t, row) == bit_spec(w, t, k) * d + with_bit_spec(w, t, k, b));
        vstd::arithmetic::div_mod::lemma_fundamental_div_mod_converse(col, d, a, l);
        assert(a * d + l == col) by (nonlinear_arith) requires col == d * a + l;
    }
}

/// `2^⌊log2 d⌋ ≤ d` for `d ≥ 1`, and `d ≥ 2` as soon as it hosts a bit.
proof fn lemma_log2_floor_bound(d: nat)
    requires
        d >= 1,
    ensures
        pow2(log2_floor(d)) <= d,
        log2_floor(d) >= 1 ==> d >= 2,
    decreases d,
{
    if d > 1 {
        lemma_log2_floor_bound(d / 2);
        lemma_pow2_unfold(log2_floor(d));
    } else {
        vstd::arithmetic::power2::lemma2_to64();
    }
}

/// The index of a register state in the hosted-qubit space: the sites'
/// levels read as one big-endian bit string, `k_s` bits per site.
pub open spec fn register_value(caps: Seq<usize>, digits: Seq<usize>, m: int) -> int
    decreases m,
{
    if m <= 0 {
        0
    } else {
        register_value(caps, digits, m - 1) * pow2(caps[m - 1] as nat) + digits[m - 1]
    }
}

/// Every site's level lies in its register subspace.
pub open spec fn in_register(caps: Seq<usize>, digits: Seq<usize>) -> bool {
    forall|s: int| 0 <= s < digits.len() ==> #[trigger] digits[s] < pow2(caps[s] as nat)
}

impl HostRegister {
    /// The hosted-qubit index of the chain basis state `|digits⟩`, or
    /// `None` when some site sits on a slack level (outside its register).
    pub fn register_index(&self, digits: &[usize]) -> (r: Option<usize>)
        requires
            self.wf(),
            digits@.len() == self.dims@.len(),
            self.qubit_map@.len() < usize::BITS,
        ensures
            r == if in_register(self.caps@, digits@) {
                Some(register_value(self.caps@, digits@, digits@.len() as int) as usize)
            } else {
                None::<usize>
            },
            in_register(self.caps@, digits@) ==> register_value(self.caps@, digits@, digits@.len() as int) < pow2(
                self.qubit_map@.len(),
            ),
    {
        let n = digits.len();
        let ghost caps = self.caps@;
        proof {
            lemma_host_map_len_mono(caps, n as int);
            vstd::bits::lemma_usize_pow2_no_overflow(self.qubit_map@.len());
        }
        let mut qidx: usize = 0;
        let mut s: usize = 0;
        assert(pow2(0) == 1) by {
            vstd::arithmetic::power2::lemma2_to64();
        }
        while s < n
            invariant
                self.wf(),
                caps == self.caps@,
                n == digits@.len(),
                n == self.dims@.len(),
                self.qubit_map@.len() < usize::BITS,
                pow2(self.qubit_map@.len()) <= usize::MAX,
                s <= n,
                forall|j: int, i: int| 0 <= j <= i <= n ==> qubit_offset(caps, j) <= qubit_offset(caps, i),
                forall|j: int| 0 <= j < n ==> #[trigger] qubit_offset(caps, j + 1) == qubit_offset(caps, j) + caps[j],
                forall|j: int| 0 <= j < s ==> #[trigger] digits@[j] < pow2(caps[j] as nat),
                qidx == register_value(caps, digits@, s as int),
                qidx < pow2(qubit_offset(caps, s as int) as nat),
            decreases n - s,
        {
            let k = self.caps[s];
            proof {
                vstd::bits::lemma_usize_pow2_no_overflow(k as nat);
                vstd::bits::lemma_usize_shl_is_mul(1, k);
            }
            let reg = 1usize << k;
            if digits[s] >= reg {
                proof {
                    assert(!in_register(caps, digits@)) by {
                        assert(!(digits@[s as int] < pow2(caps[s as int] as nat)));
                    }
                }
                return None;
            }
            proof {
                let off = qubit_offset(caps, s as int);
                vstd::arithmetic::power2::lemma_pow2_adds(off as nat, k as nat);
                assert(qubit_offset(caps, s as int + 1) == off + k);
                assert(qubit_offset(caps, s as int + 1) <= qubit_offset(caps, n as int));
                assert(qubit_offset(caps, n as int) == self.qubit_map@.len());
                if off + k < self.qubit_map@.len() {
                    vstd::arithmetic::power2::lemma_pow2_strictly_increases((off + k) as nat, self.qubit_map@.len());
                }
                let p = pow2(off as nat) as int;
                assert(qidx * reg + digits[s as int] < p * reg) by (nonlinear_arith)
                    requires qidx < p, digits[s as int] < reg;
            }
            qidx = qidx * reg + digits[s];
            s = s + 1;
        }
        proof {
            assert(qubit_offset(caps, n as int) == self.qubit_map@.len());
        }
        Some(qidx)
    }
}

/// Reading back an encoded basis state recovers the qubit index: the
/// register value of the digits that
/// [`HostRegister::qubit_basis_to_digits`] produces (each site's level the
/// big-endian value of its hosted bits) is the big-endian value of the
/// whole qubit string.
pub proof fn law_register_index_reads_encoding(caps: Seq<usize>, bits: Seq<usize>, digits: Seq<usize>)
    requires
        forall|q: int| 0 <= q < bits.len() ==> #[trigger] bits[q] < 2,
        bits.len() == host_map(caps, caps.len() as int).len(),
        digits.len() == caps.len(),
        forall|s: int| 0 <= s < caps.len() ==> #[trigger] digits[s] == bits_value(
            bits.subrange(qubit_offset(caps, s), qubit_offset(caps, s) + caps[s]),
        ),
    ensures
        in_register(caps, digits),
        register_value(caps, digits, caps.len() as int) == bits_value(bits),
{
    let n = caps.len() as int;
    lemma_host_map_len_mono(caps, n);
    assert forall|s: int| 0 <= s < digits.len() implies #[trigger] digits[s] < pow2(caps[s] as nat) by {
        lemma_host_map_offsets(caps, s, n);
        let off = qubit_offset(caps, s);
        let sub = bits.subrange(off, off + caps[s]);
        assert forall|i: int| 0 <= i < sub.len() implies #[trigger] sub[i] < 2 by {
            assert(sub[i] == bits[off + i]);
        }
        lemma_bits_value_bound(sub);
    }
    lemma_register_prefix(caps, bits, digits, n);
    assert(bits.take(qubit_offset(caps, n)) =~= bits);
}

proof fn lemma_register_prefix(caps: Seq<usize>, bits: Seq<usize>, digits: Seq<usize>, m: int)
    requires
        bits.len() == host_map(caps, caps.len() as int).len(),
        digits.len() == caps.len(),
        0 <= m <= caps.len(),
        forall|s: int| 0 <= s < caps.len() ==> #[trigger] digits[s] == bits_value(
            bits.subrange(qubit_offset(caps, s), qubit_offset(caps, s) + caps[s]),
        ),
    ensures
        register_value(caps, digits, m) == bits_value(bits.take(qubit_offset(caps, m))),
    decreases m,
{
    let n = caps.len() as int;
    lemma_host_map_len_mono(caps, n);
    if m == 0 {
        assert(qubit_offset(caps, 0) == 0);
        assert(bits.take(0).len() == 0);
    } else {
        lemma_register_prefix(caps, bits, digits, m - 1);
        let a = qubit_offset(caps, m - 1);
        let b = qubit_offset(caps, m);
        assert(b == a + caps[m - 1]);
        assert(b <= qubit_offset(caps, n));
        let pre = bits.take(b);
        lemma_bits_value_split(pre, a);
        assert(pre.take(a) =~= bits.take(a));
        assert(pre.skip(a) =~= bits.subrange(a, b));
    }
}


/// One entry of a lifted two-site gate: `(row, col, source)` where the
/// source is the element `(row, col)` of the 4×4 qubit unitary it carries,
/// or nothing for an identity entry `1` on a slack level.
pub type LiftEntry = (usize, usize, Option<(usize, usize)>);

/// A pair `(la, lb)` flattened as `la·db + lb` has both levels inside the
/// sites' registers (`2^ka`, `2^kb` levels).
pub open spec fn in_pair_register(x: int, db: int, ka: int, kb: int) -> bool {
    x / db < pow2(ka as nat) && x % db < pow2(kb as nat)
}

/// The entries of column `col = la·db + lb` of the cross-site lift of a
/// two-qubit gate on bit `ta` of site `a` and bit `tb` of site `b`: on
/// register levels, the four images with the two bits replaced, weighted by
/// the matching element of the qubit unitary; on slack levels, the identity.
pub open spec fn cross_col_entries(db: int, ka: int, ta: int, kb: int, tb: int, col: int) -> Seq<LiftEntry> {
    let la = col / db;
    let lb = col % db;
    if la < pow2(ka as nat) && lb < pow2(kb as nat) {
        let u = bit_spec(la, ta, ka);
        let v = bit_spec(lb, tb, kb);
        Seq::new(
            4,
            |q: int|
                ((with_bit_spec(la, ta, ka, q / 2) * db + with_bit_spec(lb, tb, kb, q % 2)) as usize, col as usize, Some(
                    (q as usize, (u * 2 + v) as usize),
                )),
        )
    } else {
        seq![(col as usize, col as usize, None::<(usize, usize)>)]
    }
}

/// The entries of the first `c` columns of the cross-site lift.
pub open spec fn cross_entries(db: int, ka: int, ta: int, kb: int, tb: int, c: int) -> Seq<LiftEntry>
    decreases c,
{
    if c <= 0 {
        Seq::empty()
    } else {
        cross_entries(db, ka, ta, kb, tb, c - 1) + cross_col_entries(db, ka, ta, kb, tb, c - 1)
    }
}

/// The entries of a two-qubit gate on bit `ta` of a dimension-`da` site and
/// bit `tb` of a dimension-`db` site, lifted to the `(da·db)`-dimensional
/// pair space (basis index `la·db + lb`), column by column.
pub fn cross_lift_entries(da: usize, ta: usize, db: usize, tb: usize) -> (out: Vec<LiftEntry>)
    requires
        da >= 1,
        db >= 1,
        ta < log2_floor(da as nat),
        tb < log2_floor(db as nat),
        da * db <= usize::MAX,
    ensures
        out@ == cross_entries(db as int, log2_floor(da as nat) as int, ta as int, log2_floor(db as nat) as int, tb as int, da * db),
{
    let ka = capacity(da);
    let kb = capacity(db);
    proof {
        vstd::bits::lemma_usize_pow2_no_overflow(ka as nat);
        vstd::bits::lemma_usize_shl_is_mul(1, ka);
        vstd::bits::lemma_usize_pow2_no_overflow(kb as nat);
        vstd::bits::lemma_usize_shl_is_mul(1, kb);
    }
    let rega = 1usize << ka;
    let regb = 1usize << kb;
    let ghost (gka, gkb) = (ka as int, kb as int);
    let mut out: Vec<LiftEntry> = Vec::new();
    let mut la: usize = 0;
    while la < da
        invariant
            da >= 1,
            db >= 1,
            da * db <= usize::MAX,
            ka == log2_floor(da as nat),
            kb == log2_floor(db as nat),
            ta < ka,
            tb < kb,
            ka < usize::BITS,
            kb < usize::BITS,
            rega == pow2(ka as nat),
            regb == pow2(kb as nat),
            rega <= da,
            regb <= db,
            la <= da,
            out@ == cross_entries(db as int, ka as int, ta as int, kb as int, tb as int, la * db),
        decreases da - la,
    {
        let mut lb: usize = 0;
        proof {
            assert(la * db + db <= da * db) by (nonlinear_arith) requires la < da, db >= 0;
        }
        while lb < db
            invariant
                da >= 1,
                db >= 1,
                da * db <= usize::MAX,
                ka == log2_floor(da as nat),
                kb == log2_floor(db as nat),
                ta < ka,
                tb < kb,
                ka < usize::BITS,
                kb < usize::BITS,
                rega == pow2(ka as nat),
                regb == pow2(kb as nat),
                rega <= da,
                regb <= db,
                la < da,
                lb <= db,
                la * db + db <= da * db,
                out@ == cross_entries(db as int, ka as int, ta as int, kb as int, tb as int, la * db + lb),
            decreases db - lb,
        {
            let col = la * db + lb;
            let ghost before = out@;
            proof {
                lemma_fundamental_div_mod_converse(col as int, db as int, la as int, lb as int);
                assert(col == db * la + lb) by (nonlinear_arith) requires col == la * db + lb;
            }
            if la < rega && lb < regb {
                let u = bit_of(la, ta, ka);
                let v = bit_of(lb, tb, kb);
                let mut q: usize = 0;
                while q < 4
                    invariant
                        ka == log2_floor(da as nat),
                        kb == log2_floor(db as nat),
                        ta < ka,
                        tb < kb,
                        ka < usize::BITS,
                        kb < usize::BITS,
                        rega == pow2(ka as nat),
                        regb == pow2(kb as nat),
                        rega <= da,
                        regb <= db,
                        la < rega,
                        lb < regb,
                        col == la * db + lb,
                        col as int / db as int == la,
                        col as int % db as int == lb,
                        da * db <= usize::MAX,
                        u == bit_spec(la as int, ta as int, ka as int),
                        v == bit_spec(lb as int, tb as int, kb as int),
                        u < 2,
                        v < 2,
                        q <= 4,
                        out@ == before + cross_col_entries(db as int, ka as int, ta as int, kb as int, tb as int, col as int).take(q as int),
                    decreases 4 - q,
                {
                    let up = q / 2;
                    let vp = q % 2;
                    let wa = with_bit(la, ta, ka, up);
                    let wb = with_bit(lb, tb, kb, vp);
                    proof {
                        lemma_with_bit_facts(la as int, ta as int, ka as int, up as int);
                        lemma_with_bit_facts(lb as int, tb as int, kb as int, vp as int);
                        assert(wa * db + wb < da * db) by (nonlinear_arith)
                            requires wa < da, wb < db, wa >= 0, wb >= 0;
                    }
                    out.push((wa * db + wb, col, Some((q, u * 2 + v))));
                    q = q + 1;
                    assert(out@ =~= before + cross_col_entries(db as int, ka as int, ta as int, kb as int, tb as int, col as int).take(q as int));
                }
                assert(cross_col_entries(db as int, ka as int, ta as int, kb as int, tb as int, col as int).take(4) =~= cross_col_entries(db as int, ka as int, ta as int, kb as int, tb as int, col as int));
            } else {
                out.push((col, col, None));
            }
            assert(out@ =~= cross_entries(db as int, ka as int, ta as int, kb as int, tb as int, col + 1));
            lb = lb + 1;
        }
        proof {
            assert((la + 1) * db == la * db + db) by (nonlinear_arith);
        }
        la = la + 1;
    }
    out
}

/// Lifted two-qubit gates never mix register and slack levels: every gate
/// entry of the cross-site lift connects register levels of both sites to
/// register levels, and every other entry is the identity on a slack level.
/// A state prepared in the register subspace therefore stays there.
pub proof fn law_cross_lift_keeps_the_register(da: int, ta: int, db: int, tb: int, k: int)
    requires
        da >= 1,
        db >= 1,
        0 <= ta < log2_floor(da as nat),
        0 <= tb < log2_floor(db as nat),
        da * db <= usize::MAX,
        0 <= k < cross_entries(db, log2_floor(da as nat) as int, ta, log2_floor(db as nat) as int, tb, da * db).len(),
    ensures
        ({
            let ka = log2_floor(da as nat) as int;
            let kb = log2_floor(db as nat) as int;
            let e = cross_entries(db, ka, ta, kb, tb, da * db)[k];
            &&& e.0 < da * db
            &&& e.1 < da * db
            &&& e.2 is Some ==> in_pair_register(e.0 as int, db, ka, kb) && in_pair_register(e.1 as int, db, ka, kb)
            &&& e.2 is None ==> e.0 == e.1 && !in_pair_register(e.1 as int, db, ka, kb)
        }),
{
    let ka = log2_floor(da as nat) as int;
    let kb = log2_floor(db as nat) as int;
    lemma_cross_entries_shape(da, ta, db, tb, da * db, k);
}

proof fn lemma_cross_entries_shape(da: int, ta: int, db: int, tb: int, c: int, k: int)
    requires
        da >= 1,
        db >= 1,
        0 <= ta < log2_floor(da as nat),
        0 <= tb < log2_floor(db as nat),
        da * db <= usize::MAX,
        0 <= c <= da * db,
        0 <= k < cross_entries(db, log2_floor(da as nat) as int, ta, log2_floor(db as nat) as int, tb, c).len(),
    ensures
        ({
            let ka = log2_floor(da as nat) as int;
            let kb = log2_floor(db as nat) as int;
            let e = cross_entries(db, ka, ta, kb, tb, c)[k];
            &&& e.0 < da * db
            &&& e.1 < da * db
            &&& e.2 is Some ==> in_pair_register(e.0 as int, db, ka, kb) && in_pair_register(e.1 as int, db, ka, kb)
            &&& e.2 is None ==> e.0 == e.1 && !in_pair_register(e.1 as int, db, ka, kb)
        }),
    decreases c,
{
    let ka = log2_floor(da as nat) as int;
    let kb = log2_floor(db as nat) as int;
    let prev = cross_entries(db, ka, ta, kb, tb, c - 1);
    let cur = cross_col_entries(db, ka, ta, kb, tb, c - 1);
    assert(cross_entries(db, ka, ta, kb, tb, c) == prev + cur);
    if k < prev.len() {
        lemma_cross_entries_shape(da, ta, db, tb, c - 1, k);
        assert(cross_entries(db, ka, ta, kb, tb, c)[k] == prev[k]);
    } else {
        let col = c - 1;
        let q = k - prev.len();
        assert(cross_entries(db, ka, ta, kb, tb, c)[k] == cur[q]);
        lemma_fundamental_div_mod(col, db);
        vstd::arithmetic::div_mod::lemma_mod_bound(col, db);
        vstd::arithmetic::div_mod::lemma_div_pos_is_pos(col, db);
        let la = col / db;
        let lb = col % db;
        assert(la < da) by (nonlinear_arith) requires col == db * la + lb, 0 <= lb, col < da * db, db >= 1;
        lemma_log2_floor_bound(da as nat);
        lemma_log2_floor_bound(db as nat);
        if la < pow2(ka as nat) && lb < pow2(kb as nat) {
            let up = q / 2;
            let vp = q % 2;
            lemma_with_bit_facts(la, ta, ka, up);
            lemma_with_bit_facts(lb, tb, kb, vp);
            let wa = with_bit_spec(la, ta, ka, up);
            let wb = with_bit_spec(lb, tb, kb, vp);
            assert(wa < da && wb < db);
            assert(0 <= wa * db + wb < da * db) by (nonlinear_arith)
                requires 0 <= wa < da, 0 <= wb < db;
            lemma_fundamental_div_mod_converse(wa * db + wb, db, wa, wb);
            assert(cur[q].0 == (wa * db + wb) as usize);
        }
    }
}

/// Setting bit `ta` of a level leaves every other bit as it was.
proof fn lemma_with_bit_other(l: int, ta: int, t: int, k: int, b: int)
    requires
        0 <= ta < k,
        0 <= t < k,
        t != ta,
        l >= 0,
        0 <= b < 2,
    ensures
        bit_spec(with_bit_spec(l, ta, k, b), t, k) == bit_spec(l, t, k),
{
    lemma_with_bit_facts(l, ta, k, b);
    lemma_bit_decompose(l, ta, k);
    let ea = (k - 1 - ta) as nat;
    let et = (k - 1 - t) as nat;
    let pa = pow2(ea) as int;
    let pt = pow2(et) as int;
    lemma_pow2_pos(ea);
    lemma_pow2_pos(et);
    let bit = bit_spec(l, ta, k);
    let w = with_bit_spec(l, ta, k, b);
    assert(w == l + (b - bit) * pa);
    if t > ta {
        // bit t lies below bit ta: the change is a multiple of 2·pt.
        let g = (ea - et) as nat;
        vstd::arithmetic::power2::lemma_pow2_adds(et, g);
        assert(et + g == ea);
        lemma_pow2_unfold(g);
        let h = pow2((g - 1) as nat) as int;
        assert(pa == pt * (2 * h));
        let c = (b - bit) * h;
        assert(w == l + (2 * c) * pt) by (nonlinear_arith)
            requires w == l + (b - bit) * pa, pa == pt * (2 * h), c == (b - bit) * h;
        vstd::arithmetic::div_mod::lemma_hoist_over_denominator(l, 2 * c, pt as nat);
        assert(w / pt == l / pt + 2 * c);
        vstd::arithmetic::div_mod::lemma_mod_multiples_vanish(c, l / pt, 2);
    } else {
        // bit t lies above bit ta: both levels have the same quotient by 2·pa.
        let g = (et - ea) as nat;
        vstd::arithmetic::power2::lemma_pow2_adds(ea, g);
        assert(ea + g == et);
        lemma_pow2_unfold(g);
        let h = pow2((g - 1) as nat) as int;
        lemma_pow2_pos((g - 1) as nat);
        assert(pt == (2 * pa) * h) by (nonlinear_arith) requires pt == pa * (2 * h);
        let q = (l / pa) / 2;
        let r = l % pa;
        assert(0 <= bit * pa + r < 2 * pa) by (nonlinear_arith) requires 0 <= bit < 2, 0 <= r < pa;
        assert(0 <= b * pa + r < 2 * pa) by (nonlinear_arith) requires 0 <= b < 2, 0 <= r < pa;
        assert(l == q * (2 * pa) + (bit * pa + r)) by (nonlinear_arith)
            requires l == 2 * pa * q + bit * pa + r;
        assert(w == q * (2 * pa) + (b * pa + r)) by (nonlinear_arith)
            requires l == 2 * pa * q + bit * pa + r, w == l + (b - bit) * pa;
        lemma_fundamental_div_mod_converse(l, 2 * pa, q, bit * pa + r);
        lemma_fundamental_div_mod_converse(w, 2 * pa, q, b * pa + r);
        vstd::arithmetic::div_mod::lemma_div_denominator(l, 2 * pa, h);
        vstd::arithmetic::div_mod::lemma_div_denominator(w, 2 * pa, h);
        assert(l / pt == w / pt);
    }
}

/// A lifted two-qubit gate acts as `I ⊗ U ⊗ I` on the registers: every gate
/// entry `(row, col, Some((qo, qi)))` of the cross-site lift changes only the
/// targeted bit `ta` of site `a` and bit `tb` of site `b` — every other bit
/// of both levels is the column's — and carries the unitary element whose
/// output index `qo` is the row's pair of target bits and whose input index
/// `qi` is the column's.
pub proof fn law_cross_lift_is_local_to_the_targets(da: int, ta: int, db: int, tb: int, k: int)
    requires
        da >= 1,
        db >= 1,
        0 <= ta < log2_floor(da as nat),
        0 <= tb < log2_floor(db as nat),
        da * db <= usize::MAX,
        0 <= k < cross_entries(db, log2_floor(da as nat) as int, ta, log2_floor(db as nat) as int, tb, da * db).len(),
    ensures
        ({
            let ka = log2_floor(da as nat) as int;
            let kb = log2_floor(db as nat) as int;
            let e = cross_entries(db, ka, ta, kb, tb, da * db)[k];
            let (row, col) = (e.0 as int, e.1 as int);
            e.2 matches Some(src) ==> {
                &&& forall|t: int| 0 <= t < ka && t != ta ==> #[trigger] bit_spec(row / db, t, ka) == bit_spec(col / db, t, ka)
                &&& forall|t: int| 0 <= t < kb && t != tb ==> #[trigger] bit_spec(row % db, t, kb) == bit_spec(col % db, t, kb)
                &&& src.0 as int == 2 * bit_spec(row / db, ta, ka) + bit_spec(row % db, tb, kb)
                &&& src.1 as int == 2 * bit_spec(col / db, ta, ka) + bit_spec(col % db, tb, kb)
            }
        }),
{
    lemma_cross_entries_targets(da, ta, db, tb, da * db, k);
}

proof fn lemma_cross_entries_targets(da: int, ta: int, db: int, tb: int, c: int, k: int)
    requires
        da >= 1,
        db >= 1,
        0 <= ta < log2_floor(da as nat),
        0 <= tb < log2_floor(db as nat),
        da * db <= usize::MAX,
        0 <= c <= da * db,
        0 <= k < cross_entries(db, log2_floor(da as nat) as int, ta, log2_floor(db as nat) as int, tb, c).len(),
    ensures
        ({
            let ka = log2_floor(da as nat) as int;
            let kb = log2_floor(db as nat) as int;
            let e = cross_entries(db, ka, ta, kb, tb, c)[k];
            let (row, col) = (e.0 as int, e.1 as int);
            e.2 matches Some(src) ==> {
                &&& forall|t: int| 0 <= t < ka && t != ta ==> #[trigger] bit_spec(row / db, t, ka) == bit_spec(col / db, t, ka)
                &&& forall|t: int| 0 <= t < kb && t != tb ==> #[trigger] bit_spec(row % db, t, kb) == bit_spec(col % db, t, kb)
                &&& src.0 as int == 2 * bit_spec(row / db, ta, ka) + bit_spec(row % db, tb, kb)
                &&& src.1 as int == 2 * bit_spec(col / db, ta, ka) + bit_spec(col % db, tb, kb)
            }
        }),
    decreases c,
{
    let ka = log2_floor(da as nat) as int;
    let kb = log2_floor(db as nat) as int;
    let prev = cross_entries(db, ka, ta, kb, tb, c - 1);
    let cur = cross_col_entries(db, ka, ta, kb, tb, c - 1);
    assert(cross_entries(db, ka, ta, kb, tb, c) == prev + cur);
    if k < prev.len() {
        lemma_cross_entries_targets(da, ta, db, tb, c - 1, k);
        assert(cross_entries(db, ka, ta, kb, tb, c)[k] == prev[k]);
    } else {
        let col = c - 1;
        let q = k - prev.len();
        assert(cross_entries(db, ka, ta, kb, tb, c)[k] == cur[q]);
        lemma_fundamental_div_mod(col, db);
        vstd::arithmetic::div_mod::lemma_mod_bound(col, db);
        vstd::arithmetic::div_mod::lemma_div_pos_is_pos(col, db);
        let la = col / db;
        let lb = col % db;
        assert(la < da) by (nonlinear_arith) requires col == db * la + lb, 0 <= lb, col < da * db, db >= 1;
        lemma_log2_floor_bound(da as nat);
        lemma_log2_floor_bound(db as nat);
        if la < pow2(ka as nat) && lb < pow2(kb as nat) {
            let up = q / 2;
            let vp = q % 2;
            lemma_with_bit_facts(la, ta, ka, up);
            lemma_with_bit_facts(lb, tb, kb, vp);
            lemma_bit_decompose(la, ta, ka);
            lemma_bit_decompose(lb, tb, kb);
            let wa = with_bit_spec(la, ta, ka, up);
            let wb = with_bit_spec(lb, tb, kb, vp);
            assert(wa < da && wb < db);
            assert(0 <= wa * db + wb < da * db) by (nonlinear_arith)
                requires 0 <= wa < da, 0 <= wb < db;
            lemma_fundamental_div_mod_converse(wa * db + wb, db, wa, wb);
            let e = cur[q];
            assert(e.0 as int == wa * db + wb);
            assert(e.1 as int == col);
            assert forall|t: int| 0 <= t < ka && t != ta implies #[trigger] bit_spec(wa, t, ka) == bit_spec(la, t, ka) by {
                lemma_with_bit_other(la, ta, t, ka, up);
            }
            assert forall|t: int| 0 <= t < kb && t != tb implies #[trigger] bit_spec(wb, t, kb) == bit_spec(lb, t, kb) by {
                lemma_with_bit_other(lb, tb, t, kb, vp);
            }
        }
    }
}

proof fn lemma_cross_entries_grow(db: int, ka: int, ta: int, kb: int, tb: int, c1: int, c2: int, k: int)
    requires
        0 <= c1 <= c2,
        0 <= k < cross_entries(db, ka, ta, kb, tb, c1).len(),
    ensures
        k < cross_entries(db, ka, ta, kb, tb, c2).len(),
        cross_entries(db, ka, ta, kb, tb, c2)[k] == cross_entries(db, ka, ta, kb, tb, c1)[k],
    decreases c2,
{
    if c2 > c1 {
        lemma_cross_entries_grow(db, ka, ta, kb, tb, c1, c2 - 1, k);
        let prev = cross_entries(db, ka, ta, kb, tb, c2 - 1);
        assert(cross_entries(db, ka, ta, kb, tb, c2) == prev + cross_col_entries(db, ka, ta, kb, tb, c2 - 1));
    }
}

/// Some entry of `es` in column `col` carries the unitary element `(qo, qi)`.
pub open spec fn carries_element(es: Seq<LiftEntry>, col: int, qo: int, qi: int) -> bool {
    exists|k: int| 0 <= k < es.len() && #[trigger] es[k].1 == col as usize && es[k].2 == Some((qo as usize, qi as usize))
}

/// No column of a lifted gate is lost: every register column carries all
/// four output amplitudes of the qubit unitary at its input index, and every
/// slack column carries the identity.
pub proof fn law_cross_lift_covers_every_column(da: int, ta: int, db: int, tb: int, col: int)
    requires
        da >= 1,
        db >= 1,
        0 <= ta < log2_floor(da as nat),
        0 <= tb < log2_floor(db as nat),
        da * db <= usize::MAX,
        0 <= col < da * db,
    ensures
        ({
            let ka = log2_floor(da as nat) as int;
            let kb = log2_floor(db as nat) as int;
            let es = cross_entries(db, ka, ta, kb, tb, da * db);
            &&& in_pair_register(col, db, ka, kb) ==> forall|qo: int| 0 <= qo < 4 ==> #[trigger] carries_element(
                es,
                col,
                qo,
                2 * bit_spec(col / db, ta, ka) + bit_spec(col % db, tb, kb),
            )
            &&& !in_pair_register(col, db, ka, kb) ==> es.contains((col as usize, col as usize, None::<(usize, usize)>))
        }),
{
    let ka = log2_floor(da as nat) as int;
    let kb = log2_floor(db as nat) as int;
    let es = cross_entries(db, ka, ta, kb, tb, da * db);
    let prev = cross_entries(db, ka, ta, kb, tb, col);
    let cur = cross_col_entries(db, ka, ta, kb, tb, col);
    let upto = cross_entries(db, ka, ta, kb, tb, col + 1);
    assert(upto == prev + cur);
    assert(col + 1 <= da * db);
    if in_pair_register(col, db, ka, kb) {
        assert forall|qo: int| 0 <= qo < 4 implies #[trigger] carries_element(
            es,
            col,
            qo,
            2 * bit_spec(col / db, ta, ka) + bit_spec(col % db, tb, kb),
        ) by {
            let k = prev.len() + qo;
            assert(upto[k] == cur[qo]);
            lemma_cross_entries_grow(db, ka, ta, kb, tb, col + 1, da * db, k);
            assert(es[k] == cur[qo]);
            assert(es[k].1 == col as usize);
        }
    } else {
        let k = prev.len() as int;
        assert(upto[k] == cur[0]);
        lemma_cross_entries_grow(db, ka, ta, kb, tb, col + 1, da * db, k);
        assert(es[k] == (col as usize, col as usize, None::<(usize, usize)>));
    }
}

} // verus!
