# novel_quantum_structures

Heterogeneous-dimension qudit chains ("twisted zigzag" profiles such as
`2,3,4,5,4,3,2`) and the integer structure that their tensor-network
simulations rest on.

## Layout

- `src/` — the verified library (Verus). Every function carries a
  `requires`/`ensures` contract over mathematical models (`Seq`, `Set`, `int`),
  and the laws of the library are public proof functions:
  - `chain` — products of local dimensions, mixed-radix values and digits,
    `gcd` and Bézout coefficients.
  - `zigzag`, `radix` — diamonds, waves, mirror pairs, waists and valleys,
    the ASCII sketch; palindromes.
  - `dense` — total dimension, strides and the flattened basis index.
  - `cascade` — stepwise transducers (adder, multiplier, divider, skipping
    multiplier) with their sweep laws: modular arithmetic, composition,
    the single surviving branch of division, `÷k ∘ ×k = id`, negation by
    reflection, the rings selected by looped and twisted boundaries; and the
    sparsity pattern of a machine lifted to an operator.
  - `width` — the a-priori width calculus of modular multiplication across a
    chain cut (closed form, resonances, bound, inversion symmetry), the
    foreign multiplier, permutation cut keys, the cuts of a profile.
  - `cut_rank` — the integer Gram matrix `R·Rᵀ` of a permutation's
    transition matrix across a cut, whose rank is the operator Schmidt rank
    that `app/` reads from its spectrum.
  - `crossing`, `network` — crossed strands, bundles, overlays and weaves,
    their site orders and coupling edges.
  - `embed` — qubit registers hosted inside qudit sites: capacities, bit
    access, basis encoding and read-back, the qubit–bit swap, the index
    pattern of a two-site lifted gate (which never mixes register and slack).
  - `sheaf` — partitions of a chain for fusion, Choi-leg regrouping, layer
    summaries.
  - `text` — decimal numerals and padding for the text renderings.
- `app/` — the floating-point simulator around the library: complex numbers,
  matrices and SVD, MPS/MPO backends, gates, circuits, Fourier transforms,
  flows and stabilization, operator lifting of the library's machines.
- `tests/` — executable tests of the library.
