# Verified competitive-programming toolkit

A library of the small data structures and number-theoretic helpers that a
competitive programmer keeps at hand, each with a Verus contract:

- `minmax`: `chmin` / `chmax` on the integer types.
- `power`: exponentiation by repeated squaring (`usize`, `ModInt`).
- `modint`: integers modulo a fixed modulus `M` with the arithmetic
  operators and a Fermat inverse; `fermat` holds the proof of Fermat's
  little theorem behind it and `arith` the overflow bounds of
  square-and-multiply.
- `combinatorics`: factorials, inverse factorials, binomial coefficients
  and permutation counts over `usize` and `ModInt`.
- `union_find`: union–find with path compression, group counts and sizes,
  and the list of recorded edges.
- `tree_shape`, `segment_tree`, `lazy_segment_tree`: segment trees over a
  user-supplied combining closure, the lazy one with range updates.
- `number_theory`: prime factorisation and sorted divisor lists by trial
  division, for `i32`, `i64` and `i128`.

Everything under `src/` is verified; `tests/` exercises the library on
concrete values.
