# lau-connes-spectral-triple

Connes' spectral triple (A, H, D) on finite-dimensional complex matrices:
the C*-algebra of observables A, the Hilbert space H and the Dirac operator D,
with the commutator [D, f], the Connes distance and its metric checks.

## Layout

- `src/` — the verified library. It holds everything of the spectral triple
  that is not floating-point arithmetic, with Verus contracts:
  - `algebra`: `CStarAlgebra<E>` (dimension, generators, the commutative
    algebra of diagonal units, the pairwise commutativity check);
  - `hilbert`: `HilbertSpace<S>` (dimension, optional basis, computational
    basis, tensor product, orthonormality check, Parseval check) and the
    row-major `kronecker` product of two families;
  - `dirac`: `DiracOperator<M, L>` (the operator with its cached spectrum,
    the kernel dimension);
  - `connes_distance`: basis-state detection, the dispatch of the distance,
    the metric matrix, the symmetry and triangle-inequality checks, and the
    seed table of the sampled Hermitian observable;
  - `commutator`: selection of the Lipschitz unit ball.

  Matrix entries, norms and spectra are floats; the library is generic over
  them and takes every floating-point decision from its caller, as flags or
  as closures.
- `app/` — the complex-matrix layer on nalgebra and num-complex:
  `AlgebraElement`, `StateVector`, `Commutator`, `ConnesDistance`, and the
  serialisable `CStarAlgebra`, `HilbertSpace`, `DiracOperator` built on the
  library's types.
- `tests/` — tests of the library, with nalgebra matrices where the numbers
  matter.
