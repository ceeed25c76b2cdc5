//! The C*-algebra A of observables: dimension and generators.
//!
//! The generators are operators (matrices) on the Hilbert space; the algebra
//! is generic over their representation, and the operator arithmetic that a
//! question needs (whether two generators commute, the diagonal units, the
//! identity) is supplied by the caller.

use vstd::prelude::*;
use crate::connes_distance::single_valued2;

verus! {

/// A finite-dimensional C*-algebra, given by the dimension of the space it
/// acts on and a list of generators (empty for the full matrix algebra).
#[derive(Clone, Debug)]
pub struct CStarAlgebra<E> {
    dim: usize,
    generators: Vec<E>,
}

impl<E> CStarAlgebra<E> {
    /// Dimension of the underlying Hilbert space.
    pub closed spec fn spec_dim(&self) -> nat {
        self.dim as nat
    }

    /// The generators, in order.
    pub closed spec fn spec_generators(&self) -> Seq<E> {
        self.generators@
    }

    /// Creates the algebra of the given dimension with the given generators.
    pub fn new(dim: usize, generators: Vec<E>) -> (r: Self)
        ensures
            r.spec_dim() == dim,
            r.spec_generators() == generators@,
    {
        CStarAlgebra { dim, generators }
    }

    /// The full matrix algebra M_n(C): no distinguished generators.
    pub fn full_matrix_algebra(dim: usize) -> (r: Self)
        ensures
            r.spec_dim() == dim,
            r.spec_generators() == Seq::<E>::empty(),
    {
        CStarAlgebra { dim, generators: Vec::new() }
    }

    /// The commutative algebra of functions on `n` points, generated by the
    /// `n` diagonal matrix units. `unit(n, i)` builds the `n x n` matrix whose
    /// only nonzero entry is a one at `(i, i)`; generator `i` is that unit.
    pub fn commutative<F: Fn(usize, usize) -> E>(n: usize, unit: F) -> (r: Self)
        requires
            forall|i: usize| i < n ==> #[trigger] unit.requires((n, i)),
        ensures
            r.spec_dim() == n,
            r.spec_generators().len() == n,
            forall|i: int|
                0 <= i < n ==> #[trigger] unit.ensures((n, i as usize), r.spec_generators()[i]),
    {
        let mut generators: Vec<E> = Vec::new();
        let mut i: usize = 0;
        while i < n
            invariant
                i <= n,
                generators@.len() == i,
                forall|k: usize| k < n ==> #[trigger] unit.requires((n, k)),
                forall|k: int|
                    0 <= k < i ==> #[trigger] unit.ensures((n, k as usize), generators@[k]),
            decreases n - i,
        {
            let g = unit(n, i);
            generators.push(g);
            i = i + 1;
        }
        CStarAlgebra { dim: n, generators }
    }

    /// Dimension of the underlying Hilbert space.
    pub fn dim(&self) -> (r: usize)
        ensures
            r == self.spec_dim(),
    {
        self.dim
    }

    /// Number of generators.
    pub fn num_generators(&self) -> (r: usize)
        ensures
            r == self.spec_generators().len(),
    {
        self.generators.len()
    }

    /// The generators.
    pub fn generators(&self) -> (r: &[E])
        ensures
            r@ == self.spec_generators(),
    {
        self.generators.as_slice()
    }

    /// An element of the center: the identity operator of the algebra's
    /// dimension, built by `identity`.
    pub fn center_element<F: Fn(usize) -> E>(&self, identity: F) -> (r: E)
        requires
            identity.requires((self.spec_dim() as usize,)),
        ensures
            identity.ensures((self.spec_dim() as usize,), r),
    {
        identity(self.dim)
    }

    /// Whether the algebra is commutative: every two generators `i < j`
    /// commute, as decided by `commutes`. Stops at the first pair that does
    /// not commute, taking the pairs in lexicographic order.
    pub fn is_commutative<F: Fn(&E, &E) -> bool>(&self, commutes: F) -> (r: bool)
        requires
            forall|a: int, b: int|
                0 <= a < b < self.spec_generators().len() ==> #[trigger] commutes.requires(
                    (&self.spec_generators()[a], &self.spec_generators()[b]),
                ),
        ensures
            r ==> forall|a: int, b: int|
                0 <= a < b < self.spec_generators().len() ==> #[trigger] commutes.ensures(
                    (&self.spec_generators()[a], &self.spec_generators()[b]),
                    true,
                ),
            !r ==> exists|a: int, b: int|
                0 <= a < b < self.spec_generators().len() && #[trigger] commutes.ensures(
                    (&self.spec_generators()[a], &self.spec_generators()[b]),
                    false,
                ),
            single_valued2(commutes) ==> (r <==> forall|a: int, b: int|
                0 <= a < b < self.spec_generators().len() ==> #[trigger] commutes.ensures(
                    (&self.spec_generators()[a], &self.spec_generators()[b]),
                    true,
                )),
    {
        let n: usize = self.generators.len();
        let ghost g = self.spec_generators();
        let mut i: usize = 0;
        while i < n
            invariant
                n == g.len(),
                g == self.spec_generators(),
                i <= n,
                forall|a: int, b: int|
                    0 <= a < b < n ==> #[trigger] commutes.requires((&g[a], &g[b])),
                forall|a: int, b: int|
                    0 <= a < i && a < b < n ==> #[trigger] commutes.ensures(
                        (&g[a], &g[b]),
                        true,
                    ),
            decreases n - i,
        {
            let mut j: usize = i + 1;
            while j < n
                invariant
                    n == g.len(),
                    g == self.spec_generators(),
                    i < n,
                    i + 1 <= j <= n,
                    forall|a: int, b: int|
                        0 <= a < b < n ==> #[trigger] commutes.requires((&g[a], &g[b])),
                    forall|a: int, b: int|
                        0 <= a < i && a < b < n ==> #[trigger] commutes.ensures(
                            (&g[a], &g[b]),
                            true,
                        ),
                    forall|b: int| i < b < j ==> #[trigger] commutes.ensures((&g[i as int], &g[b]), true),
                decreases n - j,
            {
                let c = commutes(&self.generators[i], &self.generators[j]);
                if !c {
                    assert(commutes.ensures((&g[i as int], &g[j as int]), false));
                    proof {
                        if single_valued2(commutes) && forall|a: int, b: int|
                            0 <= a < b < n ==> #[trigger] commutes.ensures((&g[a], &g[b]), true) {
                            assert(commutes.ensures((&g[i as int], &g[j as int]), true));
                        }
                    }
                    return false;
                }
                j = j + 1;
            }
            assert forall|a: int, b: int|
                0 <= a < i + 1 && a < b < n implies #[trigger] commutes.ensures(
                    (&g[a], &g[b]),
                    true,
                ) by {
                if a == i as int {
                    assert(commutes.ensures((&g[i as int], &g[b]), true));
                }
            }
            i = i + 1;
        }
        true
    }
}

} // verus!
