//! The Hilbert space H of agent states: dimension, optional basis, tensor
//! products and the orthonormality check.
//!
//! A space is generic over the representation `S` of its state vectors; the
//! numerical operations on states (building a basis vector, the product of two
//! states, norms and inner products) are supplied by the caller.

use vstd::arithmetic::div_mod::{lemma_fundamental_div_mod, lemma_mod_bound, lemma_div_pos_is_pos};
use vstd::prelude::*;

verus! {

/// Position of the pair `(a, b)` in the row-major enumeration of pairs whose
/// second component ranges over `m` values.
pub open spec fn pair_index(a: int, b: int, m: int) -> int {
    a * m + b
}

/// `r` lists `f(xs[a], ys[b])` for all pairs `(a, b)`, in row-major order:
/// the entry for `(a, b)` stands at `a * |ys| + b`.
pub open spec fn kronecker_of<A, B, C, F: Fn(&A, &B) -> C>(
    f: F,
    xs: Seq<A>,
    ys: Seq<B>,
    r: Seq<C>,
) -> bool {
    &&& r.len() == xs.len() * ys.len()
    &&& forall|a: int, b: int|
        #![trigger xs[a], ys[b]]
        0 <= a < xs.len() && 0 <= b < ys.len() ==> f.ensures(
            (&xs[a], &ys[b]),
            r[pair_index(a, b, ys.len() as int)],
        )
}

/// Row-major positions of distinct pairs are distinct and lie in
/// `[0, |xs| * |ys|)`.
pub proof fn lemma_pair_index_bounds(a: int, b: int, n: int, m: int)
    requires
        0 <= a < n,
        0 <= b < m,
    ensures
        0 <= pair_index(a, b, m) < n * m,
        pair_index(a, b, m) < (a + 1) * m,
        a * m <= pair_index(a, b, m),
{
    assert(0 <= a * m + b < n * m) by (nonlinear_arith)
        requires
            0 <= a < n,
            0 <= b < m,
    ;
    assert(a * m + b < (a + 1) * m) by (nonlinear_arith)
        requires
            0 <= b < m,
    ;
    assert(a * m <= a * m + b) by (nonlinear_arith)
        requires
            0 <= b,
    ;
}

/// Every position below `n * m` is the row-major position of the pair
/// `(p / m, p % m)`.
pub proof fn lemma_pair_index_surjective(p: int, n: int, m: int)
    requires
        0 <= n,
        0 <= p < n * m,
    ensures
        0 <= p / m < n,
        0 <= p % m < m,
        pair_index(p / m, p % m, m) == p,
{
    assert(m > 0) by (nonlinear_arith)
        requires
            0 <= n,
            0 <= p < n * m,
    ;
    lemma_fundamental_div_mod(p, m);
    assert(m * (p / m) == (p / m) * m) by (nonlinear_arith);
    lemma_mod_bound(p, m);
    lemma_div_pos_is_pos(p, m);
    assert(p / m < n) by (nonlinear_arith)
        requires
            p == m * (p / m) + p % m,
            0 <= p % m,
            p < n * m,
            m > 0,
    ;
}

/// The Kronecker product is determined entry by entry: its entry at position
/// `p` is `f(xs[p / |ys|], ys[p % |ys|])`.
pub proof fn lemma_kronecker_entry<A, B, C, F: Fn(&A, &B) -> C>(
    f: F,
    xs: Seq<A>,
    ys: Seq<B>,
    r: Seq<C>,
    p: int,
)
    requires
        kronecker_of(f, xs, ys, r),
        0 <= p < r.len(),
    ensures
        f.ensures((&xs[p / ys.len() as int], &ys[p % ys.len() as int]), r[p]),
{
    let m = ys.len() as int;
    lemma_pair_index_surjective(p, xs.len() as int, m);
    assert(r.len() == xs.len() * ys.len());
    let a = p / m;
    let b = p % m;
}

/// `v` is the `i`-th unit vector: `one` at position `i`, `zero` elsewhere.
pub open spec fn is_unit_vector<T>(v: Seq<T>, i: int, zero: T, one: T) -> bool {
    &&& 0 <= i < v.len()
    &&& forall|k: int| 0 <= k < v.len() ==> #[trigger] v[k] == if k == i { one } else { zero }
}

/// The Kronecker product of the unit vectors `e_i` (of length `n`) and `e_j`
/// (of length `m`) is the unit vector `e_{i * m + j}` of length `n * m`,
/// whenever the product of scalars behaves as it must on zero and one.
pub proof fn lemma_kronecker_of_units<T, F: Fn(&T, &T) -> T>(
    mul: F,
    xs: Seq<T>,
    ys: Seq<T>,
    r: Seq<T>,
    i: int,
    j: int,
    zero: T,
    one: T,
)
    requires
        kronecker_of(mul, xs, ys, r),
        is_unit_vector(xs, i, zero, one),
        is_unit_vector(ys, j, zero, one),
        forall|c: T| #[trigger] mul.ensures((&zero, &zero), c) ==> c == zero,
        forall|c: T| #[trigger] mul.ensures((&zero, &one), c) ==> c == zero,
        forall|c: T| #[trigger] mul.ensures((&one, &zero), c) ==> c == zero,
        forall|c: T| #[trigger] mul.ensures((&one, &one), c) ==> c == one,
    ensures
        is_unit_vector(r, pair_index(i, j, ys.len() as int), zero, one),
{
    let n = xs.len() as int;
    let m = ys.len() as int;
    lemma_pair_index_bounds(i, j, n, m);
    assert forall|p: int| 0 <= p < r.len() implies #[trigger] r[p] == if p == pair_index(i, j, m) {
        one
    } else {
        zero
    } by {
        lemma_kronecker_entry(mul, xs, ys, r, p);
        lemma_pair_index_surjective(p, n, m);
        let a = p / m;
        let b = p % m;
        assert(xs[a] == if a == i { one } else { zero });
        assert(ys[b] == if b == j { one } else { zero });
        if p == pair_index(i, j, m) {
            lemma_pair_index_injective(a, b, i, j, m);
        } else {
            assert(a != i || b != j);
        }
    }
}

/// Distinct pairs have distinct row-major positions.
pub proof fn lemma_pair_index_injective(a: int, b: int, c: int, e: int, m: int)
    requires
        0 <= a,
        0 <= c,
        0 <= b < m,
        0 <= e < m,
        pair_index(a, b, m) == pair_index(c, e, m),
    ensures
        a == c,
        b == e,
{
    if a < c {
        assert(a * m + b < (a + 1) * m) by (nonlinear_arith)
            requires
                0 <= b < m,
        ;
        assert((a + 1) * m <= c * m) by (nonlinear_arith)
            requires
                a + 1 <= c,
                0 <= m,
        ;
        assert(c * m <= c * m + e);
    } else if c < a {
        assert(c * m + e < (c + 1) * m) by (nonlinear_arith)
            requires
                0 <= e < m,
        ;
        assert((c + 1) * m <= a * m) by (nonlinear_arith)
            requires
                c + 1 <= a,
                0 <= m,
        ;
    }
}

/// The entries for row `a` come before all entries of later rows.
proof fn lemma_earlier_row(p: int, q: int, a: int, m: int)
    requires
        0 <= p < a,
        0 <= q < m,
    ensures
        0 <= pair_index(p, q, m) < a * m,
{
    assert(0 <= p * m + q < a * m) by (nonlinear_arith)
        requires
            0 <= p < a,
            0 <= q < m,
    ;
}

/// Kronecker (tensor) product of two finite families: the family of
/// `f(x, y)` over all pairs, `x` from `xs` and `y` from `ys`, with the first
/// factor varying slowest. On coordinate vectors with `f` the product of
/// scalars this is the coordinate vector of the tensor product state.
pub fn kronecker<A, B, C, F: Fn(&A, &B) -> C>(xs: &[A], ys: &[B], f: F) -> (r: Vec<C>)
    requires
        forall|a: int, b: int|
            #![trigger xs@[a], ys@[b]]
            0 <= a < xs@.len() && 0 <= b < ys@.len() ==> f.requires((&xs@[a], &ys@[b])),
    ensures
        kronecker_of(f, xs@, ys@, r@),
{
    let n1: usize = xs.len();
    let n2: usize = ys.len();
    let mut r: Vec<C> = Vec::new();
    let mut a: usize = 0;
    while a < n1
        invariant
            n1 == xs@.len(),
            n2 == ys@.len(),
            a <= n1,
            r@.len() == a * n2,
            forall|p: int, q: int|
                #![trigger xs@[p], ys@[q]]
                0 <= p < xs@.len() && 0 <= q < ys@.len() ==> f.requires((&xs@[p], &ys@[q])),
            forall|p: int, q: int|
                #![trigger xs@[p], ys@[q]]
                0 <= p < a && 0 <= q < n2 ==> f.ensures(
                    (&xs@[p], &ys@[q]),
                    r@[pair_index(p, q, n2 as int)],
                ),
        decreases n1 - a,
    {
        let mut b: usize = 0;
        while b < n2
            invariant
                n1 == xs@.len(),
                n2 == ys@.len(),
                a < n1,
                b <= n2,
                r@.len() == a * n2 + b,
                forall|p: int, q: int|
                    #![trigger xs@[p], ys@[q]]
                    0 <= p < xs@.len() && 0 <= q < ys@.len() ==> f.requires((&xs@[p], &ys@[q])),
                forall|p: int, q: int|
                    #![trigger xs@[p], ys@[q]]
                    0 <= p < a && 0 <= q < n2 ==> f.ensures(
                        (&xs@[p], &ys@[q]),
                        r@[pair_index(p, q, n2 as int)],
                    ),
                forall|q: int|
                    #![trigger ys@[q]]
                    0 <= q < b ==> f.ensures(
                        (&xs@[a as int], &ys@[q]),
                        r@[pair_index(a as int, q, n2 as int)],
                    ),
            decreases n2 - b,
        {
            assert(f.requires((&xs@[a as int], &ys@[b as int])));
            let c = f(&xs[a], &ys[b]);
            let ghost before = r@;
            r.push(c);
            assert forall|p: int, q: int|
                #![trigger xs@[p], ys@[q]]
                0 <= p < a && 0 <= q < n2 implies f.ensures(
                    (&xs@[p], &ys@[q]),
                    r@[pair_index(p, q, n2 as int)],
                ) by {
                lemma_earlier_row(p, q, a as int, n2 as int);
                assert(r@[pair_index(p, q, n2 as int)] == before[pair_index(p, q, n2 as int)]);
            }
            assert forall|q: int|
                #![trigger ys@[q]]
                0 <= q < b + 1 implies f.ensures(
                    (&xs@[a as int], &ys@[q]),
                    r@[pair_index(a as int, q, n2 as int)],
                ) by {
                if q < b {
                    assert(r@[pair_index(a as int, q, n2 as int)] == before[pair_index(
                        a as int,
                        q,
                        n2 as int,
                    )]);
                }
            }
            b = b + 1;
        }
        assert(a * n2 + n2 == (a + 1) * n2) by (nonlinear_arith);
        a = a + 1;
    }
    r
}

/// A finite-dimensional Hilbert space, with an optional explicit
/// (orthonormal) basis.
#[derive(Clone, Debug)]
pub struct HilbertSpace<S> {
    dim: usize,
    basis: Option<Vec<S>>,
}

impl<S> HilbertSpace<S> {
    /// The dimension.
    pub closed spec fn spec_dim(&self) -> nat {
        self.dim as nat
    }

    /// The explicit basis, if there is one.
    pub closed spec fn spec_basis(&self) -> Option<Seq<S>> {
        match self.basis {
            Some(v) => Some(v@),
            None => None,
        }
    }

    /// A space of the given dimension without an explicit basis.
    pub fn new(dim: usize) -> (r: Self)
        ensures
            r.spec_dim() == dim,
            r.spec_basis() == None::<Seq<S>>,
    {
        HilbertSpace { dim, basis: None }
    }

    /// A space of the given dimension with the given basis.
    pub fn with_basis(dim: usize, basis: Vec<S>) -> (r: Self)
        ensures
            r.spec_dim() == dim,
            r.spec_basis() == Some(basis@),
    {
        HilbertSpace { dim, basis: Some(basis) }
    }

    /// The space of the given dimension with its computational basis:
    /// basis vector `i` is `basis_state(dim, i)`, the state `|e_i⟩`.
    pub fn computational_basis<F: Fn(usize, usize) -> S>(dim: usize, basis_state: F) -> (r: Self)
        requires
            forall|i: usize| i < dim ==> #[trigger] basis_state.requires((dim, i)),
        ensures
            r.spec_dim() == dim,
            r.spec_basis() is Some,
            r.spec_basis()->0.len() == dim,
            forall|i: int|
                0 <= i < dim ==> #[trigger] basis_state.ensures(
                    (dim, i as usize),
                    r.spec_basis()->0[i],
                ),
    {
        let mut basis: Vec<S> = Vec::new();
        let mut i: usize = 0;
        while i < dim
            invariant
                i <= dim,
                basis@.len() == i,
                forall|k: usize| k < dim ==> #[trigger] basis_state.requires((dim, k)),
                forall|k: int|
                    0 <= k < i ==> #[trigger] basis_state.ensures((dim, k as usize), basis@[k]),
            decreases dim - i,
        {
            let e = basis_state(dim, i);
            basis.push(e);
            i = i + 1;
        }
        HilbertSpace { dim, basis: Some(basis) }
    }

    /// The dimension.
    pub fn dim(&self) -> (r: usize)
        ensures
            r == self.spec_dim(),
    {
        self.dim
    }

    /// The explicit basis, if there is one.
    pub fn basis(&self) -> (r: Option<&[S]>)
        ensures
            r is Some <==> self.spec_basis() is Some,
            r matches Some(b) ==> b@ == self.spec_basis()->0,
    {
        match &self.basis {
            Some(v) => Some(v.as_slice()),
            None => None,
        }
    }

    /// The zero state of this space, built by `zero` from the dimension.
    pub fn zero_state<F: Fn(usize) -> S>(&self, zero: F) -> (r: S)
        requires
            zero.requires((self.spec_dim() as usize,)),
        ensures
            zero.ensures((self.spec_dim() as usize,), r),
    {
        zero(self.dim)
    }

    /// The resolution of the identity `sum_i |e_i⟩⟨e_i| = I`: the identity
    /// operator of this space's dimension, built by `identity`.
    pub fn resolution_of_identity<M, F: Fn(usize) -> M>(&self, identity: F) -> (r: M)
        requires
            identity.requires((self.spec_dim() as usize,)),
        ensures
            identity.ensures((self.spec_dim() as usize,), r),
    {
        identity(self.dim)
    }

    /// Parseval's identity `||v||^2 = sum_i |⟨e_i|v⟩|^2` for a state: it holds
    /// trivially when the space has no explicit basis; otherwise
    /// `holds_for(basis)` decides it.
    pub fn parseval_check<F: Fn(&[S]) -> bool>(&self, holds_for: F) -> (r: bool)
        requires
            self.spec_basis() matches Some(b) ==> forall|s: &[S]| s@ == b ==> #[trigger] holds_for.requires((s,)),
        ensures
            self.spec_basis() is None ==> r,
            self.spec_basis() matches Some(b) ==> exists|s: &[S]| s@ == b && #[trigger] holds_for.ensures((s,), r),
    {
        match &self.basis {
            Some(b) => {
                let s = b.as_slice();
                let r = holds_for(s);
                assert(holds_for.ensures((s,), r));
                r
            },
            None => true,
        }
    }

    /// Whether `states` is an orthonormal family.
    ///
    /// `off_unit(s)` tells whether the norm of `s` is off one by more than the
    /// tolerance; `overlap(s, t)` whether the inner product of two states
    /// exceeds the tolerance in modulus. State by state, in order, the unit
    /// test comes first and the overlaps with every other state after; the
    /// first failing test ends the check.
    pub fn is_orthonormal_set<U: Fn(&S) -> bool, O: Fn(&S, &S) -> bool>(
        states: &[S],
        off_unit: U,
        overlap: O,
    ) -> (r: bool)
        requires
            forall|i: int| 0 <= i < states@.len() ==> #[trigger] off_unit.requires((&states@[i],)),
            forall|i: int, j: int|
                #![trigger states@[i], states@[j]]
                0 <= i < states@.len() && 0 <= j < states@.len() && i != j ==> overlap.requires(
                    (&states@[i], &states@[j]),
                ),
        ensures
            r ==> forall|i: int|
                0 <= i < states@.len() ==> #[trigger] off_unit.ensures((&states@[i],), false),
            r ==> forall|i: int, j: int|
                #![trigger states@[i], states@[j]]
                0 <= i < states@.len() && 0 <= j < states@.len() && i != j ==> overlap.ensures(
                    (&states@[i], &states@[j]),
                    false,
                ),
            !r ==> (exists|i: int|
                0 <= i < states@.len() && #[trigger] off_unit.ensures((&states@[i],), true)) || (
            exists|i: int, j: int|
                #![trigger states@[i], states@[j]]
                0 <= i < states@.len() && 0 <= j < states@.len() && i != j && overlap.ensures(
                    (&states@[i], &states@[j]),
                    true,
                )),
    {
        let n: usize = states.len();
        let mut i: usize = 0;
        while i < n
            invariant
                n == states@.len(),
                i <= n,
                forall|k: int| 0 <= k < states@.len() ==> #[trigger] off_unit.requires((&states@[k],)),
                forall|k: int, l: int|
                    #![trigger states@[k], states@[l]]
                    0 <= k < states@.len() && 0 <= l < states@.len() && k != l ==> overlap.requires(
                        (&states@[k], &states@[l]),
                    ),
                forall|k: int| 0 <= k < i ==> #[trigger] off_unit.ensures((&states@[k],), false),
                forall|k: int, l: int|
                    #![trigger states@[k], states@[l]]
                    0 <= k < i && 0 <= l < n && k != l ==> overlap.ensures(
                        (&states@[k], &states@[l]),
                        false,
                    ),
            decreases n - i,
        {
            let bad = off_unit(&states[i]);
            if bad {
                assert(off_unit.ensures((&states@[i as int],), true));
                return false;
            }
            let mut j: usize = 0;
            while j < n
                invariant
                    n == states@.len(),
                    i < n,
                    j <= n,
                    forall|k: int, l: int|
                        #![trigger states@[k], states@[l]]
                        0 <= k < states@.len() && 0 <= l < states@.len() && k != l ==> overlap.requires(
                            (&states@[k], &states@[l]),
                        ),
                    forall|l: int|
                        #![trigger states@[l]]
                        0 <= l < j && l != i ==> overlap.ensures(
                            (&states@[i as int], &states@[l]),
                            false,
                        ),
                decreases n - j,
            {
                if i != j {
                    assert(overlap.requires((&states@[i as int], &states@[j as int])));
                    let o = overlap(&states[i], &states[j]);
                    if o {
                        assert(overlap.ensures((&states@[i as int], &states@[j as int]), true));
                        return false;
                    }
                }
                j = j + 1;
            }
            i = i + 1;
        }
        true
    }

    /// The tensor product of two spaces. Its dimension is the product of the
    /// dimensions; when both spaces carry a basis, its basis is the family of
    /// products `product(e, f)` of basis vectors, the first factor varying
    /// slowest; otherwise it has none.
    pub fn tensor_product<F: Fn(&S, &S) -> S>(&self, other: &HilbertSpace<S>, product: F) -> (r: HilbertSpace<S>)
        requires
            self.spec_dim() * other.spec_dim() <= usize::MAX,
            self.spec_basis() is Some && other.spec_basis() is Some ==> forall|a: int, b: int|
                #![trigger self.spec_basis()->0[a], other.spec_basis()->0[b]]
                0 <= a < self.spec_basis()->0.len() && 0 <= b < other.spec_basis()->0.len()
                    ==> product.requires((&self.spec_basis()->0[a], &other.spec_basis()->0[b])),
        ensures
            r.spec_dim() == self.spec_dim() * other.spec_dim(),
            r.spec_basis() is Some <==> (self.spec_basis() is Some && other.spec_basis() is Some),
            r.spec_basis() is Some ==> kronecker_of(
                product,
                self.spec_basis()->0,
                other.spec_basis()->0,
                r.spec_basis()->0,
            ),
    {
        let new_dim: usize = self.dim * other.dim;
        let basis = match (&self.basis, &other.basis) {
            (Some(b1), Some(b2)) => {
                assert(b1@ == self.spec_basis()->0 && b2@ == other.spec_basis()->0);
                Some(kronecker(b1.as_slice(), b2.as_slice(), product))
            },
            _ => None,
        };
        HilbertSpace { dim: new_dim, basis }
    }
}

} // verus!
