//! Dirac operator D: the operator together with the cache of its spectrum.
//!
//! The operator is generic over its matrix representation `M` and the type
//! `L` of its eigenvalues; diagonalising the matrix is supplied by the caller.

use vstd::prelude::*;
use crate::connes_distance::{count_true, lemma_count_true_is_number_set};

verus! {

/// A Dirac operator (a self-adjoint operator on the Hilbert space) with the
/// eigenvalues computed so far, if any.
#[derive(Clone, Debug)]
pub struct DiracOperator<M, L> {
    matrix: M,
    eigenvalues: Option<Vec<L>>,
}

/// A copy of a list of values.
fn copy_values<L: Copy>(v: &Vec<L>) -> (r: Vec<L>)
    ensures
        r@ == v@,
{
    let mut r: Vec<L> = Vec::new();
    let mut i: usize = 0;
    while i < v.len()
        invariant
            i <= v@.len(),
            r@ == v@.take(i as int),
        decreases v@.len() - i,
    {
        r.push(v[i]);
        i = i + 1;
    }
    assert(v@.take(v@.len() as int) =~= v@);
    r
}

impl<M, L: Copy> DiracOperator<M, L> {
    /// The operator's matrix.
    pub closed spec fn spec_matrix(&self) -> M {
        self.matrix
    }

    /// The cached eigenvalues, if they have been computed or given.
    pub closed spec fn spec_eigenvalues(&self) -> Option<Seq<L>> {
        match self.eigenvalues {
            Some(v) => Some(v@),
            None => None,
        }
    }

    /// The operator with the given matrix; its spectrum is not yet known.
    pub fn new(matrix: M) -> (r: Self)
        ensures
            r.spec_matrix() == matrix,
            r.spec_eigenvalues() == None::<Seq<L>>,
    {
        DiracOperator { matrix, eigenvalues: None }
    }

    /// The operator with the given matrix and its known eigenvalues.
    pub fn with_eigenvalues(matrix: M, eigenvalues: Vec<L>) -> (r: Self)
        ensures
            r.spec_matrix() == matrix,
            r.spec_eigenvalues() == Some(eigenvalues@),
    {
        DiracOperator { matrix, eigenvalues: Some(eigenvalues) }
    }

    /// The operator's matrix.
    pub fn as_matrix(&self) -> (r: &M)
        ensures
            *r == self.spec_matrix(),
    {
        &self.matrix
    }

    /// The cached eigenvalues, if any.
    pub fn cached_eigenvalues(&self) -> (r: Option<&[L]>)
        ensures
            r is Some <==> self.spec_eigenvalues() is Some,
            r matches Some(ev) ==> ev@ == self.spec_eigenvalues()->0,
    {
        match &self.eigenvalues {
            Some(ev) => Some(ev.as_slice()),
            None => None,
        }
    }

    /// The eigenvalues: the cached ones if there are any, otherwise those
    /// that `compute` finds for the matrix, which are then cached.
    ///
    /// The matrix never changes, and once the cache is filled every later
    /// call returns its contents unchanged.
    pub fn eigenvalues<F: Fn(&M) -> Vec<L>>(&mut self, compute: F) -> (r: Vec<L>)
        requires
            old(self).spec_eigenvalues() is None ==> compute.requires((&old(self).spec_matrix(),)),
        ensures
            final(self).spec_matrix() == old(self).spec_matrix(),
            final(self).spec_eigenvalues() == Some(r@),
            old(self).spec_eigenvalues() matches Some(cached) ==> r@ == cached,
            old(self).spec_eigenvalues() is None ==> compute.ensures((&old(self).spec_matrix(),), r),
    {
        if let Some(ev) = &self.eigenvalues {
            return copy_values(ev);
        }
        let ev = compute(&self.matrix);
        self.eigenvalues = Some(copy_values(&ev));
        ev
    }

    /// Dimension of the kernel: the number of eigenvalues that `negligible`
    /// takes for zero, the eigenvalues being obtained as by `eigenvalues`.
    pub fn kernel_dim<F: Fn(&M) -> Vec<L>, Z: Fn(&L) -> bool>(&mut self, compute: F, negligible: Z) -> (r: usize)
        requires
            old(self).spec_eigenvalues() is None ==> compute.requires((&old(self).spec_matrix(),)),
            forall|l: &L| #[trigger] negligible.requires((l,)),
        ensures
            final(self).spec_matrix() == old(self).spec_matrix(),
            final(self).spec_eigenvalues() is Some,
            old(self).spec_eigenvalues() is Some ==> final(self).spec_eigenvalues() == old(self).spec_eigenvalues(),
            old(self).spec_eigenvalues() is None ==> exists|v: Vec<L>|
                #[trigger] compute.ensures((&old(self).spec_matrix(),), v) && final(self).spec_eigenvalues() == Some(v@),
            exists|flags: Seq<bool>|
                flags.len() == final(self).spec_eigenvalues()->0.len() && r == count_true(flags) && forall|i: int|
                    0 <= i < flags.len() ==> #[trigger] negligible.ensures(
                        (&final(self).spec_eigenvalues()->0[i],),
                        flags[i],
                    ),
            exists|flags: Seq<bool>|
                #![trigger flags.len()]
                flags.len() == final(self).spec_eigenvalues()->0.len() && r == flags.filter(|b: bool| b).len()
                    && forall|i: int|
                    0 <= i < flags.len() ==> #[trigger] negligible.ensures(
                        (&final(self).spec_eigenvalues()->0[i],),
                        flags[i],
                    ),
    {
        let ev = self.eigenvalues(compute);
        let n: usize = ev.len();
        let mut count: usize = 0;
        let mut i: usize = 0;
        let ghost mut flags: Seq<bool> = Seq::empty();
        while i < n
            invariant
                n == ev@.len(),
                i <= n,
                flags.len() == i,
                count == count_true(flags),
                count <= i,
                forall|l: &L| #[trigger] negligible.requires((l,)),
                forall|k: int| 0 <= k < i ==> #[trigger] negligible.ensures((&ev@[k],), flags[k]),
            decreases n - i,
        {
            let z = negligible(&ev[i]);
            proof {
                let prev = flags;
                flags = flags.push(z);
                assert(flags.drop_last() =~= prev);
            }
            if z {
                count = count + 1;
            }
            i = i + 1;
        }
        proof {
            lemma_count_true_is_number_set(flags);
        }
        count
    }
}

} // verus!
