//! Connes distance: basis-state detection and the loops over the metric matrix.

use std::collections::hash_map::DefaultHasher;
use std::hash::{Hash, Hasher};
use vstd::std_specs::hash::DefaultHasherAdditionalSpecFns;
use vstd::arithmetic::power::pow;
use vstd::prelude::*;
use crate::hilbert::{lemma_pair_index_bounds, lemma_pair_index_injective, pair_index};

verus! {

/// Number of `true` entries in `flags`.
pub open spec fn count_true(flags: Seq<bool>) -> nat
    decreases flags.len(),
{
    if flags.len() == 0 {
        0
    } else {
        count_true(flags.drop_last()) + if flags.last() { 1nat } else { 0nat }
    }
}

/// A set flag is counted.
proof fn lemma_count_positive(flags: Seq<bool>, i: int)
    requires
        0 <= i < flags.len(),
        flags[i],
    ensures
        count_true(flags) >= 1,
    decreases flags.len(),
{
    if i < flags.len() - 1 {
        lemma_count_positive(flags.drop_last(), i);
    }
}

/// Two distinct set flags are both counted.
proof fn lemma_count_two(flags: Seq<bool>, i: int, j: int)
    requires
        0 <= i < j < flags.len(),
        flags[i],
        flags[j],
    ensures
        count_true(flags) >= 2,
    decreases flags.len(),
{
    if j == flags.len() - 1 {
        lemma_count_positive(flags.drop_last(), i);
    } else {
        lemma_count_two(flags.drop_last(), i, j);
    }
}

/// Appending a flag adds one to the count exactly when the flag is set.
pub proof fn lemma_count_true_push(flags: Seq<bool>, b: bool)
    ensures
        count_true(flags.push(b)) == count_true(flags) + if b { 1nat } else { 0nat },
{
    assert(flags.push(b).drop_last() =~= flags);
}

/// The count is the number of set flags: the length of the subsequence of
/// `true` entries.
pub proof fn lemma_count_true_is_number_set(flags: Seq<bool>)
    ensures
        count_true(flags) == flags.filter(|b: bool| b).len(),
    decreases flags.len(),
{
    reveal_with_fuel(Seq::filter, 1);
    if flags.len() > 0 {
        lemma_count_true_is_number_set(flags.drop_last());
    }
}

/// With no flag set, the count is zero.
pub proof fn lemma_count_true_none(flags: Seq<bool>)
    requires
        forall|j: int| 0 <= j < flags.len() ==> !#[trigger] flags[j],
    ensures
        count_true(flags) == 0,
    decreases flags.len(),
{
    if flags.len() > 0 {
        lemma_count_true_none(flags.drop_last());
    }
}

/// With exactly one flag set, the count is one.
pub proof fn lemma_count_true_single(flags: Seq<bool>, i: int)
    requires
        0 <= i < flags.len(),
        flags[i],
        forall|j: int| 0 <= j < flags.len() && #[trigger] flags[j] ==> j == i,
    ensures
        count_true(flags) == 1,
    decreases flags.len(),
{
    let rest = flags.drop_last();
    if i == flags.len() - 1 {
        lemma_count_true_none(rest);
    } else {
        assert(!flags.last());
        lemma_count_true_single(rest, i);
    }
}

/// Decides whether a vector is a computational basis state.
///
/// `large[i]` tells whether the `i`-th coordinate of the vector has modulus
/// above one half. The vector is taken for the basis state `|i⟩` exactly when
/// `i` is its only large coordinate; otherwise there is no index.
pub fn find_basis_index(large: &[bool]) -> (r: Option<usize>)
    ensures
        r is Some <==> count_true(large@) == 1,
        r matches Some(i) ==> i < large@.len() && large@[i as int],
        r matches Some(i) ==> forall|j: int| 0 <= j < large@.len() && #[trigger] large@[j] ==> j == i,
        forall|i: int|
            0 <= i < large@.len() && #[trigger] large@[i] && (forall|j: int|
                0 <= j < large@.len() && #[trigger] large@[j] ==> j == i) ==> r == Some(i as usize),
{
    let n: usize = large.len();
    let mut nonzero: usize = 0;
    let mut idx: usize = 0;
    let mut i: usize = 0;
    while i < n
        invariant
            n == large@.len(),
            i <= n,
            nonzero == count_true(large@.take(i as int)),
            nonzero <= i,
            nonzero > 0 ==> idx < i && large@[idx as int],
        decreases n - i,
    {
        assert(large@.take(i as int + 1).drop_last() =~= large@.take(i as int));
        if large[i] {
            nonzero = nonzero + 1;
            idx = i;
        }
        i = i + 1;
    }
    assert(large@.take(n as int) =~= large@);
    assert forall|i: int|
        0 <= i < large@.len() && #[trigger] large@[i] && (forall|j: int|
            0 <= j < large@.len() && #[trigger] large@[j] ==> j == i) implies nonzero == 1 && idx == i by {
        lemma_count_true_single(large@, i);
    }
    if nonzero == 1 {
        assert forall|j: int| 0 <= j < large@.len() && #[trigger] large@[j] implies j == idx by {
            if j < idx {
                lemma_count_two(large@, j, idx as int);
            } else if j > idx {
                lemma_count_two(large@, idx as int, j);
            }
        }
        Some(idx)
    } else {
        None
    }
}

/// The distance between two pure states `p` and `q`.
///
/// `p_large` and `q_large` flag the coordinates of modulus above one half of
/// each state. When both states are computational basis states `|i⟩` and
/// `|j⟩` (see [`find_basis_index`]), the distance is `basis_distance(i, j)`,
/// the distance between basis states read off the Dirac operator's spectrum;
/// otherwise it is the `numerical` estimate over sampled observables.
pub fn distance<R, G: Fn(usize, usize) -> R, N: Fn() -> R>(
    p_large: &[bool],
    q_large: &[bool],
    basis_distance: G,
    numerical: N,
) -> (r: R)
    requires
        forall|i: usize, j: usize|
            i < p_large@.len() && j < q_large@.len() ==> #[trigger] basis_distance.requires((i, j)),
        numerical.requires(()),
    ensures
        count_true(p_large@) == 1 && count_true(q_large@) == 1 ==> exists|i: usize, j: usize|
            i < p_large@.len() && p_large@[i as int] && j < q_large@.len() && q_large@[j as int]
                && #[trigger] basis_distance.ensures((i, j), r),
        !(count_true(p_large@) == 1 && count_true(q_large@) == 1) ==> numerical.ensures((), r),
        forall|i: int, j: int|
            #![trigger p_large@[i], q_large@[j]]
            0 <= i < p_large@.len() && p_large@[i] && (forall|k: int|
                0 <= k < p_large@.len() && #[trigger] p_large@[k] ==> k == i) && 0 <= j
                < q_large@.len() && q_large@[j] && (forall|k: int|
                0 <= k < q_large@.len() && #[trigger] q_large@[k] ==> k == j)
                ==> basis_distance.ensures((i as usize, j as usize), r),
        (forall|i: int|
            0 <= i < p_large@.len() && #[trigger] p_large@[i] ==> exists|k: int|
                0 <= k < p_large@.len() && #[trigger] p_large@[k] && k != i) || (forall|j: int|
            0 <= j < q_large@.len() && #[trigger] q_large@[j] ==> exists|k: int|
                0 <= k < q_large@.len() && #[trigger] q_large@[k] && k != j) ==> numerical.ensures(
            (),
            r,
        ),
{
    let i = find_basis_index(p_large);
    let j = find_basis_index(q_large);
    match (i, j) {
        (Some(i), Some(j)) => {
            let r = basis_distance(i, j);
            assert(basis_distance.ensures((i, j), r));
            r
        },
        _ => numerical(),
    }
}

/// The distances between all pairs of the `n` basis states: entry `[i][j]`
/// is `distance(i, j)`, the distance from `|i⟩` to `|j⟩`.
pub fn metric_matrix<D, F: Fn(usize, usize) -> D>(n: usize, distance: F) -> (r: Vec<Vec<D>>)
    requires
        forall|i: usize, j: usize| i < n && j < n ==> #[trigger] distance.requires((i, j)),
    ensures
        r@.len() == n,
        forall|i: int| 0 <= i < n ==> #[trigger] r@[i]@.len() == n,
        forall|i: int, j: int|
            0 <= i < n && 0 <= j < n ==> #[trigger] distance.ensures((i as usize, j as usize), r@[i]@[j]),
{
    let mut rows: Vec<Vec<D>> = Vec::new();
    let mut i: usize = 0;
    while i < n
        invariant
            i <= n,
            rows@.len() == i,
            forall|a: usize, b: usize| a < n && b < n ==> #[trigger] distance.requires((a, b)),
            forall|a: int| 0 <= a < i ==> #[trigger] rows@[a]@.len() == n,
            forall|a: int, b: int|
                0 <= a < i && 0 <= b < n ==> #[trigger] distance.ensures((a as usize, b as usize), rows@[a]@[b]),
        decreases n - i,
    {
        let mut row: Vec<D> = Vec::new();
        let mut j: usize = 0;
        while j < n
            invariant
                i < n,
                j <= n,
                row@.len() == j,
                forall|a: usize, b: usize| a < n && b < n ==> #[trigger] distance.requires((a, b)),
                forall|b: int| 0 <= b < j ==> #[trigger] distance.ensures((i, b as usize), row@[b]),
            decreases n - j,
        {
            let d = distance(i, j);
            row.push(d);
            j = j + 1;
        }
        rows.push(row);
        assert forall|a: int, b: int|
            0 <= a < i + 1 && 0 <= b < n implies #[trigger] distance.ensures((a as usize, b as usize), rows@[a]@[b]) by {
            if a == i as int {
                assert(distance.ensures((i, b as usize), rows@[a]@[b]));
            }
        }
        i = i + 1;
    }
    rows
}

/// `test` gives one answer for each pair of arguments.
pub open spec fn single_valued2<A, F: Fn(&A, &A) -> bool>(test: F) -> bool {
    forall|a: &A, b: &A, o1: bool, o2: bool|
        #![trigger test.ensures((a, b), o1), test.ensures((a, b), o2)]
        test.ensures((a, b), o1) && test.ensures((a, b), o2) ==> o1 == o2
}

/// `test` gives one answer for each triple of arguments.
pub open spec fn single_valued3<A, F: Fn(&A, &A, &A) -> bool>(test: F) -> bool {
    forall|a: &A, b: &A, c: &A, o1: bool, o2: bool|
        #![trigger test.ensures((a, b, c), o1), test.ensures((a, b, c), o2)]
        test.ensures((a, b, c), o1) && test.ensures((a, b, c), o2) ==> o1 == o2
}

/// `dists` is an `n x n` table, `n` its number of rows.
pub open spec fn is_square<D>(dists: Seq<Vec<D>>) -> bool {
    forall|i: int| 0 <= i < dists.len() ==> #[trigger] dists[i]@.len() == dists.len()
}

/// The test `exceeds(d[i][j], d[i][k], d[k][j])` can come out as `outcome`.
pub open spec fn triangle_test<D, F: Fn(&D, &D, &D) -> bool>(
    exceeds: F,
    d: Seq<Vec<D>>,
    i: int,
    j: int,
    k: int,
    outcome: bool,
) -> bool {
    exceeds.ensures((&d[i]@[j], &d[i]@[k], &d[k]@[j]), outcome)
}

/// The triangle test of `(i, j, k)` is `exceeds` applied to `d[i][j]`,
/// `d[i][k]` and `d[k][j]`, for every triple of indices.
pub proof fn lemma_triangle_test_meaning<D, F: Fn(&D, &D, &D) -> bool>(
    exceeds: F,
    d: Seq<Vec<D>>,
    i: int,
    j: int,
    k: int,
    outcome: bool,
)
    ensures
        triangle_test(exceeds, d, i, j, k, outcome) == exceeds.ensures(
            (&d[i]@[j], &d[i]@[k], &d[k]@[j]),
            outcome,
        ),
{
}

/// Whether the distances satisfy the triangle inequality
/// `d[i][j] <= d[i][k] + d[k][j]` for every triple of indices.
///
/// `exceeds(d_ij, d_ik, d_kj)` tells whether `d_ij` exceeds `d_ik + d_kj` by
/// more than the tolerance. The triples are taken in lexicographic order of
/// `(i, j, k)` and the first violation ends the check.
pub fn verify_triangle_inequality<D, F: Fn(&D, &D, &D) -> bool>(dists: &Vec<Vec<D>>, exceeds: F) -> (r: bool)
    requires
        is_square(dists@),
        forall|i: int, j: int, k: int|
            0 <= i < dists@.len() && 0 <= j < dists@.len() && 0 <= k < dists@.len()
                ==> #[trigger] exceeds.requires((&dists@[i]@[j], &dists@[i]@[k], &dists@[k]@[j])),
    ensures
        r ==> forall|i: int, j: int, k: int|
            0 <= i < dists@.len() && 0 <= j < dists@.len() && 0 <= k < dists@.len()
                ==> #[trigger] triangle_test(exceeds, dists@, i, j, k, false),
        !r ==> exists|i: int, j: int, k: int|
            0 <= i < dists@.len() && 0 <= j < dists@.len() && 0 <= k < dists@.len()
                && #[trigger] triangle_test(exceeds, dists@, i, j, k, true),
        single_valued3(exceeds) ==> (r <==> forall|i: int, j: int, k: int|
            0 <= i < dists@.len() && 0 <= j < dists@.len() && 0 <= k < dists@.len()
                ==> #[trigger] triangle_test(exceeds, dists@, i, j, k, false)),
        r ==> forall|i: int, j: int, k: int|
            0 <= i < dists@.len() && 0 <= j < dists@.len() && 0 <= k < dists@.len()
                ==> #[trigger] exceeds.ensures((&dists@[i]@[j], &dists@[i]@[k], &dists@[k]@[j]), false),
        !r ==> exists|i: int, j: int, k: int|
            0 <= i < dists@.len() && 0 <= j < dists@.len() && 0 <= k < dists@.len()
                && #[trigger] exceeds.ensures((&dists@[i]@[j], &dists@[i]@[k], &dists@[k]@[j]), true),
{
    let n: usize = dists.len();
    let ghost d = dists@;
    let mut i: usize = 0;
    while i < n
        invariant
            d == dists@,
            n == d.len(),
            is_square(d),
            i <= n,
            forall|a: int, b: int, c: int|
                0 <= a < n && 0 <= b < n && 0 <= c < n
                    ==> #[trigger] exceeds.requires((&d[a]@[b], &d[a]@[c], &d[c]@[b])),
            forall|a: int, b: int, c: int|
                0 <= a < i && 0 <= b < n && 0 <= c < n ==> #[trigger] triangle_test(exceeds, d, a, b, c, false),
        decreases n - i,
    {
        let mut j: usize = 0;
        while j < n
            invariant
                d == dists@,
                n == d.len(),
                is_square(d),
                i < n,
                j <= n,
                forall|a: int, b: int, c: int|
                    0 <= a < n && 0 <= b < n && 0 <= c < n
                        ==> #[trigger] exceeds.requires((&d[a]@[b], &d[a]@[c], &d[c]@[b])),
                forall|a: int, b: int, c: int|
                    0 <= a < i && 0 <= b < n && 0 <= c < n ==> #[trigger] triangle_test(exceeds, d, a, b, c, false),
                forall|b: int, c: int|
                    0 <= b < j && 0 <= c < n ==> #[trigger] triangle_test(exceeds, d, i as int, b, c, false),
            decreases n - j,
        {
            let mut k: usize = 0;
            while k < n
                invariant
                    d == dists@,
                    n == d.len(),
                    is_square(d),
                    i < n,
                    j < n,
                    k <= n,
                    forall|a: int, b: int, c: int|
                        0 <= a < n && 0 <= b < n && 0 <= c < n
                            ==> #[trigger] exceeds.requires((&d[a]@[b], &d[a]@[c], &d[c]@[b])),
                    forall|c: int| 0 <= c < k ==> #[trigger] triangle_test(exceeds, d, i as int, j as int, c, false),
                decreases n - k,
            {
                let bad = exceeds(&dists[i][j], &dists[i][k], &dists[k][j]);
                if bad {
                    assert(triangle_test(exceeds, d, i as int, j as int, k as int, true));
                    proof {
                        if single_valued3(exceeds) && forall|a: int, b: int, c: int|
                            0 <= a < n && 0 <= b < n && 0 <= c < n ==> #[trigger] triangle_test(
                                exceeds,
                                d,
                                a,
                                b,
                                c,
                                false,
                            ) {
                            assert(triangle_test(exceeds, d, i as int, j as int, k as int, false));
                        }
                    }
                    return false;
                }
                k = k + 1;
            }
            assert forall|b: int, c: int|
                0 <= b < j + 1 && 0 <= c < n implies #[trigger] triangle_test(exceeds, d, i as int, b, c, false) by {
                if b == j as int {
                    assert(triangle_test(exceeds, d, i as int, j as int, c, false));
                }
            }
            j = j + 1;
        }
        assert forall|a: int, b: int, c: int|
            0 <= a < i + 1 && 0 <= b < n && 0 <= c < n implies #[trigger] triangle_test(exceeds, d, a, b, c, false) by {
            if a == i as int {
                assert(triangle_test(exceeds, d, i as int, b, c, false));
            }
        }
        i = i + 1;
    }
    assert forall|a: int, b: int, c: int|
        0 <= a < n && 0 <= b < n && 0 <= c < n implies #[trigger] exceeds.ensures(
            (&d[a]@[b], &d[a]@[c], &d[c]@[b]),
            false,
        ) by {
        assert(triangle_test(exceeds, d, a, b, c, false));
    }
    true
}

/// The test `differ(d[i][j], d[j][i])` can come out as `outcome`.
pub open spec fn symmetry_test<D, F: Fn(&D, &D) -> bool>(
    differ: F,
    d: Seq<Vec<D>>,
    i: int,
    j: int,
    outcome: bool,
) -> bool {
    differ.ensures((&d[i]@[j], &d[j]@[i]), outcome)
}

/// The symmetry test of `(i, j)` is `differ` applied to `d[i][j]` and
/// `d[j][i]`, for every pair of indices.
pub proof fn lemma_symmetry_test_meaning<D, F: Fn(&D, &D) -> bool>(
    differ: F,
    d: Seq<Vec<D>>,
    i: int,
    j: int,
    outcome: bool,
)
    ensures
        symmetry_test(differ, d, i, j, outcome) == differ.ensures((&d[i]@[j], &d[j]@[i]), outcome),
{
}

/// Whether the distances are symmetric, `d[i][j] = d[j][i]` for every pair.
///
/// `differ(d_ij, d_ji)` tells whether the two differ by more than the
/// tolerance. The pairs are taken in lexicographic order and the first
/// asymmetry ends the check.
pub fn verify_symmetry<D, F: Fn(&D, &D) -> bool>(dists: &Vec<Vec<D>>, differ: F) -> (r: bool)
    requires
        is_square(dists@),
        forall|i: int, j: int|
            0 <= i < dists@.len() && 0 <= j < dists@.len() ==> #[trigger] differ.requires(
                (&dists@[i]@[j], &dists@[j]@[i]),
            ),
    ensures
        r ==> forall|i: int, j: int|
            0 <= i < dists@.len() && 0 <= j < dists@.len() ==> #[trigger] symmetry_test(differ, dists@, i, j, false),
        !r ==> exists|i: int, j: int|
            0 <= i < dists@.len() && 0 <= j < dists@.len() && #[trigger] symmetry_test(differ, dists@, i, j, true),
        single_valued2(differ) ==> (r <==> forall|i: int, j: int|
            0 <= i < dists@.len() && 0 <= j < dists@.len() ==> #[trigger] symmetry_test(differ, dists@, i, j, false)),
        r ==> forall|i: int, j: int|
            0 <= i < dists@.len() && 0 <= j < dists@.len() ==> #[trigger] differ.ensures(
                (&dists@[i]@[j], &dists@[j]@[i]),
                false,
            ),
        !r ==> exists|i: int, j: int|
            0 <= i < dists@.len() && 0 <= j < dists@.len() && #[trigger] differ.ensures(
                (&dists@[i]@[j], &dists@[j]@[i]),
                true,
            ),
{
    let n: usize = dists.len();
    let ghost d = dists@;
    let mut i: usize = 0;
    while i < n
        invariant
            d == dists@,
            n == d.len(),
            is_square(d),
            i <= n,
            forall|a: int, b: int|
                0 <= a < n && 0 <= b < n ==> #[trigger] differ.requires((&d[a]@[b], &d[b]@[a])),
            forall|a: int, b: int|
                0 <= a < i && 0 <= b < n ==> #[trigger] symmetry_test(differ, d, a, b, false),
        decreases n - i,
    {
        let mut j: usize = 0;
        while j < n
            invariant
                d == dists@,
                n == d.len(),
                is_square(d),
                i < n,
                j <= n,
                forall|a: int, b: int|
                    0 <= a < n && 0 <= b < n ==> #[trigger] differ.requires((&d[a]@[b], &d[b]@[a])),
                forall|b: int| 0 <= b < j ==> #[trigger] symmetry_test(differ, d, i as int, b, false),
            decreases n - j,
        {
            let bad = differ(&dists[i][j], &dists[j][i]);
            if bad {
                assert(symmetry_test(differ, d, i as int, j as int, true));
                proof {
                    if single_valued2(differ) && forall|a: int, b: int|
                        0 <= a < n && 0 <= b < n ==> #[trigger] symmetry_test(differ, d, a, b, false) {
                        assert(symmetry_test(differ, d, i as int, j as int, false));
                    }
                }
                return false;
            }
            j = j + 1;
        }
        assert forall|a: int, b: int|
            0 <= a < i + 1 && 0 <= b < n implies #[trigger] symmetry_test(differ, d, a, b, false) by {
            if a == i as int {
                assert(symmetry_test(differ, d, i as int, b, false));
            }
        }
        i = i + 1;
    }
    assert forall|a: int, b: int|
        0 <= a < n && 0 <= b < n implies #[trigger] differ.ensures((&d[a]@[b], &d[b]@[a]), false) by {
        assert(symmetry_test(differ, d, a, b, false));
    }
    true
}

/// The `usize::BITS / 8` bytes of `key`, least significant first.
pub open spec fn le_bytes(key: usize) -> Seq<u8> {
    Seq::new((usize::BITS / 8) as nat, |i: int| ((key as int / pow(256, i as nat)) % 256) as u8)
}

/// Feeds `key` into `state` through `Hash::hash` of `usize`.
///
/// Trusted: the call `<usize as Hash>::hash`, which writes `key` through
/// `Hasher::write_usize`, that is, writes the native-endian bytes of `key`
/// once. The contract says that one write of those bytes is appended to the
/// hasher's record of writes; the byte order is the machine's, little- or
/// big-endian.
#[verifier::external_body]
fn hash_key(key: usize, state: &mut DefaultHasher)
    ensures
        final(state)@ == old(state)@.push(le_bytes(key)) || final(state)@ == old(state)@.push(
            le_bytes(key).reverse(),
        ),
{
    key.hash(state);
}

/// The default hash of a key: what `Hash::hash` of the `usize` key feeds into
/// a fresh `DefaultHasher`, finished. That is the hasher's finish on the one
/// write of the key's native-endian bytes; the byte order is the machine's.
pub fn default_hash(key: usize) -> (h: u64)
    ensures
        h == DefaultHasher::spec_finish(seq![le_bytes(key)]) || h == DefaultHasher::spec_finish(
            seq![le_bytes(key).reverse()],
        ),
{
    let mut state = DefaultHasher::new();
    hash_key(key, &mut state);
    assert(Seq::<Seq<u8>>::empty().push(le_bytes(key)) =~= seq![le_bytes(key)]);
    assert(Seq::<Seq<u8>>::empty().push(le_bytes(key).reverse()) =~= seq![le_bytes(key).reverse()]);
    state.finish()
}

/// The key hashed for the entry `(i, j)`, `i <= j`, of the sampled observable
/// of dimension `n`.
pub open spec fn observable_key(i: int, j: int, n: int) -> int {
    pair_index(i, j, n) + 1
}

/// The low 16 bits of a hash value.
pub open spec fn low_bits(h: u64) -> u16 {
    (h & 0xffffu64) as u16
}

/// `seed` is the low 16 bits of a value that `hash` can give for `key`.
pub open spec fn seeded_by<F: Fn(usize) -> u64>(hash: F, key: int, seed: u16) -> bool {
    exists|h: u64| #[trigger] hash.ensures((key as usize,), h) && seed == low_bits(h)
}

/// The table of 16-bit seeds from which the sampled Hermitian observable of
/// dimension `n` is built, row-major (`n * n` entries).
///
/// For `i <= j` the seed of `(i, j)` is the low 16 bits of `hash` of the key
/// `i * n + j + 1`, and the seed of `(j, i)` is the same value, so the table
/// is symmetric. The pairs are hashed row by row, each once.
pub fn random_observable_seeds<F: Fn(usize) -> u64>(n: usize, hash: F) -> (r: Vec<u16>)
    requires
        n * n <= usize::MAX,
        forall|key: usize| #[trigger] hash.requires((key,)),
    ensures
        r@.len() == n * n,
        forall|i: int, j: int|
            0 <= i < n && 0 <= j < n ==> #[trigger] r@[pair_index(i, j, n as int)] == r@[pair_index(
                j,
                i,
                n as int,
            )],
        forall|i: int, j: int|
            0 <= i <= j < n ==> #[trigger] seeded_by(
                hash,
                observable_key(i, j, n as int),
                r@[pair_index(i, j, n as int)],
            ),
{
    let size: usize = n * n;
    let mut seeds: Vec<u16> = Vec::new();
    let mut k: usize = 0;
    while k < size
        invariant
            k <= size,
            seeds@.len() == k,
            forall|p: int| 0 <= p < k ==> seeds@[p] == 0,
        decreases size - k,
    {
        seeds.push(0);
        k = k + 1;
    }
    assert forall|a: int, b: int|
        0 <= a < n && 0 <= b < n implies #[trigger] seeds@[pair_index(a, b, n as int)]
            == seeds@[pair_index(b, a, n as int)] by {
        lemma_pair_index_bounds(a, b, n as int, n as int);
        lemma_pair_index_bounds(b, a, n as int, n as int);
    }
    let mut i: usize = 0;
    while i < n
        invariant
            size == n * n,
            size <= usize::MAX,
            i <= n,
            seeds@.len() == size,
            forall|key: usize| #[trigger] hash.requires((key,)),
            forall|a: int, b: int|
                0 <= a < n && 0 <= b < n ==> #[trigger] seeds@[pair_index(a, b, n as int)]
                    == seeds@[pair_index(b, a, n as int)],
            forall|a: int, b: int|
                0 <= a < i && a <= b < n ==> #[trigger] seeded_by(
                    hash,
                    observable_key(a, b, n as int),
                    seeds@[pair_index(a, b, n as int)],
                ),
        decreases n - i,
    {
        let mut j: usize = i;
        while j < n
            invariant
                size == n * n,
                size <= usize::MAX,
                i < n,
                i <= j <= n,
                seeds@.len() == size,
                forall|key: usize| #[trigger] hash.requires((key,)),
                forall|a: int, b: int|
                    0 <= a < n && 0 <= b < n ==> #[trigger] seeds@[pair_index(a, b, n as int)]
                        == seeds@[pair_index(b, a, n as int)],
                forall|a: int, b: int|
                    0 <= a < i && a <= b < n ==> #[trigger] seeded_by(
                        hash,
                        observable_key(a, b, n as int),
                        seeds@[pair_index(a, b, n as int)],
                    ),
                forall|b: int|
                    i <= b < j ==> #[trigger] seeded_by(
                        hash,
                        observable_key(i as int, b, n as int),
                        seeds@[pair_index(i as int, b, n as int)],
                    ),
            decreases n - j,
        {
            proof {
                lemma_pair_index_bounds(i as int, j as int, n as int, n as int);
                lemma_pair_index_bounds(j as int, i as int, n as int, n as int);
            }
            let key: usize = i * n + j + 1;
            let h: u64 = hash(key);
            let low: u64 = h & 0xffffu64;
            assert(low <= 0xffffu64) by (bit_vector)
                requires
                    low == h & 0xffffu64,
            ;
            let s: u16 = low as u16;
            assert(hash.ensures((key,), h) && s == low_bits(h));
            let ghost before = seeds@;
            let pij: usize = i * n + j;
            let pji: usize = j * n + i;
            seeds.set(pij, s);
            seeds.set(pji, s);
            assert forall|a: int, b: int|
                0 <= a < n && 0 <= b < n implies #[trigger] seeds@[pair_index(a, b, n as int)]
                    == seeds@[pair_index(b, a, n as int)] by {
                lemma_pair_index_bounds(a, b, n as int, n as int);
                lemma_pair_index_bounds(b, a, n as int, n as int);
                let pab: int = pair_index(a, b, n as int);
                let pba: int = pair_index(b, a, n as int);
                if pab == pij as int {
                    lemma_pair_index_injective(a, b, i as int, j as int, n as int);
                } else if pab == pji as int {
                    lemma_pair_index_injective(a, b, j as int, i as int, n as int);
                } else if pba == pij as int {
                    lemma_pair_index_injective(b, a, i as int, j as int, n as int);
                } else if pba == pji as int {
                    lemma_pair_index_injective(b, a, j as int, i as int, n as int);
                } else {
                    assert(seeds@[pab] == before[pab]);
                    assert(seeds@[pba] == before[pba]);
                }
            }
            assert forall|a: int, b: int|
                (0 <= a < i && a <= b < n) || (a == i && i <= b < j + 1) implies #[trigger] seeded_by(
                    hash,
                    observable_key(a, b, n as int),
                    seeds@[pair_index(a, b, n as int)],
                ) by {
                lemma_pair_index_bounds(a, b, n as int, n as int);
                let pab: int = pair_index(a, b, n as int);
                if a == i && b == j {
                    assert(seeds@[pab] == s);
                } else {
                    if pab == pij as int {
                        lemma_pair_index_injective(a, b, i as int, j as int, n as int);
                    }
                    if pab == pji as int {
                        lemma_pair_index_injective(a, b, j as int, i as int, n as int);
                    }
                    assert(seeds@[pab] == before[pab]);
                }
            }
            j = j + 1;
        }
        i = i + 1;
    }
    seeds
}

} // verus!
