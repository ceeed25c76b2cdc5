//! Commutator [D, f]: selection of the Lipschitz unit ball.

use vstd::prelude::*;

verus! {

/// The entries of `items` whose flag is set, in their original order.
pub open spec fn selected<T>(items: Seq<T>, flags: Seq<bool>) -> Seq<T>
    recommends
        items.len() == flags.len(),
    decreases items.len(),
{
    if items.len() == 0 {
        Seq::empty()
    } else {
        let rest = selected(items.drop_last(), flags.drop_last());
        if flags.last() {
            rest.push(items.last())
        } else {
            rest
        }
    }
}

/// Appending an item with its flag appends the item to the selection exactly
/// when the flag is set.
pub proof fn lemma_selected_push<T>(items: Seq<T>, flags: Seq<bool>, x: T, b: bool)
    ensures
        selected(items.push(x), flags.push(b)) == if b {
            selected(items, flags).push(x)
        } else {
            selected(items, flags)
        },
{
    assert(items.push(x).drop_last() =~= items);
    assert(flags.push(b).drop_last() =~= flags);
}

/// The selection has as many items as there are set flags.
pub proof fn lemma_selected_len<T>(items: Seq<T>, flags: Seq<bool>)
    requires
        items.len() == flags.len(),
    ensures
        selected(items, flags).len() == flags.filter(|b: bool| b).len(),
    decreases items.len(),
{
    reveal_with_fuel(Seq::filter, 1);
    if items.len() > 0 {
        lemma_selected_len(items.drop_last(), flags.drop_last());
    }
}

/// The observables of the Lipschitz unit ball `{f : ||[D, f]|| <= 1}`.
///
/// `in_ball[i]` tells whether the commutator of the Dirac operator with
/// `observables[i]` has norm at most one (up to the rounding margin). The
/// result refers to exactly the observables in the ball, in their order.
pub fn lipschitz_unit_ball<'a, T>(observables: &'a [T], in_ball: &[bool]) -> (r: Vec<&'a T>)
    requires
        observables@.len() == in_ball@.len(),
    ensures
        r@.map_values(|f: &T| *f) == selected(observables@, in_ball@),
        r@.len() == in_ball@.filter(|b: bool| b).len(),
        exists|idx: Seq<int>|
            #![trigger idx.len()]
            idx.len() == r@.len() && (forall|k: int|
                0 <= k < idx.len() ==> 0 <= #[trigger] idx[k] < in_ball@.len() && in_ball@[idx[k]]
                    && *r@[k] == observables@[idx[k]]) && (forall|k: int, l: int|
                0 <= k < l < idx.len() ==> #[trigger] idx[k] < #[trigger] idx[l]) && (forall|i: int|
                0 <= i < in_ball@.len() && #[trigger] in_ball@[i] ==> idx.contains(i)),
{
    let n: usize = observables.len();
    let mut r: Vec<&'a T> = Vec::new();
    let mut i: usize = 0;
    let ghost mut idx: Seq<int> = Seq::empty();
    while i < n
        invariant
            n == observables@.len(),
            n == in_ball@.len(),
            i <= n,
            r@.map_values(|f: &T| *f) == selected(
                observables@.take(i as int),
                in_ball@.take(i as int),
            ),
            idx.len() == r@.len(),
            forall|k: int|
                0 <= k < idx.len() ==> 0 <= #[trigger] idx[k] < i && in_ball@[idx[k]] && *r@[k]
                    == observables@[idx[k]],
            forall|k: int, l: int| 0 <= k < l < idx.len() ==> #[trigger] idx[k] < #[trigger] idx[l],
            forall|a: int| 0 <= a < i && #[trigger] in_ball@[a] ==> idx.contains(a),
        decreases n - i,
    {
        assert(observables@.take(i as int + 1).drop_last() =~= observables@.take(i as int));
        assert(in_ball@.take(i as int + 1).drop_last() =~= in_ball@.take(i as int));
        let ghost before = r@;
        if in_ball[i] {
            r.push(&observables[i]);
            proof {
                let old_idx = idx;
                idx = idx.push(i as int);
                assert forall|a: int| 0 <= a < i + 1 && #[trigger] in_ball@[a] implies idx.contains(a) by {
                    if a < i {
                        let k = choose|k: int| 0 <= k < old_idx.len() && old_idx[k] == a;
                        assert(idx[k] == a);
                    } else {
                        assert(idx[idx.len() - 1] == a);
                    }
                }
            }
            assert(r@.map_values(|f: &T| *f) =~= before.map_values(|f: &T| *f).push(
                observables@[i as int],
            ));
        }
        i = i + 1;
    }
    assert(observables@.take(n as int) =~= observables@);
    assert(in_ball@.take(n as int) =~= in_ball@);
    proof {
        lemma_selected_len(observables@, in_ball@);
        assert(r@.len() == r@.map_values(|f: &T| *f).len());
    }
    r
}

} // verus!
