use vstd::prelude::*;

verus! {

/// Swapping two neighbours that the predicate does not both keep leaves what
/// it keeps, in order, unchanged: adjacent swaps of elements with different
/// keys keep the order among the elements of each key.
pub proof fn lemma_swap_keeps_filter<A>(s: Seq<A>, j: int, pred: spec_fn(A) -> bool)
    requires
        1 <= j < s.len(),
        !(pred(s[j - 1]) && pred(s[j])),
    ensures
        s.update(j - 1, s[j]).update(j, s[j - 1]).filter(pred) == s.filter(pred),
{
    let t = s.update(j - 1, s[j]).update(j, s[j - 1]);
    let front = s.subrange(0, j - 1);
    let back = s.subrange(j + 1, s.len() as int);
    let pair = seq![s[j - 1], s[j]];
    let swapped = seq![s[j], s[j - 1]];
    assert(s =~= front + pair + back);
    assert(t =~= front + swapped + back);
    Seq::filter_distributes_over_add(front + pair, back, pred);
    Seq::filter_distributes_over_add(front, pair, pred);
    Seq::filter_distributes_over_add(front + swapped, back, pred);
    Seq::filter_distributes_over_add(front, swapped, pred);
    reveal_with_fuel(Seq::filter, 3);
    assert(pair.drop_last() =~= seq![s[j - 1]]);
    assert(swapped.drop_last() =~= seq![s[j]]);
    assert(seq![s[j - 1]].drop_last() =~= Seq::<A>::empty());
    assert(seq![s[j]].drop_last() =~= Seq::<A>::empty());
    assert(pair.filter(pred) == swapped.filter(pred));
}

} // verus!
