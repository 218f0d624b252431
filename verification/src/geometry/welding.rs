use vstd::prelude::*;
use crate::collision_mask_util::nested_views;
use crate::fixed_func::welding::{
    collect_welded_vertices, first_occurrences_before, id_used, lemma_first_occurrences_bounded, lemma_weld_ids_dense, numbered_by_first_appearance,
    QuantizedPosition,
};

verus! {

/// Welded vertex `a` is a corner of triangle `t` (vertices `3t`, `3t + 1` and
/// `3t + 2` of an unindexed triangle list).
pub open spec fn corner_of(old_to_welded: Seq<usize>, t: int, a: int) -> bool {
    ||| old_to_welded[3 * t] == a
    ||| old_to_welded[3 * t + 1] == a
    ||| old_to_welded[3 * t + 2] == a
}

/// Welded vertices `a` and `b` differ and are corners of one of the first
/// `triangles` triangles.
pub open spec fn welded_neighbors_within(old_to_welded: Seq<usize>, triangles: int, a: int, b: int) -> bool {
    a != b && exists|t: int| 0 <= t < triangles && #[trigger] corner_of(old_to_welded, t, a) && corner_of(old_to_welded, t, b)
}

/// The list `list` with `b` appended, unless it holds `b` already.
pub open spec fn append_if_absent(list: Seq<usize>, b: usize) -> Seq<usize> {
    if list.contains(b) {
        list
    } else {
        list.push(b)
    }
}

/// The lists with `b` appended to list `a` unless it is there already.
pub open spec fn with_neighbor(lists: Seq<Seq<usize>>, a: usize, b: usize) -> Seq<Seq<usize>> {
    lists.update(a as int, append_if_absent(lists[a as int], b))
}

/// The lists with distinct `a` and `b` recorded as neighbours of each other,
/// `b` to the list of `a` first.
pub open spec fn with_link(lists: Seq<Seq<usize>>, a: usize, b: usize) -> Seq<Seq<usize>> {
    if a != b {
        with_neighbor(with_neighbor(lists, a, b), b, a)
    } else {
        lists
    }
}

/// The neighbour lists of `welded_count` welded vertices after the first
/// `triangles` triangles: each triangle `(w0, w1, w2)` links its corners in
/// the order `w0`-`w1`, `w1`-`w2`, `w2`-`w0`, so every list holds its
/// neighbours in the order in which they were first met.
pub open spec fn neighbor_lists(old_to_welded: Seq<usize>, welded_count: nat, triangles: nat) -> Seq<Seq<usize>>
    decreases triangles,
{
    if triangles == 0 {
        Seq::new(welded_count, |a: int| Seq::<usize>::empty())
    } else {
        let t = triangles - 1;
        let w0 = old_to_welded[3 * t];
        let w1 = old_to_welded[3 * t + 1];
        let w2 = old_to_welded[3 * t + 2];
        with_link(with_link(with_link(neighbor_lists(old_to_welded, welded_count, (triangles - 1) as nat), w0, w1), w1, w2), w2, w0)
    }
}

/// Adds `b` to the neighbours of `a` unless it is there already.
fn add_neighbor(neighbors: &mut Vec<Vec<usize>>, a: usize, b: usize)
    requires
        a < old(neighbors)@.len(),
    ensures
        final(neighbors)@.len() == old(neighbors)@.len(),
        forall|x: int| 0 <= x < old(neighbors)@.len() && x != a ==> #[trigger] final(neighbors)@[x] == old(neighbors)@[x],
        old(neighbors)@[a as int]@.no_duplicates() ==> final(neighbors)@[a as int]@.no_duplicates(),
        forall|y: usize| #[trigger] final(neighbors)@[a as int]@.contains(y) <==> (old(neighbors)@[a as int]@.contains(y) || y == b),
        nested_views(final(neighbors)@) == with_neighbor(nested_views(old(neighbors)@), a, b),
{
    let ghost before = neighbors@;
    let list = &neighbors[a];
    let n = list.len();
    let mut i: usize = 0;
    while i < n
        invariant
            n == list@.len(),
            i <= n,
            forall|j: int| 0 <= j < i ==> list@[j] != b,
            a < before.len(),
            before == old(neighbors)@,
            list@ == before[a as int]@,
        decreases n - i,
    {
        if list[i] == b {
            proof {
                assert(list@.contains(b));
                assert(nested_views(before) =~= with_neighbor(nested_views(before), a, b));
            }
            return;
        }
        i += 1;
    }
    let mut grown = Vec::new();
    std::mem::swap(&mut grown, &mut neighbors[a]);
    let ghost old_list = grown@;
    grown.push(b);
    neighbors.set(a, grown);
    proof {
        assert(!old_list.contains(b));
        assert forall|y: usize| #[trigger] neighbors@[a as int]@.contains(y) <==> (old_list.contains(y) || y == b) by {
            if neighbors@[a as int]@.contains(y) && y != b {
                let k = choose|k: int| 0 <= k < neighbors@[a as int]@.len() && neighbors@[a as int]@[k] == y;
                assert(old_list[k] == y);
            }
            if old_list.contains(y) {
                let k = choose|k: int| 0 <= k < old_list.len() && old_list[k] == y;
                assert(neighbors@[a as int]@[k] == y);
            }
            if y == b {
                assert(neighbors@[a as int]@[old_list.len() as int] == b);
            }
        }
        assert(nested_views(neighbors@) =~= with_neighbor(nested_views(before), a, b));
    }
}

/// The welded neighbours of every welded vertex (see
/// `welded_neighbors_within`, over all whole triangles), each listed once, in
/// the order in which they were first met (see `neighbor_lists`).
pub fn welded_neighbors(old_to_welded: &[usize], welded_count: usize) -> (neighbors: Vec<Vec<usize>>)
    requires
        forall|i: int| 0 <= i < old_to_welded@.len() ==> #[trigger] old_to_welded@[i] < welded_count,
    ensures
        neighbors@.len() == welded_count,
        nested_views(neighbors@) == neighbor_lists(old_to_welded@, welded_count as nat, (old_to_welded@.len() / 3) as nat),
        forall|a: int| 0 <= a < welded_count ==> (#[trigger] neighbors@[a])@.no_duplicates(),
        forall|a: int, b: usize|
            0 <= a < welded_count ==> (#[trigger] neighbors@[a]@.contains(b) <==> welded_neighbors_within(
                old_to_welded@,
                (old_to_welded@.len() / 3) as int,
                a,
                b as int,
            )),
{
    let ghost ids = old_to_welded@;
    let mut nb: Vec<Vec<usize>> = Vec::new();
    let mut k: usize = 0;
    while k < welded_count
        invariant
            k <= welded_count,
            nb@.len() == k,
            forall|a: int| 0 <= a < k ==> (#[trigger] nb@[a])@ == Seq::<usize>::empty(),
        decreases welded_count - k,
    {
        nb.push(Vec::new());
        k += 1;
    }
    proof {
        assert(nested_views(nb@) =~= neighbor_lists(ids, welded_count as nat, 0));
    }
    let n = old_to_welded.len();
    let mut t: usize = 0;
    while t < n / 3
        invariant
            ids == old_to_welded@,
            n == ids.len(),
            t <= n / 3,
            forall|i: int| 0 <= i < n ==> #[trigger] ids[i] < welded_count,
            nb@.len() == welded_count,
            nested_views(nb@) == neighbor_lists(ids, welded_count as nat, t as nat),
            forall|a: int| 0 <= a < welded_count ==> (#[trigger] nb@[a])@.no_duplicates(),
            forall|a: int, b: usize|
                0 <= a < welded_count ==> (#[trigger] nb@[a]@.contains(b) <==> welded_neighbors_within(ids, t as int, a, b as int)),
        decreases n / 3 - t,
    {
        let tri_start = t * 3;
        let w0 = old_to_welded[tri_start];
        let w1 = old_to_welded[tri_start + 1];
        let w2 = old_to_welded[tri_start + 2];
        let ghost before = nb@;
        let ghost lists0 = nested_views(nb@);
        if w0 != w1 {
            add_neighbor(&mut nb, w0, w1);
            add_neighbor(&mut nb, w1, w0);
        }
        let ghost lists1 = nested_views(nb@);
        assert(lists1 == with_link(lists0, w0, w1));
        if w1 != w2 {
            add_neighbor(&mut nb, w1, w2);
            add_neighbor(&mut nb, w2, w1);
        }
        let ghost lists2 = nested_views(nb@);
        assert(lists2 == with_link(lists1, w1, w2));
        if w2 != w0 {
            add_neighbor(&mut nb, w2, w0);
            add_neighbor(&mut nb, w0, w2);
        }
        proof {
            let tt = t as int;
            assert(nested_views(nb@) == with_link(lists2, w2, w0));
            assert(nested_views(nb@) == neighbor_lists(ids, welded_count as nat, (t + 1) as nat));
            assert(corner_of(ids, tt, w0 as int) && corner_of(ids, tt, w1 as int) && corner_of(ids, tt, w2 as int));
            assert forall|a: int, b: usize| 0 <= a < welded_count implies (#[trigger] nb@[a]@.contains(b)
                <==> welded_neighbors_within(ids, tt + 1, a, b as int)) by {
                assert(before[a]@.contains(b) <==> welded_neighbors_within(ids, tt, a, b as int));
                if welded_neighbors_within(ids, tt + 1, a, b as int) && !welded_neighbors_within(ids, tt, a, b as int) {
                    let s = choose|s: int| 0 <= s < tt + 1 && #[trigger] corner_of(ids, s, a) && corner_of(ids, s, b as int);
                    assert(s == tt);
                }
                if welded_neighbors_within(ids, tt, a, b as int) {
                    let s = choose|s: int| 0 <= s < tt && #[trigger] corner_of(ids, s, a) && corner_of(ids, s, b as int);
                    assert(0 <= s < tt + 1 && corner_of(ids, s, a) && corner_of(ids, s, b as int));
                }
            }
        }
        t += 1;
    }
    nb
}

/// The weld topology of an unindexed triangle list for smoothing: the weld
/// id of every vertex (vertices at the same quantized position share one,
/// numbered in order of first appearance) and the welded neighbours of every
/// weld id (see `welded_neighbors`).
pub fn weld_for_smoothing_topo(quantized_positions: &[QuantizedPosition]) -> (topology: (Vec<usize>, Vec<Vec<usize>>))
    requires
        quantized_positions@.len() <= u32::MAX,
    ensures
        numbered_by_first_appearance(quantized_positions@, topology.0@.map_values(|w: usize| w as u32)),
        topology.1@.len() == first_occurrences_before(quantized_positions@, quantized_positions@.len()),
        nested_views(topology.1@) == neighbor_lists(topology.0@, topology.1@.len(), (topology.0@.len() / 3) as nat),
        forall|a: int|
            0 <= a < topology.1@.len() ==> (#[trigger] topology.1@[a])@.no_duplicates(),
        forall|a: int, b: usize|
            0 <= a < topology.1@.len() ==> (#[trigger] topology.1@[a]@.contains(b) <==> welded_neighbors_within(
                topology.0@,
                (topology.0@.len() / 3) as int,
                a,
                b as int,
            )),
{
    let ids = collect_welded_vertices(quantized_positions);
    let ghost items = quantized_positions@;
    let ghost total = first_occurrences_before(items, items.len());
    proof {
        lemma_weld_ids_dense(items, ids@);
        lemma_first_occurrences_bounded(items, items.len());
    }
    let n = ids.len();
    let mut old_to_welded: Vec<usize> = Vec::new();
    let mut welded_count: usize = 0;
    let mut i: usize = 0;
    while i < n
        invariant
            n == ids@.len(),
            i <= n,
            old_to_welded@.len() == i,
            forall|j: int| 0 <= j < i ==> #[trigger] old_to_welded@[j] == ids@[j] as usize,
            forall|j: int| 0 <= j < i ==> #[trigger] ids@[j] < welded_count,
            welded_count == 0 || exists|j: int| 0 <= j < i && #[trigger] ids@[j] + 1 == welded_count,
            forall|j: int| 0 <= j < n ==> (#[trigger] ids@[j]) < total,
            total <= u32::MAX,
        decreases n - i,
    {
        let w = ids[i] as usize;
        old_to_welded.push(w);
        if w + 1 > welded_count {
            welded_count = w + 1;
        }
        i += 1;
    }
    proof {
        if total > 0 {
            assert(id_used(ids@, (total - 1) as nat));
            let j = choose|j: int| 0 <= j < ids@.len() && ids@[j] == total - 1;
            assert(ids@[j] < welded_count);
        }
        if welded_count > 0 {
            let j = choose|j: int| 0 <= j < n && #[trigger] ids@[j] + 1 == welded_count;
            assert(ids@[j] < total);
        }
        assert(welded_count == total);
        assert(old_to_welded@.map_values(|w: usize| w as u32) =~= ids@);
    }
    let neighbors = welded_neighbors(&old_to_welded, welded_count);
    (old_to_welded, neighbors)
}

} // verus!
