use vstd::prelude::*;
use crate::union_find::{forest_wf, lemma_compress_forest, lemma_root_of, on_root_path, root_of};

verus! {

/// The face that owns `target_face` (the root of its parent forest), with
/// every face on the way pointed straight at it. The forest must be acyclic:
/// some rank array grows strictly from every face to its parent.
pub fn find_and_update_parent_face_for_target_face(
    parent_face_per_target_face: &mut [usize],
    target_face: usize,
) -> (owner: usize)
    requires
        target_face < old(parent_face_per_target_face)@.len(),
        exists|rank: Seq<u8>| forest_wf(old(parent_face_per_target_face)@, rank),
    ensures
        final(parent_face_per_target_face)@.len() == old(parent_face_per_target_face)@.len(),
        final(parent_face_per_target_face)@[owner as int] == owner,
        forall|rank: Seq<u8>|
            forest_wf(old(parent_face_per_target_face)@, rank) ==> {
                &&& forest_wf(final(parent_face_per_target_face)@, rank)
                &&& owner == root_of(old(parent_face_per_target_face)@, rank, target_face as int)
                &&& forall|i: int|
                    0 <= i < old(parent_face_per_target_face)@.len() ==> #[trigger] final(parent_face_per_target_face)@[i] == if on_root_path(
                        old(parent_face_per_target_face)@,
                        rank,
                        target_face as int,
                        i,
                    ) {
                        owner
                    } else {
                        old(parent_face_per_target_face)@[i]
                    }
                &&& forall|i: int|
                    0 <= i < old(parent_face_per_target_face)@.len() ==> #[trigger] root_of(
                        final(parent_face_per_target_face)@,
                        rank,
                        i,
                    ) == root_of(old(parent_face_per_target_face)@, rank, i)
            },
    decreases 256 - (choose|rank: Seq<u8>| forest_wf(old(parent_face_per_target_face)@, rank))[target_face as int],
{
    let ghost p0 = parent_face_per_target_face@;
    let ghost chosen = choose|rank: Seq<u8>| forest_wf(p0, rank);
    if parent_face_per_target_face[target_face] == target_face {
        proof {
            assert forall|rank: Seq<u8>| forest_wf(p0, rank) implies root_of(
                p0,
                rank,
                target_face as int,
            ) == target_face by {
                lemma_root_of(p0, rank, target_face as int);
            }
        }
        target_face
    } else {
        let next = parent_face_per_target_face[target_face];
        proof {
            assert(chosen[target_face as int] < chosen[next as int]);
        }
        let parent_face = find_and_update_parent_face_for_target_face(
            parent_face_per_target_face,
            next,
        );
        let ghost p1 = parent_face_per_target_face@;
        parent_face_per_target_face[target_face] = parent_face;
        proof {
            let t = target_face as int;
            assert forall|rank: Seq<u8>| forest_wf(p0, rank) implies {
                &&& forest_wf(parent_face_per_target_face@, rank)
                &&& parent_face == root_of(p0, rank, t)
                &&& forall|i: int|
                    0 <= i < p0.len() ==> #[trigger] root_of(parent_face_per_target_face@, rank, i)
                        == root_of(p0, rank, i)
            } by {
                lemma_root_of(p0, rank, t);
                assert(root_of(p1, rank, t) == root_of(p0, rank, t));
                lemma_compress_forest(p1, rank, t);
                assert(parent_face_per_target_face@ == p1.update(t, root_of(p1, rank, t) as usize));
                assert forall|i: int| 0 <= i < p0.len() implies #[trigger] root_of(
                    parent_face_per_target_face@,
                    rank,
                    i,
                ) == root_of(p0, rank, i) by {
                    assert(root_of(p1, rank, i) == root_of(p0, rank, i));
                }
            }
            lemma_root_of(p0, chosen, t);
            assert(root_of(p1, chosen, parent_face as int) == root_of(p0, chosen, parent_face as int));
            lemma_root_of(p0, chosen, parent_face as int);
            lemma_root_of(parent_face_per_target_face@, chosen, parent_face as int);
        }
        parent_face
    }
}

/// Following the child-to-parent links from `face` reaches a parent face
/// within `steps` links, every link on the way being present.
pub open spec fn reaches_parent_face(
    is_parent_face: Seq<bool>,
    edge_path_child_to_parent: Seq<Option<(usize, (u16, u16))>>,
    face: int,
    steps: nat,
) -> bool
    decreases steps,
{
    &&& 0 <= face < is_parent_face.len()
    &&& (is_parent_face[face] || (steps > 0 && face < edge_path_child_to_parent.len()
        && edge_path_child_to_parent[face] is Some && reaches_parent_face(
        is_parent_face,
        edge_path_child_to_parent,
        (edge_path_child_to_parent[face]->0).0 as int,
        (steps - 1) as nat,
    )))
}

/// The first parent face met when following the links from `face`.
pub open spec fn first_parent_face(
    is_parent_face: Seq<bool>,
    edge_path_child_to_parent: Seq<Option<(usize, (u16, u16))>>,
    face: int,
    steps: nat,
) -> int
    decreases steps,
{
    if is_parent_face[face] || steps == 0 {
        face
    } else {
        first_parent_face(
            is_parent_face,
            edge_path_child_to_parent,
            (edge_path_child_to_parent[face]->0).0 as int,
            (steps - 1) as nat,
        )
    }
}

proof fn lemma_first_parent_face_unique(
    is_parent_face: Seq<bool>,
    edge_path_child_to_parent: Seq<Option<(usize, (u16, u16))>>,
    face: int,
    s1: nat,
    s2: nat,
)
    requires
        reaches_parent_face(is_parent_face, edge_path_child_to_parent, face, s1),
        reaches_parent_face(is_parent_face, edge_path_child_to_parent, face, s2),
    ensures
        first_parent_face(is_parent_face, edge_path_child_to_parent, face, s1) == first_parent_face(
            is_parent_face,
            edge_path_child_to_parent,
            face,
            s2,
        ),
        is_parent_face[first_parent_face(is_parent_face, edge_path_child_to_parent, face, s1)],
    decreases s1,
{
    if !is_parent_face[face] {
        lemma_first_parent_face_unique(
            is_parent_face,
            edge_path_child_to_parent,
            (edge_path_child_to_parent[face]->0).0 as int,
            (s1 - 1) as nat,
            (s2 - 1) as nat,
        );
    }
}

/// Follows the child-to-parent links from `start_face` to the first parent face.
pub fn traverse_edge_path_child_to_parent(
    start_face: usize,
    is_parent_face: &Vec<bool>,
    edge_path_child_to_parent: &Vec<Option<(usize, (u16, u16))>>,
) -> (parent_face: usize)
    requires
        exists|steps: nat|
            reaches_parent_face(is_parent_face@, edge_path_child_to_parent@, start_face as int, steps),
    ensures
        parent_face < is_parent_face@.len(),
        is_parent_face@[parent_face as int],
        forall|steps: nat|
            reaches_parent_face(is_parent_face@, edge_path_child_to_parent@, start_face as int, steps)
                ==> parent_face == first_parent_face(
                is_parent_face@,
                edge_path_child_to_parent@,
                start_face as int,
                steps,
            ),
{
    let ghost steps0 = choose|steps: nat|
        reaches_parent_face(is_parent_face@, edge_path_child_to_parent@, start_face as int, steps);
    let mut face = start_face;
    let ghost mut fuel: nat = steps0;
    proof {
        assert forall|steps: nat|
            reaches_parent_face(
                is_parent_face@,
                edge_path_child_to_parent@,
                start_face as int,
                steps,
            ) implies first_parent_face(
            is_parent_face@,
            edge_path_child_to_parent@,
            start_face as int,
            steps,
        ) == first_parent_face(is_parent_face@, edge_path_child_to_parent@, start_face as int, fuel) by {
            lemma_first_parent_face_unique(
                is_parent_face@,
                edge_path_child_to_parent@,
                start_face as int,
                steps,
                fuel,
            );
        }
    }
    while !is_parent_face[face]
        invariant
            reaches_parent_face(is_parent_face@, edge_path_child_to_parent@, face as int, fuel),
            forall|steps: nat|
                reaches_parent_face(
                    is_parent_face@,
                    edge_path_child_to_parent@,
                    start_face as int,
                    steps,
                ) ==> first_parent_face(
                    is_parent_face@,
                    edge_path_child_to_parent@,
                    start_face as int,
                    steps,
                ) == first_parent_face(is_parent_face@, edge_path_child_to_parent@, face as int, fuel),
        decreases fuel,
    {
        let link = edge_path_child_to_parent[face];
        let ghost old_face = face as int;
        face = link.unwrap().0;
        proof {
            fuel = (fuel - 1) as nat;
        }
    }
    proof {
        assert forall|steps: nat|
            reaches_parent_face(
                is_parent_face@,
                edge_path_child_to_parent@,
                start_face as int,
                steps,
            ) implies face == first_parent_face(
            is_parent_face@,
            edge_path_child_to_parent@,
            start_face as int,
            steps,
        ) by {}
    }
    face
}

} // verus!
