use vstd::prelude::*;
use crate::stable_order::lemma_swap_keeps_filter;
use crate::union_find::{
    lemma_compress, lemma_link, lemma_root_rank_bound, root_after_link, lemma_members_same_roots, lemma_root_of, lemma_singletons, root_of,
    set_size, singletons, union_find_wf,
};

use std::collections::{HashMap, VecDeque};
use vstd::arithmetic::div_mod::lemma_fundamental_div_mod_converse;
use crate::fixed_func::topology::{
    corner_edge, edge_number, edge_number_of, first_slot_with, lemma_edge_number_injective, lemma_first_slot_unique, slot,
    valid_slot, WeldedEdge, WeldedVertex,
};

verus! {

/// Union-find over the triangles of a mesh: union by rank with path compression.
pub struct DisjointSetUnion {
    disjoint_sets: Vec<usize>,
    rank: Vec<u8>,
}

impl DisjointSetUnion {
    /// The parent of each element.
    pub closed spec fn parents(&self) -> Seq<usize> {
        self.disjoint_sets@
    }

    /// The rank of each element.
    pub closed spec fn ranks(&self) -> Seq<u8> {
        self.rank@
    }

    /// The number of elements.
    pub open spec fn len(&self) -> nat {
        self.parents().len()
    }

    pub open spec fn wf(&self) -> bool {
        union_find_wf(self.parents(), self.ranks())
    }

    /// The representative of the set that holds `i`.
    pub open spec fn representative(&self, i: int) -> int {
        root_of(self.parents(), self.ranks(), i)
    }

    /// `i` and `j` are in the same set.
    pub open spec fn same_set(&self, i: int, j: int) -> bool {
        self.representative(i) == self.representative(j)
    }

    /// The number of elements in the set whose representative is `r`.
    pub open spec fn size_of_set(&self, r: int) -> nat {
        set_size(self.parents(), self.ranks(), r)
    }

    /// `nodes` elements, each alone in its own set.
    #[verifier::spinoff_prover]
    pub fn new(nodes: usize) -> (dsu: Self)
        ensures
            dsu.wf(),
            dsu.len() == nodes,
            forall|i: int| 0 <= i < nodes ==> #[trigger] dsu.representative(i) == i,
    {
        let mut disjoint_sets: Vec<usize> = Vec::new();
        let mut rank: Vec<u8> = Vec::new();
        let mut i: usize = 0;
        while i < nodes
            invariant
                i <= nodes,
                disjoint_sets@.len() == i,
                singletons(disjoint_sets@, rank@),
            decreases nodes - i,
        {
            disjoint_sets.push(i);
            rank.push(0);
            i += 1;
        }
        let dsu = DisjointSetUnion { disjoint_sets, rank };
        proof {
            lemma_singletons(dsu.disjoint_sets@, dsu.rank@);
        }
        dsu
    }

    /// The representative of `node`'s set; every element on the way is
    /// pointed straight at it, which changes no set.
    pub fn find(&mut self, node: usize) -> (root: usize)
        requires
            old(self).wf(),
            node < old(self).len(),
        ensures
            final(self).wf(),
            final(self).len() == old(self).len(),
            final(self).ranks() == old(self).ranks(),
            root == old(self).representative(node as int),
            final(self).parents()[root as int] == root,
            forall|i: int|
                0 <= i < old(self).len() ==> #[trigger] final(self).representative(i)
                    == old(self).representative(i),
        decreases 256 - old(self).ranks()[node as int],
    {
        proof {
            lemma_root_of(self.disjoint_sets@, self.rank@, node as int);
        }
        if self.disjoint_sets[node] != node {
            let ghost before = *self;
            let parent = self.disjoint_sets[node];
            let root = self.find(parent);
            let ghost after = *self;
            proof {
                assert(after.representative(node as int) == before.representative(node as int));
                assert(after.representative(parent as int) == before.representative(parent as int));
                lemma_compress(self.disjoint_sets@, self.rank@, node as int);
            }
            self.disjoint_sets.set(node, root);
            proof {
                assert forall|i: int| 0 <= i < before.len() implies #[trigger] self.representative(i)
                    == before.representative(i) by {
                    assert(after.representative(i) == before.representative(i));
                }
            }
        }
        proof {
            lemma_root_of(self.disjoint_sets@, self.rank@, node as int);
        }
        self.disjoint_sets[node]
    }

    /// Merges the sets of `node_a` and `node_b`; false when they were
    /// already one set. The representative of the merged set is the old
    /// representative of higher rank, that of `node_a` on a tie.
    pub fn union(&mut self, node_a: usize, node_b: usize) -> (merged: bool)
        requires
            old(self).wf(),
            node_a < old(self).len(),
            node_b < old(self).len(),
        ensures
            final(self).wf(),
            final(self).len() == old(self).len(),
            merged == !old(self).same_set(node_a as int, node_b as int),
            final(self).same_set(node_a as int, node_b as int),
            forall|i: int, j: int|
                0 <= i < old(self).len() && 0 <= j < old(self).len() ==> (#[trigger] final(self).same_set(i, j) <==> #[trigger] old(self).same_set(i, j) || (old(self).same_set(
                    i,
                    node_a as int,
                ) && old(self).same_set(j, node_b as int)) || (old(self).same_set(
                    i,
                    node_b as int,
                ) && old(self).same_set(j, node_a as int))),
            !merged ==> forall|i: int|
                0 <= i < old(self).len() ==> #[trigger] final(self).representative(i)
                    == old(self).representative(i),
            merged ==> {
                let ra = old(self).representative(node_a as int);
                let rb = old(self).representative(node_b as int);
                let winner = if old(self).ranks()[ra] < old(self).ranks()[rb] {
                    rb
                } else {
                    ra
                };
                forall|i: int|
                    0 <= i < old(self).len() ==> #[trigger] final(self).representative(i) == if old(self).same_set(i, node_a as int) || old(self).same_set(i, node_b as int) {
                        winner
                    } else {
                        old(self).representative(i)
                    }
            },
            merged ==> final(self).size_of_set(final(self).representative(node_a as int))
                == old(self).size_of_set(old(self).representative(node_a as int)) + old(self).size_of_set(old(self).representative(node_b as int)),
    {
        let ghost s0 = *self;
        let ghost p0 = self.disjoint_sets@;
        let ghost r0 = self.rank@;
        let mut a_representative = self.find(node_a);
        let ghost s1 = *self;
        let mut b_representative = self.find(node_b);
        let ghost p1 = self.disjoint_sets@;
        proof {
            assert forall|i: int| 0 <= i < p0.len() implies #[trigger] root_of(p1, r0, i) == root_of(
                p0,
                r0,
                i,
            ) by {
                assert(self.representative(i) == s1.representative(i));
                assert(s1.representative(i) == s0.representative(i));
            }
            lemma_members_same_roots(p0, r0, p1, r0);
            lemma_root_of(p0, r0, node_a as int);
            lemma_root_of(p0, r0, node_b as int);
            assert(root_of(p1, r0, node_a as int) == root_of(p0, r0, node_a as int));
            lemma_root_of(s1.disjoint_sets@, r0, a_representative as int);
            assert(self.representative(a_representative as int) == s1.representative(
                a_representative as int,
            ));
            lemma_root_of(p1, r0, a_representative as int);
        }
        if a_representative == b_representative {
            return false;
        }
        if self.rank[a_representative] < self.rank[b_representative] {
            let t = a_representative;
            a_representative = b_representative;
            b_representative = t;
        }
        let _n = self.disjoint_sets.len();
        let ghost winner = a_representative as int;
        let ghost loser = b_representative as int;
        self.disjoint_sets.set(b_representative, a_representative);
        proof {
            lemma_root_rank_bound(p1, r0, winner);
        }
        if self.rank[a_representative] == self.rank[b_representative] {
            self.rank.set(a_representative, self.rank[a_representative] + 1);
        }
        proof {
            assert(self.disjoint_sets@ == p1.update(loser, winner as usize));
            lemma_link(p1, r0, winner, loser, self.disjoint_sets@, self.rank@);
            lemma_root_of(p0, r0, node_a as int);
            lemma_root_of(p0, r0, node_b as int);
            assert forall|i: int| 0 <= i < p0.len() implies #[trigger] self.representative(i) == (if old(self).same_set(i, node_a as int) || old(self).same_set(i, node_b as int) {
                winner
            } else {
                old(self).representative(i)
            }) by {
                assert(root_of(p1, r0, i) == root_of(p0, r0, i));
                assert(root_of(self.disjoint_sets@, self.rank@, i) == root_after_link(
                    p1,
                    r0,
                    winner,
                    loser,
                    i,
                ));
            }
        }
        true
    }
}


/// The link from a triangle to its parent in an unfolding tree: the parent
/// triangle, the shared edge's corners in the parent and in the child, and
/// the welded edge itself; all `None` for a root.
#[derive(Copy, Clone, Debug)]
pub struct ParentLink {
    pub parent: Option<usize>,
    pub parent_local_edge: Option<(u8, u8)>,
    pub child_local_edge: Option<(u8, u8)>,
    pub welded_edge: Option<WeldedEdge>,
}

impl Default for ParentLink {
    /// The link of a root: no parent.
    fn default() -> (link: Self)
        ensures
            link.parent is None,
            link.parent_local_edge is None,
            link.child_local_edge is None,
            link.welded_edge is None,
    {
        ParentLink { parent: None, parent_local_edge: None, child_local_edge: None, welded_edge: None }
    }
}

/// Every child index is in range and has a smaller rank than its parent.
pub open spec fn children_ranked(children: Seq<Seq<usize>>, rank: Seq<nat>) -> bool {
    &&& rank.len() == children.len()
    &&& forall|p: int, i: int|
        0 <= p < children.len() && 0 <= i < children[p].len() ==> (#[trigger] children[p][i]) < children.len()
            && rank[children[p][i] as int] < rank[p]
}

/// The triangles of the subtree of `node` in the order a depth-first walk
/// with a stack visits them: the node, then the subtrees of its children,
/// last child first.
pub open spec fn subtree_order(children: Seq<Seq<usize>>, rank: Seq<nat>, node: int) -> Seq<usize>
    decreases rank[node], 1nat, 0nat,
    when children_ranked(children, rank) && 0 <= node < children.len()
{
    seq![node as usize] + children_order(children, rank, node, children[node].len())
}

/// The subtrees of the first `k` children of `node`, last one first.
pub open spec fn children_order(children: Seq<Seq<usize>>, rank: Seq<nat>, node: int, k: nat) -> Seq<usize>
    decreases rank[node], 0nat, k,
    when children_ranked(children, rank) && 0 <= node < children.len() && k <= children[node].len()
{
    if k == 0 {
        seq![]
    } else {
        subtree_order(children, rank, children[node][k - 1] as int) + children_order(
            children,
            rank,
            node,
            (k - 1) as nat,
        )
    }
}

/// Each children list as a sequence.
pub open spec fn child_lists(children: Seq<Vec<usize>>) -> Seq<Seq<usize>> {
    children.map_values(|c: Vec<usize>| c@)
}

/// The subtrees of the nodes on a stack, top first.
pub open spec fn stack_order(children: Seq<Seq<usize>>, rank: Seq<nat>, stack: Seq<usize>) -> Seq<usize>
    decreases stack.len(),
{
    if stack.len() == 0 {
        seq![]
    } else {
        subtree_order(children, rank, stack.last() as int) + stack_order(children, rank, stack.drop_last())
    }
}

/// The triangles of the subtree of `root_triangle` in depth-first order
/// (see `subtree_order`; the children lists must form a forest or any
/// other graph without cycles).
pub fn collect_subtree_triangles(root_triangle: usize, children: &[Vec<usize>]) -> (subtree: Vec<usize>)
    requires
        root_triangle < children@.len(),
        exists|rank: Seq<nat>| #[trigger] children_ranked(child_lists(children@), rank),
    ensures
        forall|rank: Seq<nat>|
            #[trigger] children_ranked(child_lists(children@), rank) ==> subtree@ == subtree_order(
                child_lists(children@),
                rank,
                root_triangle as int,
            ),
{
    let ghost graph = child_lists(children@);
    let ghost chosen = choose|rank: Seq<nat>| #[trigger] children_ranked(graph, rank);
    let mut subtree: Vec<usize> = Vec::new();
    let mut triangle_stack: Vec<usize> = vec![root_triangle];
    proof {
        assert forall|rank: Seq<nat>| children_ranked(graph, rank) implies subtree@ + stack_order(
            graph,
            rank,
            triangle_stack@,
        ) == subtree_order(graph, rank, root_triangle as int) by {
            assert(graph.len() == children@.len());
            assert(triangle_stack@.drop_last() =~= Seq::<usize>::empty());
            assert(stack_order(graph, rank, triangle_stack@.drop_last()) == Seq::<usize>::empty());
            assert(triangle_stack@.last() == root_triangle);
            assert(subtree@ + stack_order(graph, rank, triangle_stack@) =~= subtree_order(
                graph,
                rank,
                root_triangle as int,
            ));
        }
    }
    while triangle_stack.len() > 0
        invariant
            graph == child_lists(children@),
            graph.len() == children@.len(),
            children_ranked(graph, chosen),
            forall|i: int| 0 <= i < triangle_stack@.len() ==> (#[trigger] triangle_stack@[i]) < graph.len(),
            forall|rank: Seq<nat>|
                children_ranked(graph, rank) ==> subtree@ + stack_order(graph, rank, triangle_stack@)
                    == subtree_order(graph, rank, root_triangle as int),
        decreases stack_order(graph, chosen, triangle_stack@).len(),
    {
        let ghost before_stack = triangle_stack@;
        let ghost before_out = subtree@;
        let triangle = triangle_stack.pop().unwrap();
        proof {
            assert(triangle_stack@ == before_stack.drop_last());
            assert(triangle == before_stack.last());
        }
        subtree.push(triangle);
        let ghost rest = triangle_stack@;
        let child_list = &children[triangle];
        proof {
            assert(graph[triangle as int] == child_list@);
        }
        let count = child_list.len();
        let mut i: usize = 0;
        while i < count
            invariant
                graph == child_lists(children@),
                graph.len() == children@.len(),
                children_ranked(graph, chosen),
                triangle < graph.len(),
                child_list@ == graph[triangle as int],
                count == child_list@.len(),
                i <= count,
                forall|j: int| 0 <= j < triangle_stack@.len() ==> (#[trigger] triangle_stack@[j]) < graph.len(),
                forall|rank: Seq<nat>|
                    children_ranked(graph, rank) ==> stack_order(graph, rank, triangle_stack@) == children_order(
                        graph,
                        rank,
                        triangle as int,
                        i as nat,
                    ) + stack_order(graph, rank, rest),
            decreases count - i,
        {
            let child = child_list[i];
            let ghost s0 = triangle_stack@;
            triangle_stack.push(child);
            proof {
                assert(child < graph.len()) by {
                    assert(graph[triangle as int][i as int] == child);
                }
                assert forall|rank: Seq<nat>| children_ranked(graph, rank) implies stack_order(
                    graph,
                    rank,
                    triangle_stack@,
                ) == children_order(graph, rank, triangle as int, (i + 1) as nat) + stack_order(graph, rank, rest) by {
                    assert(triangle_stack@.drop_last() == s0);
                    assert(triangle_stack@.last() == child);
                    assert(graph[triangle as int][i as int] == child);
                }
            }
            i += 1;
        }
        proof {
            assert forall|rank: Seq<nat>| children_ranked(graph, rank) implies subtree@ + stack_order(
                graph,
                rank,
                triangle_stack@,
            ) == subtree_order(graph, rank, root_triangle as int) by {
                let t = triangle as int;
                assert(subtree_order(graph, rank, t) == seq![triangle] + children_order(
                    graph,
                    rank,
                    t,
                    graph[t].len(),
                ));
                assert(stack_order(graph, rank, before_stack) == subtree_order(graph, rank, t) + stack_order(
                    graph,
                    rank,
                    rest,
                ));
                assert(subtree@ == before_out.push(triangle));
                assert(subtree@ + stack_order(graph, rank, triangle_stack@) =~= before_out + stack_order(
                    graph,
                    rank,
                    before_stack,
                ));
            }
            let t = triangle as int;
            assert(stack_order(graph, chosen, before_stack) == seq![triangle] + stack_order(
                graph,
                chosen,
                triangle_stack@,
            ));
        }
    }
    proof {
        assert forall|rank: Seq<nat>| children_ranked(graph, rank) implies subtree@ == subtree_order(
            graph,
            rank,
            root_triangle as int,
        ) by {
            assert(subtree@ + stack_order(graph, rank, triangle_stack@) == subtree@);
        }
    }
    subtree
}


/// Two triangles that share a welded edge, with the edge's local corners in
/// each: `triangle_a` is the first triangle with the edge.
#[derive(Copy, Clone, Debug)]
pub struct DualEdge {
    pub triangle_a: usize,
    pub triangle_b: usize,
    pub triangle_a_local_edge: (u8, u8),
    pub triangle_b_local_edge: (u8, u8),
    pub welded_edge: WeldedEdge,
}

/// The corners of local edge `i`: (0, 1), (1, 2) or (2, 0).
pub open spec fn local_edge_corners(i: int) -> (u8, u8) {
    (i as u8, ((i + 1) % 3) as u8)
}

/// The dual edges found among the first `s` slots (triangle by triangle, AB,
/// BC, CA): each slot whose edge some earlier slot already has pairs its
/// triangle with the triangle of the edge's first slot.
pub open spec fn dual_edges_before(triangles: Seq<[WeldedVertex; 3]>, s: nat) -> Seq<DualEdge>
    decreases s,
{
    if s == 0 {
        seq![]
    } else {
        let f = (s - 1) / 3;
        let i = (s - 1) % 3;
        let e = corner_edge(triangles, f, i);
        let earlier = dual_edges_before(triangles, (s - 1) as nat);
        if first_slot_with(triangles, e, f, i) {
            earlier
        } else {
            let first = choose|g: int, j: int| first_slot_with(triangles, e, g, j);
            earlier.push(
                DualEdge {
                    triangle_a: first.0 as usize,
                    triangle_b: f as usize,
                    triangle_a_local_edge: local_edge_corners(first.1),
                    triangle_b_local_edge: local_edge_corners(i),
                    welded_edge: e,
                },
            )
        }
    }
}

/// The edge of a slot has a first slot.
proof fn lemma_first_slot_exists(triangles: Seq<[WeldedVertex; 3]>, f: int, i: int)
    requires
        valid_slot(triangles, f, i),
    ensures
        exists|g: int, j: int| first_slot_with(triangles, corner_edge(triangles, f, i), g, j),
    decreases slot(f, i),
{
    let e = corner_edge(triangles, f, i);
    if !first_slot_with(triangles, e, f, i) {
        let (h, l) = choose|h: int, l: int|
            valid_slot(triangles, h, l) && slot(h, l) < slot(f, i) && #[trigger] corner_edge(triangles, h, l) == e;
        lemma_first_slot_exists(triangles, h, l);
    }
}

/// Every dual edge joins two of the triangles.
pub proof fn lemma_dual_edges_in_range(triangles: Seq<[WeldedVertex; 3]>, s: nat)
    requires
        s <= 3 * triangles.len(),
    ensures
        forall|k: int|
            0 <= k < dual_edges_before(triangles, s).len() ==> (#[trigger] dual_edges_before(triangles, s)[k]).triangle_a
                < triangles.len() && dual_edges_before(triangles, s)[k].triangle_b < triangles.len(),
    decreases s,
{
    if s > 0 {
        lemma_dual_edges_in_range(triangles, (s - 1) as nat);
        let f = (s - 1) / 3;
        let i = (s - 1) % 3;
        let e = corner_edge(triangles, f, i);
        let earlier = dual_edges_before(triangles, (s - 1) as nat);
        assert(0 <= f < triangles.len() && 0 <= i < 3);
        if !first_slot_with(triangles, e, f, i) {
            lemma_first_slot_exists(triangles, f, i);
            let first = choose|g: int, j: int| first_slot_with(triangles, e, g, j);
            let now = dual_edges_before(triangles, s);
            assert(now == earlier.push(
                DualEdge {
                    triangle_a: first.0 as usize,
                    triangle_b: f as usize,
                    triangle_a_local_edge: local_edge_corners(first.1),
                    triangle_b_local_edge: local_edge_corners(i),
                    welded_edge: e,
                },
            ));
            assert(valid_slot(triangles, first.0, first.1));
            assert forall|k: int| 0 <= k < now.len() implies (#[trigger] now[k]).triangle_a < triangles.len()
                && now[k].triangle_b < triangles.len() by {
                if k < earlier.len() {
                    assert(now[k] == earlier[k]);
                }
            }
        }
    }
}

/// The dual graph of the welded triangles (see `dual_edges_before`, over all
/// slots).
#[verifier::rlimit(60)]
#[verifier::spinoff_prover]
pub fn build_dual_graph(welded_vertices_per_triangle: &[[WeldedVertex; 3]]) -> (dual_graph: Vec<DualEdge>)
    ensures
        dual_graph@ == dual_edges_before(welded_vertices_per_triangle@, 3 * welded_vertices_per_triangle@.len()),
{
    broadcast use vstd::std_specs::hash::group_hash_axioms;

    let ghost tris = welded_vertices_per_triangle@;
    let n = welded_vertices_per_triangle.len();
    let mut welded_edge_to_parent: HashMap<u128, (usize, (u8, u8))> = HashMap::new();
    let mut dual_graph: Vec<DualEdge> = Vec::new();
    let mut triangle: usize = 0;
    while triangle < n
        invariant
            tris == welded_vertices_per_triangle@,
            n == tris.len(),
            triangle <= n,
            dual_graph@ == dual_edges_before(tris, (3 * triangle) as nat),
            forall|key: u128| #[trigger]
                welded_edge_to_parent@.contains_key(key) <==> exists|h: int, l: int|
                    valid_slot(tris, h, l) && slot(h, l) < 3 * triangle && edge_number(
                        #[trigger] corner_edge(tris, h, l),
                    ) == key,
            forall|h: int, l: int|
                valid_slot(tris, h, l) && slot(h, l) < 3 * triangle ==> {
                    let owner = welded_edge_to_parent@[edge_number(#[trigger] corner_edge(tris, h, l))];
                    exists|j: int|
                        0 <= j < 3 && owner.1 == local_edge_corners(j) && first_slot_with(
                            tris,
                            corner_edge(tris, h, l),
                            owner.0 as int,
                            j,
                        )
                },
        decreases n - triangle,
    {
        let corners = welded_vertices_per_triangle[triangle];
        let local_edges: [(u8, u8); 3] = [(0, 1), (1, 2), (2, 0)];
        let mut k: usize = 0;
        while k < 3
            invariant
                tris == welded_vertices_per_triangle@,
                n == tris.len(),
                    triangle < n,
                corners == tris[triangle as int],
                local_edges == [(0u8, 1u8), (1, 2), (2, 0)],
                k <= 3,
                dual_graph@ == dual_edges_before(tris, (3 * triangle + k) as nat),
                forall|key: u128| #[trigger]
                    welded_edge_to_parent@.contains_key(key) <==> exists|h: int, l: int|
                        valid_slot(tris, h, l) && slot(h, l) < 3 * triangle + k && edge_number(
                            #[trigger] corner_edge(tris, h, l),
                        ) == key,
                forall|h: int, l: int|
                    valid_slot(tris, h, l) && slot(h, l) < 3 * triangle + k ==> {
                        let owner = welded_edge_to_parent@[edge_number(#[trigger] corner_edge(tris, h, l))];
                        exists|j: int|
                            0 <= j < 3 && owner.1 == local_edge_corners(j) && first_slot_with(
                                tris,
                                corner_edge(tris, h, l),
                                owner.0 as int,
                                j,
                            )
                    },
            decreases 3 - k,
        {
            let (point_a, point_b) = local_edges[k];
            let edge = WeldedEdge::new(corners[point_a as usize], corners[point_b as usize]);
            let ghost s = 3 * triangle + k;
            proof {
                assert(edge == corner_edge(tris, triangle as int, k as int));
                assert((point_a, point_b) == local_edge_corners(k as int));
                lemma_fundamental_div_mod_converse(s, 3, triangle as int, k as int);
            }
            let key = edge_number_of(&edge);
            let ghost owners_before = welded_edge_to_parent@;
            match welded_edge_to_parent.get(&key) {
                Some(owner) => {
                    let (parent_triangle, parent_edge_local) = *owner;
                    proof {
                        let (h, l) = choose|h: int, l: int|
                            valid_slot(tris, h, l) && slot(h, l) < s && edge_number(#[trigger] corner_edge(tris, h, l)) == key;
                        lemma_edge_number_injective(corner_edge(tris, h, l), edge);
                        let j = choose|j: int|
                            0 <= j < 3 && parent_edge_local == local_edge_corners(j) && first_slot_with(
                                tris,
                                edge,
                                parent_triangle as int,
                                j,
                            );
                        assert(!first_slot_with(tris, edge, triangle as int, k as int));
                        let first = choose|g: int, jj: int| first_slot_with(tris, edge, g, jj);
                        lemma_first_slot_unique(tris, edge, parent_triangle as int, j, first.0, first.1);
                    }
                    dual_graph.push(
                        DualEdge {
                            triangle_a: parent_triangle,
                            triangle_b: triangle,
                            welded_edge: edge,
                            triangle_a_local_edge: parent_edge_local,
                            triangle_b_local_edge: (point_a, point_b),
                        },
                    );
                },
                None => {
                    proof {
                        assert forall|h: int, l: int| valid_slot(tris, h, l) && slot(h, l) < s implies #[trigger] corner_edge(
                            tris,
                            h,
                            l,
                        ) != edge by {
                            if corner_edge(tris, h, l) == edge {
                                assert(welded_edge_to_parent@.contains_key(edge_number(corner_edge(tris, h, l))));
                            }
                        }
                        assert(first_slot_with(tris, edge, triangle as int, k as int));
                    }
                    welded_edge_to_parent.insert(key, (triangle, (point_a, point_b)));
                },
            }
            proof {
                assert forall|key2: u128| #[trigger] welded_edge_to_parent@.contains_key(key2) <==> exists|h: int, l: int|
                    valid_slot(tris, h, l) && slot(h, l) < s + 1 && edge_number(#[trigger] corner_edge(tris, h, l))
                        == key2 by {
                    if key2 == key {
                        assert(valid_slot(tris, triangle as int, k as int) && slot(triangle as int, k as int) < s + 1
                            && edge_number(corner_edge(tris, triangle as int, k as int)) == key2);
                    }
                    if exists|h: int, l: int|
                        valid_slot(tris, h, l) && slot(h, l) < s + 1 && edge_number(#[trigger] corner_edge(tris, h, l))
                            == key2 {
                        let (h, l) = choose|h: int, l: int|
                            valid_slot(tris, h, l) && slot(h, l) < s + 1 && edge_number(#[trigger] corner_edge(tris, h, l))
                                == key2;
                        if slot(h, l) < s {
                            assert(owners_before.contains_key(key2));
                        }
                    }
                }
                assert forall|h: int, l: int| valid_slot(tris, h, l) && slot(h, l) < s + 1 implies {
                    let owner = welded_edge_to_parent@[edge_number(#[trigger] corner_edge(tris, h, l))];
                    exists|j: int|
                        0 <= j < 3 && owner.1 == local_edge_corners(j) && first_slot_with(
                            tris,
                            corner_edge(tris, h, l),
                            owner.0 as int,
                            j,
                        )
                } by {
                    if slot(h, l) == s {
                        assert(h == triangle && l == k);
                        if !owners_before.contains_key(key) {
                            assert(welded_edge_to_parent@[key] == (triangle, (point_a, point_b)));
                            assert(0 <= k < 3 && (point_a, point_b) == local_edge_corners(k as int) && first_slot_with(
                                tris,
                                edge,
                                triangle as int,
                                k as int,
                            ));
                        }
                    } else if edge_number(corner_edge(tris, h, l)) == key {
                        lemma_edge_number_injective(corner_edge(tris, h, l), edge);
                    }
                }
            }
            k += 1;
        }
        triangle += 1;
    }
    dual_graph
}


/// The order in which the unfolding tree considers dual edges: by welded
/// edge, then by the lesser and the greater of the two triangles.
pub open spec fn dual_edge_key(edge: DualEdge) -> (usize, usize, usize, usize) {
    let lesser = if edge.triangle_a <= edge.triangle_b {
        edge.triangle_a
    } else {
        edge.triangle_b
    };
    let greater = if edge.triangle_a <= edge.triangle_b {
        edge.triangle_b
    } else {
        edge.triangle_a
    };
    (edge.welded_edge.vertex_a.id, edge.welded_edge.vertex_b.id, lesser, greater)
}

/// `x` comes strictly before `y` in lexicographic order.
pub open spec fn key_before(x: (usize, usize, usize, usize), y: (usize, usize, usize, usize)) -> bool {
    ||| x.0 < y.0
    ||| x.0 == y.0 && x.1 < y.1
    ||| x.0 == y.0 && x.1 == y.1 && x.2 < y.2
    ||| x.0 == y.0 && x.1 == y.1 && x.2 == y.2 && x.3 < y.3
}

/// No dual edge comes after one whose key it precedes.
pub open spec fn sorted_by_dual_key(edges: Seq<DualEdge>) -> bool {
    forall|i: int, j: int|
        0 <= i < j < edges.len() ==> !key_before(dual_edge_key(#[trigger] edges[j]), dual_edge_key(#[trigger] edges[i]))
}

/// The dual edges with key `key`, in their order in `edges`.
pub open spec fn edges_with_key(edges: Seq<DualEdge>, key: (usize, usize, usize, usize)) -> Seq<DualEdge> {
    edges.filter(|e: DualEdge| dual_edge_key(e) == key)
}

/// `after` holds the dual edges of `before` in the same order among those of
/// equal key (what a stable sort keeps).
pub open spec fn same_order_per_key(before: Seq<DualEdge>, after: Seq<DualEdge>) -> bool {
    forall|key: (usize, usize, usize, usize)| #[trigger] edges_with_key(after, key) == edges_with_key(before, key)
}

/// The key of a dual edge (see `dual_edge_key`).
pub fn dual_edge_sorting_order(edge: &DualEdge) -> (order: (usize, usize, usize, usize))
    ensures
        order == dual_edge_key(*edge),
{
    let welded_edge_vertex_a = edge.welded_edge.vertex_a.id;
    let welded_edge_vertex_b = edge.welded_edge.vertex_b.id;
    let lesser_triangle = if edge.triangle_a <= edge.triangle_b {
        edge.triangle_a
    } else {
        edge.triangle_b
    };
    let greater_triangle = if edge.triangle_a <= edge.triangle_b {
        edge.triangle_b
    } else {
        edge.triangle_a
    };
    (welded_edge_vertex_a, welded_edge_vertex_b, lesser_triangle, greater_triangle)
}

/// Swapping two neighbours of different keys keeps the order among the
/// dual edges of each key.
proof fn lemma_swap_keeps_order_per_key(s: Seq<DualEdge>, j: int)
    requires
        1 <= j < s.len(),
        dual_edge_key(s[j - 1]) != dual_edge_key(s[j]),
    ensures
        same_order_per_key(s, s.update(j - 1, s[j]).update(j, s[j - 1])),
{
    assert forall|key: (usize, usize, usize, usize)| #[trigger] edges_with_key(s.update(j - 1, s[j]).update(j, s[j - 1]), key)
        == edges_with_key(s, key) by {
        lemma_swap_keeps_filter(s, j, |e: DualEdge| dual_edge_key(e) == key);
    }
}

/// Sorts the dual edges by key, keeping the order of those of equal key
/// (insertion sort).
fn sort_dual_edges(edges: &mut [DualEdge])
    ensures
        sorted_by_dual_key(final(edges)@),
        same_order_per_key(old(edges)@, final(edges)@),
        final(edges)@.len() == old(edges)@.len(),
        final(edges)@.to_multiset() == old(edges)@.to_multiset(),
{
    let n = edges.len();
    if n == 0 {
        return;
    }
    let mut i: usize = 1;
    while i < n
        invariant
            n == edges@.len(),
            1 <= i <= n,
            same_order_per_key(old(edges)@, edges@),
            edges@.to_multiset() == old(edges)@.to_multiset(),
            forall|a: int, b: int|
                0 <= a < b < i ==> !key_before(dual_edge_key(#[trigger] edges@[b]), dual_edge_key(#[trigger] edges@[a])),
        decreases n - i,
    {
        let mut j = i;
        while j > 0 && key_precedes(&edges[j], &edges[j - 1])
            invariant
                n == edges@.len(),
                1 <= i < n,
                j <= i,
                same_order_per_key(old(edges)@, edges@),
                edges@.to_multiset() == old(edges)@.to_multiset(),
                forall|a: int, b: int|
                    0 <= a < b <= i && a != j && b != j ==> !key_before(
                        dual_edge_key(#[trigger] edges@[b]),
                        dual_edge_key(#[trigger] edges@[a]),
                    ),
                forall|b: int| j < b <= i ==> !key_before(dual_edge_key(#[trigger] edges@[b]), dual_edge_key(edges@[j as int])),
            decreases j,
        {
            let left = edges[j - 1];
            let right = edges[j];
            let ghost before = edges@;
            edges[j - 1] = right;
            edges[j] = left;
            proof {
                assert(edges@ == before.update(j - 1, right).update(j as int, left));
                let mid = before.update(j - 1, right);
                vstd::seq_lib::to_multiset_update(before, j - 1, right);
                vstd::seq_lib::to_multiset_update(mid, j as int, left);
                assert(mid[j as int] == right);
                let ms = before.to_multiset();
                assert(ms.contains(left) && ms.contains(right)) by {
                    before.to_multiset_ensures();
                    assert(before[j - 1] == left);
                    assert(before[j as int] == right);
                }
                assert(ms.insert(right).remove(left).insert(left).remove(right) =~= ms);
                lemma_swap_keeps_order_per_key(before, j as int);
                assert forall|key: (usize, usize, usize, usize)| #[trigger] edges_with_key(edges@, key)
                    == edges_with_key(old(edges)@, key) by {
                    assert(edges_with_key(edges@, key) == edges_with_key(before, key));
                    assert(edges_with_key(before, key) == edges_with_key(old(edges)@, key));
                }
            }
            j -= 1;
        }
        i += 1;
    }
}

/// `first` has a key strictly before that of `second`.
fn key_precedes(first: &DualEdge, second: &DualEdge) -> (before: bool)
    ensures
        before == key_before(dual_edge_key(*first), dual_edge_key(*second)),
{
    let x = dual_edge_sorting_order(first);
    let y = dual_edge_sorting_order(second);
    x.0 < y.0 || (x.0 == y.0 && x.1 < y.1) || (x.0 == y.0 && x.1 == y.1 && x.2 < y.2) || (x.0 == y.0 && x.1 == y.1
        && x.2 == y.2 && x.3 < y.3)
}


/// Triangles `x` and `y` are joined by the first `k` dual edges.
pub open spec fn dual_connected(edges: Seq<DualEdge>, k: nat, x: int, y: int) -> bool
    decreases k,
{
    if k == 0 {
        x == y
    } else {
        let e = edges[k - 1];
        let a = e.triangle_a as int;
        let b = e.triangle_b as int;
        ||| dual_connected(edges, (k - 1) as nat, x, y)
        ||| dual_connected(edges, (k - 1) as nat, x, a) && dual_connected(edges, (k - 1) as nat, y, b)
        ||| dual_connected(edges, (k - 1) as nat, x, b) && dual_connected(edges, (k - 1) as nat, y, a)
    }
}

/// Dual edge `k` joins two triangles that the edges before it leave apart:
/// it is an edge of the spanning forest.
pub open spec fn spanning_edge(edges: Seq<DualEdge>, k: int) -> bool {
    !dual_connected(edges, k as nat, edges[k].triangle_a as int, edges[k].triangle_b as int)
}

/// The spanning edges among the first `k` that touch triangle `t`, each
/// with the triangle at its other end, in the order of the edges.
pub open spec fn tree_neighbors(edges: Seq<DualEdge>, t: int, k: nat) -> Seq<(usize, DualEdge)>
    decreases k,
{
    if k == 0 {
        seq![]
    } else {
        let e = edges[k - 1];
        let earlier = tree_neighbors(edges, t, (k - 1) as nat);
        if spanning_edge(edges, k - 1) && e.triangle_a == t {
            earlier.push((e.triangle_b, e))
        } else if spanning_edge(edges, k - 1) && e.triangle_b == t {
            earlier.push((e.triangle_a, e))
        } else {
            earlier
        }
    }
}

/// Connection by the first `k` dual edges is an equivalence.
pub proof fn lemma_dual_connected_equivalence(edges: Seq<DualEdge>, k: nat)
    ensures
        forall|x: int| #[trigger] dual_connected(edges, k, x, x),
        forall|x: int, y: int| #[trigger] dual_connected(edges, k, x, y) ==> dual_connected(edges, k, y, x),
        forall|x: int, y: int, z: int|
            #[trigger] dual_connected(edges, k, x, y) && #[trigger] dual_connected(edges, k, y, z)
                ==> dual_connected(edges, k, x, z),
    decreases k,
{
    if k > 0 {
        let j = (k - 1) as nat;
        lemma_dual_connected_equivalence(edges, j);
        let a = edges[j as int].triangle_a as int;
        let b = edges[j as int].triangle_b as int;
        assert forall|x: int| #[trigger] dual_connected(edges, k, x, x) by {
            assert(dual_connected(edges, j, x, x));
        }
        assert forall|x: int, y: int| #[trigger] dual_connected(edges, k, x, y) implies dual_connected(
            edges,
            k,
            y,
            x,
        ) by {
            if dual_connected(edges, j, x, y) {
                assert(dual_connected(edges, j, y, x));
            }
        }
        assert forall|x: int, y: int, z: int|
            #[trigger] dual_connected(edges, k, x, y) && #[trigger] dual_connected(edges, k, y, z) implies dual_connected(
            edges,
            k,
            x,
            z,
        ) by {
            if dual_connected(edges, j, x, y) && dual_connected(edges, j, y, z) {
                assert(dual_connected(edges, j, x, z));
            } else if dual_connected(edges, j, x, y) {
                if dual_connected(edges, j, y, a) {
                    assert(dual_connected(edges, j, x, a));
                }
                if dual_connected(edges, j, y, b) {
                    assert(dual_connected(edges, j, x, b));
                }
            } else if dual_connected(edges, j, y, z) {
                if dual_connected(edges, j, y, a) {
                    assert(dual_connected(edges, j, z, a));
                }
                if dual_connected(edges, j, y, b) {
                    assert(dual_connected(edges, j, z, b));
                }
            } else {
                let xa = dual_connected(edges, j, x, a);
                let xb = dual_connected(edges, j, x, b);
                let ya = dual_connected(edges, j, y, a);
                let yb = dual_connected(edges, j, y, b);
                let za = dual_connected(edges, j, z, a);
                let zb = dual_connected(edges, j, z, b);
                if ya && yb {
                    assert(dual_connected(edges, j, a, y));
                    assert(dual_connected(edges, j, a, b));
                    assert(dual_connected(edges, j, b, a));
                    if xa {
                        assert(dual_connected(edges, j, x, b));
                    }
                    if za {
                        assert(dual_connected(edges, j, z, b));
                    }
                    assert(dual_connected(edges, j, b, z));
                    assert(dual_connected(edges, j, x, z));
                } else if ya {
                    assert(xb && zb);
                    assert(dual_connected(edges, j, b, z));
                } else {
                    assert(xa && za);
                    assert(dual_connected(edges, j, a, z));
                }
            }
        }
    }
}

/// What the first `k` dual edges join, all of them join.
proof fn lemma_dual_connected_grows(edges: Seq<DualEdge>, k: nat, x: int, y: int)
    requires
        k <= edges.len(),
        dual_connected(edges, k, x, y),
    ensures
        dual_connected(edges, edges.len(), x, y),
    decreases edges.len() - k,
{
    if k < edges.len() {
        assert(dual_connected(edges, k + 1, x, y));
        lemma_dual_connected_grows(edges, k + 1, x, y);
    }
}

/// The spanning edges at each triangle, found by union-find over the dual
/// edges in their order: for each triangle `t`, the entries of
/// `tree_neighbors` over all edges.
fn spanning_neighbors(triangle_count: usize, edges: &[DualEdge]) -> (neighbors: Vec<Vec<(usize, DualEdge)>>)
    requires
        forall|i: int|
            0 <= i < edges@.len() ==> (#[trigger] edges@[i]).triangle_a < triangle_count && edges@[i].triangle_b
                < triangle_count,
    ensures
        neighbors@.len() == triangle_count,
        forall|t: int|
            0 <= t < triangle_count ==> (#[trigger] neighbors@[t])@ == tree_neighbors(edges@, t, edges@.len() as nat),
{
    let ghost all = edges@;
    let n = triangle_count;
    let mut dsu = DisjointSetUnion::new(n);
    let mut adjacency_list: Vec<Vec<(usize, DualEdge)>> = Vec::new();
    let mut t: usize = 0;
    while t < n
        invariant
            t <= n,
            adjacency_list@.len() == t,
            forall|u: int| 0 <= u < t ==> (#[trigger] adjacency_list@[u])@ == Seq::<(usize, DualEdge)>::empty(),
        decreases n - t,
    {
        adjacency_list.push(Vec::new());
        t += 1;
    }
    let m = edges.len();
    let mut k: usize = 0;
    while k < m
        invariant
            all == edges@,
            m == all.len(),
            k <= m,
            forall|i: int| 0 <= i < m ==> (#[trigger] all[i]).triangle_a < n && all[i].triangle_b < n,
            dsu.wf(),
            dsu.len() == n,
            forall|x: int, y: int|
                0 <= x < n && 0 <= y < n ==> (#[trigger] dsu.same_set(x, y) <==> dual_connected(all, k as nat, x, y)),
            adjacency_list@.len() == n,
            forall|u: int| 0 <= u < n ==> (#[trigger] adjacency_list@[u])@ == tree_neighbors(all, u, k as nat),
        decreases m - k,
    {
        let edge = edges[k];
        let ghost kk = k as nat;
        let ghost before = dsu;
        let ghost lists = adjacency_list@;
        proof {
            assert(all[k as int] == edge);
            lemma_dual_connected_equivalence(all, kk);
        }
        let merged = dsu.union(edge.triangle_a, edge.triangle_b);
        proof {
            let a = edge.triangle_a as int;
            let b = edge.triangle_b as int;
            assert forall|x: int, y: int| 0 <= x < n && 0 <= y < n implies (#[trigger] dsu.same_set(x, y)
                <==> dual_connected(all, kk + 1, x, y)) by {
                assert(before.same_set(x, y) == dual_connected(all, kk, x, y));
                assert(before.same_set(x, a) == dual_connected(all, kk, x, a));
                assert(before.same_set(x, b) == dual_connected(all, kk, x, b));
                assert(before.same_set(y, a) == dual_connected(all, kk, y, a));
                assert(before.same_set(y, b) == dual_connected(all, kk, y, b));
            }
            assert(merged == spanning_edge(all, k as int)) by {
                assert(before.same_set(a, b) == dual_connected(all, kk, a, b));
            }
        }
        if merged {
            let mut list_a = Vec::new();
            std::mem::swap(&mut list_a, &mut adjacency_list[edge.triangle_a]);
            list_a.push((edge.triangle_b, edge));
            adjacency_list.set(edge.triangle_a, list_a);
            let mut list_b = Vec::new();
            std::mem::swap(&mut list_b, &mut adjacency_list[edge.triangle_b]);
            list_b.push((edge.triangle_a, edge));
            adjacency_list.set(edge.triangle_b, list_b);
            proof {
                assert(edge.triangle_a != edge.triangle_b) by {
                    assert(dual_connected(all, kk, edge.triangle_a as int, edge.triangle_a as int));
                }
                assert forall|u: int| 0 <= u < n implies (#[trigger] adjacency_list@[u])@ == tree_neighbors(
                    all,
                    u,
                    kk + 1,
                ) by {
                    if u != edge.triangle_a && u != edge.triangle_b {
                        assert(adjacency_list@[u] == lists[u]);
                    }
                }
            }
        } else {
            proof {
                assert forall|u: int| 0 <= u < n implies (#[trigger] adjacency_list@[u])@ == tree_neighbors(
                    all,
                    u,
                    kk + 1,
                ) by {
                    assert(adjacency_list@[u] == lists[u]);
                }
            }
        }
        k += 1;
    }
    adjacency_list
}


/// The order of a triangle's neighbours: by neighbouring triangle, then by
/// the vertices of the shared welded edge.
pub open spec fn neighbor_key(entry: (usize, DualEdge)) -> (usize, usize, usize) {
    (entry.0, entry.1.welded_edge.vertex_a.id, entry.1.welded_edge.vertex_b.id)
}

/// `x` comes strictly before `y` in lexicographic order.
pub open spec fn neighbor_key_before(x: (usize, usize, usize), y: (usize, usize, usize)) -> bool {
    ||| x.0 < y.0
    ||| x.0 == y.0 && x.1 < y.1
    ||| x.0 == y.0 && x.1 == y.1 && x.2 < y.2
}

/// `first` has a key strictly before that of `second`.
fn neighbor_precedes(first: &(usize, DualEdge), second: &(usize, DualEdge)) -> (before: bool)
    ensures
        before == neighbor_key_before(neighbor_key(*first), neighbor_key(*second)),
{
    let x = (first.0, first.1.welded_edge.vertex_a.id, first.1.welded_edge.vertex_b.id);
    let y = (second.0, second.1.welded_edge.vertex_a.id, second.1.welded_edge.vertex_b.id);
    x.0 < y.0 || (x.0 == y.0 && x.1 < y.1) || (x.0 == y.0 && x.1 == y.1 && x.2 < y.2)
}

/// Sorts a triangle's neighbours by `neighbor_key` (insertion sort).
fn sort_neighbors(list: &mut Vec<(usize, DualEdge)>)
    ensures
        final(list)@.to_multiset() == old(list)@.to_multiset(),
        final(list)@.len() == old(list)@.len(),
        forall|a: int, b: int|
            0 <= a < b < final(list)@.len() ==> !neighbor_key_before(
                neighbor_key(#[trigger] final(list)@[b]),
                neighbor_key(#[trigger] final(list)@[a]),
            ),
{
    let n = list.len();
    if n == 0 {
        return;
    }
    let mut i: usize = 1;
    while i < n
        invariant
            n == list@.len(),
            1 <= i <= n,
            list@.to_multiset() == old(list)@.to_multiset(),
            forall|a: int, b: int|
                0 <= a < b < i ==> !neighbor_key_before(neighbor_key(#[trigger] list@[b]), neighbor_key(#[trigger] list@[a])),
        decreases n - i,
    {
        let mut j = i;
        while j > 0 && neighbor_precedes(&list[j], &list[j - 1])
            invariant
                n == list@.len(),
                1 <= i < n,
                j <= i,
                list@.to_multiset() == old(list)@.to_multiset(),
                forall|a: int, b: int|
                    0 <= a < b <= i && a != j && b != j ==> !neighbor_key_before(
                        neighbor_key(#[trigger] list@[b]),
                        neighbor_key(#[trigger] list@[a]),
                    ),
                forall|b: int| j < b <= i ==> !neighbor_key_before(neighbor_key(#[trigger] list@[b]), neighbor_key(list@[j as int])),
            decreases j,
        {
            let left = list[j - 1];
            let right = list[j];
            let ghost before = list@;
            list.set(j - 1, right);
            list.set(j, left);
            proof {
                let mid = before.update(j - 1, right);
                assert(list@ == mid.update(j as int, left));
                vstd::seq_lib::to_multiset_update(before, j - 1, right);
                vstd::seq_lib::to_multiset_update(mid, j as int, left);
                assert(mid[j as int] == right);
                let m = before.to_multiset();
                assert(m.contains(left) && m.contains(right)) by {
                    before.to_multiset_ensures();
                    assert(before[j - 1] == left);
                    assert(before[j as int] == right);
                }
                assert(m.insert(right).remove(left).insert(left).remove(right) =~= m);
            }
            j -= 1;
        }
        i += 1;
    }
}


/// Dual edge `e` joins triangles `x` and `y` (in either order).
pub open spec fn joins(e: DualEdge, x: int, y: int) -> bool {
    ||| e.triangle_a == x && e.triangle_b == y
    ||| e.triangle_a == y && e.triangle_b == x
}

/// A spanning edge at `t` is among the tree neighbours of `t`.
proof fn lemma_tree_neighbor_present(edges: Seq<DualEdge>, t: int, k: nat, j: int)
    requires
        0 <= j < k <= edges.len(),
        spanning_edge(edges, j),
        edges[j].triangle_a == t || edges[j].triangle_b == t,
    ensures
        tree_neighbors(edges, t, k).contains(
            (if edges[j].triangle_a == t {
                edges[j].triangle_b
            } else {
                edges[j].triangle_a
            }, edges[j]),
        ),
    decreases k,
{
    let entry = (if edges[j].triangle_a == t {
        edges[j].triangle_b
    } else {
        edges[j].triangle_a
    }, edges[j]);
    lemma_dual_connected_equivalence(edges, j as nat);
    assert(edges[j].triangle_a != edges[j].triangle_b) by {
        assert(dual_connected(edges, j as nat, edges[j].triangle_a as int, edges[j].triangle_a as int));
    }
    let earlier = tree_neighbors(edges, t, (k - 1) as nat);
    if j == k - 1 {
        assert(tree_neighbors(edges, t, k) == earlier.push(entry));
        assert(earlier.push(entry)[earlier.len() as int] == entry);
    } else {
        lemma_tree_neighbor_present(edges, t, (k - 1) as nat, j);
        let i = choose|i: int| 0 <= i < earlier.len() && earlier[i] == entry;
        let now = tree_neighbors(edges, t, k);
        assert(now == earlier || now.len() == earlier.len() + 1 && now.subrange(0, earlier.len() as int) == earlier);
        assert(now[i] == entry);
    }
}

/// Every tree neighbour of `t` comes from a spanning edge at `t`.
proof fn lemma_tree_neighbor_source(edges: Seq<DualEdge>, t: int, k: nat, entry: (usize, DualEdge))
    requires
        k <= edges.len(),
        tree_neighbors(edges, t, k).contains(entry),
    ensures
        exists|j: int|
            0 <= j < k && spanning_edge(edges, j) && #[trigger] edges[j] == entry.1 && joins(edges[j], t, entry.0 as int),
    decreases k,
{
    let earlier = tree_neighbors(edges, t, (k - 1) as nat);
    let now = tree_neighbors(edges, t, k);
    if earlier.contains(entry) {
        lemma_tree_neighbor_source(edges, t, (k - 1) as nat, entry);
    } else {
        let i = choose|i: int| 0 <= i < now.len() && now[i] == entry;
        assert(now != earlier);
        assert(now.len() == earlier.len() + 1);
        if i < earlier.len() {
            assert(now[i] == earlier[i]);
        }
        assert(edges[k - 1] == entry.1);
    }
}

/// A set of triangles that every spanning edge keeps whole (both ends in or
/// both out) holds whole every connected component.
proof fn lemma_closed_set(edges: Seq<DualEdge>, n: nat, seen: Seq<bool>, k: nat, x: int, y: int)
    requires
        k <= edges.len(),
        seen.len() == n,
        forall|i: int| 0 <= i < edges.len() ==> (#[trigger] edges[i]).triangle_a < n && edges[i].triangle_b < n,
        forall|j: int|
            0 <= j < edges.len() && #[trigger] spanning_edge(edges, j) ==> seen[edges[j].triangle_a as int]
                == seen[edges[j].triangle_b as int],
        0 <= x < n,
        0 <= y < n,
        dual_connected(edges, k, x, y),
    ensures
        seen[x] == seen[y],
    decreases k,
{
    if k > 0 {
        let j = (k - 1) as nat;
        let a = edges[j as int].triangle_a as int;
        let b = edges[j as int].triangle_b as int;
        if dual_connected(edges, j, x, y) {
            lemma_closed_set(edges, n, seen, j, x, y);
        } else {
            if !spanning_edge(edges, j as int) {
                lemma_closed_set(edges, n, seen, j, a, b);
            }
            if dual_connected(edges, j, x, a) && dual_connected(edges, j, y, b) {
                lemma_closed_set(edges, n, seen, j, x, a);
                lemma_closed_set(edges, n, seen, j, y, b);
            } else {
                lemma_closed_set(edges, n, seen, j, x, b);
                lemma_closed_set(edges, n, seen, j, y, a);
            }
        }
    }
}

/// The ends of dual edge `j` are connected by all the edges.
proof fn lemma_edge_connects(edges: Seq<DualEdge>, j: int)
    requires
        0 <= j < edges.len(),
    ensures
        dual_connected(edges, edges.len() as nat, edges[j].triangle_a as int, edges[j].triangle_b as int),
{
    lemma_dual_connected_equivalence(edges, j as nat);
    let a = edges[j].triangle_a as int;
    let b = edges[j].triangle_b as int;
    assert(dual_connected(edges, j as nat, a, a) && dual_connected(edges, j as nat, b, b));
    assert(dual_connected(edges, (j + 1) as nat, a, b));
    lemma_dual_connected_grows(edges, (j + 1) as nat, a, b);
}

/// The number of `false` entries among the first `k`.
spec fn unseen_count(seen: Seq<bool>, k: int) -> nat
    decreases k,
{
    if k <= 0 {
        0
    } else {
        unseen_count(seen, k - 1) + if seen[k - 1] {
            0nat
        } else {
            1nat
        }
    }
}

/// Marking an unseen entry drops the count by one.
proof fn lemma_mark_seen(seen: Seq<bool>, k: int, t: int)
    requires
        0 <= t < seen.len(),
        !seen[t],
        k <= seen.len(),
    ensures
        t < k ==> unseen_count(seen.update(t, true), k) + 1 == unseen_count(seen, k),
        k <= t ==> unseen_count(seen.update(t, true), k) == unseen_count(seen, k),
    decreases k,
{
    if k > 0 {
        lemma_mark_seen(seen, k - 1, t);
    }
}


/// The link of a root: no parent and no edge.
pub open spec fn root_link() -> ParentLink {
    ParentLink { parent: None, parent_local_edge: None, child_local_edge: None, welded_edge: None }
}

/// The link of a child to `parent` across dual edge `e`: the shared edge's
/// corners in the parent and in the child, and the welded edge.
pub open spec fn link_across(e: DualEdge, parent: int) -> ParentLink {
    ParentLink {
        parent: Some(parent as usize),
        parent_local_edge: Some(
            if parent == e.triangle_a {
                e.triangle_a_local_edge
            } else {
                e.triangle_b_local_edge
            },
        ),
        child_local_edge: Some(
            if parent == e.triangle_a {
                e.triangle_b_local_edge
            } else {
                e.triangle_a_local_edge
            },
        ),
        welded_edge: Some(e.welded_edge),
    }
}

/// No triangle before `t` is connected to it by the dual edges.
pub open spec fn least_in_component(edges: Seq<DualEdge>, t: int) -> bool {
    forall|y: int| 0 <= y < t ==> !#[trigger] dual_connected(edges, edges.len() as nat, y, t)
}

/// `link` joins `t` to its parent across a spanning edge.
pub open spec fn linked_by_spanning_edge(edges: Seq<DualEdge>, t: int, link: ParentLink) -> bool {
    exists|k: int|
        0 <= k < edges.len() && spanning_edge(edges, k) && joins(#[trigger] edges[k], t, link.parent.unwrap() as int)
            && link == link_across(edges[k], link.parent.unwrap() as int)
}

/// Every linked triangle lies deeper than its parent.
pub open spec fn depth_drops(links: Seq<ParentLink>, depth: Seq<nat>) -> bool {
    &&& depth.len() == links.len()
    &&& forall|t: int|
        0 <= t < links.len() && (#[trigger] links[t]).parent is Some ==> depth[links[t].parent.unwrap() as int]
            < depth[t]
}

/// Strictly increasing.
pub open spec fn increasing(s: Seq<usize>) -> bool {
    forall|i: int, j: int| 0 <= i < j < s.len() ==> s[i] < s[j]
}

/// The unfolding forest of triangles `0..n` over the spanning edges of
/// `edges`: the least triangle of each connected component is a root (a
/// link with no parent); every other triangle links to a neighbour across a
/// spanning edge, and following links always ends at a root; `children[p]`
/// lists, in increasing order, the triangles linked to `p`.
pub open spec fn unfolding_forest(edges: Seq<DualEdge>, n: nat, links: Seq<ParentLink>, children: Seq<Seq<usize>>) -> bool {
    &&& links.len() == n
    &&& children.len() == n
    &&& forall|t: int| 0 <= t < n ==> ((#[trigger] links[t]).parent is None <==> least_in_component(edges, t))
    &&& forall|t: int| 0 <= t < n && (#[trigger] links[t]).parent is None ==> links[t] == root_link()
    &&& forall|t: int|
        0 <= t < n && (#[trigger] links[t]).parent is Some ==> links[t].parent.unwrap() < n && linked_by_spanning_edge(
            edges,
            t,
            links[t],
        )
    &&& exists|depth: Seq<nat>| #[trigger] depth_drops(links, depth)
    &&& forall|p: int| 0 <= p < n ==> increasing(#[trigger] children[p])
    &&& forall|p: int, q: usize|
        0 <= p < n ==> ((#[trigger] children[p].contains(q)) <==> q < n && links[q as int].parent == Some(p as usize))
}

/// Sorts the dual edges (see `sort_dual_edges`), keeps those that join two
/// triangles not yet joined (the spanning forest), and orients the forest
/// breadth-first from the least triangle of each component (see
/// `unfolding_forest`).
#[verifier::rlimit(100)]
#[verifier::spinoff_prover]
pub fn build_parent_tree(triangle_count: usize, dual_graph: &mut [DualEdge]) -> (tree: (Vec<ParentLink>, Vec<Vec<usize>>))
    requires
        forall|i: int|
            0 <= i < old(dual_graph)@.len() ==> (#[trigger] old(dual_graph)@[i]).triangle_a < triangle_count
                && old(dual_graph)@[i].triangle_b < triangle_count,
    ensures
        sorted_by_dual_key(final(dual_graph)@),
        same_order_per_key(old(dual_graph)@, final(dual_graph)@),
        final(dual_graph)@.len() == old(dual_graph)@.len(),
        unfolding_forest(final(dual_graph)@, triangle_count as nat, tree.0@, child_lists(tree.1@)),
{
    let ghost given = dual_graph@;
    sort_dual_edges(dual_graph);
    let ghost all = dual_graph@;
    let n = triangle_count;
    let m = dual_graph.len();
    proof {
        assert forall|i: int| 0 <= i < m implies (#[trigger] all[i]).triangle_a < n && all[i].triangle_b < n by {
            all.to_multiset_ensures();
            given.to_multiset_ensures();
            assert(all.contains(all[i]));
            assert(all.to_multiset().count(all[i]) > 0);
            assert(given.to_multiset().count(all[i]) > 0);
            assert(given.contains(all[i]));
            let k = choose|k: int| 0 <= k < given.len() && given[k] == all[i];
        }
    }
    let mut adjacency_list = spanning_neighbors(n, dual_graph);
    let mut t: usize = 0;
    while t < n
        invariant
            all == dual_graph@,
            m == all.len(),
            t <= n,
            adjacency_list@.len() == n,
            forall|u: int|
                0 <= u < n ==> (#[trigger] adjacency_list@[u])@.to_multiset() == tree_neighbors(all, u, m as nat).to_multiset(),
            forall|u: int, a: int, b: int|
                0 <= u < t && 0 <= a < b < adjacency_list@[u]@.len() ==> #[trigger] adjacency_list@[u]@[a].0
                    <= #[trigger] adjacency_list@[u]@[b].0,
        decreases n - t,
    {
        let ghost lists = adjacency_list@;
        let mut list = Vec::new();
        std::mem::swap(&mut list, &mut adjacency_list[t]);
        sort_neighbors(&mut list);
        adjacency_list.set(t, list);
        proof {
            assert forall|u: int, a: int, b: int|
                0 <= u < t + 1 && 0 <= a < b < adjacency_list@[u]@.len() implies #[trigger] adjacency_list@[u]@[a].0
                <= #[trigger] adjacency_list@[u]@[b].0 by {
                if u == t {
                    assert(!neighbor_key_before(neighbor_key(adjacency_list@[u]@[b]), neighbor_key(adjacency_list@[u]@[a])));
                } else {
                    assert(adjacency_list@[u] == lists[u]);
                }
            }
            assert forall|u: int| 0 <= u < n implies (#[trigger] adjacency_list@[u])@.to_multiset() == tree_neighbors(
                all,
                u,
                m as nat,
            ).to_multiset() by {
                if u != t {
                    assert(adjacency_list@[u] == lists[u]);
                }
            }
        }
        t += 1;
    }
    proof {
        assert forall|u: int, e: (usize, DualEdge)|
            0 <= u < n implies (#[trigger] adjacency_list@[u]@.contains(e) <==> tree_neighbors(all, u, m as nat).contains(e)) by {
            let listed = adjacency_list@[u]@;
            let tree = tree_neighbors(all, u, m as nat);
            listed.to_multiset_ensures();
            tree.to_multiset_ensures();
            assert(listed.to_multiset() == tree.to_multiset());
            assert(listed.contains(e) <==> listed.to_multiset().count(e) > 0);
            assert(tree.contains(e) <==> tree.to_multiset().count(e) > 0);
        }
        assert forall|u: int, a: int| 0 <= u < n && 0 <= a < adjacency_list@[u]@.len() implies #[trigger] adjacency_list@[u]@[a].0
            < n by {
            let e = adjacency_list@[u]@[a];
            assert(adjacency_list@[u]@.contains(e));
            lemma_tree_neighbor_source(all, u, m as nat, e);
        }
    }
    let mut parent_links: Vec<ParentLink> = Vec::new();
    let mut children: Vec<Vec<usize>> = Vec::new();
    let mut seen: Vec<bool> = Vec::new();
    let mut i: usize = 0;
    while i < n
        invariant
            i <= n,
            parent_links@.len() == i,
            children@.len() == i,
            seen@.len() == i,
            forall|x: int| 0 <= x < i ==> #[trigger] parent_links@[x] == root_link(),
            forall|x: int| 0 <= x < i ==> (#[trigger] children@[x])@ == Seq::<usize>::empty(),
            forall|x: int| 0 <= x < i ==> !#[trigger] seen@[x],
        decreases n - i,
    {
        parent_links.push(ParentLink::default());
        children.push(Vec::new());
        seen.push(false);
        i += 1;
    }
    let mut triangle_queue: VecDeque<usize> = VecDeque::new();
    let ghost mut time: Seq<nat> = Seq::new(n as nat, |x: int| 0nat);
    let ghost mut clock: nat = 0;
    let mut id: usize = 0;
    while id < n
        invariant
            all == dual_graph@,
            m == all.len(),
            forall|i: int| 0 <= i < m ==> (#[trigger] all[i]).triangle_a < n && all[i].triangle_b < n,
            adjacency_list@.len() == n,
            forall|u: int, e: (usize, DualEdge)|
                0 <= u < n ==> (#[trigger] adjacency_list@[u]@.contains(e) <==> tree_neighbors(all, u, m as nat).contains(e)),
            forall|u: int, a: int, b: int|
                0 <= u < n && 0 <= a < b < adjacency_list@[u]@.len() ==> #[trigger] adjacency_list@[u]@[a].0
                    <= #[trigger] adjacency_list@[u]@[b].0,
            forall|u: int, a: int| 0 <= u < n && 0 <= a < adjacency_list@[u]@.len() ==> #[trigger] adjacency_list@[u]@[a].0 < n,
            seen@.len() == n,
            parent_links@.len() == n,
            children@.len() == n,
            time.len() == n,
            id <= n,
            triangle_queue@.len() == 0,
            forall|x: int| 0 <= x < id ==> #[trigger] seen@[x],
            forall|x: int, i: int|
                0 <= x < n && seen@[x] && 0 <= i < adjacency_list@[x]@.len() ==> seen@[#[trigger] adjacency_list@[x]@[i].0 as int],
            forall|x: int| 0 <= x < n && #[trigger] seen@[x] ==> (parent_links@[x].parent is None <==> least_in_component(all, x)),
            forall|x: int| 0 <= x < n && (#[trigger] parent_links@[x]).parent is None ==> parent_links@[x] == root_link(),
            forall|x: int|
                0 <= x < n && (#[trigger] parent_links@[x]).parent is Some ==> {
                    let p = parent_links@[x].parent.unwrap() as int;
                    &&& p < n
                    &&& seen@[x]
                    &&& seen@[p]
                    &&& time[p] < time[x]
                    &&& linked_by_spanning_edge(all, x, parent_links@[x])
                },
            forall|x: int| 0 <= x < n && #[trigger] seen@[x] ==> time[x] < clock,
            forall|p: int| 0 <= p < n ==> increasing(#[trigger] children@[p]@),
            forall|p: int, q: usize|
                0 <= p < n ==> ((#[trigger] children@[p]@.contains(q)) <==> q < n && parent_links@[q as int].parent == Some(
                    p as usize,
                )),
        decreases n - id,
    {
        if seen[id] {
            id += 1;
            continue;
        }
        let ghost seen0 = seen@;
        proof {
            assert(least_in_component(all, id as int)) by {
                assert forall|j: int| 0 <= j < m && #[trigger] spanning_edge(all, j) implies seen0[all[j].triangle_a as int]
                    == seen0[all[j].triangle_b as int] by {
                    let a = all[j].triangle_a as int;
                    let b = all[j].triangle_b as int;
                    if seen0[a] {
                        lemma_tree_neighbor_present(all, a, m as nat, j);
                        assert(adjacency_list@[a]@.contains((all[j].triangle_b, all[j])));
                        let i = choose|i: int| 0 <= i < adjacency_list@[a]@.len() && adjacency_list@[a]@[i] == (all[j].triangle_b, all[j]);
                        assert(seen0[adjacency_list@[a]@[i].0 as int]);
                    }
                    if seen0[b] {
                        lemma_tree_neighbor_present(all, b, m as nat, j);
                        assert(all[j].triangle_a != all[j].triangle_b) by {
                            lemma_dual_connected_equivalence(all, j as nat);
                            assert(dual_connected(all, j as nat, a, a));
                        }
                        assert(adjacency_list@[b]@.contains((all[j].triangle_a, all[j])));
                        let i = choose|i: int| 0 <= i < adjacency_list@[b]@.len() && adjacency_list@[b]@[i] == (all[j].triangle_a, all[j]);
                        assert(seen0[adjacency_list@[b]@[i].0 as int]);
                    }
                }
                assert forall|y: int| 0 <= y < id implies !#[trigger] dual_connected(all, m as nat, y, id as int) by {
                    if dual_connected(all, m as nat, y, id as int) {
                        lemma_closed_set(all, n as nat, seen0, m as nat, y, id as int);
                        assert(seen0[y]);
                    }
                }
            }
        }
        seen.set(id, true);
        proof {
            time = time.update(id as int, clock);
            clock = clock + 1;
        }
        triangle_queue.push_back(id);
        proof {
            lemma_dual_connected_equivalence(all, m as nat);
            assert(dual_connected(all, m as nat, id as int, id as int));
            assert(triangle_queue@ == seq![id]);
            assert(children@[id as int]@.len() == 0) by {
                if children@[id as int]@.len() > 0 {
                    let q = children@[id as int]@[0];
                    assert(children@[id as int]@.contains(q));
                }
            }
            assert forall|x: int, i: int|
                0 <= x < n && seen@[x] && !triangle_queue@.contains(x as usize) && 0 <= i < adjacency_list@[x]@.len()
                    implies seen@[#[trigger] adjacency_list@[x]@[i].0 as int] by {
                if x == id {
                    assert(triangle_queue@[0] == id);
                    assert(triangle_queue@.contains(id));
                    assert(false);
                }
                assert(seen0[x]);
                assert(seen0[adjacency_list@[x]@[i].0 as int]);
            }
        }
        while triangle_queue.len() > 0
            invariant
                all == dual_graph@,
                m == all.len(),
                forall|i: int| 0 <= i < m ==> (#[trigger] all[i]).triangle_a < n && all[i].triangle_b < n,
                adjacency_list@.len() == n,
                forall|u: int, e: (usize, DualEdge)|
                    0 <= u < n ==> (#[trigger] adjacency_list@[u]@.contains(e) <==> tree_neighbors(all, u, m as nat).contains(e)),
                forall|u: int, a: int, b: int|
                    0 <= u < n && 0 <= a < b < adjacency_list@[u]@.len() ==> #[trigger] adjacency_list@[u]@[a].0
                        <= #[trigger] adjacency_list@[u]@[b].0,
                forall|u: int, a: int| 0 <= u < n && 0 <= a < adjacency_list@[u]@.len() ==> #[trigger] adjacency_list@[u]@[a].0 < n,
                seen@.len() == n,
                parent_links@.len() == n,
                children@.len() == n,
                time.len() == n,
                id < n,
                seen0.len() == n,
                !seen0[id as int],
                seen@[id as int],
                forall|x: int| 0 <= x < id ==> #[trigger] seen0[x],
                forall|x: int| 0 <= x < n && #[trigger] seen0[x] ==> seen@[x],
                triangle_queue@.no_duplicates(),
                forall|i: int|
                    0 <= i < triangle_queue@.len() ==> {
                        let x = #[trigger] triangle_queue@[i] as int;
                        &&& x < n
                        &&& seen@[x]
                        &&& !seen0[x]
                    },
                forall|x: int| 0 <= x < n && #[trigger] seen@[x] && !seen0[x] ==> dual_connected(all, m as nat, id as int, x),
                forall|x: int, i: int|
                    0 <= x < n && seen@[x] && !triangle_queue@.contains(x as usize) && 0 <= i < adjacency_list@[x]@.len()
                        ==> seen@[#[trigger] adjacency_list@[x]@[i].0 as int],
                forall|x: int| 0 <= x < n && #[trigger] seen@[x] ==> (parent_links@[x].parent is None <==> least_in_component(all, x)),
                forall|x: int| 0 <= x < n && (#[trigger] parent_links@[x]).parent is None ==> parent_links@[x] == root_link(),
                forall|x: int|
                    0 <= x < n && (#[trigger] parent_links@[x]).parent is Some ==> {
                        let p = parent_links@[x].parent.unwrap() as int;
                        &&& p < n
                        &&& seen@[x]
                        &&& seen@[p]
                        &&& time[p] < time[x]
                        &&& linked_by_spanning_edge(all, x, parent_links@[x])
                    },
                forall|x: int| 0 <= x < n && #[trigger] seen@[x] ==> time[x] < clock,
                forall|p: int| 0 <= p < n ==> increasing(#[trigger] children@[p]@),
                forall|p: int, q: usize|
                    0 <= p < n ==> ((#[trigger] children@[p]@.contains(q)) <==> q < n && parent_links@[q as int].parent == Some(
                        p as usize,
                    )),
                forall|p: int| 0 <= p < n && triangle_queue@.contains(p as usize) ==> (#[trigger] children@[p])@.len() == 0,
            decreases 2 * unseen_count(seen@, n as int) + triangle_queue@.len(),
        {
            let ghost measure = 2 * unseen_count(seen@, n as int) + triangle_queue@.len();
            let ghost queued = triangle_queue@;
            let current = triangle_queue.pop_front().unwrap();
            proof {
                assert(current == queued[0]);
                assert(triangle_queue@ == queued.subrange(1, queued.len() as int));
                assert(!triangle_queue@.contains(current)) by {
                    if triangle_queue@.contains(current) {
                        let i = choose|i: int| 0 <= i < triangle_queue@.len() && triangle_queue@[i] == current;
                        assert(queued[i + 1] == queued[0]);
                    }
                }
                assert forall|p: int| 0 <= p < n && #[trigger] triangle_queue@.contains(p as usize) implies queued.contains(p as usize) by {
                    let i = choose|i: int| 0 <= i < triangle_queue@.len() && triangle_queue@[i] == p as usize;
                    assert(queued[i + 1] == p as usize);
                }
                assert(queued.contains(current)) by {
                    assert(queued[0] == current);
                }
                assert forall|x: int, i: int|
                    0 <= x < n && x != current && seen@[x] && !triangle_queue@.contains(x as usize) && 0 <= i
                        < adjacency_list@[x]@.len() implies seen@[#[trigger] adjacency_list@[x]@[i].0 as int] by {
                    if queued.contains(x as usize) {
                        let h = choose|h: int| 0 <= h < queued.len() && queued[h] == x as usize;
                        if h > 0 {
                            assert(triangle_queue@[h - 1] == x as usize);
                        }
                    }
                }
            }
            let len = adjacency_list[current].len();
            let mut j: usize = 0;
            while j < len
                invariant
                    all == dual_graph@,
                    m == all.len(),
                    forall|i: int| 0 <= i < m ==> (#[trigger] all[i]).triangle_a < n && all[i].triangle_b < n,
                    adjacency_list@.len() == n,
                    forall|u: int, e: (usize, DualEdge)|
                        0 <= u < n ==> (#[trigger] adjacency_list@[u]@.contains(e) <==> tree_neighbors(all, u, m as nat).contains(
                            e,
                        )),
                    forall|u: int, a: int, b: int|
                        0 <= u < n && 0 <= a < b < adjacency_list@[u]@.len() ==> #[trigger] adjacency_list@[u]@[a].0
                            <= #[trigger] adjacency_list@[u]@[b].0,
                    forall|u: int, a: int| 0 <= u < n && 0 <= a < adjacency_list@[u]@.len() ==> #[trigger] adjacency_list@[u]@[a].0 < n,
                    seen@.len() == n,
                    parent_links@.len() == n,
                    children@.len() == n,
                    time.len() == n,
                    id < n,
                    seen0.len() == n,
                    !seen0[id as int],
                    seen@[id as int],
                    forall|x: int| 0 <= x < id ==> #[trigger] seen0[x],
                    forall|x: int| 0 <= x < n && #[trigger] seen0[x] ==> seen@[x],
                    triangle_queue@.no_duplicates(),
                    forall|i: int|
                        0 <= i < triangle_queue@.len() ==> {
                            let x = #[trigger] triangle_queue@[i] as int;
                            &&& x < n
                            &&& seen@[x]
                            &&& !seen0[x]
                        },
                    forall|x: int| 0 <= x < n && #[trigger] seen@[x] && !seen0[x] ==> dual_connected(all, m as nat, id as int, x),
                    current < n,
                    seen@[current as int],
                    !seen0[current as int],
                    !triangle_queue@.contains(current),
                    len == adjacency_list@[current as int]@.len(),
                    j <= len,
                    forall|i: int| 0 <= i < j ==> seen@[#[trigger] adjacency_list@[current as int]@[i].0 as int],
                    forall|x: int, i: int|
                        0 <= x < n && x != current && seen@[x] && !triangle_queue@.contains(x as usize) && 0 <= i
                            < adjacency_list@[x]@.len() ==> seen@[#[trigger] adjacency_list@[x]@[i].0 as int],
                    forall|x: int| 0 <= x < n && #[trigger] seen@[x] ==> (parent_links@[x].parent is None <==> least_in_component(all, x)),
                    forall|x: int| 0 <= x < n && (#[trigger] parent_links@[x]).parent is None ==> parent_links@[x] == root_link(),
                    forall|x: int|
                        0 <= x < n && (#[trigger] parent_links@[x]).parent is Some ==> {
                            let p = parent_links@[x].parent.unwrap() as int;
                            &&& p < n
                            &&& seen@[x]
                            &&& seen@[p]
                            &&& time[p] < time[x]
                            &&& linked_by_spanning_edge(all, x, parent_links@[x])
                        },
                    forall|x: int| 0 <= x < n && #[trigger] seen@[x] ==> time[x] < clock,
                    forall|p: int| 0 <= p < n ==> increasing(#[trigger] children@[p]@),
                    forall|p: int, q: usize|
                        0 <= p < n ==> ((#[trigger] children@[p]@.contains(q)) <==> q < n && parent_links@[q as int].parent
                            == Some(p as usize)),
                    forall|p: int| 0 <= p < n && triangle_queue@.contains(p as usize) ==> (#[trigger] children@[p])@.len() == 0,
                    forall|a: int, b: int|
                        0 <= a < children@[current as int]@.len() && j <= b < len ==> #[trigger] children@[current as int]@[a]
                            <= #[trigger] adjacency_list@[current as int]@[b].0,
                    2 * unseen_count(seen@, n as int) + triangle_queue@.len() < measure,
                decreases len - j,
            {
                let (triangle, edge) = adjacency_list[current][j];
                let ghost entry = adjacency_list@[current as int]@[j as int];
                proof {
                    assert(entry == (triangle, edge));
                    assert(adjacency_list@[current as int]@.contains(entry));
                    assert(tree_neighbors(all, current as int, m as nat).contains(entry));
                    lemma_tree_neighbor_source(all, current as int, m as nat, entry);
                }
                if !seen[triangle] {
                    let ghost k = choose|k: int|
                        0 <= k < m && spanning_edge(all, k) && #[trigger] all[k] == entry.1 && joins(all[k], current as int, entry.0 as int);
                    let ghost seen_before = seen@;
                    let ghost links_before = parent_links@;
                    let ghost children_before = children@;
                    let ghost queue_before = triangle_queue@;
                    seen.set(triangle, true);
                    proof {
                        lemma_mark_seen(seen_before, n as int, triangle as int);
                        time = time.update(triangle as int, clock);
                        clock = clock + 1;
                    }
                    let (parent_local_edge, child_local_edge) = if current == edge.triangle_a {
                        (edge.triangle_a_local_edge, edge.triangle_b_local_edge)
                    } else {
                        (edge.triangle_b_local_edge, edge.triangle_a_local_edge)
                    };
                    parent_links.set(
                        triangle,
                        ParentLink {
                            parent: Some(current),
                            parent_local_edge: Some(parent_local_edge),
                            child_local_edge: Some(child_local_edge),
                            welded_edge: Some(edge.welded_edge),
                        },
                    );
                    let mut list = Vec::new();
                    std::mem::swap(&mut list, &mut children[current]);
                    list.push(triangle);
                    children.set(current, list);
                    triangle_queue.push_back(triangle);
                    proof {
                        let c = current as int;
                        let t = triangle as int;
                        lemma_edge_connects(all, k);
                        lemma_dual_connected_equivalence(all, m as nat);
                        assert(dual_connected(all, m as nat, c, t));
                        assert(dual_connected(all, m as nat, id as int, t));
                        assert(!seen0[t]);
                        assert(t > id);
                        assert(!least_in_component(all, t)) by {
                            assert(dual_connected(all, m as nat, id as int, t));
                        }
                        assert(parent_links@[t] == link_across(all[k], c));
                        assert(linked_by_spanning_edge(all, t, parent_links@[t]));
                        assert forall|q: usize| children_before[t]@.contains(q) implies false by {
                            assert(links_before[q as int].parent == Some(triangle));
                        }
                        assert(children_before[t]@.len() == 0) by {
                            if children_before[t]@.len() > 0 {
                                assert(children_before[t]@.contains(children_before[t]@[0]));
                            }
                        }
                        assert(!queue_before.contains(triangle)) by {
                            if queue_before.contains(triangle) {
                                let i = choose|i: int| 0 <= i < queue_before.len() && queue_before[i] == triangle;
                                assert(seen_before[queue_before[i] as int]);
                            }
                        }
                        assert forall|x: int| 0 <= x < n && seen@[x] && !seen0[x] implies #[trigger] dual_connected(
                            all,
                            m as nat,
                            id as int,
                            x,
                        ) by {
                            if x != t {
                                assert(seen_before[x]);
                            }
                        }
                        assert forall|p: int| 0 <= p < n implies increasing(#[trigger] children@[p]@) by {
                            if p == c {
                                let old_list = children_before[c]@;
                                assert(children@[c]@ == old_list.push(triangle));
                                assert forall|a: int| 0 <= a < old_list.len() implies old_list[a] < triangle by {
                                    assert(old_list[a] <= adjacency_list@[c]@[j as int].0);
                                    assert(old_list.contains(old_list[a]));
                                    assert(links_before[old_list[a] as int].parent == Some(current));
                                }
                            } else {
                                assert(children@[p] == children_before[p]);
                            }
                        }
                        assert(links_before[t].parent is None);
                        assert forall|p: int, q: usize| 0 <= p < n implies ((#[trigger] children@[p]@.contains(q)) <==> q < n
                            && parent_links@[q as int].parent == Some(p as usize)) by {
                            assert(children_before[p]@.contains(q) <==> q < n && links_before[q as int].parent == Some(
                                p as usize,
                            ));
                            if q != triangle && q < n {
                                assert(parent_links@[q as int] == links_before[q as int]);
                            }
                            if p == c {
                                assert(children@[c]@ == children_before[c]@.push(triangle));
                                if q == triangle {
                                    assert(children@[c]@[children_before[c]@.len() as int] == triangle);
                                } else if children@[p]@.contains(q) {
                                    let i = choose|i: int| 0 <= i < children@[p]@.len() && children@[p]@[i] == q;
                                    assert(children_before[c]@[i] == q);
                                } else if children_before[c]@.contains(q) {
                                    let i = choose|i: int| 0 <= i < children_before[c]@.len() && children_before[c]@[i] == q;
                                    assert(children@[c]@[i] == q);
                                }
                            } else {
                                assert(children@[p] == children_before[p]);
                            }
                        }
                        assert forall|p: int| 0 <= p < n && triangle_queue@.contains(p as usize) implies (#[trigger] children@[p])@.len()
                            == 0 by {
                            if p != t {
                                assert(children@[p] == children_before[p]);
                                let i = choose|i: int| 0 <= i < triangle_queue@.len() && triangle_queue@[i] == p as usize;
                                assert(queue_before[i] == p as usize);
                            }
                        }
                        assert forall|x: int, i: int|
                            0 <= x < n && x != current && seen@[x] && !triangle_queue@.contains(x as usize) && 0 <= i
                                < adjacency_list@[x]@.len() implies seen@[#[trigger] adjacency_list@[x]@[i].0 as int] by {
                            if x != t {
                                if queue_before.contains(x as usize) {
                                    let h = choose|h: int| 0 <= h < queue_before.len() && queue_before[h] == x as usize;
                                    assert(triangle_queue@[h] == x as usize);
                                }
                                assert(seen_before[x]);
                                assert(seen_before[adjacency_list@[x]@[i].0 as int]);
                            } else {
                                assert(triangle_queue@[triangle_queue@.len() - 1] == triangle);
                                assert(triangle_queue@.contains(triangle));
                            }
                        }
                        assert forall|a: int, b: int|
                            0 <= a < children@[c]@.len() && j + 1 <= b < len implies #[trigger] children@[c]@[a]
                                <= #[trigger] adjacency_list@[c]@[b].0 by {
                            if a < children_before[c]@.len() {
                                assert(children@[c]@[a] == children_before[c]@[a]);
                            } else {
                                assert(adjacency_list@[c]@[j as int].0 <= adjacency_list@[c]@[b].0);
                            }
                        }
                    }
                }
                j += 1;
            }
        }
        proof {
            assert forall|x: int| 0 <= x < id + 1 implies #[trigger] seen@[x] by {
                if x < id {
                    assert(seen0[x]);
                }
            }
        }
        id += 1;
    }
    proof {
        let links = parent_links@;
        let lists = child_lists(children@);
        assert(depth_drops(links, time));
        assert forall|t: int| 0 <= t < n implies ((#[trigger] links[t]).parent is None <==> least_in_component(all, t)) by {
            assert(seen@[t]);
        }
        assert(lists.len() == n);
        assert forall|p: int| 0 <= p < n implies increasing(#[trigger] child_lists(children@)[p]) by {
            assert(child_lists(children@)[p] == children@[p]@);
        }
        assert forall|p: int, q: usize| 0 <= p < n implies ((#[trigger] child_lists(children@)[p].contains(q)) <==> q < n
            && parent_links@[q as int].parent == Some(p as usize)) by {
            assert(child_lists(children@)[p] == children@[p]@);
        }
    }
    (parent_links, children)
}

/// The largest of the first `k` depths (0 for none).
spec fn max_depth(depth: Seq<nat>, k: int) -> nat
    decreases k,
{
    if k <= 0 {
        0
    } else if depth[k - 1] > max_depth(depth, k - 1) {
        depth[k - 1]
    } else {
        max_depth(depth, k - 1)
    }
}

proof fn lemma_max_depth(depth: Seq<nat>, k: int, x: int)
    requires
        0 <= x < k <= depth.len(),
    ensures
        depth[x] <= max_depth(depth, k),
    decreases k,
{
    if x < k - 1 {
        lemma_max_depth(depth, k - 1, x);
    }
}

/// The children lists of an unfolding forest have no cycles: some rank
/// drops from every triangle to each of its children, so a depth-first walk
/// (`collect_subtree_triangles`) may start from any triangle.
pub proof fn lemma_unfolding_children_ranked(
    edges: Seq<DualEdge>,
    n: usize,
    links: Seq<ParentLink>,
    children: Seq<Seq<usize>>,
)
    requires
        unfolding_forest(edges, n as nat, links, children),
    ensures
        exists|rank: Seq<nat>| #[trigger] children_ranked(children, rank),
{
    let depth = choose|depth: Seq<nat>| #[trigger] depth_drops(links, depth);
    assert(depth_drops(links, depth));
    assert(links.len() == n && depth.len() == n);
    let top = max_depth(depth, n as int);
    let rank = Seq::new(n as nat, |x: int| (top - depth[x]) as nat);
    assert forall|p: int, i: int| 0 <= p < children.len() && 0 <= i < children[p].len() implies (#[trigger] children[p][i])
        < children.len() && rank[children[p][i] as int] < rank[p] by {
        let t = children[p][i];
        assert(children[p].contains(t));
        assert(t < n && links[t as int].parent == Some(p as usize));
        assert(links[t as int].parent is Some);
        assert(links[t as int].parent.unwrap() as int == p);
        assert(depth[p] < depth[t as int]);
        lemma_max_depth(depth, n as int, t as int);
        lemma_max_depth(depth, n as int, p);
        assert(rank[t as int] == top - depth[t as int]);
        assert(rank[p] == top - depth[p]);
    }
    assert(children_ranked(children, rank));
}

/// One step up a forest of links: the parent of `x`, or `x` itself at a
/// root.
pub open spec fn step_up(links: Seq<ParentLink>, x: int) -> int {
    if 0 <= x < links.len() && links[x].parent is Some {
        links[x].parent.unwrap() as int
    } else {
        x
    }
}

/// The triangle `k` steps up from `t`.
pub open spec fn ancestor(links: Seq<ParentLink>, t: int, k: nat) -> int
    decreases k,
{
    if k == 0 {
        t
    } else {
        step_up(links, ancestor(links, t, (k - 1) as nat))
    }
}

proof fn lemma_ancestor_shift(links: Seq<ParentLink>, t: int, k: nat)
    ensures
        ancestor(links, t, k + 1) == ancestor(links, step_up(links, t), k),
    decreases k,
{
    assert(ancestor(links, t, k + 1) == step_up(links, ancestor(links, t, k)));
    if k > 0 {
        lemma_ancestor_shift(links, t, (k - 1) as nat);
        assert(ancestor(links, step_up(links, t), k) == step_up(links, ancestor(links, step_up(links, t), (k - 1) as nat)));
    } else {
        assert(ancestor(links, t, 0) == t);
        assert(ancestor(links, step_up(links, t), 0) == step_up(links, t));
    }
}

proof fn lemma_concat_contains<A>(a: Seq<A>, b: Seq<A>, x: A)
    ensures
        (a + b).contains(x) <==> a.contains(x) || b.contains(x),
{
    if (a + b).contains(x) {
        let i = choose|i: int| 0 <= i < (a + b).len() && (a + b)[i] == x;
        if i < a.len() {
            assert(a[i] == x);
        } else {
            assert(b[i - a.len()] == x);
        }
    }
    if a.contains(x) {
        let i = choose|i: int| 0 <= i < a.len() && a[i] == x;
        assert((a + b)[i] == x);
    }
    if b.contains(x) {
        let i = choose|i: int| 0 <= i < b.len() && b[i] == x;
        assert((a + b)[a.len() + i] == x);
    }
}

proof fn lemma_children_order_contains(children: Seq<Seq<usize>>, rank: Seq<nat>, x: int, k: nat, t: usize)
    requires
        children_ranked(children, rank),
        0 <= x < children.len(),
        k <= children[x].len(),
    ensures
        children_order(children, rank, x, k).contains(t) <==> exists|i: int|
            0 <= i < k && #[trigger] subtree_order(children, rank, children[x][i] as int).contains(t),
    decreases k,
{
    if k > 0 {
        lemma_children_order_contains(children, rank, x, (k - 1) as nat, t);
        lemma_concat_contains(
            subtree_order(children, rank, children[x][k - 1] as int),
            children_order(children, rank, x, (k - 1) as nat),
            t,
        );
        if exists|i: int| 0 <= i < k && #[trigger] subtree_order(children, rank, children[x][i] as int).contains(t) {
            let i = choose|i: int| 0 <= i < k && #[trigger] subtree_order(children, rank, children[x][i] as int).contains(t);
            if i < k - 1 {
                assert(0 <= i < k - 1 && subtree_order(children, rank, children[x][i] as int).contains(t));
            }
        }
    }
}

/// Every triangle of the subtree of `x` has `x` above it.
proof fn lemma_subtree_has_ancestor(
    edges: Seq<DualEdge>,
    n: usize,
    links: Seq<ParentLink>,
    children: Seq<Seq<usize>>,
    rank: Seq<nat>,
    x: int,
    t: usize,
)
    requires
        unfolding_forest(edges, n as nat, links, children),
        children_ranked(children, rank),
        0 <= x < n,
        subtree_order(children, rank, x).contains(t),
    ensures
        exists|k: nat| ancestor(links, t as int, k) == x,
    decreases rank[x],
{
    let rest = children_order(children, rank, x, children[x].len());
    lemma_concat_contains(seq![x as usize], rest, t);
    if t as int == x {
        assert(ancestor(links, t as int, 0) == x);
    } else {
        assert(seq![x as usize].contains(t) ==> t == x as usize);
        lemma_children_order_contains(children, rank, x, children[x].len(), t);
        let i = choose|i: int|
            0 <= i < children[x].len() && #[trigger] subtree_order(children, rank, children[x][i] as int).contains(t);
        let c = children[x][i];
        assert(children[x].contains(c));
        assert(c < n && links[c as int].parent == Some(x as usize));
        lemma_subtree_has_ancestor(edges, n, links, children, rank, c as int, t);
        let k = choose|k: nat| ancestor(links, t as int, k) == c;
        assert(ancestor(links, t as int, k + 1) == x);
    }
}

/// A triangle lies in the subtree of every triangle above it.
proof fn lemma_ancestor_in_subtree(
    edges: Seq<DualEdge>,
    n: usize,
    links: Seq<ParentLink>,
    children: Seq<Seq<usize>>,
    rank: Seq<nat>,
    t: int,
    k: nat,
)
    requires
        unfolding_forest(edges, n as nat, links, children),
        children_ranked(children, rank),
        0 <= t < n,
    ensures
        0 <= ancestor(links, t, k) < n,
        subtree_order(children, rank, ancestor(links, t, k)).contains(t as usize),
    decreases k,
{
    if k == 0 {
        assert(subtree_order(children, rank, t)[0] == t as usize);
    } else {
        lemma_ancestor_in_subtree(edges, n, links, children, rank, t, (k - 1) as nat);
        let y = ancestor(links, t, (k - 1) as nat);
        if links[y].parent is Some {
            let x = links[y].parent.unwrap() as int;
            assert(links[y].parent.unwrap() < n);
            assert(children[x].contains(y as usize));
            let i = choose|i: int| 0 <= i < children[x].len() && children[x][i] == y as usize;
            lemma_children_order_contains(children, rank, x, children[x].len(), t as usize);
            assert(subtree_order(children, rank, children[x][i] as int).contains(t as usize));
            lemma_concat_contains(
                seq![x as usize],
                children_order(children, rank, x, children[x].len()),
                t as usize,
            );
        }
    }
}

/// Following parent links from `t` stays connected to `t`.
proof fn lemma_ancestor_connected(edges: Seq<DualEdge>, n: usize, links: Seq<ParentLink>, children: Seq<Seq<usize>>, t: int, k: nat)
    requires
        unfolding_forest(edges, n as nat, links, children),
        0 <= t < n,
    ensures
        0 <= ancestor(links, t, k) < n,
        dual_connected(edges, edges.len() as nat, t, ancestor(links, t, k)),
    decreases k,
{
    lemma_dual_connected_equivalence(edges, edges.len() as nat);
    if k == 0 {
        assert(dual_connected(edges, edges.len() as nat, t, t));
    } else {
        lemma_ancestor_connected(edges, n, links, children, t, (k - 1) as nat);
        let y = ancestor(links, t, (k - 1) as nat);
        if links[y].parent is Some {
            let x = links[y].parent.unwrap() as int;
            assert(linked_by_spanning_edge(edges, y, links[y]));
            let j = choose|j: int|
                0 <= j < edges.len() && spanning_edge(edges, j) && joins(#[trigger] edges[j], y, x) && links[y]
                    == link_across(edges[j], x);
            lemma_edge_connects(edges, j);
            assert(dual_connected(edges, edges.len() as nat, y, x));
        }
    }
}

/// Following parent links from a triangle reaches a root.
proof fn lemma_reaches_root(edges: Seq<DualEdge>, n: usize, links: Seq<ParentLink>, children: Seq<Seq<usize>>, depth: Seq<nat>, t: int)
    requires
        unfolding_forest(edges, n as nat, links, children),
        depth_drops(links, depth),
        0 <= t < n,
    ensures
        exists|k: nat| links[ancestor(links, t, k)].parent is None,
    decreases depth[t],
{
    if links[t].parent is Some {
        let p = links[t].parent.unwrap() as int;
        assert(depth[p] < depth[t]);
        lemma_reaches_root(edges, n, links, children, depth, p);
        let k = choose|k: nat| links[ancestor(links, p, k)].parent is None;
        lemma_ancestor_shift(links, t, k);
        assert(links[ancestor(links, t, k + 1)].parent is None);
    } else {
        assert(links[ancestor(links, t, 0)].parent is None);
    }
}

/// The subtree of a root of an unfolding forest holds exactly the triangles
/// of the root's connected component: a depth-first walk of the children
/// lists from each root (`collect_subtree_triangles`) visits every triangle
/// of its component and no other.
pub proof fn lemma_subtree_is_component(
    edges: Seq<DualEdge>,
    n: usize,
    links: Seq<ParentLink>,
    children: Seq<Seq<usize>>,
    rank: Seq<nat>,
    root: int,
)
    requires
        unfolding_forest(edges, n as nat, links, children),
        children_ranked(children, rank),
        0 <= root < n,
        links[root].parent is None,
    ensures
        forall|t: int|
            0 <= t < n ==> (#[trigger] subtree_order(children, rank, root).contains(t as usize) <==> dual_connected(
                edges,
                edges.len() as nat,
                root,
                t,
            )),
{
    let m = edges.len() as nat;
    let depth = choose|depth: Seq<nat>| #[trigger] depth_drops(links, depth);
    lemma_dual_connected_equivalence(edges, m);
    assert forall|t: int| 0 <= t < n implies (#[trigger] subtree_order(children, rank, root).contains(t as usize)
        <==> dual_connected(edges, m, root, t)) by {
        if subtree_order(children, rank, root).contains(t as usize) {
            lemma_subtree_has_ancestor(edges, n, links, children, rank, root, t as usize);
            let k = choose|k: nat| ancestor(links, t, k) == root;
            lemma_ancestor_connected(edges, n, links, children, t, k);
        }
        if dual_connected(edges, m, root, t) {
            lemma_reaches_root(edges, n, links, children, depth, t);
            let k = choose|k: nat| links[ancestor(links, t, k)].parent is None;
            lemma_ancestor_connected(edges, n, links, children, t, k);
            let top = ancestor(links, t, k);
            assert(dual_connected(edges, m, root, top));
            assert(least_in_component(edges, root));
            assert(least_in_component(edges, top));
            if top < root {
                assert(!dual_connected(edges, m, top, root));
                assert(dual_connected(edges, m, top, root));
            }
            if root < top {
                assert(!dual_connected(edges, m, root, top));
            }
            assert(top == root);
            lemma_ancestor_in_subtree(edges, n, links, children, rank, t, k);
        }
    }
}

} // verus!
