use crate::counter::Integer;
use crate::node::{calc_and_count, calc_or_count, cardinality_ok, counts_of, node_children, Node, NodeType};
use std::collections::HashMap;
use vstd::prelude::*;

verus! {

broadcast use vstd::std_specs::hash::group_hash_axioms;

/// The kind tag a vertex of the editable graph carries.
#[derive(Debug, Clone, Copy, PartialEq, Eq, Structural)]
pub enum VertexKind {
    And,
    Or,
    Literal,
    True,
    False,
}

/// One vertex of the editable circuit graph: a kind tag, the signed literal
/// value when the kind is `Literal` (zero otherwise), and the outgoing edges,
/// directed parent to child.
#[derive(Debug, Clone)]
pub struct Vertex {
    pub kind: VertexKind,
    pub literal: i32,
    pub children: Vec<usize>,
}

/// Structural soundness of one vertex: edges stay inside the arena, leaves
/// have no children, inner vertices have at least one, and a literal vertex
/// carries a nonzero value above the negative extreme.
pub open spec fn vertex_ok(vs: Seq<Vertex>, v: int) -> bool {
    &&& forall|k: int|
        0 <= k < vs[v].children@.len() ==> (#[trigger] vs[v].children@[k]) < vs.len()
    &&& (vs[v].kind == VertexKind::And || vs[v].kind == VertexKind::Or ==> vs[v].children@.len()
        > 0)
    &&& (vs[v].kind == VertexKind::Literal ==> vs[v].children@.len() == 0 && vs[v].literal != 0
        && vs[v].literal != i32::MIN)
    &&& (vs[v].kind == VertexKind::True || vs[v].kind == VertexKind::False
        ==> vs[v].children@.len() == 0)
}

/// No two literal vertices carry the same signed value.
pub open spec fn literals_unique(vs: Seq<Vertex>) -> bool {
    forall|v1: int, v2: int|
        0 <= v1 < vs.len() && 0 <= v2 < vs.len() && v1 != v2 && (#[trigger] vs[v1]).kind
            == VertexKind::Literal && (#[trigger] vs[v2]).kind == VertexKind::Literal
            ==> vs[v1].literal != vs[v2].literal
}

/// A rank witness for acyclicity: along every edge the rank strictly drops.
pub open spec fn ranks_ok(vs: Seq<Vertex>, ranks: Seq<u64>) -> bool {
    &&& ranks.len() == vs.len()
    &&& forall|v: int| 0 <= v < ranks.len() ==> (#[trigger] ranks[v]) < u64::MAX
    &&& forall|v: int, k: int|
        0 <= v < vs.len() && 0 <= k < vs[v].children@.len() ==> ranks[(
        #[trigger] vs[v].children@[k]) as int] < ranks[v]
}

/// The structural part of well-formedness: bounds, kind rules, the rank
/// witness and literal uniqueness.
pub open spec fn graph_ok(vs: Seq<Vertex>, ranks: Seq<u64>, root: int) -> bool {
    &&& 0 <= root < vs.len()
    &&& forall|v: int| 0 <= v < vs.len() ==> vertex_ok(vs, v)
    &&& ranks_ok(vs, ranks)
    &&& literals_unique(vs)
}

/// The literal the vertex itself contributes to its support.
pub open spec fn own_literal(vx: Vertex) -> Set<i32> {
    if vx.kind == VertexKind::Literal {
        Set::empty().insert(vx.literal)
    } else {
        Set::empty()
    }
}

/// The literal support of vertex `v`: every signed literal value occurring
/// at or below it.
pub open spec fn spec_support(vs: Seq<Vertex>, ranks: Seq<u64>, v: int) -> Set<i32>
    decreases ranks[v], 1int, 0int,
{
    if 0 <= v < vs.len() && ranks_ok(vs, ranks) {
        own_literal(vs[v]) + children_support(vs, ranks, v, 0)
    } else {
        Set::empty()
    }
}

/// The union of the supports of the children of `v` from position `k` on.
pub open spec fn children_support(vs: Seq<Vertex>, ranks: Seq<u64>, v: int, k: int) -> Set<i32>
    decreases ranks[v], 0int, vs[v].children@.len() - k,
{
    if 0 <= v < vs.len() && 0 <= k && ranks_ok(vs, ranks) {
        if k >= vs[v].children@.len() {
            Set::empty()
        } else {
            spec_support(vs, ranks, vs[v].children@[k] as int) + children_support(
                vs,
                ranks,
                v,
                k + 1,
            )
        }
    } else {
        Set::empty()
    }
}

/// Errors of graph construction and clause insertion.
#[derive(Debug, Clone, Copy, PartialEq, Eq, Structural)]
pub enum GraphError {
    /// A child index points outside the arena or not strictly below its parent.
    NotTopological,
    /// A vertex breaks the kind rules (children on a leaf, none on a gate,
    /// a zero literal).
    BadVertex,
    /// Two literal vertices carry the same signed value.
    DuplicateLiteral,
    /// The root index points outside the arena.
    BadRoot,
    /// A clause variable does not occur in the chosen subcircuit.
    VariableNotCovered,
    /// A synthetic literal value would collide with an existing literal
    /// vertex or overflow the value range.
    SyntheticCollision,
    /// A rank of the grown graph would exceed the machine range.
    RankOverflow,
}

/// Whether the vertex list is in child-before-parent order, as a freshly
/// parsed circuit is.
pub open spec fn fresh_ordered(vs: Seq<Vertex>) -> bool {
    forall|v: int, k: int|
        0 <= v < vs.len() && 0 <= k < vs[v].children@.len() ==> (#[trigger] vs[v].children@[k])
            < v
}

/// The editable circuit graph: an arena of vertices with stable indices, a
/// distinguished root, an acyclicity rank witness, and the cached literal
/// support of every vertex.
#[derive(Debug)]
pub struct IntermediateGraph {
    vertices: Vec<Vertex>,
    root: usize,
    ranks: Vec<u64>,
    supports: Vec<Vec<i32>>,
}

impl IntermediateGraph {
    /// The vertex arena.
    pub closed spec fn spec_vertices(self) -> Seq<Vertex> {
        self.vertices@
    }

    /// The root vertex.
    pub closed spec fn spec_root(self) -> int {
        self.root as int
    }

    /// The acyclicity witness.
    pub closed spec fn spec_ranks(self) -> Seq<u64> {
        self.ranks@
    }

    /// The cached literal support of vertex `v`.
    pub closed spec fn spec_support_of(self, v: int) -> Set<i32> {
        self.supports@[v]@.to_set()
    }

    /// The support caches agree with the graph topology.
    pub open spec fn supports_ok(self) -> bool {
        &&& self.spec_supports_len() == self.spec_vertices().len()
        &&& forall|v: int|
            0 <= v < self.spec_vertices().len() ==> #[trigger] self.spec_support_of(v)
                == spec_support(self.spec_vertices(), self.spec_ranks(), v)
        &&& forall|v: int|
            0 <= v < self.spec_vertices().len() ==> #[trigger] self.spec_support_nodup(v)
    }

    /// The support cache of `v` lists each literal once.
    pub closed spec fn spec_support_nodup(self, v: int) -> bool {
        self.supports@[v]@.no_duplicates()
    }

    /// The length of the support cache.
    pub closed spec fn spec_supports_len(self) -> int {
        self.supports@.len() as int
    }

    /// Well-formedness: structure, acyclicity witness, literal uniqueness and
    /// consistent support caches.
    pub open spec fn wf(self) -> bool {
        &&& graph_ok(self.spec_vertices(), self.spec_ranks(), self.spec_root())
        &&& self.supports_ok()
    }

    /// The number of vertices.
    pub fn vertex_count(&self) -> (r: usize)
        ensures
            r == self.spec_vertices().len(),
    {
        self.vertices.len()
    }

    /// The root vertex index.
    pub fn root(&self) -> (r: usize)
        ensures
            r == self.spec_root(),
    {
        self.root
    }

    /// The kind of vertex `v`.
    pub fn kind_of(&self, v: usize) -> (r: VertexKind)
        requires
            v < self.spec_vertices().len(),
        ensures
            r == self.spec_vertices()[v as int].kind,
    {
        self.vertices[v].kind
    }

    /// Creates a new editable graph from a parsed vertex list in
    /// child-before-parent order, rejecting an ill-formed input.
    pub fn new(vertices: Vec<Vertex>, root: usize) -> (r: Result<IntermediateGraph, GraphError>)
        ensures
            match r {
                Ok(g) => {
                    &&& g.wf()
                    &&& g.spec_vertices() == vertices@
                    &&& g.spec_root() == root as int
                    &&& fresh_ordered(vertices@)
                },
                Err(e) => !(root < vertices@.len() && fresh_ordered(vertices@) && (forall|v: int|
                    0 <= v < vertices@.len() ==> vertex_ok(vertices@, v)) && literals_unique(
                    vertices@,
                )),
            },
    {
        if root >= vertices.len() {
            return Err(GraphError::BadRoot);
        }
        // child indices must point strictly downward and kinds must be sound
        let mut v: usize = 0;
        while v < vertices.len()
            invariant
                v <= vertices@.len(),
                forall|u: int, k: int|
                    0 <= u < v && 0 <= k < vertices@[u].children@.len() ==> (
                    #[trigger] vertices@[u].children@[k]) < u,
                forall|u: int| 0 <= u < v ==> vertex_ok(vertices@, u),
            decreases vertices@.len() - v,
        {
            let vx = &vertices[v];
            let nc = vx.children.len();
            match vx.kind {
                VertexKind::And | VertexKind::Or => {
                    if nc == 0 {
                        proof {
                            assert(!vertex_ok(vertices@, v as int));
                        }
                        return Err(GraphError::BadVertex);
                    }
                },
                VertexKind::Literal => {
                    if nc != 0 {
                        proof {
                            assert(!vertex_ok(vertices@, v as int));
                        }
                        return Err(GraphError::BadVertex);
                    }
                    if vx.literal == 0 || vx.literal == i32::MIN {
                        proof {
                            assert(!vertex_ok(vertices@, v as int));
                        }
                        return Err(GraphError::BadVertex);
                    }
                },
                VertexKind::True | VertexKind::False => {
                    if nc != 0 {
                        proof {
                            assert(!vertex_ok(vertices@, v as int));
                        }
                        return Err(GraphError::BadVertex);
                    }
                },
            }
            let mut k: usize = 0;
            while k < vx.children.len()
                invariant
                    v < vertices@.len(),
                    vx == &vertices@[v as int],
                    k <= vx.children@.len(),
                    forall|j: int| 0 <= j < k ==> (#[trigger] vx.children@[j]) < v,
                decreases vx.children@.len() - k,
            {
                if vx.children[k] >= v {
                    proof {
                        assert(vertices@[v as int].children@[k as int] >= v);
                        assert(!fresh_ordered(vertices@));
                    }
                    return Err(GraphError::NotTopological);
                }
                k = k + 1;
            }
            v = v + 1;
        }
        // literal values must be unique
        let mut a: usize = 0;
        while a < vertices.len()
            invariant
                a <= vertices@.len(),
                forall|v1: int, v2: int|
                    0 <= v1 < a && 0 <= v2 < vertices@.len() && v1 != v2 && (
                    #[trigger] vertices@[v1]).kind == VertexKind::Literal && (
                    #[trigger] vertices@[v2]).kind == VertexKind::Literal ==> vertices@[v1].literal
                        != vertices@[v2].literal,
            decreases vertices@.len() - a,
        {
            if matches!(vertices[a].kind, VertexKind::Literal) {
                let mut b: usize = a + 1;
                while b < vertices.len()
                    invariant
                        a < b,
                        b <= vertices@.len(),
                        vertices@[a as int].kind == VertexKind::Literal,
                        forall|v2: int|
                            a < v2 < b && (#[trigger] vertices@[v2]).kind == VertexKind::Literal
                                ==> vertices@[a as int].literal != vertices@[v2].literal,
                    decreases vertices@.len() - b,
                {
                    if matches!(vertices[b].kind, VertexKind::Literal) {
                        if vertices[b].literal == vertices[a].literal {
                            proof {
                                assert(!literals_unique(vertices@));
                            }
                            return Err(GraphError::DuplicateLiteral);
                        }
                    }
                    b = b + 1;
                }
            }
            a = a + 1;
        }
        // ranks: the index order itself witnesses acyclicity
        let mut ranks: Vec<u64> = Vec::new();
        let mut i: usize = 0;
        while i < vertices.len()
            invariant
                i <= vertices@.len(),
                ranks@.len() == i,
                forall|u: int| 0 <= u < i ==> ranks@[u] == u as u64,
            decreases vertices@.len() - i,
        {
            ranks.push(i as u64);
            i = i + 1;
        }
        proof {
            assert(fresh_ordered(vertices@));
        }
        let mut g = IntermediateGraph { vertices, root, ranks, supports: Vec::new() };
        proof {
            assert forall|v2: int, k: int|
                0 <= v2 < g.vertices@.len() && 0 <= k < g.vertices@[v2].children@.len() implies g.ranks@[(
                #[trigger] g.vertices@[v2].children@[k]) as int] < g.ranks@[v2] by {
                assert(g.vertices@[v2].children@[k] < v2);
            }
        }
        g.recompute_supports();
        Ok(g)
    }

    /// Recomputes every support cache from the graph topology, walking the
    /// vertices in rank order so that children are done before parents.
    fn recompute_supports(&mut self)
        requires
            graph_ok(old(self).spec_vertices(), old(self).spec_ranks(), old(self).spec_root()),
        ensures
            final(self).spec_vertices() == old(self).spec_vertices(),
            final(self).spec_ranks() == old(self).spec_ranks(),
            final(self).spec_root() == old(self).spec_root(),
            final(self).wf(),
    {
        let ghost vs = self.vertices@;
        let ghost rks = self.ranks@;
        let n = self.vertices.len();
        let mut supports: Vec<Vec<i32>> = Vec::new();
        let mut i: usize = 0;
        while i < n
            invariant
                i <= n,
                n == vs.len(),
                supports@.len() == i,
                forall|u: int| 0 <= u < i ==> (#[trigger] supports@[u])@.len() == 0,
            decreases n - i,
        {
            supports.push(Vec::new());
            i = i + 1;
        }
        // the highest rank bounds the number of passes
        let mut max_rank: u64 = 0;
        let mut j: usize = 0;
        while j < n
            invariant
                j <= n,
                n == vs.len(),
                graph_ok(vs, rks, old(self).spec_root()),
                self.vertices@ == vs,
                self.ranks@ == rks,
                max_rank < u64::MAX,
                forall|u: int| 0 <= u < j ==> rks[u] <= max_rank,
            decreases n - j,
        {
            if self.ranks[j] > max_rank {
                max_rank = self.ranks[j];
            }
            j = j + 1;
        }
        let mut done: u64 = 0;
        while done <= max_rank
            invariant
                max_rank < u64::MAX,
                graph_ok(vs, rks, old(self).spec_root()),
                self.vertices@ == vs,
                self.ranks@ == rks,
                self.root == old(self).root,
                n == vs.len(),
                supports@.len() == n,
                forall|u: int|
                    0 <= u < n && rks[u] < done ==> (#[trigger] supports@[u])@.to_set()
                        == spec_support(vs, rks, u) && supports@[u]@.no_duplicates(),
            decreases max_rank + 1 - done,
        {
            let mut v: usize = 0;
            while v < n
                invariant
                    graph_ok(vs, rks, old(self).spec_root()),
                    self.vertices@ == vs,
                    self.ranks@ == rks,
                    n == vs.len(),
                    v <= n,
                    supports@.len() == n,
                    forall|u: int|
                        0 <= u < n && (rks[u] < done || (rks[u] == done && u < v)) ==> (
                        #[trigger] supports@[u])@.to_set() == spec_support(vs, rks, u)
                            && supports@[u]@.no_duplicates(),
                decreases n - v,
            {
                if self.ranks[v] == done {
                    let sup = self.collect_support(v, &supports, Ghost(done));
                    supports.set(v, sup);
                }
                v = v + 1;
            }
            done = done + 1;
        }
        proof {
            assert forall|u: int| 0 <= u < n implies (#[trigger] supports@[u])@.to_set()
                == spec_support(vs, rks, u) && supports@[u]@.no_duplicates() by {
                assert(rks[u] <= max_rank);
            }
        }
        self.supports = supports;
        proof {
            assert forall|u: int| 0 <= u < n implies #[trigger] self.spec_support_nodup(u) by {
                assert(self.supports@[u]@.no_duplicates());
            }
        }
    }

    /// Builds the support of vertex `v` from its children's already computed
    /// supports, free of duplicates.
    fn collect_support(&self, v: usize, supports: &Vec<Vec<i32>>, done: Ghost<u64>) -> (r: Vec<
        i32,
    >)
        requires
            graph_ok(self.spec_vertices(), self.spec_ranks(), self.spec_root()),
            v < self.spec_vertices().len(),
            supports@.len() == self.spec_vertices().len(),
            self.spec_ranks()[v as int] == done@,
            forall|u: int|
                0 <= u < self.spec_vertices().len() && self.spec_ranks()[u] < done@ ==> (
                #[trigger] supports@[u])@.to_set() == spec_support(
                    self.spec_vertices(),
                    self.spec_ranks(),
                    u,
                ) && supports@[u]@.no_duplicates(),
        ensures
            r@.to_set() == spec_support(self.spec_vertices(), self.spec_ranks(), v as int),
            r@.no_duplicates(),
    {
        let ghost vs = self.spec_vertices();
        let ghost rks = self.spec_ranks();
        let mut acc: Vec<i32> = Vec::new();
        let vx = &self.vertices[v];
        proof {
            assert(vertex_ok(vs, v as int));
        }
        if matches!(vx.kind, VertexKind::Literal) {
            acc.push(vx.literal);
            proof {
                assert(acc@ =~= Seq::<i32>::empty().push(vx.literal));
                crate::data_structure::lemma_to_set_push(Seq::<i32>::empty(), vx.literal);
                assert(Seq::<i32>::empty().to_set() =~= Set::<i32>::empty());
                assert(acc@.to_set() =~= own_literal(vs[v as int]));
            }
        } else {
            proof {
                assert(acc@ =~= Seq::<i32>::empty());
                assert(acc@.to_set() =~= Set::<i32>::empty());
                assert(acc@.to_set() =~= own_literal(vs[v as int]));
            }
        }
        proof {
            assert(acc@.no_duplicates());
            assert(spec_support(vs, rks, v as int) == own_literal(vs[v as int])
                + children_support(vs, rks, v as int, 0));
            assert(acc@.to_set().subset_of(spec_support(vs, rks, v as int)));
        }
        let mut k: usize = 0;
        while k < vx.children.len()
            invariant
                graph_ok(vs, rks, self.spec_root()),
                vs == self.spec_vertices(),
                rks == self.spec_ranks(),
                v < vs.len(),
                vx == &vs[v as int],
                k <= vx.children@.len(),
                supports@.len() == vs.len(),
                rks[v as int] == done@,
                forall|u: int|
                    0 <= u < vs.len() && rks[u] < done@ ==> (#[trigger] supports@[u])@.to_set()
                        == spec_support(vs, rks, u) && supports@[u]@.no_duplicates(),
                acc@.no_duplicates(),
                acc@.to_set() + children_support(vs, rks, v as int, k as int) == spec_support(
                    vs,
                    rks,
                    v as int,
                ),
                acc@.to_set().subset_of(spec_support(vs, rks, v as int)),
            decreases vx.children@.len() - k,
        {
            let c = vx.children[k];
            proof {
                assert(vertex_ok(vs, v as int));
                assert(vs[v as int].children@[k as int] < vs.len());
                assert(rks[c as int] < rks[v as int]);
                assert(supports@[c as int]@.to_set() == spec_support(vs, rks, c as int));
            }
            let child_sup = &supports[c];
            let ghost before = acc@.to_set();
            let mut j: usize = 0;
            proof {
                assert(child_sup@.take(0) =~= Seq::<i32>::empty());
                assert(before + Seq::<i32>::empty().to_set() =~= before);
            }
            while j < child_sup.len()
                invariant
                    j <= child_sup@.len(),
                    child_sup@.to_set() == spec_support(
                        vs,
                        rks,
                        vs[v as int].children@[k as int] as int,
                    ),
                    acc@.no_duplicates(),
                    acc@.to_set() == before + child_sup@.take(j as int).to_set(),
                decreases child_sup@.len() - j,
            {
                let x = child_sup[j];
                let ghost pre = acc@;
                if !vec_contains_i32(&acc, x) {
                    acc.push(x);
                    proof {
                        assert(acc@ =~= pre.push(x));
                        crate::data_structure::lemma_to_set_push(pre, x);
                        assert forall|p: int, q: int|
                            0 <= p < q < acc@.len() implies acc@[p] != acc@[q]
                            || !(p != q) by {
                            if q == acc@.len() - 1 {
                                assert(pre[p] == acc@[p]);
                                assert(!pre.contains(x));
                            }
                        }
                        assert(acc@.no_duplicates());
                    }
                } else {
                    proof {
                        assert(pre.contains(x));
                        assert(acc@.to_set().contains(x));
                    }
                }
                proof {
                    assert(child_sup@.take(j + 1) =~= child_sup@.take(j as int).push(
                        child_sup@[j as int],
                    ));
                    crate::data_structure::lemma_to_set_push(child_sup@.take(j as int),
                        child_sup@[j as int]);
                    assert(acc@.to_set() =~= before + child_sup@.take(j + 1).to_set());
                }
                j = j + 1;
            }
            proof {
                assert(child_sup@.take(child_sup@.len() as int) =~= child_sup@);
                let csup = spec_support(vs, rks, vs[v as int].children@[k as int] as int);
                assert(acc@.to_set() == before + csup);
                assert((before + csup) + children_support(vs, rks, v as int, k + 1) =~= before + (
                csup + children_support(vs, rks, v as int, k + 1)));
                assert(children_support(vs, rks, v as int, k as int) == csup + children_support(
                    vs,
                    rks,
                    v as int,
                    k + 1,
                ));
            }
            k = k + 1;
        }
        proof {
            assert(children_support(vs, rks, v as int, vx.children@.len() as int)
                =~= Set::<i32>::empty());
            assert(acc@.to_set() + Set::<i32>::empty() =~= acc@.to_set());
        }
        acc
    }
}

/// Whether the vector holds the value.
fn vec_contains_i32(v: &Vec<i32>, x: i32) -> (r: bool)
    ensures
        r == v@.contains(x),
{
    let mut i: usize = 0;
    while i < v.len()
        invariant
            i <= v@.len(),
            forall|k: int| 0 <= k < i ==> v@[k] != x,
        decreases v@.len() - i,
    {
        if v[i] == x {
            return true;
        }
        i = i + 1;
    }
    false
}

/// The emitted linearization entry for vertex `u` mirrors the vertex: same
/// kind, same literal value, and children mapped through the emission map.
pub open spec fn node_matches(
    vs: Seq<Vertex>,
    em: Seq<Option<usize>>,
    nodes: Seq<Node>,
    u: int,
) -> bool {
    &&& em[u] is Some
    &&& (em[u]->0 as int) < nodes.len()
    &&& {
        let i = em[u]->0 as int;
        match vs[u].kind {
            VertexKind::And => nodes[i].ntype matches NodeType::And { children }
                && children@.len() == vs[u].children@.len() && (forall|k: int|
                0 <= k < children@.len() ==> em[(#[trigger] vs[u].children@[k]) as int] == Some(
                    children@[k],
                )),
            VertexKind::Or => nodes[i].ntype matches NodeType::Or { children } && children@.len()
                == vs[u].children@.len() && (forall|k: int|
                0 <= k < children@.len() ==> em[(#[trigger] vs[u].children@[k]) as int] == Some(
                    children@[k],
                )),
            VertexKind::Literal => nodes[i].ntype == (NodeType::Literal {
                literal: vs[u].literal,
            }),
            VertexKind::True => nodes[i].ntype == NodeType::True,
            VertexKind::False => nodes[i].ntype == NodeType::False,
        }
    }
}

/// Every child index of a linearized node lies strictly below the node's own
/// index: the post-order guarantee.
pub open spec fn children_below(nodes: Seq<Node>, i: int) -> bool {
    forall|k: int|
        0 <= k < node_children(nodes[i].ntype).len() ==> (#[trigger] node_children(
            nodes[i].ntype,
        )[k] as int) < i
}

/// The parent back-edges of the linearization are a projection of the child
/// lists: every recorded parent really has the node as a child, and every
/// child edge is recorded with its parent.
pub open spec fn parents_consistent(nodes: Seq<Node>) -> bool {
    &&& forall|i: int, t: int|
        0 <= i < nodes.len() && 0 <= t < nodes[i].parents@.len() ==> i < ((
        #[trigger] nodes[i].parents@[t]) as int) < nodes.len() && node_children(
            nodes[nodes[i].parents@[t] as int].ntype,
        ).contains(i as usize)
    &&& forall|p: int, k: int|
        0 <= p < nodes.len() && 0 <= k < node_children(nodes[p].ntype).len()
            ==> nodes[(#[trigger] node_children(nodes[p].ntype)[k]) as int].parents@.contains(
            p as usize,
        )
}

/// Some vertex is emitted at index `i` and matches it.
pub open spec fn witnessed(
    vs: Seq<Vertex>,
    em: Seq<Option<usize>>,
    nodes: Seq<Node>,
    i: int,
) -> bool {
    exists|u: int|
        0 <= u < vs.len() && em[u] == Some(i as usize) && #[trigger] node_matches(vs, em, nodes, u)
}

/// The rolling state of the linearizer walk.
pub open spec fn lower_inv(
    vs: Seq<Vertex>,
    rks: Seq<u64>,
    start: int,
    em: Seq<Option<usize>>,
    nodes: Seq<Node>,
    lits: Map<i32, usize>,
    trues: Seq<usize>,
) -> bool {
    &&& em.len() == vs.len()
    &&& forall|u: int| 0 <= u < vs.len() && em[u] is Some ==> #[trigger] node_matches(vs, em, nodes, u)
    &&& forall|i: int| 0 <= i < nodes.len() ==> #[trigger] cardinality_ok(nodes, i)
    &&& forall|i: int| 0 <= i < nodes.len() ==> #[trigger] children_below(nodes, i)
    &&& forall|i: int| 0 <= i < nodes.len() ==> #[trigger] witnessed(vs, em, nodes, i)
    &&& parents_consistent(nodes)
    &&& forall|l: i32, i: usize|
        #[trigger] lits.contains_pair(l, i) ==> (i as int) < nodes.len() && nodes[i as int].ntype
            == (NodeType::Literal { literal: l })
    &&& forall|i: int|
        0 <= i < nodes.len() ==> ((#[trigger] nodes[i].ntype) matches NodeType::Literal { literal }
            ==> lits.contains_pair(literal, i as usize))
    &&& forall|t: int|
        0 <= t < trues.len() ==> ((#[trigger] trues[t]) as int) < nodes.len()
            && nodes[trues[t] as int].ntype == NodeType::True
    &&& forall|i: int|
        0 <= i < nodes.len() && nodes[i].ntype == NodeType::True ==> trues.contains(i as usize)
    &&& forall|u: int|
        0 <= u < vs.len() && em[u] is Some && vs[u].kind == VertexKind::Literal
            ==> #[trigger] spec_support(vs, rks, start).contains(vs[u].literal)
}

/// A child's support is contained in its parent's support.
pub proof fn lemma_child_support_subset(vs: Seq<Vertex>, rks: Seq<u64>, root: int, v: int, k: int)
    requires
        graph_ok(vs, rks, root),
        0 <= v < vs.len(),
        0 <= k < vs[v].children@.len(),
    ensures
        spec_support(vs, rks, vs[v].children@[k] as int).subset_of(spec_support(vs, rks, v)),
{
    lemma_children_support_from(vs, rks, root, v, 0, k);
    assert(spec_support(vs, rks, v) == own_literal(vs[v]) + children_support(vs, rks, v, 0));
}

/// The tail union of children supports contains each member's support.
pub proof fn lemma_children_support_from(
    vs: Seq<Vertex>,
    rks: Seq<u64>,
    root: int,
    v: int,
    j: int,
    k: int,
)
    requires
        graph_ok(vs, rks, root),
        0 <= v < vs.len(),
        0 <= j <= k < vs[v].children@.len(),
    ensures
        spec_support(vs, rks, vs[v].children@[k] as int).subset_of(
            children_support(vs, rks, v, j),
        ),
    decreases k - j,
{
    assert(ranks_ok(vs, rks));
    assert(forall|u: int| 0 <= u < vs.len() ==> vertex_ok(vs, u));
    assert(0 <= j < vs[v].children@.len());
    if j == k {
        assert(children_support(vs, rks, v, j) == spec_support(vs, rks, vs[v].children@[j] as int)
            + children_support(vs, rks, v, j + 1));
    } else {
        lemma_children_support_from(vs, rks, root, v, j + 1, k);
        assert(children_support(vs, rks, v, j) == spec_support(vs, rks, vs[v].children@[j] as int)
            + children_support(vs, rks, v, j + 1));
    }
}

/// A copy of a vector of indices.
fn clone_usizes(v: &Vec<usize>) -> (r: Vec<usize>)
    ensures
        r@ == v@,
{
    let mut out: Vec<usize> = Vec::new();
    let mut i: usize = 0;
    while i < v.len()
        invariant
            i <= v@.len(),
            out@ =~= v@.take(i as int),
        decreases v@.len() - i,
    {
        out.push(v[i]);
        i = i + 1;
    }
    proof {
        assert(out@ =~= v@);
    }
    out
}

/// Appends a parent back-edge to the node at `ci`, leaving all other fields
/// and nodes alone.
fn push_parent(nodes: &mut Vec<Node>, ci: usize, p: usize)
    requires
        ci < old(nodes)@.len(),
    ensures
        final(nodes)@.len() == old(nodes)@.len(),
        forall|j: int|
            0 <= j < old(nodes)@.len() && j != ci ==> final(nodes)@[j] == old(nodes)@[j],
        final(nodes)@[ci as int].ntype == old(nodes)@[ci as int].ntype,
        final(nodes)@[ci as int].count == old(nodes)@[ci as int].count,
        final(nodes)@[ci as int].temp == old(nodes)@[ci as int].temp,
        final(nodes)@[ci as int].partial_derivative == old(nodes)@[ci as int].partial_derivative,
        final(nodes)@[ci as int].marker == old(nodes)@[ci as int].marker,
        final(nodes)@[ci as int].parents@ == old(nodes)@[ci as int].parents@.push(p),
{
    let ghost before = nodes@;
    let mut nd = nodes.remove(ci);
    nd.parents.push(p);
    nodes.insert(ci, nd);
    proof {
        assert forall|j: int| 0 <= j < before.len() && j != ci implies nodes@[j] == before[j] by {
            if j < ci {
            } else {
                assert(nodes@[j] == before.remove(ci as int)[j - 1]);
            }
        }
        assert(nodes@.len() == before.len());
    }
}

/// Predicates over the linearization survive appending nodes and changing
/// parent lists, since they read only kinds, counts and children.
pub proof fn lemma_preds_stable(a: Seq<Node>, b: Seq<Node>)
    requires
        b.len() >= a.len(),
        forall|j: int|
            0 <= j < a.len() ==> (#[trigger] b[j]).ntype == a[j].ntype && b[j].count == a[j].count,
    ensures
        forall|i: int|
            0 <= i < a.len() && cardinality_ok(a, i) && children_below(a, i)
                ==> #[trigger] cardinality_ok(b, i),
        forall|i: int|
            0 <= i < a.len() && cardinality_ok(a, i) && children_below(a, i)
                ==> #[trigger] children_below(b, i),
{
    assert forall|i: int|
        0 <= i < a.len() && cardinality_ok(a, i) && children_below(a, i) implies #[trigger] cardinality_ok(
        b,
        i,
    ) by {
        assert(b[i].ntype == a[i].ntype);
        let ch = node_children(a[i].ntype);
        assert(node_children(b[i].ntype) == ch);
        assert(counts_of(b, ch) =~= counts_of(a, ch));
    }
    assert forall|i: int|
        0 <= i < a.len() && cardinality_ok(a, i) && children_below(a, i) implies #[trigger] children_below(
        b,
        i,
    ) by {
        assert(b[i].ntype == a[i].ntype);
    }
}

/// A matched vertex stays matched when the emission map gains entries and the
/// node array grows or changes only parent lists.
pub proof fn lemma_matches_stable(
    vs: Seq<Vertex>,
    em_a: Seq<Option<usize>>,
    em_b: Seq<Option<usize>>,
    a: Seq<Node>,
    b: Seq<Node>,
    u: int,
)
    requires
        0 <= u < vs.len(),
        em_a.len() == vs.len(),
        em_b.len() == vs.len(),
        node_matches(vs, em_a, a, u),
        b.len() >= a.len(),
        forall|j: int|
            0 <= j < a.len() ==> (#[trigger] b[j]).ntype == a[j].ntype && b[j].count == a[j].count,
        forall|x: int| 0 <= x < vs.len() && em_a[x] is Some ==> #[trigger] em_b[x] == em_a[x],
        forall|k: int| 0 <= k < vs[u].children@.len() ==> ((#[trigger] vs[u].children@[k]) as int)
            < vs.len(),
    ensures
        node_matches(vs, em_b, b, u),
{
    let i = em_a[u]->0 as int;
    assert(em_b[u] == em_a[u]);
    assert(b[i].ntype == a[i].ntype);
}

impl IntermediateGraph {
    /// The post-order walk of the linearizer: emits every not yet emitted
    /// vertex below `v`, children before `v` itself.
    #[verifier::spinoff_prover]
    #[verifier::rlimit(60)]
    fn lower_rec(
        &self,
        v: usize,
        start: Ghost<int>,
        nodes: &mut Vec<Node>,
        emitted: &mut Vec<Option<usize>>,
        literals: &mut HashMap<i32, usize>,
        trues: &mut Vec<usize>,
    )
        requires
            self.wf(),
            v < self.spec_vertices().len(),
            0 <= start@ < self.spec_vertices().len(),
            spec_support(self.spec_vertices(), self.spec_ranks(), v as int).subset_of(
                spec_support(self.spec_vertices(), self.spec_ranks(), start@),
            ),
            spec_descendants(self.spec_vertices(), self.spec_ranks(), v as int).subset_of(
                spec_descendants(self.spec_vertices(), self.spec_ranks(), start@),
            ),
            lower_inv(
                self.spec_vertices(),
                self.spec_ranks(),
                start@,
                old(emitted)@,
                old(nodes)@,
                old(literals)@,
                old(trues)@,
            ),
        ensures
            lower_inv(
                self.spec_vertices(),
                self.spec_ranks(),
                start@,
                final(emitted)@,
                final(nodes)@,
                final(literals)@,
                final(trues)@,
            ),
            final(emitted)@.len() == old(emitted)@.len(),
            final(nodes)@.len() >= old(nodes)@.len(),
            forall|u: int|
                0 <= u < old(emitted)@.len() && old(emitted)@[u] is Some
                    ==> #[trigger] final(emitted)@[u] == old(emitted)@[u],
            forall|j: int|
                0 <= j < old(nodes)@.len() ==> (#[trigger] final(nodes)@[j]).ntype
                    == old(nodes)@[j].ntype && final(nodes)@[j].count == old(nodes)@[j].count,
            final(emitted)@[v as int] is Some,
            old(emitted)@[v as int] is None ==> final(emitted)@[v as int] == Some(
                (final(nodes)@.len() - 1) as usize,
            ) && final(nodes)@.len() > old(nodes)@.len(),
            forall|u: int|
                0 <= u < old(emitted)@.len() && old(emitted)@[u] is None
                    && #[trigger] final(emitted)@[u] is Some ==> spec_descendants(
                    self.spec_vertices(),
                    self.spec_ranks(),
                    start@,
                ).contains(u),
            forall|u: int|
                0 <= u < old(emitted)@.len() && old(emitted)@[u] is None
                    && #[trigger] final(emitted)@[u] is Some ==> self.spec_ranks()[u]
                    <= self.spec_ranks()[v as int],
        decreases self.spec_ranks()[v as int],
    {
        let ghost vs = self.spec_vertices();
        let ghost rks = self.spec_ranks();
        if emitted[v].is_some() {
            return ;
        }
        let vx = &self.vertices[v];
        proof {
            assert(vertex_ok(vs, v as int));
        }
        let mut k: usize = 0;
        while k < vx.children.len()
            invariant
                self.wf(),
                vs == self.spec_vertices(),
                rks == self.spec_ranks(),
                v < vs.len(),
                vx == &vs[v as int],
                0 <= start@ < vs.len(),
                k <= vx.children@.len(),
                spec_support(vs, rks, v as int).subset_of(spec_support(vs, rks, start@)),
                spec_descendants(vs, rks, v as int).subset_of(
                    spec_descendants(vs, rks, start@),
                ),
                forall|u: int|
                    0 <= u < old(emitted)@.len() && old(emitted)@[u] is None
                        && #[trigger] emitted@[u] is Some ==> spec_descendants(
                        vs,
                        rks,
                        start@,
                    ).contains(u),
                emitted@.len() == old(emitted)@.len(),
                nodes@.len() >= old(nodes)@.len(),
                lower_inv(vs, rks, start@, emitted@, nodes@, literals@, trues@),
                forall|u: int|
                    0 <= u < old(emitted)@.len() && old(emitted)@[u] is Some ==> #[trigger] emitted@[u]
                        == old(emitted)@[u],
                forall|j: int|
                    0 <= j < old(nodes)@.len() ==> (#[trigger] nodes@[j]).ntype == old(
                        nodes,
                    )@[j].ntype && nodes@[j].count == old(nodes)@[j].count,
                forall|kk: int|
                    0 <= kk < k ==> #[trigger] emitted@[vx.children@[kk] as int] is Some,
                emitted@[v as int] is None,
                forall|u: int|
                    0 <= u < old(emitted)@.len() && old(emitted)@[u] is None
                        && #[trigger] emitted@[u] is Some ==> rks[u] < rks[v as int],
            decreases vx.children@.len() - k,
        {
            let c = vx.children[k];
            proof {
                assert(vertex_ok(vs, v as int));
                assert(vs[v as int].children@[k as int] < vs.len());
                lemma_child_support_subset(vs, rks, self.spec_root(), v as int, k as int);
                assert(rks[c as int] < rks[v as int]);
                assert forall|x: i32| spec_support(vs, rks, c as int).contains(x)
                    implies spec_support(vs, rks, start@).contains(x) by {
                    assert(spec_support(vs, rks, v as int).contains(x));
                }
                assert(spec_support(vs, rks, c as int).subset_of(spec_support(vs, rks, start@)));
                lemma_children_descendants_from(vs, rks, self.spec_root(), v as int, 0, k as int);
                assert(spec_descendants(vs, rks, v as int) == Set::empty().insert(v as int)
                    + children_descendants(vs, rks, v as int, 0));
                assert forall|x: int| spec_descendants(vs, rks, c as int).contains(x)
                    implies spec_descendants(vs, rks, start@).contains(x) by {
                    assert(children_descendants(vs, rks, v as int, 0).contains(x));
                    assert(spec_descendants(vs, rks, v as int).contains(x));
                }
                assert(spec_descendants(vs, rks, c as int).subset_of(
                    spec_descendants(vs, rks, start@),
                ));
            }
            self.lower_rec(c, start, nodes, emitted, literals, trues);
            k = k + 1;
        }
        // every child is emitted now; collect their node indices
        let mut cvec: Vec<usize> = Vec::new();
        let mut k2: usize = 0;
        while k2 < vx.children.len()
            invariant
                v < vs.len(),
                vx == &vs[v as int],
                k2 <= vx.children@.len(),
                vertex_ok(vs, v as int),
                emitted@.len() == vs.len(),
                cvec@.len() == k2,
                lower_inv(vs, rks, start@, emitted@, nodes@, literals@, trues@),
                forall|kk: int|
                    0 <= kk < vx.children@.len() ==> #[trigger] emitted@[vx.children@[kk] as int] is Some,
                forall|kk: int|
                    0 <= kk < k2 ==> #[trigger] emitted@[vx.children@[kk] as int] == Some(
                        cvec@[kk],
                    ) && (cvec@[kk] as int) < nodes@.len(),
            decreases vx.children@.len() - k2,
        {
            let c = vx.children[k2];
            let ci = emitted[c].unwrap();
            proof {
                let cu = c as int;
                assert(node_matches(vs, emitted@, nodes@, cu));
            }
            cvec.push(ci);
            k2 = k2 + 1;
        }
        proof {
            assert(vertex_ok(vs, v as int));
        }
        let idx = nodes.len();
        let ghost cseq = cvec@;
        let ghost pre_nodes = nodes@;
        let ghost pre_em = emitted@;
        proof {
            assert forall|kk: int| 0 <= kk < cvec@.len() implies ((#[trigger] cvec@[kk]) as int)
                < nodes@.len() by {
                assert(emitted@[vx.children@[kk] as int] == Some(cvec@[kk]));
            }
            assert forall|kk: int|
                0 <= kk < vs[v as int].children@.len() implies ((
            #[trigger] vs[v as int].children@[kk]) as int) != v as int by {
                assert(rks[vs[v as int].children@[kk] as int] < rks[v as int]);
            }
        }
        let node = match vx.kind {
            VertexKind::Literal => Node::new_literal(vx.literal),
            VertexKind::And => {
                let count = calc_and_count(nodes, &cvec);
                Node::new_and(count, cvec)
            },
            VertexKind::Or => {
                let count = calc_or_count(nodes, &cvec);
                Node::new_or(0, count, cvec)
            },
            VertexKind::True => Node::new_bool(true),
            VertexKind::False => Node::new_bool(false),
        };
        nodes.push(node);
        emitted.set(v, Some(idx));
        proof {
            // the new entry matches and all prior facts carry over
            assert forall|u: int|
                0 <= u < vs.len() && pre_em[u] is Some implies #[trigger] emitted@[u] == pre_em[u] by {}
            assert forall|j: int|
                0 <= j < pre_nodes.len() implies (#[trigger] nodes@[j]).ntype == pre_nodes[j].ntype
                && nodes@[j].count == pre_nodes[j].count by {}
            assert forall|u: int|
                0 <= u < vs.len() && pre_em[u] is Some implies node_matches(
                vs,
                emitted@,
                nodes@,
                u,
            ) by {
                assert(node_matches(vs, pre_em, pre_nodes, u));
                assert(vertex_ok(vs, u));
                lemma_matches_stable(vs, pre_em, emitted@, pre_nodes, nodes@, u);
            }
            lemma_preds_stable(pre_nodes, nodes@);
            assert(node_matches(vs, emitted@, nodes@, v as int));
            assert(cardinality_ok(nodes@, idx as int)) by {
                if vs[v as int].kind == VertexKind::And || vs[v as int].kind == VertexKind::Or {
                    assert(counts_of(nodes@, cseq) =~= counts_of(pre_nodes, cseq));
                }
            }
            assert(children_below(nodes@, idx as int));
            assert forall|i: int| 0 <= i < nodes@.len() implies #[trigger] cardinality_ok(
                nodes@,
                i,
            ) by {
                if i < pre_nodes.len() {
                    assert(cardinality_ok(pre_nodes, i) && children_below(pre_nodes, i));
                }
            }
            assert forall|i: int| 0 <= i < nodes@.len() implies #[trigger] children_below(
                nodes@,
                i,
            ) by {
                if i < pre_nodes.len() {
                    assert(cardinality_ok(pre_nodes, i) && children_below(pre_nodes, i));
                }
            }
            // surjectivity: the new index is matched by v
            assert forall|i: int| 0 <= i < nodes@.len() implies #[trigger] witnessed(
                vs,
                emitted@,
                nodes@,
                i,
            ) by {
                if i < pre_nodes.len() {
                    assert(witnessed(vs, pre_em, pre_nodes, i));
                    let u = choose|u: int|
                        0 <= u < vs.len() && pre_em[u] == Some(i as usize)
                            && #[trigger] node_matches(vs, pre_em, pre_nodes, u);
                    assert(u != v as int);
                    assert(emitted@[u] == Some(i as usize));
                    assert(vertex_ok(vs, u));
                    lemma_matches_stable(vs, pre_em, emitted@, pre_nodes, nodes@, u);
                    assert(node_matches(vs, emitted@, nodes@, u));
                } else {
                    assert(emitted@[v as int] == Some(i as usize));
                    assert(node_matches(vs, emitted@, nodes@, v as int));
                }
            }
            assert(spec_descendants(vs, rks, start@).contains(v as int)) by {
                assert(spec_descendants(vs, rks, v as int) == Set::empty().insert(v as int)
                    + children_descendants(vs, rks, v as int, 0));
                assert(spec_descendants(vs, rks, v as int).contains(v as int));
            }
            // support membership of a fresh literal
            if vs[v as int].kind == VertexKind::Literal {
                assert(spec_support(vs, rks, v as int).contains(vs[v as int].literal)) by {
                    assert(own_literal(vs[v as int]).contains(vs[v as int].literal));
                }
                assert(spec_support(vs, rks, start@).contains(vs[v as int].literal));
            }
        }
        if matches!(vx.kind, VertexKind::Literal) {
            proof {
                // no earlier node carries this literal value: uniqueness
                assert forall|i: int|
                    0 <= i < nodes@.len() implies (match (#[trigger] nodes@[i].ntype) {
                    NodeType::Literal { literal } => literal != vs[v as int].literal || i
                        == idx as int,
                    _ => true,
                }) by {
                    if i < idx as int {
                        assert(witnessed(vs, emitted@, nodes@, i));
                        let u = choose|u: int|
                            0 <= u < vs.len() && emitted@[u] == Some(i as usize)
                                && #[trigger] node_matches(vs, emitted@, nodes@, u);
                        if nodes@[i].ntype is Literal {
                            assert(vs[u].kind != VertexKind::And) by {
                                if vs[u].kind == VertexKind::And {
                                    assert(nodes@[i].ntype is And);
                                }
                            }
                            assert(vs[u].kind != VertexKind::Or) by {
                                if vs[u].kind == VertexKind::Or {
                                    assert(nodes@[i].ntype is Or);
                                }
                            }
                            assert(vs[u].kind != VertexKind::True) by {
                                if vs[u].kind == VertexKind::True {
                                    assert(nodes@[i].ntype is True);
                                }
                            }
                            assert(vs[u].kind != VertexKind::False) by {
                                if vs[u].kind == VertexKind::False {
                                    assert(nodes@[i].ntype is False);
                                }
                            }
                            assert(vs[u].kind == VertexKind::Literal);
                            assert(u != v as int);
                            assert(vs[u].literal != vs[v as int].literal);
                        }
                    }
                }
            }
            let ghost pre_lits = literals@;
            literals.insert(vx.literal, idx);
            proof {
                assert forall|l: i32, i: usize|
                    #[trigger] literals@.contains_pair(l, i) implies (i as int) < nodes@.len()
                    && nodes@[i as int].ntype == (NodeType::Literal { literal: l }) by {
                    if l == vs[v as int].literal {
                        assert(i == idx);
                    } else {
                        assert(pre_lits.contains_pair(l, i));
                    }
                }
                assert forall|i: int|
                    0 <= i < nodes@.len() implies ((#[trigger] nodes@[i].ntype) matches NodeType::Literal {
                        literal,
                    } ==> literals@.contains_pair(literal, i as usize)) by {
                    if i < idx as int {
                        match nodes@[i].ntype {
                            NodeType::Literal { literal } => {
                                assert(pre_nodes[i].ntype == nodes@[i].ntype);
                                assert(pre_lits.contains_pair(literal, i as usize));
                                assert(literal != vs[v as int].literal);
                            },
                            _ => {},
                        }
                    }
                }
                lemma_trues_stable(pre_nodes, nodes@, trues@);
            }
        } else if matches!(vx.kind, VertexKind::True) {
            let ghost pre_trues = trues@;
            trues.push(idx);
            proof {
                assert forall|i: int|
                    0 <= i < nodes@.len() && nodes@[i].ntype == NodeType::True implies trues@.contains(
                    i as usize,
                ) by {
                    if i < idx as int {
                        assert(pre_nodes[i].ntype == NodeType::True);
                        assert(pre_trues.contains(i as usize));
                        let t = choose|t: int| 0 <= t < pre_trues.len() && pre_trues[t] == i as usize;
                        assert(trues@[t] == i as usize);
                    } else {
                        assert(trues@.last() == idx);
                    }
                }
                lemma_lits_stable(pre_nodes, nodes@, literals@);
            }
        } else {
            proof {
                lemma_lits_stable(pre_nodes, nodes@, literals@);
                lemma_trues_stable(pre_nodes, nodes@, trues@);
            }
        }
        proof {
            // parent projection: the fresh node has no back-edges yet
            assert forall|i: int, t: int|
                0 <= i < nodes@.len() && 0 <= t < nodes@[i].parents@.len() implies i < ((
            #[trigger] nodes@[i].parents@[t]) as int) < nodes@.len() && node_children(
                nodes@[nodes@[i].parents@[t] as int].ntype,
            ).contains(i as usize) by {
                assert(i < pre_nodes.len());
                assert(nodes@[i].parents@ == pre_nodes[i].parents@);
                let p = pre_nodes[i].parents@[t] as int;
                assert(node_children(pre_nodes[p].ntype).contains(i as usize));
                let w = choose|w: int|
                    0 <= w < node_children(pre_nodes[p].ntype).len() && node_children(
                        pre_nodes[p].ntype,
                    )[w] == i as usize;
                assert(nodes@[p].ntype == pre_nodes[p].ntype);
                assert(node_children(nodes@[p].ntype)[w] == i as usize);
            }
            assert forall|p: int, kk: int|
                0 <= p < nodes@.len() && p != idx as int && 0 <= kk < node_children(
                    nodes@[p].ntype,
                ).len() implies nodes@[(#[trigger] node_children(nodes@[p].ntype)[kk]) as int].parents@.contains(
                p as usize,
            ) by {
                assert(p < pre_nodes.len());
                assert(nodes@[p].ntype == pre_nodes[p].ntype);
                assert(cardinality_ok(pre_nodes, p) && children_below(pre_nodes, p));
                let c2 = node_children(pre_nodes[p].ntype)[kk] as int;
                assert(c2 < p);
                assert(pre_nodes[c2].parents@.contains(p as usize));
                let w = choose|w: int|
                    0 <= w < pre_nodes[c2].parents@.len() && pre_nodes[c2].parents@[w]
                        == p as usize;
                assert(nodes@[c2].parents@ == pre_nodes[c2].parents@);
                assert(nodes@[c2].parents@[w] == p as usize);
            }
        }
        proof {
            assert(emitted@.len() == vs.len());
            assert(forall|u: int| 0 <= u < vs.len() && emitted@[u] is Some ==> #[trigger] node_matches(vs, emitted@, nodes@, u));
            assert(forall|i: int| 0 <= i < nodes@.len() ==> #[trigger] cardinality_ok(nodes@, i));
            assert(forall|i: int| 0 <= i < nodes@.len() ==> #[trigger] children_below(nodes@, i));
            assert(forall|i: int| 0 <= i < nodes@.len() ==> #[trigger] witnessed(vs, emitted@, nodes@, i));
            assert(forall|l: i32, i: usize| #[trigger] literals@.contains_pair(l, i) ==> (i as int) < nodes@.len() && nodes@[i as int].ntype == (NodeType::Literal { literal: l }));
            assert(forall|i: int| 0 <= i < nodes@.len() ==> ((#[trigger] nodes@[i].ntype) matches NodeType::Literal { literal } ==> literals@.contains_pair(literal, i as usize)));
            assert(forall|t: int| 0 <= t < trues@.len() ==> ((#[trigger] trues@[t]) as int) < nodes@.len() && nodes@[trues@[t] as int].ntype == NodeType::True);
            assert(forall|i: int| 0 <= i < nodes@.len() && nodes@[i].ntype == NodeType::True ==> trues@.contains(i as usize));
            assert(forall|u: int| 0 <= u < vs.len() && emitted@[u] is Some && vs[u].kind == VertexKind::Literal ==> #[trigger] spec_support(vs, rks, start@).contains(vs[u].literal));
        }
        // parent back-edges from each child to the fresh node
        let mut k3: usize = 0;
        while k3 < vx.children.len()
            invariant
                self.wf(),
                vs == self.spec_vertices(),
                rks == self.spec_ranks(),
                v < vs.len(),
                vx == &vs[v as int],
                0 <= start@ < vs.len(),
                k3 <= vx.children@.len(),
                emitted@.len() == vs.len(),
                nodes@.len() == idx + 1,
                emitted@[v as int] == Some(idx),
                node_children(nodes@[idx as int].ntype) == cseq,
                cseq.len() == vx.children@.len(),
                forall|kk: int|
                    0 <= kk < vx.children@.len() ==> #[trigger] emitted@[vx.children@[kk] as int]
                        == Some(cseq[kk]) && (cseq[kk] as int) < idx as int,
                lower_inv_except_parents(vs, rks, start@, emitted@, nodes@, literals@, trues@),
                forall|i: int, t: int|
                    0 <= i < nodes@.len() && 0 <= t < nodes@[i].parents@.len() ==> i < ((
                    #[trigger] nodes@[i].parents@[t]) as int) < nodes@.len() && node_children(
                        nodes@[nodes@[i].parents@[t] as int].ntype,
                    ).contains(i as usize),
                forall|p: int, kk: int|
                    0 <= p < nodes@.len() && p != idx as int && 0 <= kk < node_children(
                        nodes@[p].ntype,
                    ).len() ==> nodes@[(#[trigger] node_children(nodes@[p].ntype)[kk]) as int].parents@.contains(
                        p as usize,
                    ),
                forall|kk: int|
                    0 <= kk < k3 ==> nodes@[(#[trigger] cseq[kk]) as int].parents@.contains(idx),
                emitted@.len() == old(emitted)@.len(),
                nodes@.len() >= old(nodes)@.len(),
                forall|u: int|
                    0 <= u < old(emitted)@.len() && old(emitted)@[u] is Some ==> #[trigger] emitted@[u]
                        == old(emitted)@[u],
                forall|j: int|
                    0 <= j < old(nodes)@.len() ==> (#[trigger] nodes@[j]).ntype == old(
                        nodes,
                    )@[j].ntype && nodes@[j].count == old(nodes)@[j].count,
            decreases vx.children@.len() - k3,
        {
            let c = vx.children[k3];
            proof {
                assert(vertex_ok(vs, v as int));
                assert(vs[v as int].children@[k3 as int] < vs.len());
                assert(emitted@[c as int] == Some(cseq[k3 as int]));
            }
            let ci = emitted[c].unwrap();
            let ghost before = nodes@;
            push_parent(nodes, ci, idx);
            proof {
                assert forall|j: int|
                    0 <= j < before.len() implies (#[trigger] nodes@[j]).ntype == before[j].ntype
                    && nodes@[j].count == before[j].count by {}
                lemma_preds_stable(before, nodes@);
                lemma_maps_stable(before, nodes@, literals@, trues@);
                assert forall|u: int|
                    0 <= u < vs.len() && emitted@[u] is Some implies node_matches(
                    vs,
                    emitted@,
                    nodes@,
                    u,
                ) by {
                    assert(node_matches(vs, emitted@, before, u));
                    assert(vertex_ok(vs, u));
                    lemma_matches_stable(vs, emitted@, emitted@, before, nodes@, u);
                }
                assert forall|i: int| 0 <= i < nodes@.len() implies #[trigger] witnessed(
                    vs,
                    emitted@,
                    nodes@,
                    i,
                ) by {
                    assert(witnessed(vs, emitted@, before, i));
                    let u = choose|u: int|
                        0 <= u < vs.len() && emitted@[u] == Some(i as usize)
                            && #[trigger] node_matches(vs, emitted@, before, u);
                    assert(vertex_ok(vs, u));
                    lemma_matches_stable(vs, emitted@, emitted@, before, nodes@, u);
                    assert(node_matches(vs, emitted@, nodes@, u));
                }
                assert forall|i: int, t: int|
                    0 <= i < nodes@.len() && 0 <= t < nodes@[i].parents@.len() implies i < ((
                    #[trigger] nodes@[i].parents@[t]) as int) < nodes@.len() && node_children(
                        nodes@[nodes@[i].parents@[t] as int].ntype,
                    ).contains(i as usize) by {
                    if i == ci as int && t == nodes@[i].parents@.len() - 1 {
                        assert(node_children(nodes@[idx as int].ntype) == cseq);
                        assert(cseq[k3 as int] == ci);
                        assert(cseq.contains(ci));
                    } else {
                        assert(before[i].parents@[t] == nodes@[i].parents@[t]);
                    }
                }
                assert forall|p: int, kk: int|
                    0 <= p < nodes@.len() && p != idx as int && 0 <= kk < node_children(
                        nodes@[p].ntype,
                    ).len() implies nodes@[(#[trigger] node_children(nodes@[p].ntype)[kk]) as int].parents@.contains(
                    p as usize,
                ) by {
                    assert(nodes@[p].ntype == before[p].ntype);
                    assert(children_below(before, p));
                    let c2 = node_children(before[p].ntype)[kk] as int;
                    assert(c2 < p);
                    assert(before[c2].parents@.contains(p as usize));
                    let w = choose|w: int|
                        0 <= w < before[c2].parents@.len() && before[c2].parents@[w] == p as usize;
                    if c2 == ci as int {
                        assert(nodes@[c2].parents@ == before[c2].parents@.push(idx));
                        assert(nodes@[c2].parents@[w] == p as usize);
                    } else {
                        assert(nodes@[c2] == before[c2]);
                        assert(nodes@[c2].parents@[w] == p as usize);
                    }
                }
                assert forall|kk: int|
                    0 <= kk < k3 + 1 implies nodes@[(#[trigger] cseq[kk]) as int].parents@.contains(
                    idx,
                ) by {
                    if kk < k3 {
                        assert(emitted@[vx.children@[kk] as int] == Some(cseq[kk]));
                        assert((cseq[kk] as int) < idx as int);
                        assert(before[cseq[kk] as int].parents@.contains(idx));
                        let w = choose|w: int|
                            0 <= w < before[cseq[kk] as int].parents@.len()
                                && before[cseq[kk] as int].parents@[w] == idx;
                        if cseq[kk] == ci {
                            assert(nodes@[ci as int].parents@ == before[ci as int].parents@.push(
                                idx,
                            ));
                            assert(nodes@[ci as int].parents@[w] == idx);
                        } else {
                            assert((cseq[kk] as int) < before.len());
                            assert(nodes@[cseq[kk] as int] == before[cseq[kk] as int]);
                            assert(nodes@[cseq[kk] as int].parents@[w] == idx);
                        }
                    } else {
                        assert(nodes@[ci as int].parents@.last() == idx);
                    }
                }
            }
            k3 = k3 + 1;
        }
        proof {
            assert forall|p: int, kk: int|
                0 <= p < nodes@.len() && 0 <= kk < node_children(nodes@[p].ntype).len() implies nodes@[(
            #[trigger] node_children(nodes@[p].ntype)[kk]) as int].parents@.contains(p as usize) by {
                if p == idx as int {
                    assert(nodes@[cseq[kk] as int].parents@.contains(idx));
                }
            }
            assert(emitted@[v as int] == Some(idx));
            assert(nodes@.len() == idx + 1);
        }
    }
}

/// The linearizer state invariant with the parent projection left out, used
/// while the back-edges of a fresh node are still being appended.
pub open spec fn lower_inv_except_parents(
    vs: Seq<Vertex>,
    rks: Seq<u64>,
    start: int,
    em: Seq<Option<usize>>,
    nodes: Seq<Node>,
    lits: Map<i32, usize>,
    trues: Seq<usize>,
) -> bool {
    &&& em.len() == vs.len()
    &&& forall|u: int| 0 <= u < vs.len() && em[u] is Some ==> #[trigger] node_matches(vs, em, nodes, u)
    &&& forall|i: int| 0 <= i < nodes.len() ==> #[trigger] cardinality_ok(nodes, i)
    &&& forall|i: int| 0 <= i < nodes.len() ==> #[trigger] children_below(nodes, i)
    &&& forall|i: int| 0 <= i < nodes.len() ==> #[trigger] witnessed(vs, em, nodes, i)
    &&& forall|l: i32, i: usize|
        #[trigger] lits.contains_pair(l, i) ==> (i as int) < nodes.len() && nodes[i as int].ntype
            == (NodeType::Literal { literal: l })
    &&& forall|i: int|
        0 <= i < nodes.len() ==> ((#[trigger] nodes[i].ntype) matches NodeType::Literal { literal }
            ==> lits.contains_pair(literal, i as usize))
    &&& forall|t: int|
        0 <= t < trues.len() ==> ((#[trigger] trues[t]) as int) < nodes.len()
            && nodes[trues[t] as int].ntype == NodeType::True
    &&& forall|i: int|
        0 <= i < nodes.len() && nodes[i].ntype == NodeType::True ==> trues.contains(i as usize)
    &&& forall|u: int|
        0 <= u < vs.len() && em[u] is Some && vs[u].kind == VertexKind::Literal
            ==> #[trigger] spec_support(vs, rks, start).contains(vs[u].literal)
}

/// The literal index map stays sound when a non-literal node is appended.
pub proof fn lemma_lits_stable(pre_nodes: Seq<Node>, nodes: Seq<Node>, lits: Map<i32, usize>)
    requires
        nodes.len() == pre_nodes.len() + 1,
        forall|j: int|
            0 <= j < pre_nodes.len() ==> (#[trigger] nodes[j]).ntype == pre_nodes[j].ntype,
        !(nodes[nodes.len() - 1].ntype is Literal),
        forall|l: i32, i: usize|
            #[trigger] lits.contains_pair(l, i) ==> (i as int) < pre_nodes.len()
                && pre_nodes[i as int].ntype == (NodeType::Literal { literal: l }),
        forall|i: int|
            0 <= i < pre_nodes.len() ==> ((#[trigger] pre_nodes[i].ntype) matches NodeType::Literal {
                literal,
            } ==> lits.contains_pair(literal, i as usize)),
    ensures
        forall|l: i32, i: usize|
            #[trigger] lits.contains_pair(l, i) ==> (i as int) < nodes.len()
                && nodes[i as int].ntype == (NodeType::Literal { literal: l }),
        forall|i: int|
            0 <= i < nodes.len() ==> ((#[trigger] nodes[i].ntype) matches NodeType::Literal {
                literal,
            } ==> lits.contains_pair(literal, i as usize)),
{
    assert forall|i: int|
        0 <= i < nodes.len() implies ((#[trigger] nodes[i].ntype) matches NodeType::Literal {
        literal,
    } ==> lits.contains_pair(literal, i as usize)) by {
        if i < pre_nodes.len() {
            assert(pre_nodes[i].ntype == nodes[i].ntype);
        }
    }
}

/// The true-node index list stays sound when a non-True node is appended.
pub proof fn lemma_trues_stable(pre_nodes: Seq<Node>, nodes: Seq<Node>, trues: Seq<usize>)
    requires
        nodes.len() == pre_nodes.len() + 1,
        forall|j: int|
            0 <= j < pre_nodes.len() ==> (#[trigger] nodes[j]).ntype == pre_nodes[j].ntype,
        nodes[nodes.len() - 1].ntype != NodeType::True,
        forall|t: int|
            0 <= t < trues.len() ==> ((#[trigger] trues[t]) as int) < pre_nodes.len()
                && pre_nodes[trues[t] as int].ntype == NodeType::True,
        forall|i: int|
            0 <= i < pre_nodes.len() && pre_nodes[i].ntype == NodeType::True ==> trues.contains(
                i as usize,
            ),
    ensures
        forall|t: int|
            0 <= t < trues.len() ==> ((#[trigger] trues[t]) as int) < nodes.len()
                && nodes[trues[t] as int].ntype == NodeType::True,
        forall|i: int|
            0 <= i < nodes.len() && nodes[i].ntype == NodeType::True ==> trues.contains(i as usize),
{
    assert forall|i: int|
        0 <= i < nodes.len() && nodes[i].ntype == NodeType::True implies trues.contains(
        i as usize,
    ) by {
        if i < pre_nodes.len() {
            assert(pre_nodes[i].ntype == nodes[i].ntype);
        }
    }
}

/// The literal map, true list and support facts survive parent-list surgery,
/// which changes no kind and no count.
pub proof fn lemma_maps_stable(
    pre: Seq<Node>,
    cur: Seq<Node>,
    lits: Map<i32, usize>,
    trues: Seq<usize>,
)
    requires
        cur.len() == pre.len(),
        forall|j: int| 0 <= j < pre.len() ==> (#[trigger] cur[j]).ntype == pre[j].ntype,
        forall|l: i32, i: usize|
            #[trigger] lits.contains_pair(l, i) ==> (i as int) < pre.len() && pre[i as int].ntype
                == (NodeType::Literal { literal: l }),
        forall|i: int|
            0 <= i < pre.len() ==> ((#[trigger] pre[i].ntype) matches NodeType::Literal { literal }
                ==> lits.contains_pair(literal, i as usize)),
        forall|t: int|
            0 <= t < trues.len() ==> ((#[trigger] trues[t]) as int) < pre.len()
                && pre[trues[t] as int].ntype == NodeType::True,
        forall|i: int|
            0 <= i < pre.len() && pre[i].ntype == NodeType::True ==> trues.contains(i as usize),
    ensures
        forall|l: i32, i: usize|
            #[trigger] lits.contains_pair(l, i) ==> (i as int) < cur.len() && cur[i as int].ntype
                == (NodeType::Literal { literal: l }),
        forall|i: int|
            0 <= i < cur.len() ==> ((#[trigger] cur[i].ntype) matches NodeType::Literal { literal }
                ==> lits.contains_pair(literal, i as usize)),
        forall|t: int|
            0 <= t < trues.len() ==> ((#[trigger] trues[t]) as int) < cur.len()
                && cur[trues[t] as int].ntype == NodeType::True,
        forall|i: int|
            0 <= i < cur.len() && cur[i].ntype == NodeType::True ==> trues.contains(i as usize),
{
    assert forall|i: int|
        0 <= i < cur.len() implies ((#[trigger] cur[i].ntype) matches NodeType::Literal { literal }
        ==> lits.contains_pair(literal, i as usize)) by {
        assert(pre[i].ntype == cur[i].ntype);
    }
    assert forall|i: int|
        0 <= i < cur.len() && cur[i].ntype == NodeType::True implies trues.contains(
        i as usize,
    ) by {
        assert(pre[i].ntype == cur[i].ntype);
    }
}

/// The node array is a lowering of the graph below `start`: an emission map
/// sends `start` to the last index, every emitted vertex matches its node
/// (same kind, literal and mapped children), and every node is the image of
/// an emitted vertex.
pub open spec fn lowering_of(
    vs: Seq<Vertex>,
    em: Seq<Option<usize>>,
    nodes: Seq<Node>,
    start: int,
) -> bool {
    &&& em.len() == vs.len()
    &&& nodes.len() >= 1
    &&& 0 <= start < vs.len()
    &&& em[start] == Some(((nodes.len() - 1) as usize))
    &&& forall|u: int| 0 <= u < vs.len() && em[u] is Some ==> #[trigger] node_matches(vs, em, nodes, u)
    &&& forall|i: int| 0 <= i < nodes.len() ==> #[trigger] witnessed(vs, em, nodes, i)
}

/// Some vertex at or below `start` carries the given kind.
pub open spec fn has_kind_below(vs: Seq<Vertex>, rks: Seq<u64>, start: int, kind: VertexKind) -> bool {
    exists|u: int|
        0 <= u < vs.len() && #[trigger] spec_descendants(vs, rks, start).contains(u) && vs[u].kind
            == kind
}

/// Some emission map exhibits the node array as a lowering below `start`.
pub open spec fn has_lowering(vs: Seq<Vertex>, nodes: Seq<Node>, start: int) -> bool {
    exists|em: Seq<Option<usize>>| #[trigger] lowering_of(vs, em, nodes, start)
}

/// A vertex of the linearization corresponds in kind to a vertex of the graph.
pub open spec fn kind_corresponds(vx: Vertex, nd: Node) -> bool {
    match vx.kind {
        VertexKind::And => nd.ntype is And,
        VertexKind::Or => nd.ntype is Or,
        VertexKind::Literal => nd.ntype == (NodeType::Literal { literal: vx.literal }),
        VertexKind::True => nd.ntype == NodeType::True,
        VertexKind::False => nd.ntype == NodeType::False,
    }
}

/// The set of vertices at or below `v`.
pub open spec fn spec_descendants(vs: Seq<Vertex>, ranks: Seq<u64>, v: int) -> Set<int>
    decreases ranks[v], 1int, 0int,
{
    if 0 <= v < vs.len() && ranks_ok(vs, ranks) {
        Set::empty().insert(v) + children_descendants(vs, ranks, v, 0)
    } else {
        Set::empty()
    }
}

/// The union of the descendants of the children of `v` from position `k` on.
pub open spec fn children_descendants(vs: Seq<Vertex>, ranks: Seq<u64>, v: int, k: int) -> Set<int>
    decreases ranks[v], 0int, vs[v].children@.len() - k,
{
    if 0 <= v < vs.len() && 0 <= k && ranks_ok(vs, ranks) {
        if k >= vs[v].children@.len() {
            Set::empty()
        } else {
            spec_descendants(vs, ranks, vs[v].children@[k] as int) + children_descendants(
                vs,
                ranks,
                v,
                k + 1,
            )
        }
    } else {
        Set::empty()
    }
}

/// The tail union of children descendants contains each member's descendants.
pub proof fn lemma_children_descendants_from(
    vs: Seq<Vertex>,
    rks: Seq<u64>,
    root: int,
    v: int,
    j: int,
    k: int,
)
    requires
        graph_ok(vs, rks, root),
        0 <= v < vs.len(),
        0 <= j <= k < vs[v].children@.len(),
    ensures
        spec_descendants(vs, rks, vs[v].children@[k] as int).subset_of(
            children_descendants(vs, rks, v, j),
        ),
    decreases k - j,
{
    if j == k {
    } else {
        lemma_children_descendants_from(vs, rks, root, v, j + 1, k);
    }
}

impl IntermediateGraph {
    /// Marks every vertex at or below `v`; a marked set closed under edges
    /// stays closed.
    fn mark_rec(&self, v: usize, visited: &mut Vec<bool>)
        requires
            self.wf(),
            v < self.spec_vertices().len(),
            old(visited)@.len() == self.spec_vertices().len(),
            forall|u: int|
                0 <= u < old(visited)@.len() && old(visited)@[u] ==> self.spec_ranks()[u]
                    > self.spec_ranks()[v as int] || spec_descendants(
                    self.spec_vertices(),
                    self.spec_ranks(),
                    u,
                ).subset_of(visited_set(old(visited)@)),
        ensures
            final(visited)@.len() == old(visited)@.len(),
            forall|u: int| 0 <= u < old(visited)@.len() && old(visited)@[u] ==> final(visited)@[u],
            visited_set(final(visited)@) == visited_set(old(visited)@) + spec_descendants(
                self.spec_vertices(),
                self.spec_ranks(),
                v as int,
            ),
            forall|u: int|
                0 <= u < final(visited)@.len() && !old(visited)@[u]
                    && #[trigger] final(visited)@[u] ==> self.spec_ranks()[u]
                    <= self.spec_ranks()[v as int],
            forall|u: int|
                0 <= u < final(visited)@.len() && final(visited)@[u] ==> self.spec_ranks()[u]
                    > self.spec_ranks()[v as int] || spec_descendants(
                    self.spec_vertices(),
                    self.spec_ranks(),
                    u,
                ).subset_of(visited_set(final(visited)@)),
        decreases self.spec_ranks()[v as int],
    {
        let ghost vs = self.spec_vertices();
        let ghost rks = self.spec_ranks();
        if visited[v] {
            proof {
                assert(spec_descendants(vs, rks, v as int).subset_of(visited_set(visited@)));
                assert(visited_set(visited@) + spec_descendants(vs, rks, v as int) =~= visited_set(
                    visited@,
                ));
            }
            return ;
        }
        let ghost pre = visited@;
        visited.set(v, true);
        proof {
            assert(vertex_ok(vs, v as int));
            assert(visited_set(visited@) =~= visited_set(pre).insert(v as int));
        }
        let vx = &self.vertices[v];
        let mut k: usize = 0;
        while k < vx.children.len()
            invariant
                self.wf(),
                vs == self.spec_vertices(),
                rks == self.spec_ranks(),
                v < vs.len(),
                vx == &vs[v as int],
                k <= vx.children@.len(),
                visited@.len() == vs.len(),
                visited@[v as int],
                forall|u: int| 0 <= u < pre.len() && pre[u] ==> visited@[u],
                forall|u: int|
                    0 <= u < visited@.len() && !pre[u] && #[trigger] visited@[u] ==> rks[u]
                        <= rks[v as int],
                visited_set(visited@) == visited_set(pre).insert(v as int)
                    + partial_children_descendants(vs, rks, v as int, k as int),
                forall|u: int|
                    0 <= u < visited@.len() && visited@[u] ==> rks[u] > rks[v as int]
                        || u == v as int || spec_descendants(vs, rks, u).subset_of(
                        visited_set(visited@),
                    ),
            decreases vx.children@.len() - k,
        {
            let c = vx.children[k];
            let ghost before = visited@;
            proof {
                assert(vertex_ok(vs, v as int));
                assert(vs[v as int].children@[k as int] < vs.len());
                assert(rks[c as int] < rks[v as int]);
                assert forall|u: int|
                    0 <= u < before.len() && before[u] implies rks[u] > rks[c as int]
                    || spec_descendants(vs, rks, u).subset_of(visited_set(before)) by {
                    if u == v as int {
                        assert(rks[v as int] > rks[c as int]);
                    } else if !(rks[u] > rks[v as int]) {
                        assert(spec_descendants(vs, rks, u).subset_of(visited_set(before)));
                    } else {
                        assert(rks[u] > rks[c as int]);
                    }
                }
            }
            self.mark_rec(c, visited);
            proof {
                assert forall|u: int| 0 <= u < pre.len() && pre[u] implies visited@[u] by {
                    assert(before[u]);
                    assert(visited_set(before).contains(u));
                    assert(visited_set(visited@).contains(u));
                }
                assert forall|u: int|
                    0 <= u < visited@.len() && !pre[u] && #[trigger] visited@[u] implies rks[u]
                    <= rks[v as int] by {
                    if before[u] {
                    } else {
                        assert(rks[u] <= rks[c as int]);
                    }
                }
                assert forall|x: int|
                    visited_set(before).contains(x) implies visited_set(visited@).contains(x) by {}
                assert forall|u: int|
                    0 <= u < visited@.len() && visited@[u] implies rks[u] > rks[v as int] || u
                    == v as int || spec_descendants(vs, rks, u).subset_of(
                    visited_set(visited@),
                ) by {
                    if !(rks[u] > rks[v as int]) && u != v as int {
                        if before[u] {
                            assert(spec_descendants(vs, rks, u).subset_of(visited_set(before)));
                            assert forall|x: int|
                                spec_descendants(vs, rks, u).contains(x) implies visited_set(
                                visited@,
                            ).contains(x) by {
                                assert(visited_set(before).contains(x));
                            }
                        } else {
                            assert(rks[u] <= rks[c as int]);
                            assert(!(rks[u] > rks[c as int]));
                            assert(spec_descendants(vs, rks, u).subset_of(visited_set(visited@)));
                        }
                    }
                }
            }
            proof {
                assert(0 <= (v as int) && (v as int) < vs.len() && ranks_ok(vs, rks));
                assert(0 < k + 1 <= vs[v as int].children@.len());
                assert(partial_children_descendants(vs, rks, v as int, k + 1)
                    =~= partial_children_descendants(vs, rks, v as int, k as int)
                    + spec_descendants(vs, rks, vs[v as int].children@[k as int] as int));
                assert(visited_set(visited@) =~= visited_set(pre).insert(v as int)
                    + partial_children_descendants(vs, rks, v as int, k + 1));
            }
            k = k + 1;
        }
        proof {
            lemma_partial_children_descendants(
                vs,
                rks,
                self.spec_root(),
                v as int,
                vx.children@.len() as int,
            );
            assert(children_descendants(vs, rks, v as int, vx.children@.len() as int)
                =~= Set::<int>::empty());
            assert(partial_children_descendants(vs, rks, v as int, vx.children@.len() as int)
                =~= children_descendants(vs, rks, v as int, 0));
            assert(spec_descendants(vs, rks, v as int) == Set::empty().insert(v as int)
                + children_descendants(vs, rks, v as int, 0));
            assert(visited_set(visited@) =~= visited_set(pre) + spec_descendants(
                vs,
                rks,
                v as int,
            ));
            assert forall|u: int|
                0 <= u < visited@.len() && visited@[u] implies rks[u] > rks[v as int]
                || spec_descendants(vs, rks, u).subset_of(visited_set(visited@)) by {
                if u == v as int {
                    assert(spec_descendants(vs, rks, v as int).subset_of(visited_set(visited@)));
                }
            }
        }
    }
}

/// The set of indices marked true.
pub open spec fn visited_set(b: Seq<bool>) -> Set<int> {
    Set::new(|u: int| 0 <= u < b.len() && b[u])
}

/// The front union of children descendants meets the tail union in the middle.
pub proof fn lemma_partial_children_descendants(
    vs: Seq<Vertex>,
    rks: Seq<u64>,
    root: int,
    v: int,
    k: int,
)
    requires
        graph_ok(vs, rks, root),
        0 <= v < vs.len(),
        0 <= k <= vs[v].children@.len(),
    ensures
        partial_children_descendants(vs, rks, v, k) + children_descendants(vs, rks, v, k)
            == children_descendants(vs, rks, v, 0),
    decreases k,
{
    if k == 0 {
        assert(partial_children_descendants(vs, rks, v, 0) + children_descendants(vs, rks, v, 0)
            =~= children_descendants(vs, rks, v, 0));
    } else {
        lemma_partial_children_descendants(vs, rks, root, v, k - 1);
        assert(partial_children_descendants(vs, rks, v, k) == partial_children_descendants(
            vs,
            rks,
            v,
            k - 1,
        ) + spec_descendants(vs, rks, vs[v].children@[k - 1] as int));
        assert(children_descendants(vs, rks, v, k - 1) == spec_descendants(
            vs,
            rks,
            vs[v].children@[k - 1] as int,
        ) + children_descendants(vs, rks, v, k));
        assert((partial_children_descendants(vs, rks, v, k - 1) + spec_descendants(
            vs,
            rks,
            vs[v].children@[k - 1] as int,
        )) + children_descendants(vs, rks, v, k) =~= partial_children_descendants(vs, rks, v, k - 1)
            + children_descendants(vs, rks, v, k - 1));
    }
}

/// The union of the descendants of the first `k` children of `v`.
pub open spec fn partial_children_descendants(
    vs: Seq<Vertex>,
    ranks: Seq<u64>,
    v: int,
    k: int,
) -> Set<int>
    decreases k,
{
    if 0 <= v < vs.len() && 0 < k <= vs[v].children@.len() && ranks_ok(vs, ranks) {
        partial_children_descendants(vs, ranks, v, k - 1) + spec_descendants(
            vs,
            ranks,
            vs[v].children@[k - 1] as int,
        )
    } else {
        Set::empty()
    }
}

/// Whether `a` is an And vertex whose support meets the clause: a candidate
/// of the locator.
pub open spec fn is_candidate(
    vs: Seq<Vertex>,
    rks: Seq<u64>,
    root: int,
    sups: Seq<Set<i32>>,
    a: int,
    clause: Seq<i32>,
) -> bool {
    &&& 0 <= a < vs.len()
    &&& vs[a].kind == VertexKind::And
    &&& spec_descendants(vs, rks, root).contains(a)
    &&& exists|k: int| 0 <= k < clause.len() && sups[a].contains(#[trigger] clause[k])
}

/// A candidate whose support includes the support of every candidate with a
/// support at most as large.
pub open spec fn dominating(
    vs: Seq<Vertex>,
    rks: Seq<u64>,
    root: int,
    sups: Seq<Set<i32>>,
    a: int,
    clause: Seq<i32>,
) -> bool {
    forall|c: int|
        #[trigger] is_candidate(vs, rks, root, sups, c, clause) && sups[c].len() <= sups[a].len()
            ==> sups[c].subset_of(sups[a])
}

impl IntermediateGraph {
    /// The support snapshot sequence, one set per vertex.
    pub closed spec fn spec_supports(self) -> Seq<Set<i32>> {
        Seq::new(self.supports@.len() as nat, |v: int| self.supports@[v]@.to_set())
    }

    /// Starting from the graph (or an alternative root), walks the circuit in
    /// post order and produces the dense node array used for counting, the
    /// map from literal value to node index, and the positions of True nodes.
    pub fn rebuild(&self, alt_root: Option<usize>) -> (r: (Vec<Node>, HashMap<i32, usize>, Vec<
        usize,
    >))
        requires
            self.wf(),
            match alt_root {
                Some(s) => (s as int) < self.spec_vertices().len(),
                None => true,
            },
        ensures
            ({
                let start = match alt_root {
                    Some(s) => s as int,
                    None => self.spec_root(),
                };
                let vs = self.spec_vertices();
                let rks = self.spec_ranks();
                &&& r.0@.len() >= 1
                &&& kind_corresponds(vs[start], r.0@.last())
                &&& has_lowering(vs, r.0@, start)
                &&& forall|i: int| 0 <= i < r.0@.len() ==> #[trigger] cardinality_ok(r.0@, i)
                &&& forall|i: int| 0 <= i < r.0@.len() ==> #[trigger] children_below(r.0@, i)
                &&& parents_consistent(r.0@)
                &&& forall|l: i32, i: usize|
                    #[trigger] r.1@.contains_pair(l, i) ==> (i as int) < r.0@.len()
                        && r.0@[i as int].ntype == (NodeType::Literal { literal: l })
                &&& forall|i: int|
                    0 <= i < r.0@.len() ==> ((#[trigger] r.0@[i].ntype) matches NodeType::Literal {
                        literal,
                    } ==> r.1@.contains_pair(literal, i as usize) && spec_support(
                        vs,
                        rks,
                        start,
                    ).contains(literal) && literal != 0 && literal != i32::MIN)
                &&& forall|t: int|
                    0 <= t < r.2@.len() ==> ((#[trigger] r.2@[t]) as int) < r.0@.len()
                        && r.0@[r.2@[t] as int].ntype == NodeType::True
                &&& forall|i: int|
                    0 <= i < r.0@.len() && r.0@[i].ntype == NodeType::True ==> r.2@.contains(
                        i as usize,
                    )
                &&& forall|i: int|
                    0 <= i < r.0@.len() ==> (((#[trigger] r.0@[i].ntype) == NodeType::True
                        ==> has_kind_below(vs, rks, start, VertexKind::True)) && (r.0@[i].ntype
                        == NodeType::False ==> has_kind_below(vs, rks, start, VertexKind::False)))
            }),
    {
        let ghost vs = self.spec_vertices();
        let ghost rks = self.spec_ranks();
        let start: usize = match alt_root {
            Some(s) => s,
            None => self.root,
        };
        let mut nodes: Vec<Node> = Vec::new();
        let mut emitted: Vec<Option<usize>> = Vec::new();
        let mut i: usize = 0;
        let n = self.vertices.len();
        while i < n
            invariant
                i <= n,
                emitted@.len() == i,
                forall|u: int| 0 <= u < i ==> emitted@[u] is None,
            decreases n - i,
        {
            emitted.push(None);
            i = i + 1;
        }
        let mut literals: HashMap<i32, usize> = HashMap::new();
        let mut trues: Vec<usize> = Vec::new();
        proof {
            assert(lower_inv(vs, rks, start as int, emitted@, nodes@, literals@, trues@));
        }
        self.lower_rec(start, Ghost(start as int), &mut nodes, &mut emitted, &mut literals,
            &mut trues);
        let nodes_len = nodes.len();
        proof {
            assert(nodes_len == nodes@.len());
            assert(emitted@[start as int] == Some(((nodes@.len() - 1) as usize)));
            assert(lowering_of(vs, emitted@, nodes@, start as int));
            assert(node_matches(vs, emitted@, nodes@, start as int));
            let li = nodes@.len() - 1;
            assert(nodes@.last() == nodes@[li]);
            let ei = (emitted@[start as int]->0) as int;
            assert(emitted@[start as int] is Some);
            assert(ei == li);
            if vs[start as int].kind == VertexKind::And {
                assert(nodes@[ei].ntype is And);
                assert(nodes@[li].ntype is And);
            } else if vs[start as int].kind == VertexKind::Or {
                assert(nodes@[ei].ntype is Or);
                assert(nodes@[li].ntype is Or);
            }
            assert(kind_corresponds(vs[start as int], nodes@.last()));
            assert forall|i2: int|
                0 <= i2 < nodes@.len() implies ((#[trigger] nodes@[i2].ntype)
                matches NodeType::Literal { literal } ==> literals@.contains_pair(
                literal,
                i2 as usize,
            ) && spec_support(vs, rks, start as int).contains(literal) && literal != 0 && literal
                != i32::MIN) by {
                match nodes@[i2].ntype {
                    NodeType::Literal { literal } => {
                        assert(literals@.contains_pair(literal, i2 as usize));
                        assert(witnessed(vs, emitted@, nodes@, i2));
                        let u = choose|u: int|
                            0 <= u < vs.len() && emitted@[u] == Some(i2 as usize)
                                && #[trigger] node_matches(vs, emitted@, nodes@, u);
                        if vs[u].kind == VertexKind::Literal {
                            assert(vertex_ok(vs, u));
                            assert(vs[u].literal == literal);
                            assert(spec_support(vs, rks, start as int).contains(literal));
                        } else {
                            assert(vs[u].kind != VertexKind::And) by {
                                if vs[u].kind == VertexKind::And {
                                    assert(nodes@[i2].ntype is And);
                                }
                            }
                            assert(vs[u].kind != VertexKind::Or) by {
                                if vs[u].kind == VertexKind::Or {
                                    assert(nodes@[i2].ntype is Or);
                                }
                            }
                            assert(vs[u].kind != VertexKind::True) by {
                                if vs[u].kind == VertexKind::True {
                                    assert(nodes@[i2].ntype is True);
                                }
                            }
                            assert(vs[u].kind != VertexKind::False) by {
                                if vs[u].kind == VertexKind::False {
                                    assert(nodes@[i2].ntype is False);
                                }
                            }
                        }
                    },
                    _ => {},
                }
            }
        }
        proof {
            assert forall|i2: int|
                0 <= i2 < nodes@.len() implies (((#[trigger] nodes@[i2].ntype) == NodeType::True
                ==> has_kind_below(vs, rks, start as int, VertexKind::True)) && (nodes@[i2].ntype
                == NodeType::False ==> has_kind_below(vs, rks, start as int, VertexKind::False))) by {
                if nodes@[i2].ntype == NodeType::True || nodes@[i2].ntype == NodeType::False {
                    assert(witnessed(vs, emitted@, nodes@, i2));
                    let u = choose|u: int|
                        0 <= u < vs.len() && emitted@[u] == Some(i2 as usize)
                            && #[trigger] node_matches(vs, emitted@, nodes@, u);
                    assert(spec_descendants(vs, rks, start as int).contains(u));
                    assert(vs[u].kind != VertexKind::And) by {
                        if vs[u].kind == VertexKind::And {
                            assert(nodes@[i2].ntype is And);
                        }
                    }
                    assert(vs[u].kind != VertexKind::Or) by {
                        if vs[u].kind == VertexKind::Or {
                            assert(nodes@[i2].ntype is Or);
                        }
                    }
                    assert(vs[u].kind != VertexKind::Literal) by {
                        if vs[u].kind == VertexKind::Literal {
                            assert(nodes@[i2].ntype is Literal);
                        }
                    }
                    if nodes@[i2].ntype == NodeType::True {
                        assert(vs[u].kind != VertexKind::False) by {
                            if vs[u].kind == VertexKind::False {
                                assert(nodes@[i2].ntype is False);
                            }
                        }
                        assert(vs[u].kind == VertexKind::True);
                        assert(has_kind_below(vs, rks, start as int, VertexKind::True));
                    } else {
                        assert(vs[u].kind != VertexKind::True) by {
                            if vs[u].kind == VertexKind::True {
                                assert(nodes@[i2].ntype is True);
                            }
                        }
                        assert(vs[u].kind == VertexKind::False);
                        assert(has_kind_below(vs, rks, start as int, VertexKind::False));
                    }
                }
            }
        }
        let result = (nodes, literals, trues);
        proof {
            assert(lowering_of(vs, emitted@, result.0@, start as int));
            assert(has_lowering(vs, result.0@, start as int));
        }
        result
    }

    /// For a given clause, searches for the And vertex that contains the
    /// clause's literals in its support and has as small a support as
    /// possible.  Among candidates this returns the smallest-support one
    /// that absorbs every candidate with a support at most as large
    /// (earliest vertex index wins a tie); when no candidate absorbs all
    /// smaller ones, the largest-support candidate is kept.  An empty clause
    /// yields the sentinel; a clause no And vertex meets yields the root.
    pub fn closest_unsplitable_and(&mut self, clause: &[i32]) -> (r: (usize, Vec<i32>))
        requires
            old(self).wf(),
        ensures
            *final(self) == *old(self),
            ({
                let vs = old(self).spec_vertices();
                let rks = old(self).spec_ranks();
                let root = old(self).spec_root();
                let sups = old(self).spec_supports();
                if clause@.len() == 0 {
                    r.0 == 0 && r.1@.len() == 0
                } else if exists|a: int| is_candidate(vs, rks, root, sups, a, clause@) {
                    &&& is_candidate(vs, rks, root, sups, r.0 as int, clause@)
                    &&& r.1@.to_set() == sups[r.0 as int]
                    &&& ((exists|a: int|
                        #[trigger] is_candidate(vs, rks, root, sups, a, clause@) && dominating(
                            vs,
                            rks,
                            root,
                            sups,
                            a,
                            clause@,
                        )) ==> dominating(vs, rks, root, sups, r.0 as int, clause@) && (forall|
                        a: int,
                    |
                        #[trigger] is_candidate(vs, rks, root, sups, a, clause@) && dominating(
                            vs,
                            rks,
                            root,
                            sups,
                            a,
                            clause@,
                        ) ==> sups[r.0 as int].len() <= sups[a].len()))
                    &&& (!(exists|a: int|
                        #[trigger] is_candidate(vs, rks, root, sups, a, clause@) && dominating(
                            vs,
                            rks,
                            root,
                            sups,
                            a,
                            clause@,
                        )) ==> (forall|a: int|
                        #[trigger] is_candidate(vs, rks, root, sups, a, clause@) ==> sups[a].len()
                            <= sups[r.0 as int].len()))
                } else {
                    r.0 == root && r.1@.to_set() == sups[root]
                }
            }),
    {
        let ghost vs = self.spec_vertices();
        let ghost rks = self.spec_ranks();
        let ghost root = self.spec_root();
        let ghost sups = self.spec_supports();
        if clause.len() == 0 {
            return (0, Vec::new());
        }
        let n = self.vertices.len();
        let mut visited: Vec<bool> = Vec::new();
        let mut i: usize = 0;
        while i < n
            invariant
                i <= n,
                visited@.len() == i,
                forall|u: int| 0 <= u < i ==> !visited@[u],
            decreases n - i,
        {
            visited.push(false);
            i = i + 1;
        }
        proof {
            assert forall|u: int|
                0 <= u < visited@.len() && visited@[u] implies rks[u] > rks[root]
                || spec_descendants(vs, rks, u).subset_of(visited_set(visited@)) by {}
        }
        self.mark_rec(self.root, &mut visited);
        proof {
            assert forall|u: int|
                0 <= u < vs.len() implies (visited@[u] <==> spec_descendants(
                vs,
                rks,
                root,
            ).contains(u)) by {
                if visited@[u] {
                    assert(visited_set(visited@).contains(u));
                }
                if spec_descendants(vs, rks, root).contains(u) {
                    assert(visited_set(visited@).contains(u));
                }
            }
        }
        // collect the candidates
        let mut cands: Vec<usize> = Vec::new();
        let mut v: usize = 0;
        while v < n
            invariant
                self.wf(),
                vs == self.spec_vertices(),
                rks == self.spec_ranks(),
                root == self.spec_root(),
                sups == self.spec_supports(),
                n == vs.len(),
                v <= n,
                clause@.len() > 0,
                visited@.len() == n,
                forall|u: int|
                    0 <= u < vs.len() ==> (#[trigger] visited@[u] <==> spec_descendants(
                        vs,
                        rks,
                        root,
                    ).contains(u)),
                forall|j: int|
                    0 <= j < cands@.len() ==> is_candidate(
                        vs,
                        rks,
                        root,
                        sups,
                        (#[trigger] cands@[j]) as int,
                        clause@,
                    ),
                forall|a: int|
                    0 <= a < v && is_candidate(vs, rks, root, sups, a, clause@)
                        ==> cands@.contains(a as usize),
            decreases n - v,
        {
            if matches!(self.vertices[v].kind, VertexKind::And) && visited[v] {
                if self.support_intersects(v, clause) {
                    let ghost pre_cands = cands@;
                    cands.push(v);
                    proof {
                        assert(cands@.drop_last() =~= pre_cands);
                        assert forall|a: int|
                            0 <= a < v + 1 && is_candidate(vs, rks, root, sups, a, clause@) implies cands@.contains(
                            a as usize,
                        ) by {
                            if a < v {
                                assert(cands@.drop_last().contains(a as usize));
                                let w = choose|w: int|
                                    0 <= w < cands@.drop_last().len() && cands@.drop_last()[w]
                                        == a as usize;
                                assert(cands@[w] == a as usize);
                            } else {
                                assert(cands@.last() == v);
                            }
                        }
                    }
                } else {
                    proof {
                        assert(!is_candidate(vs, rks, root, sups, v as int, clause@));
                    }
                }
            } else {
                proof {
                    assert(!is_candidate(vs, rks, root, sups, v as int, clause@));
                }
            }
            v = v + 1;
        }
        if cands.len() == 0 {
            proof {
                assert forall|a: int|
                    !is_candidate(vs, rks, root, sups, a, clause@) by {
                    if 0 <= a < vs.len() {
                        assert(!cands@.contains(a as usize));
                    }
                }
            }
            let sup = self.clone_support(self.root);
            return (self.root, sup);
        }
        proof {
            assert forall|a: int|
                is_candidate(vs, rks, root, sups, a, clause@) implies cands@.contains(
                a as usize,
            ) by {
                assert(0 <= a < vs.len());
            }
        }
        let best = self.select_candidate(&cands, clause);
        let sup = self.clone_support(best);
        (best, sup)
    }


    /// Among the candidates, picks the one with the smallest support that
    /// absorbs every candidate with a support at most as large (earliest
    /// vertex index wins a tie); when no candidate absorbs all smaller ones,
    /// the largest-support candidate is kept.
    #[verifier::spinoff_prover]
    #[verifier::rlimit(60)]
    fn select_candidate(&self, cands: &Vec<usize>, clause: &[i32]) -> (best: usize)
        requires
            self.wf(),
            cands@.len() > 0,
            forall|jj: int|
                0 <= jj < cands@.len() ==> is_candidate(
                    self.spec_vertices(),
                    self.spec_ranks(),
                    self.spec_root(),
                    self.spec_supports(),
                    (#[trigger] cands@[jj]) as int,
                    clause@,
                ),
            forall|a: int|
                is_candidate(
                    self.spec_vertices(),
                    self.spec_ranks(),
                    self.spec_root(),
                    self.spec_supports(),
                    a,
                    clause@,
                ) ==> cands@.contains(a as usize),
        ensures
            ({
                let vs = self.spec_vertices();
                let rks = self.spec_ranks();
                let root = self.spec_root();
                let sups = self.spec_supports();
                &&& is_candidate(vs, rks, root, sups, best as int, clause@)
                &&& ((exists|a: int|
                    #[trigger] is_candidate(vs, rks, root, sups, a, clause@) && dominating(
                        vs,
                        rks,
                        root,
                        sups,
                        a,
                        clause@,
                    )) ==> dominating(vs, rks, root, sups, best as int, clause@) && (forall|a: int|
                    #[trigger] is_candidate(vs, rks, root, sups, a, clause@) && dominating(
                        vs,
                        rks,
                        root,
                        sups,
                        a,
                        clause@,
                    ) ==> sups[best as int].len() <= sups[a].len()))
                &&& (!(exists|a: int|
                    #[trigger] is_candidate(vs, rks, root, sups, a, clause@) && dominating(
                        vs,
                        rks,
                        root,
                        sups,
                        a,
                        clause@,
                    )) ==> (forall|a: int|
                    #[trigger] is_candidate(vs, rks, root, sups, a, clause@) ==> sups[a].len()
                        <= sups[best as int].len()))
            }),
    {
        let ghost vs = self.spec_vertices();
        let ghost rks = self.spec_ranks();
        let ghost root = self.spec_root();
        let ghost sups = self.spec_supports();
        // first pass: support sizes and dominance flags of every candidate
        let mut lens: Vec<usize> = Vec::new();
        let mut doms: Vec<bool> = Vec::new();
        let mut j: usize = 0;
        while j < cands.len()
            invariant
                self.wf(),
                vs == self.spec_vertices(),
                rks == self.spec_ranks(),
                root == self.spec_root(),
                sups == self.spec_supports(),
                j <= cands@.len(),
                lens@.len() == j,
                doms@.len() == j,
                forall|jj: int|
                    0 <= jj < cands@.len() ==> is_candidate(
                        vs,
                        rks,
                        root,
                        sups,
                        (#[trigger] cands@[jj]) as int,
                        clause@,
                    ),
                forall|a: int|
                    is_candidate(vs, rks, root, sups, a, clause@) ==> cands@.contains(a as usize),
                forall|jj: int|
                    0 <= jj < j ==> (#[trigger] lens@[jj]) as int == sups[cands@[jj] as int].len(),
                forall|jj: int|
                    0 <= jj < j ==> (#[trigger] doms@[jj]) == dominating(
                        vs,
                        rks,
                        root,
                        sups,
                        cands@[jj] as int,
                        clause@,
                    ),
            decreases cands@.len() - j,
        {
            let c = cands[j];
            proof {
                assert(is_candidate(vs, rks, root, sups, c as int, clause@));
                assert(self.spec_support_nodup(c as int));
                lemma_no_dup_len(self.supports@[c as int]@);
                assert(sups[c as int] == self.supports@[c as int]@.to_set());
            }
            lens.push(self.supports[c].len());
            doms.push(self.is_dominating(c, cands, clause));
            j = j + 1;
        }
        // second pass: the smallest dominating index and the largest index
        let mut bj: usize = 0;
        let mut mj: usize = 0;
        let mut have_dom: bool = false;
        let mut j2: usize = 0;
        while j2 < cands.len()
            invariant
                cands@.len() > 0,
                lens@.len() == cands@.len(),
                doms@.len() == cands@.len(),
                j2 <= cands@.len(),
                (bj as int) < cands@.len(),
                (mj as int) < cands@.len(),
                have_dom ==> doms@[bj as int],
                have_dom ==> forall|jj: int|
                    0 <= jj < j2 && #[trigger] doms@[jj] ==> lens@[bj as int] <= lens@[jj],
                !have_dom ==> forall|jj: int| 0 <= jj < j2 ==> !(#[trigger] doms@[jj]),
                forall|jj: int| 0 <= jj < j2 ==> (#[trigger] lens@[jj]) <= lens@[mj as int],
            decreases cands@.len() - j2,
        {
            if doms[j2] {
                if !have_dom || lens[j2] < lens[bj] {
                    bj = j2;
                }
                have_dom = true;
            }
            if lens[j2] > lens[mj] {
                mj = j2;
            }
            j2 = j2 + 1;
        }
        let best: usize = if have_dom {
            cands[bj]
        } else {
            cands[mj]
        };
        let nbound = self.vertices.len();
        proof {
            assert(nbound == vs.len());
            if exists|a: int|
                #[trigger] is_candidate(vs, rks, root, sups, a, clause@) && dominating(
                    vs,
                    rks,
                    root,
                    sups,
                    a,
                    clause@,
                ) {
                let a0 = choose|a: int|
                    #[trigger] is_candidate(vs, rks, root, sups, a, clause@) && dominating(
                        vs,
                        rks,
                        root,
                        sups,
                        a,
                        clause@,
                    );
                assert(0 <= a0 < vs.len());
                assert((a0 as usize) as int == a0);
                assert(cands@.contains(a0 as usize));
                let w = choose|w: int| 0 <= w < cands@.len() && cands@[w] == a0 as usize;
                assert((cands@[w]) as int == a0);
                assert(doms@[w] == dominating(vs, rks, root, sups, cands@[w] as int, clause@));
                assert(doms@[w]);
                assert(have_dom);
                assert(best == cands@[bj as int]);
                assert(dominating(vs, rks, root, sups, best as int, clause@));
                assert forall|a: int|
                    #[trigger] is_candidate(vs, rks, root, sups, a, clause@) && dominating(
                        vs,
                        rks,
                        root,
                        sups,
                        a,
                        clause@,
                    ) implies sups[best as int].len() <= sups[a].len() by {
                    assert(0 <= a < vs.len());
                    assert((a as usize) as int == a);
                    assert(cands@.contains(a as usize));
                    let w2 = choose|w2: int| 0 <= w2 < cands@.len() && cands@[w2] == a as usize;
                    assert((cands@[w2]) as int == a);
                    assert(doms@[w2] == dominating(vs, rks, root, sups, cands@[w2] as int,
                        clause@));
                    assert(doms@[w2]);
                    assert(lens@[bj as int] <= lens@[w2]);
                    assert((lens@[bj as int]) as int == sups[best as int].len());
                    assert((lens@[w2]) as int == sups[a].len());
                }
            } else {
                assert(!have_dom) by {
                    if have_dom {
                        assert(doms@[bj as int]);
                        assert(is_candidate(vs, rks, root, sups, cands@[bj as int] as int,
                            clause@) && dominating(vs, rks, root, sups, cands@[bj as int] as int,
                            clause@));
                    }
                }
                assert(best == cands@[mj as int]);
                assert forall|a: int|
                    #[trigger] is_candidate(vs, rks, root, sups, a, clause@) implies sups[a].len()
                    <= sups[best as int].len() by {
                    assert(0 <= a < vs.len());
                    assert((a as usize) as int == a);
                    assert(cands@.contains(a as usize));
                    let w2 = choose|w2: int| 0 <= w2 < cands@.len() && cands@[w2] == a as usize;
                    assert((cands@[w2]) as int == a);
                    assert(lens@[w2] <= lens@[mj as int]);
                    assert((lens@[w2]) as int == sups[a].len());
                    assert((lens@[mj as int]) as int == sups[best as int].len());
                }
            }
        }
        best
    }

    /// Whether the cached support of `v` holds any literal of the clause.
    fn support_intersects(&self, v: usize, clause: &[i32]) -> (r: bool)
        requires
            self.wf(),
            v < self.spec_vertices().len(),
        ensures
            r == exists|k: int|
                0 <= k < clause@.len() && self.spec_supports()[v as int].contains(
                    #[trigger] clause@[k],
                ),
    {
        let sup = &self.supports[v];
        let mut k: usize = 0;
        while k < clause.len()
            invariant
                v < self.spec_vertices().len(),
                self.spec_supports_len() == self.spec_vertices().len(),
                sup == &self.supports@[v as int],
                k <= clause@.len(),
                forall|kk: int|
                    0 <= kk < k ==> !self.spec_supports()[v as int].contains(
                        #[trigger] clause@[kk],
                    ),
            decreases clause@.len() - k,
        {
            if vec_contains_i32(sup, clause[k]) {
                proof {
                    assert(self.spec_supports()[v as int].contains(clause@[k as int]));
                }
                return true;
            }
            k = k + 1;
        }
        false
    }

    /// Whether candidate `c` absorbs every candidate with a support at most
    /// as large as its own.
    fn is_dominating(&self, c: usize, cands: &Vec<usize>, clause: &[i32]) -> (r: bool)
        requires
            self.wf(),
            c < self.spec_vertices().len(),
            forall|j: int|
                0 <= j < cands@.len() ==> is_candidate(
                    self.spec_vertices(),
                    self.spec_ranks(),
                    self.spec_root(),
                    self.spec_supports(),
                    (#[trigger] cands@[j]) as int,
                    clause@,
                ),
            forall|a: int|
                is_candidate(
                    self.spec_vertices(),
                    self.spec_ranks(),
                    self.spec_root(),
                    self.spec_supports(),
                    a,
                    clause@,
                ) ==> cands@.contains(a as usize),
        ensures
            r == dominating(
                self.spec_vertices(),
                self.spec_ranks(),
                self.spec_root(),
                self.spec_supports(),
                c as int,
                clause@,
            ),
    {
        let ghost vs = self.spec_vertices();
        let ghost rks = self.spec_ranks();
        let ghost root = self.spec_root();
        let ghost sups = self.spec_supports();
        let nb = self.vertices.len();
        proof {
            assert(nb == vs.len());
        }
        let mut j: usize = 0;
        while j < cands.len()
            invariant
                self.wf(),
                vs == self.spec_vertices(),
                rks == self.spec_ranks(),
                root == self.spec_root(),
                sups == self.spec_supports(),
                vs.len() <= usize::MAX,
                c < vs.len(),
                j <= cands@.len(),
                forall|jj: int|
                    0 <= jj < cands@.len() ==> is_candidate(
                        vs,
                        rks,
                        root,
                        sups,
                        (#[trigger] cands@[jj]) as int,
                        clause@,
                    ),
                forall|a: int|
                    is_candidate(vs, rks, root, sups, a, clause@) ==> cands@.contains(a as usize),
                forall|jj: int|
                    0 <= jj < j ==> (sups[(#[trigger] cands@[jj]) as int].len()
                        <= sups[c as int].len() ==> sups[cands@[jj] as int].subset_of(
                        sups[c as int],
                    )),
            decreases cands@.len() - j,
        {
            let a = cands[j];
            proof {
                assert(self.spec_support_nodup(a as int) && self.spec_support_nodup(c as int));
                lemma_no_dup_len(self.supports@[a as int]@);
                lemma_no_dup_len(self.supports@[c as int]@);
                assert(sups[a as int] == self.supports@[a as int]@.to_set());
                assert(sups[c as int] == self.supports@[c as int]@.to_set());
            }
            if self.supports[a].len() <= self.supports[c].len() {
                if !self.support_subset(a, c) {
                    proof {
                        assert(!sups[a as int].subset_of(sups[c as int]));
                        assert(sups[a as int].len() <= sups[c as int].len());
                        assert(!dominating(vs, rks, root, sups, c as int, clause@)) by {
                            assert(is_candidate(vs, rks, root, sups, a as int, clause@));
                        }
                    }
                    return false;
                }
            }
            j = j + 1;
        }
        proof {
            assert forall|a: int|
                #[trigger] is_candidate(vs, rks, root, sups, a, clause@) && sups[a].len()
                    <= sups[c as int].len() implies sups[a].subset_of(sups[c as int]) by {
                assert(cands@.contains(a as usize));
                let w = choose|w: int| 0 <= w < cands@.len() && cands@[w] == a as usize;
                assert(0 <= w < cands@.len() && cands@[w] == a as usize);
                assert(sups[cands@[w] as int] == sups[a]);
                assert(sups[cands@[w] as int].len() <= sups[c as int].len());
                assert(sups[cands@[w] as int].subset_of(sups[c as int]));
            }
        }
        true
    }

    /// Whether the cached support of `a` is contained in that of `b`.
    fn support_subset(&self, a: usize, b: usize) -> (r: bool)
        requires
            self.wf(),
            a < self.spec_vertices().len(),
            b < self.spec_vertices().len(),
        ensures
            r == self.spec_supports()[a as int].subset_of(self.spec_supports()[b as int]),
    {
        let sa = &self.supports[a];
        let sb = &self.supports[b];
        let mut k: usize = 0;
        while k < sa.len()
            invariant
                a < self.spec_vertices().len(),
                b < self.spec_vertices().len(),
                self.spec_supports_len() == self.spec_vertices().len(),
                sa == &self.supports@[a as int],
                sb == &self.supports@[b as int],
                k <= sa@.len(),
                forall|kk: int|
                    0 <= kk < k ==> self.spec_supports()[b as int].contains(#[trigger] sa@[kk]),
            decreases sa@.len() - k,
        {
            if !vec_contains_i32(sb, sa[k]) {
                proof {
                    assert(self.spec_supports()[a as int].contains(sa@[k as int]));
                    assert(!self.spec_supports()[b as int].contains(sa@[k as int]));
                    assert(!self.spec_supports()[a as int].subset_of(
                        self.spec_supports()[b as int],
                    ));
                }
                return false;
            }
            k = k + 1;
        }
        proof {
            assert forall|x: i32|
                self.spec_supports()[a as int].contains(x) implies self.spec_supports()[b as int].contains(
                x,
            ) by {
                assert(sa@.contains(x));
                let w = choose|w: int| 0 <= w < sa@.len() && sa@[w] == x;
                assert(self.spec_supports()[b as int].contains(sa@[w]));
            }
        }
        true
    }

    /// A copy of the cached support of `v`.
    fn clone_support(&self, v: usize) -> (r: Vec<i32>)
        requires
            self.wf(),
            v < self.spec_vertices().len(),
        ensures
            r@.to_set() == self.spec_supports()[v as int],
    {
        let sup = &self.supports[v];
        let mut out: Vec<i32> = Vec::new();
        let mut i: usize = 0;
        while i < sup.len()
            invariant
                v < self.spec_vertices().len(),
                self.spec_supports_len() == self.spec_vertices().len(),
                sup == &self.supports@[v as int],
                i <= sup@.len(),
                out@ =~= sup@.take(i as int),
            decreases sup@.len() - i,
        {
            out.push(sup[i]);
            i = i + 1;
        }
        proof {
            assert(out@ =~= sup@);
        }
        out
    }
}

/// A sequence without duplicates has as many elements as its set.
pub proof fn lemma_no_dup_len(s: Seq<i32>)
    requires
        s.no_duplicates(),
    ensures
        s.to_set().len() == s.len(),
    decreases s.len(),
{
    if s.len() > 0 {
        let pre = s.drop_last();
        assert(pre.no_duplicates());
        lemma_no_dup_len(pre);
        assert(s =~= pre.push(s.last()));
        crate::data_structure::lemma_to_set_push(pre, s.last());
        assert(!pre.contains(s.last()));
        assert(!pre.to_set().contains(s.last()));
        vstd::set::axiom_set_insert_len(pre.to_set(), s.last());
        assert(s.to_set() =~= pre.to_set().insert(s.last()));
        assert(s.to_set().len() == pre.to_set().len() + 1);
    } else {
        assert(s.to_set() =~= Set::<i32>::empty());
        assert(Set::<i32>::empty().len() == 0);
    }
}


/// The set of variables of a set of signed literal values.
pub open spec fn support_vars(s: Set<i32>) -> Set<i32> {
    Set::new(|v: i32| exists|l: i32| s.contains(l) && v == #[trigger] spec_lit_var(l))
}

/// The variable of a signed literal value.
pub open spec fn spec_lit_var(l: i32) -> i32 {
    if l < 0 {
        ((-(l as int)) as i32)
    } else {
        l
    }
}

/// The auxiliary CNF variables of a gate's children.
pub open spec fn child_auxes(aux: Seq<int>, cs: Seq<usize>) -> Seq<int> {
    cs.map_values(|c: usize| aux[c as int])
}

/// The Tseitin clause block of one gate with auxiliary `a` and child
/// auxiliaries `cas`: one binary clause per child, then the long clause.
pub open spec fn gate_clauses(is_and: bool, a: int, cas: Seq<int>) -> Seq<Seq<int>> {
    Seq::new(cas.len(), |k: int| if is_and {
        seq![-a, cas[k]]
    } else {
        seq![a, -cas[k]]
    }).push(
        (if is_and {
            seq![a] + cas.map_values(|x: int| -x)
        } else {
            seq![-a] + cas
        }),
    )
}

/// The clauses one linearized node contributes: gates contribute their
/// Tseitin block, leaves contribute nothing.
pub open spec fn node_clauses(nd: Node, a: int, aux: Seq<int>) -> Seq<Seq<int>> {
    match nd.ntype {
        NodeType::And { children } => gate_clauses(true, a, child_auxes(aux, children@)),
        NodeType::Or { children } => gate_clauses(false, a, child_auxes(aux, children@)),
        _ => Seq::empty(),
    }
}

/// The concatenated Tseitin clauses of the first `i` nodes.
pub open spec fn tseitin_clauses(nodes: Seq<Node>, aux: Seq<int>, i: int) -> Seq<Seq<int>>
    decreases i,
{
    if i <= 0 {
        Seq::empty()
    } else {
        tseitin_clauses(nodes, aux, i - 1) + node_clauses(nodes[i - 1], aux[i - 1], aux)
    }
}

/// How many of the first `i` nodes are gates (And or Or).
pub open spec fn gate_count(nodes: Seq<Node>, i: int) -> int
    decreases i,
{
    if i <= 0 {
        0
    } else {
        gate_count(nodes, i - 1) + (if nodes[i - 1].ntype is And || nodes[i - 1].ntype is Or {
            1int
        } else {
            0int
        })
    }
}

/// The CNF variable assigned to node `i`: a literal carries its renumbered
/// variable with its sign (or an id beyond the map's `i32` range), a gate
/// carries the `vbase`-offset auxiliary of its position, and no other kind
/// occurs.
pub open spec fn aux_entry_ok(
    nodes: Seq<Node>,
    aux: Seq<int>,
    inv: Map<i32, i32>,
    vbase: int,
    i: int,
) -> bool {
    match nodes[i].ntype {
        NodeType::Literal { literal } => (exists|cc: i32|
            #[trigger] inv.contains_pair(cc, spec_lit_var(literal)) && aux[i] == (if literal > 0 {
                cc as int
            } else {
                -(cc as int)
            })) || (aux[i] > i32::MAX as int || aux[i] < -(i32::MAX as int)),
        NodeType::And { children } => aux[i] == vbase + 1 + gate_count(nodes, i),
        NodeType::Or { children } => aux[i] == vbase + 1 + gate_count(nodes, i),
        _ => false,
    }
}

/// The appended clause image: each literal renumbered through the inverse
/// map when its variable was assigned a compact id, zero otherwise.
pub open spec fn renumbered_clause(c: Seq<i32>, inv: Map<i32, i32>, e: Seq<int>) -> bool {
    &&& e.len() == c.len()
    &&& forall|k: int|
        0 <= k < c.len() ==> ((exists|cc: i32|
            #[trigger] inv.contains_pair(cc, spec_lit_var(c[k])) && e[k] == (if c[k] > 0 {
                cc as int
            } else {
                -(cc as int)
            })) || e[k] == 0)
}

/// One witness for the Tseitin emission: a lowering of the subcircuit, a
/// consistent CNF variable assignment, the exact clause list (gate blocks in
/// node order, the unit clause of the root auxiliary, then the renumbered
/// extra clause), and lines spelling header and clauses.
pub open spec fn tseitin_witness(
    vs: Seq<Vertex>,
    rks: Seq<u64>,
    start: int,
    lines: Seq<String>,
    inv: Map<i32, i32>,
    clause: Option<Seq<i32>>,
    nodes: Seq<Node>,
    em: Seq<Option<usize>>,
    aux: Seq<int>,
    vbase: int,
    extra: Seq<int>,
    nlits: int,
) -> bool {
    &&& lowering_of(vs, em, nodes, start)
    &&& aux.len() == nodes.len()
    &&& vbase >= 0
    &&& vbase == ({
        let svc = support_vars(spec_support(vs, rks, start)).len() as int;
        if svc <= 0x4000_0000_0000_0000 {
            svc
        } else {
            0x4000_0000_0000_0000int
        }
    })
    &&& forall|c: i32, o: i32|
        #[trigger] inv.contains_pair(c, o) ==> support_vars(spec_support(vs, rks, start)).contains(
            o,
        )
    &&& forall|i: int| 0 <= i < nodes.len() ==> #[trigger] aux_entry_ok(nodes, aux, inv, vbase, i)
    &&& (match clause {
        Some(c) => renumbered_clause(c, inv, extra),
        None => extra.len() == 0,
    })
    &&& forall|c: i32|
        (#[trigger] inv.contains_key(c)) <==> (1 <= (c as int) && (c as int) < nlits)
    &&& ({
        let core = tseitin_clauses(nodes, aux, nodes.len() as int).push(
            seq![aux[nodes.len() - 1]],
        );
        let cls = (match clause {
            Some(c) => core.push(extra),
            None => core,
        });
        &&& lines.len() == cls.len() + 1
        &&& (forall|i: int|
            0 <= i < cls.len() ==> (#[trigger] lines[i + 1])@ == spec_clause_chars(cls[i]))
        &&& lines[0]@ == spec_header_chars(
            vbase + gate_count(nodes, nodes.len() as int),
            cls.len() as int,
        )
    })
}

/// Some witness exhibits the output as the Tseitin emission of the
/// subcircuit below `start`.
pub open spec fn tseitin_output_ok(
    vs: Seq<Vertex>,
    rks: Seq<u64>,
    start: int,
    lines: Seq<String>,
    inv: Map<i32, i32>,
    clause: Option<Seq<i32>>,
) -> bool {
    exists|nodes: Seq<Node>, em: Seq<Option<usize>>, aux: Seq<int>, vbase: int, extra: Seq<int>, nlits: int|
        #[trigger] tseitin_witness(
            vs,
            rks,
            start,
            lines,
            inv,
            clause,
            nodes,
            em,
            aux,
            vbase,
            extra,
            nlits,
        )
}

/// The Tseitin clause list only reads the assignment below `i`, so two
/// assignments equal there give the same clauses.
pub proof fn lemma_tseitin_prefix_stable(nodes: Seq<Node>, a1: Seq<int>, a2: Seq<int>, i: int)
    requires
        0 <= i <= nodes.len(),
        forall|j: int| 0 <= j < i ==> a1[j] == a2[j],
        forall|j: int| 0 <= j < nodes.len() ==> #[trigger] children_below(nodes, j),
    ensures
        tseitin_clauses(nodes, a1, i) == tseitin_clauses(nodes, a2, i),
    decreases i,
{
    if i > 0 {
        lemma_tseitin_prefix_stable(nodes, a1, a2, i - 1);
        assert(children_below(nodes, i - 1));
        match nodes[i - 1].ntype {
            NodeType::And { children } => {
                assert forall|k: int|
                    0 <= k < children@.len() implies a1[(#[trigger] children@[k]) as int] == a2[(
                children@[k]) as int] by {
                    assert(node_children(nodes[i - 1].ntype)[k] == children@[k]);
                    assert((children@[k] as int) < i - 1);
                }
                assert(child_auxes(a1, children@) =~= child_auxes(a2, children@));
            },
            NodeType::Or { children } => {
                assert forall|k: int|
                    0 <= k < children@.len() implies a1[(#[trigger] children@[k]) as int] == a2[(
                children@[k]) as int] by {
                    assert(node_children(nodes[i - 1].ntype)[k] == children@[k]);
                    assert((children@[k] as int) < i - 1);
                }
                assert(child_auxes(a1, children@) =~= child_auxes(a2, children@));
            },
            _ => {},
        }
    }
}

/// The decimal digits of a nonnegative integer, most significant first.
pub open spec fn spec_nat_chars(n: int) -> Seq<char>
    decreases n,
{
    if n < 10 {
        seq![((48 + (if n >= 0 { n } else { 0 })) as u8) as char]
    } else {
        spec_nat_chars(n / 10).push(((48 + n % 10) as u8) as char)
    }
}

/// The decimal spelling of a signed integer.
pub open spec fn spec_int_chars(v: int) -> Seq<char> {
    if v < 0 {
        seq!['-'] + spec_nat_chars(-v)
    } else {
        spec_nat_chars(v)
    }
}

/// A DIMACS clause line: the literals, space separated, closed by a zero and
/// a line break.
pub open spec fn spec_clause_chars(lits: Seq<int>) -> Seq<char>
    decreases lits.len(),
{
    if lits.len() == 0 {
        seq!['0', '\n']
    } else {
        spec_int_chars(lits[0]) + seq![' '] + spec_clause_chars(lits.drop_first())
    }
}

/// The DIMACS header line declaring the variable and clause counts.
pub open spec fn spec_header_chars(nvars: int, nclauses: int) -> Seq<char> {
    seq!['p', ' ', 'c', 'n', 'f', ' '] + spec_nat_chars(nvars) + seq![' '] + spec_nat_chars(
        nclauses,
    ) + seq!['\n']
}

/// The line list spells a DIMACS file for the given clause list: a header
/// declaring some variable count and the clause count, then one spelled
/// clause per line.
pub open spec fn dimacs_lines_ok(lines: Seq<String>, cls: Seq<Seq<int>>) -> bool {
    &&& lines.len() == cls.len() + 1
    &&& (forall|i: int|
        0 <= i < cls.len() ==> (#[trigger] lines[i + 1])@ == spec_clause_chars(cls[i]))
    &&& exists|nv: int| nv >= 0 && lines[0]@ == #[trigger] spec_header_chars(nv, cls.len() as int)
}

/// Relies on the decimal `Display` implementation of i128 in std: digits in
/// base ten, a leading minus sign for negative values.
#[verifier::external_body]
fn int_string(v: i128) -> (r: String)
    ensures
        r@ == spec_int_chars(v as int),
{
    format!("{}", v)
}

/// Relies on the decimal `Display` implementation of u64 in std: digits in
/// base ten.
#[verifier::external_body]
fn nat_string(v: u64) -> (r: String)
    ensures
        r@ == spec_nat_chars(v as int),
{
    format!("{}", v)
}

/// The spelled-out DIMACS line of one clause.
fn clause_string(lits: &Vec<i128>) -> (r: String)
    ensures
        r@ == spec_clause_chars(lits@.map_values(|x: i128| x as int)),
{
    let ghost all = lits@.map_values(|x: i128| x as int);
    let mut out = String::new();
    let mut i: usize = 0;
    proof {
        assert(all.skip(0) =~= all);
        assert(out@ + spec_clause_chars(all.skip(0)) =~= spec_clause_chars(all));
    }
    while i < lits.len()
        invariant
            i <= lits@.len(),
            all == lits@.map_values(|x: i128| x as int),
            out@ + spec_clause_chars(all.skip(i as int)) == spec_clause_chars(all),
        decreases lits@.len() - i,
    {
        let piece = int_string(lits[i]);
        out.append(piece.as_str());
        out.append(" ");
        proof {
            reveal_strlit(" ");
            assert(all.skip(i as int).drop_first() =~= all.skip(i + 1));
            assert(spec_clause_chars(all.skip(i as int)) == spec_int_chars(all.skip(i as int)[0])
                + seq![' '] + spec_clause_chars(all.skip(i + 1)));
            assert(all.skip(i as int)[0] == all[i as int]);
            assert(out@ + spec_clause_chars(all.skip(i + 1)) =~= spec_clause_chars(all));
        }
        i = i + 1;
    }
    out.append("0\n");
    proof {
        reveal_strlit("0\n");
        assert(all.skip(all.len() as int) =~= Seq::<int>::empty());
        assert(spec_clause_chars(all.skip(all.len() as int)) =~= seq!['0', '\n']);
        assert("0\n"@ =~= seq!['0', '\n']);
        assert(out@ =~= spec_clause_chars(all));
    }
    out
}

/// The spelled-out DIMACS header.
fn header_string(nvars: i128, nclauses: u64) -> (r: String)
    requires
        nvars >= 0,
    ensures
        r@ == spec_header_chars(nvars as int, nclauses as int),
{
    let mut out = String::new();
    out.append("p cnf ");
    let a = int_string(nvars);
    out.append(a.as_str());
    out.append(" ");
    let b = nat_string(nclauses);
    out.append(b.as_str());
    out.append("\n");
    proof {
        reveal_strlit("p cnf ");
        reveal_strlit(" ");
        reveal_strlit("\n");
        assert("p cnf "@ =~= seq!['p', ' ', 'c', 'n', 'f', ' ']);
        assert(" "@ =~= seq![' ']);
        assert("\n"@ =~= seq!['\n']);
        assert(spec_int_chars(nvars as int) == spec_nat_chars(nvars as int));
        assert(out@ =~= spec_header_chars(nvars as int, nclauses as int));
    }
    out
}

impl IntermediateGraph {
    /// From a starting vertex, lowers the subcircuit and emits its Tseitin
    /// CNF in DIMACS lines, together with the inverse renumber map from
    /// compact variable ids back to original ones.  The first line declares
    /// the counts; every further line spells one clause: the Tseitin block of
    /// each gate in post order, the unit clause of the root auxiliary, and
    /// the renumbered extra clause when one is given.
    pub fn transform_to_cnf(&self, starting_point: usize, clause: Option<&[i32]>) -> (r: (Vec<
        String,
    >, HashMap<i32, i32>))
        requires
            self.wf(),
            (starting_point as int) < self.spec_vertices().len(),
            forall|u: int|
                0 <= u < self.spec_vertices().len() && #[trigger] spec_descendants(
                    self.spec_vertices(),
                    self.spec_ranks(),
                    starting_point as int,
                ).contains(u) ==> self.spec_vertices()[u].kind != VertexKind::True
                    && self.spec_vertices()[u].kind != VertexKind::False,
            match clause {
                Some(c) => forall|k: int|
                    0 <= k < c@.len() ==> #[trigger] c@[k] != 0 && c@[k] != i32::MIN && (
                    self.spec_support_of(starting_point as int).contains(c@[k])
                        || self.spec_support_of(starting_point as int).contains(
                        ((-c@[k]) as i32),
                    )),
                None => true,
            },
        ensures
            r.0@.len() >= 2,
            tseitin_output_ok(
                self.spec_vertices(),
                self.spec_ranks(),
                starting_point as int,
                r.0@,
                r.1@,
                match clause {
                    Some(c) => Some(c@),
                    None => None,
                },
            ),
            forall|c: i32, o: i32| #[trigger] r.1@.contains_pair(c, o) ==> c >= 1 && o >= 1,
            forall|c1: i32, c2: i32, o: i32|
                #[trigger] r.1@.contains_pair(c1, o) && #[trigger] r.1@.contains_pair(c2, o)
                    ==> c1 == c2,
    {
        let ghost vs = self.spec_vertices();
        let ghost rks = self.spec_ranks();
        let ghost start = starting_point as int;
        let (nodes, _lit_index, _trues) = self.rebuild(Some(starting_point));
        proof {
            // the requires bans constant vertices below the start, so no
            // constant node was lowered
            assert forall|i: int|
                0 <= i < nodes@.len() implies (#[trigger] nodes@[i].ntype) != NodeType::True
                && nodes@[i].ntype != NodeType::False by {
                if nodes@[i].ntype == NodeType::True {
                    assert(has_kind_below(vs, rks, start, VertexKind::True));
                    let u = choose|u: int|
                        0 <= u < vs.len() && #[trigger] spec_descendants(vs, rks, start).contains(
                            u,
                        ) && vs[u].kind == VertexKind::True;
                    assert(false);
                }
                if nodes@[i].ntype == NodeType::False {
                    assert(has_kind_below(vs, rks, start, VertexKind::False));
                    let u = choose|u: int|
                        0 <= u < vs.len() && #[trigger] spec_descendants(vs, rks, start).contains(
                            u,
                        ) && vs[u].kind == VertexKind::False;
                    assert(false);
                }
            }
        }
        let mut re_index_mapping: HashMap<i32, i32> = HashMap::new();
        let mut forward: HashMap<i32, i32> = HashMap::new();
        let mut lines: Vec<String> = Vec::new();
        let ghost mut cls: Seq<Seq<int>> = Seq::empty();
        lines.push(String::new());  // placeholder for the header
        let mut lit_counter: i128 = 1;
        // distinct variables of the support come first in the numbering
        let vars = self.count_support_vars(starting_point);
        let vbase: i128 = if vars as u64 > 0x4000_0000_0000_0000u64 {
            0x4000_0000_0000_0000i128
        } else {
            vars as i128
        };
        let mut counter: i128 = vbase + 1;
        let mut clause_var: Vec<i128> = Vec::new();
        let ghost mut aux: Seq<int> = Seq::new(nodes@.len(), |i: int| 0int);
        let ghost bound: int = vbase as int + 2 + nodes@.len() as int;
        let mut z: usize = 0;
        while z < nodes.len()
            invariant
                z <= nodes@.len(),
                clause_var@.len() == z,
                forall|t: int| 0 <= t < z ==> #[trigger] clause_var@[t] == 0,
            decreases nodes@.len() - z,
        {
            clause_var.push(0);
            z = z + 1;
        }
        let nlen_bound = nodes.len();
        let mut index: usize = 0;
        proof {
            assert(nlen_bound == nodes@.len());
            assert(tseitin_clauses(nodes@, aux, 0) =~= Seq::<Seq<int>>::empty());
            assert(gate_count(nodes@, 0) == 0);
        }
        while index < nodes.len()
            invariant
                index <= nodes@.len(),
                clause_var@.len() == nodes@.len(),
                aux.len() == nodes@.len(),
                bound == vbase as int + 2 + nodes@.len() as int,
                0 <= vbase <= 0x4000_0000_0000_0000i128,
                nodes@.len() <= usize::MAX as int,
                forall|t: int|
                    0 <= t < nodes@.len() ==> -bound <= #[trigger] clause_var@[t] as int <= bound,
                forall|j: int|
                    0 <= j < index ==> #[trigger] aux[j] == clause_var@[j] as int,
                lines@.len() == cls.len() + 1,
                forall|i: int|
                    0 <= i < cls.len() ==> (#[trigger] lines@[i + 1])@ == spec_clause_chars(cls[i]),
                cls == tseitin_clauses(nodes@, aux, index as int),
                counter == vbase as int + 1 + gate_count(nodes@, index as int),
                0 <= gate_count(nodes@, index as int) <= index as int,
                1 <= lit_counter <= 1 + index as int,
                forall|j: int|
                    0 <= j < index ==> #[trigger] aux_entry_ok(
                        nodes@,
                        aux,
                        re_index_mapping@,
                        vbase as int,
                        j,
                    ),
                forall|o: i32, c: i32|
                    #[trigger] forward@.contains_pair(o, c) <==> #[trigger] re_index_mapping@.contains_pair(
                        c,
                        o,
                    ),
                forall|c: i32|
                    (#[trigger] re_index_mapping@.contains_key(c)) <==> (1 <= c as int && (
                    c as int) < lit_counter as int && c as int <= i32::MAX as int),
                forall|c: i32, o: i32| #[trigger] re_index_mapping@.contains_pair(c, o) ==> c >= 1
                    && o >= 1,
                vs == self.spec_vertices(),
                rks == self.spec_ranks(),
                start == starting_point as int,
                forall|c: i32, o: i32|
                    #[trigger] re_index_mapping@.contains_pair(c, o) ==> support_vars(
                        spec_support(vs, rks, start),
                    ).contains(o),
                forall|i: int|
                    0 <= i < nodes@.len() ==> ((#[trigger] nodes@[i].ntype)
                        matches NodeType::Literal { literal } ==> spec_support(
                        vs,
                        rks,
                        start,
                    ).contains(literal)),
                forall|i: int| 0 <= i < nodes@.len() ==> #[trigger] cardinality_ok(nodes@, i),
                forall|i: int| 0 <= i < nodes@.len() ==> #[trigger] children_below(nodes@, i),
                forall|i: int|
                    0 <= i < nodes@.len() ==> (#[trigger] nodes@[i].ntype) != NodeType::True
                        && nodes@[i].ntype != NodeType::False,
                forall|i: int|
                    0 <= i < nodes@.len() ==> ((#[trigger] nodes@[i].ntype)
                        matches NodeType::Literal { literal } ==> literal != 0 && literal
                        != i32::MIN),
            decreases nodes@.len() - index,
        {
            let ghost pre_aux = aux;
            let ghost pre_cls = cls;
            let nd_is_and = matches!(nodes[index].ntype, NodeType::And { .. });
            match &nodes[index].ntype {
                NodeType::And { children } | NodeType::Or { children } => {
                    let ghost a = counter as int;
                    let ghost cas = child_auxes(aux, children@);
                    let mut k: usize = 0;
                    proof {
                        assert(Seq::new(0nat, |kk: int| if nd_is_and {
                            seq![-a, cas[kk]]
                        } else {
                            seq![a, -cas[kk]]
                        }) =~= Seq::<Seq<int>>::empty());
                        assert(cls + Seq::<Seq<int>>::empty() =~= cls);
                    }
                    while k < children.len()
                        invariant
                            index < nodes@.len(),
                            clause_var@.len() == nodes@.len(),
                            aux.len() == nodes@.len(),
                            aux == pre_aux,
                            k <= children@.len(),
                            children@ == node_children(nodes@[index as int].ntype),
                            nd_is_and == (nodes@[index as int].ntype is And),
                            children_below(nodes@, index as int),
                            a == counter as int,
                            cas == child_auxes(aux, children@),
                            bound == vbase as int + 2 + nodes@.len() as int,
                            0 <= vbase <= 0x4000_0000_0000_0000i128,
                            nodes@.len() <= usize::MAX as int,
                            forall|j: int|
                                0 <= j < index ==> #[trigger] aux[j] == clause_var@[j] as int,
                            forall|t: int|
                                0 <= t < nodes@.len() ==> -bound <= #[trigger] clause_var@[t] as int
                                    <= bound,
                            -bound <= a <= bound,
                            lines@.len() == cls.len() + 1,
                            forall|i: int|
                                0 <= i < cls.len() ==> (#[trigger] lines@[i + 1])@
                                    == spec_clause_chars(cls[i]),
                            cls == pre_cls + Seq::new(k as nat, |kk: int| if nd_is_and {
                                seq![-a, cas[kk]]
                            } else {
                                seq![a, -cas[kk]]
                            }),
                        decreases children@.len() - k,
                    {
                        let child = children[k];
                        let mut binlits: Vec<i128> = Vec::new();
                        if nd_is_and {
                            binlits.push(-counter);
                            binlits.push(clause_var[child]);
                        } else {
                            binlits.push(counter);
                            binlits.push(-clause_var[child]);
                        }
                        proof {
                            assert(children@[k as int] < index);
                            assert(aux[children@[k as int] as int] == clause_var@[children@[k as int] as int] as int);
                            assert(cas[k as int] == aux[children@[k as int] as int]);
                            if nd_is_and {
                                assert(binlits@.map_values(|x: i128| x as int) =~= seq![
                                    -a,
                                    cas[k as int],
                                ]);
                            } else {
                                assert(binlits@.map_values(|x: i128| x as int) =~= seq![
                                    a,
                                    -cas[k as int],
                                ]);
                            }
                        }
                        let line = clause_string(&binlits);
                        lines.push(line);
                        proof {
                            cls = cls.push(binlits@.map_values(|x: i128| x as int));
                            assert forall|i: int|
                                0 <= i < cls.len() implies (#[trigger] lines@[i + 1])@
                                == spec_clause_chars(cls[i]) by {
                                if i < cls.len() - 1 {
                                    assert(lines@[i + 1] == lines@.drop_last()[i + 1]);
                                }
                            }
                            assert(cls =~= pre_cls + Seq::new((k + 1) as nat, |kk: int| if nd_is_and {
                                seq![-a, cas[kk]]
                            } else {
                                seq![a, -cas[kk]]
                            }));
                        }
                        k = k + 1;
                    }
                    // the long clause over all children
                    let mut longlits: Vec<i128> = Vec::new();
                    if nd_is_and {
                        longlits.push(counter);
                    } else {
                        longlits.push(-counter);
                    }
                    let mut k2: usize = 0;
                    while k2 < children.len()
                        invariant
                            index < nodes@.len(),
                            clause_var@.len() == nodes@.len(),
                            aux.len() == nodes@.len(),
                            aux == pre_aux,
                            k2 <= children@.len(),
                            children@ == node_children(nodes@[index as int].ntype),
                            nd_is_and == (nodes@[index as int].ntype is And),
                            children_below(nodes@, index as int),
                            a == counter as int,
                            cas == child_auxes(aux, children@),
                            bound == vbase as int + 2 + nodes@.len() as int,
                            0 <= vbase <= 0x4000_0000_0000_0000i128,
                            nodes@.len() <= usize::MAX as int,
                            forall|j: int|
                                0 <= j < index ==> #[trigger] aux[j] == clause_var@[j] as int,
                            forall|t: int|
                                0 <= t < nodes@.len() ==> -bound <= #[trigger] clause_var@[t] as int
                                    <= bound,
                            -bound <= a <= bound,
                            longlits@.len() == k2 + 1,
                            longlits@.map_values(|x: i128| x as int) == (if nd_is_and {
                                seq![a] + cas.take(k2 as int).map_values(|x: int| -x)
                            } else {
                                seq![-a] + cas.take(k2 as int)
                            }),
                        decreases children@.len() - k2,
                    {
                        let child = children[k2];
                        let ghost pre_ll = longlits@;
                        let pushed: i128 = if nd_is_and {
                            -clause_var[child]
                        } else {
                            clause_var[child]
                        };
                        longlits.push(pushed);
                        proof {
                            assert(children@[k2 as int] < index);
                            assert(aux[children@[k2 as int] as int] == clause_var@[children@[k2 as int] as int] as int);
                            assert(cas[k2 as int] == aux[children@[k2 as int] as int]);
                            assert(longlits@ =~= pre_ll.push(pushed));
                            assert(longlits@.map_values(|x: i128| x as int)
                                =~= pre_ll.map_values(|x: i128| x as int).push(pushed as int));
                            if nd_is_and {
                                assert(pushed as int == -cas[k2 as int]);
                                assert(cas.take(k2 + 1).map_values(|x: int| -x) =~= cas.take(
                                    k2 as int,
                                ).map_values(|x: int| -x).push(-cas[k2 as int]));
                                assert(longlits@.map_values(|x: i128| x as int) =~= seq![a]
                                    + cas.take(k2 + 1).map_values(|x: int| -x));
                            } else {
                                assert(pushed as int == cas[k2 as int]);
                                assert(cas.take(k2 + 1) =~= cas.take(k2 as int).push(
                                    cas[k2 as int],
                                ));
                                assert(longlits@.map_values(|x: i128| x as int) =~= seq![-a]
                                    + cas.take(k2 + 1));
                            }
                        }
                        k2 = k2 + 1;
                    }
                    let line = clause_string(&longlits);
                    lines.push(line);
                    proof {
                        assert(cas.take(cas.len() as int) =~= cas);
                        cls = cls.push(longlits@.map_values(|x: i128| x as int));
                        assert forall|i: int|
                            0 <= i < cls.len() implies (#[trigger] lines@[i + 1])@
                            == spec_clause_chars(cls[i]) by {
                            if i < cls.len() - 1 {
                                assert(lines@[i + 1] == lines@.drop_last()[i + 1]);
                            }
                        }
                        // the block pushed equals this gate's Tseitin clauses
                        assert(cls =~= pre_cls + gate_clauses(nd_is_and, a, cas));
                    }
                    clause_var.set(index, counter);
                    proof {
                        aux = aux.update(index as int, a);
                        lemma_tseitin_prefix_stable(nodes@, pre_aux, aux, index as int);
                        assert(child_auxes(aux, children@) =~= cas) by {
                            assert forall|kk: int|
                                0 <= kk < children@.len() implies aux[(
                                #[trigger] children@[kk]) as int] == pre_aux[children@[kk] as int] by {
                                assert(children@[kk] < index);
                            }
                        }
                        assert(tseitin_clauses(nodes@, aux, index + 1) == tseitin_clauses(
                            nodes@,
                            aux,
                            index as int,
                        ) + node_clauses(nodes@[index as int], aux[index as int], aux));
                        if nd_is_and {
                            assert(node_clauses(nodes@[index as int], a, aux) == gate_clauses(
                                true,
                                a,
                                child_auxes(aux, children@),
                            ));
                        }
                        assert(cls =~= tseitin_clauses(nodes@, aux, index + 1));
                        assert(gate_count(nodes@, index + 1) == gate_count(nodes@, index as int)
                            + 1);
                        assert(aux_entry_ok(nodes@, aux, re_index_mapping@, vbase as int,
                            index as int));
                        assert forall|j: int|
                            0 <= j < index + 1 implies #[trigger] aux_entry_ok(
                            nodes@,
                            aux,
                            re_index_mapping@,
                            vbase as int,
                            j,
                        ) by {
                            if j < index {
                                assert(aux_entry_ok(nodes@, pre_aux, re_index_mapping@,
                                    vbase as int, j));
                                assert(aux[j] == pre_aux[j]);
                            }
                        }
                    }
                    counter = counter + 1;
                },
                NodeType::Literal { literal } => {
                    let lit = *literal;
                    proof {
                        assert(nodes@[index as int].ntype == (NodeType::Literal { literal: lit }));
                        assert(lit != 0 && lit != i32::MIN);
                    }
                    let var: i32 = if lit < 0 {
                        ((-(lit as i64)) as i32)
                    } else {
                        lit
                    };
                    proof {
                        assert(var == spec_lit_var(lit));
                    }
                    let ghost pre_inv = re_index_mapping@;
                    let re_index: i128 = match forward.get(&var) {
                        Some(c) => {
                            proof {
                                assert(forward@.contains_pair(var, *c));
                                assert(re_index_mapping@.contains_pair(*c, var));
                            }
                            *c as i128
                        },
                        None => {
                            let c = lit_counter;
                            if c <= i32::MAX as i128 {
                                let ghost pre_f = forward@;
                                let ghost pre_r = re_index_mapping@;
                                forward.insert(var, c as i32);
                                re_index_mapping.insert(c as i32, var);
                                proof {
                                    assert(spec_support(vs, rks, start).contains(lit));
                                    assert(support_vars(spec_support(vs, rks, start)).contains(
                                        var,
                                    )) by {
                                        assert(spec_lit_var(lit) == var);
                                    }
                                    assert(!pre_f.contains_key(var));
                                    assert(!pre_r.contains_key(c as i32));
                                    assert forall|o: i32, cc: i32|
                                        #[trigger] forward@.contains_pair(o, cc)
                                        <==> #[trigger] re_index_mapping@.contains_pair(
                                        cc,
                                        o,
                                    ) by {
                                        if o == var && cc == c as i32 {
                                        } else if o == var {
                                            assert(!forward@.contains_pair(o, cc));
                                            assert(!pre_r.contains_pair(cc, o)) by {
                                                if pre_r.contains_pair(cc, o) {
                                                    assert(pre_f.contains_pair(o, cc));
                                                }
                                            }
                                            assert(!re_index_mapping@.contains_pair(cc, o));
                                        } else if cc == c as i32 {
                                            assert(!re_index_mapping@.contains_pair(cc, o));
                                            assert(!pre_f.contains_pair(o, cc)) by {
                                                if pre_f.contains_pair(o, cc) {
                                                    assert(pre_r.contains_pair(cc, o));
                                                    assert(pre_r.contains_key(cc));
                                                }
                                            }
                                            assert(!forward@.contains_pair(o, cc));
                                        } else {
                                            assert(forward@.contains_pair(o, cc)
                                                <==> pre_f.contains_pair(o, cc));
                                            assert(re_index_mapping@.contains_pair(cc, o)
                                                <==> pre_r.contains_pair(cc, o));
                                        }
                                    }
                                    assert forall|cc: i32, oo: i32|
                                        #[trigger] re_index_mapping@.contains_pair(
                                        cc,
                                        oo,
                                    ) implies cc >= 1 && oo >= 1 && support_vars(
                                        spec_support(vs, rks, start),
                                    ).contains(oo) by {
                                        if cc != c as i32 {
                                            assert(pre_r.contains_pair(cc, oo));
                                        }
                                    }
                                }
                            }
                            lit_counter = lit_counter + 1;
                            c
                        },
                    };
                    let val: i128 = if lit > 0 {
                        re_index
                    } else {
                        -re_index
                    };
                    clause_var.set(index, val);
                    proof {
                        aux = aux.update(index as int, val as int);
                        lemma_tseitin_prefix_stable(nodes@, pre_aux, aux, index as int);
                        assert(node_clauses(nodes@[index as int], aux[index as int], aux)
                            =~= Seq::<Seq<int>>::empty());
                        assert(tseitin_clauses(nodes@, aux, index + 1) =~= tseitin_clauses(
                            nodes@,
                            aux,
                            index as int,
                        ));
                        assert(cls =~= tseitin_clauses(nodes@, aux, index + 1));
                        assert(gate_count(nodes@, index + 1) == gate_count(nodes@, index as int));
                        assert(aux_entry_ok(nodes@, aux, re_index_mapping@, vbase as int,
                            index as int)) by {
                            if re_index <= i32::MAX as i128 {
                                let cc = re_index as i32;
                                assert(re_index_mapping@.contains_pair(cc, spec_lit_var(lit)));
                                assert(aux[index as int] == (if lit > 0 {
                                    cc as int
                                } else {
                                    -(cc as int)
                                }));
                            } else {
                                assert(aux[index as int] > i32::MAX as int || aux[index as int]
                                    < -(i32::MAX as int));
                            }
                        }
                        assert forall|j: int|
                            0 <= j < index + 1 implies #[trigger] aux_entry_ok(
                            nodes@,
                            aux,
                            re_index_mapping@,
                            vbase as int,
                            j,
                        ) by {
                            if j < index {
                                assert(aux_entry_ok(nodes@, pre_aux, pre_inv, vbase as int, j));
                                assert(aux[j] == pre_aux[j]);
                                match nodes@[j].ntype {
                                    NodeType::Literal { literal: l2 } => {
                                        if exists|cc: i32|
                                            #[trigger] pre_inv.contains_pair(
                                                cc,
                                                spec_lit_var(l2),
                                            ) && pre_aux[j] == (if l2 > 0 {
                                                cc as int
                                            } else {
                                                -(cc as int)
                                            }) {
                                            let cc = choose|cc: i32|
                                                #[trigger] pre_inv.contains_pair(
                                                    cc,
                                                    spec_lit_var(l2),
                                                ) && pre_aux[j] == (if l2 > 0 {
                                                    cc as int
                                                } else {
                                                    -(cc as int)
                                                });
                                            assert(re_index_mapping@.contains_pair(
                                                cc,
                                                spec_lit_var(l2),
                                            ));
                                        }
                                    },
                                    _ => {},
                                }
                            }
                        }
                    }
                },
                NodeType::True | NodeType::False => {
                    proof {
                        assert(nodes@[index as int].ntype != NodeType::True
                            && nodes@[index as int].ntype != NodeType::False);
                        assert(false);
                    }
                },
            }
            index = index + 1;
        }
        // the root of the lowered subcircuit is asserted as a unit clause
        let ghost final_aux = aux;
        let mut unit: Vec<i128> = Vec::new();
        unit.push(clause_var[nodes.len() - 1]);
        proof {
            assert(unit@.map_values(|x: i128| x as int) =~= seq![aux[nodes@.len() - 1]]);
        }
        let line = clause_string(&unit);
        lines.push(line);
        proof {
            cls = cls.push(unit@.map_values(|x: i128| x as int));
            assert forall|i: int|
                0 <= i < cls.len() implies (#[trigger] lines@[i + 1])@ == spec_clause_chars(
                cls[i],
            ) by {
                if i < cls.len() - 1 {
                    assert(lines@[i + 1] == lines@.drop_last()[i + 1]);
                }
            }
        }
        // the extra clause, renumbered
        let ghost mut extra_spec: Seq<int> = Seq::empty();
        match clause {
            Some(c) => {
                let mut extra: Vec<i128> = Vec::new();
                let mut k: usize = 0;
                while k < c.len()
                    invariant
                        k <= c@.len(),
                        extra@.len() == k,
                        forall|kk: int|
                            0 <= kk < c@.len() ==> #[trigger] c@[kk] != 0 && c@[kk] != i32::MIN,
                        forall|o: i32, cc: i32|
                            #[trigger] forward@.contains_pair(o, cc)
                                <==> #[trigger] re_index_mapping@.contains_pair(cc, o),
                        forall|kk: int|
                            0 <= kk < k ==> ((exists|cc: i32|
                                #[trigger] re_index_mapping@.contains_pair(
                                    cc,
                                    spec_lit_var(c@[kk]),
                                ) && (#[trigger] extra@[kk]) as int == (if c@[kk] > 0 {
                                    cc as int
                                } else {
                                    -(cc as int)
                                })) || extra@[kk] as int == 0),
                        forall|cc: i32, oo: i32|
                            #[trigger] re_index_mapping@.contains_pair(cc, oo) ==> cc >= 1 && oo
                                >= 1,
                        forall|t: int|
                            0 <= t < extra@.len() ==> -(i32::MAX as i128) <= #[trigger] extra@[t]
                                <= i32::MAX as i128,
                    decreases c@.len() - k,
                {
                    let lit = c[k];
                    let var: i32 = if lit < 0 {
                        ((-(lit as i64)) as i32)
                    } else {
                        lit
                    };
                    proof {
                        assert(var == spec_lit_var(lit));
                    }
                    let mapped: i128 = match forward.get(&var) {
                        Some(cc) => {
                            proof {
                                assert(forward@.contains_pair(var, *cc));
                                assert(re_index_mapping@.contains_pair(*cc, var));
                            }
                            *cc as i128
                        },
                        None => 0,
                    };
                    let ghost pre_extra = extra@;
                    extra.push(if lit > 0 {
                        mapped
                    } else {
                        -mapped
                    });
                    proof {
                        assert forall|kk: int|
                            0 <= kk < k + 1 implies ((exists|cc: i32|
                            #[trigger] re_index_mapping@.contains_pair(cc, spec_lit_var(c@[kk]))
                                && (#[trigger] extra@[kk]) as int == (if c@[kk] > 0 {
                                cc as int
                            } else {
                                -(cc as int)
                            })) || extra@[kk] as int == 0) by {
                            if kk < k {
                                assert(extra@[kk] == pre_extra[kk]);
                            } else {
                                if mapped != 0 {
                                    assert(re_index_mapping@.contains_pair(
                                        mapped as i32,
                                        spec_lit_var(c@[kk]),
                                    ));
                                }
                            }
                        }
                    }
                    k = k + 1;
                }
                proof {
                    extra_spec = extra@.map_values(|x: i128| x as int);
                    assert(renumbered_clause(c@, re_index_mapping@, extra_spec)) by {
                        assert forall|kk: int|
                            0 <= kk < c@.len() implies ((exists|cc: i32|
                            #[trigger] re_index_mapping@.contains_pair(cc, spec_lit_var(c@[kk]))
                                && extra_spec[kk] == (if c@[kk] > 0 {
                                cc as int
                            } else {
                                -(cc as int)
                            })) || extra_spec[kk] == 0) by {
                            assert(extra_spec[kk] == extra@[kk] as int);
                        }
                    }
                }
                let line = clause_string(&extra);
                lines.push(line);
                proof {
                    cls = cls.push(extra_spec);
                    assert forall|i: int|
                        0 <= i < cls.len() implies (#[trigger] lines@[i + 1])@ == spec_clause_chars(
                        cls[i],
                    ) by {
                        if i < cls.len() - 1 {
                            assert(lines@[i + 1] == lines@.drop_last()[i + 1]);
                        }
                    }
                }
            },
            None => {},
        }
        // write the header over the placeholder
        let nclauses = lines.len() - 1;
        let header = header_string(counter - 1, nclauses as u64);
        lines.set(0, header);
        let result = (lines, re_index_mapping);
        proof {
            assert forall|i: int|
                0 <= i < cls.len() implies (#[trigger] result.0@[i + 1])@ == spec_clause_chars(
                cls[i],
            ) by {}
            assert(result.0@[0]@ == spec_header_chars(
                vbase as int + gate_count(nodes@, nodes@.len() as int),
                cls.len() as int,
            ));
            let ghost nlits: int = if lit_counter as int <= i32::MAX as int + 1 {
                lit_counter as int
            } else {
                i32::MAX as int + 1
            };
            assert(has_lowering(vs, nodes@, start));
            let em = choose|em: Seq<Option<usize>>| #[trigger] lowering_of(vs, em, nodes@, start);
            assert(tseitin_witness(
                vs,
                rks,
                start,
                result.0@,
                result.1@,
                match clause {
                    Some(c) => Some(c@),
                    None => None::<Seq<i32>>,
                },
                nodes@,
                em,
                final_aux,
                vbase as int,
                extra_spec,
                nlits,
            )) by {
                assert(aux == final_aux);
                assert(cls == (match clause {
                    Some(c) => tseitin_clauses(nodes@, final_aux, nodes@.len() as int).push(
                        seq![final_aux[nodes@.len() - 1]],
                    ).push(extra_spec),
                    None => tseitin_clauses(nodes@, final_aux, nodes@.len() as int).push(
                        seq![final_aux[nodes@.len() - 1]],
                    ),
                }));
                assert forall|c: i32|
                    (#[trigger] result.1@.contains_key(c)) <==> (1 <= (c as int) && (c as int)
                        < nlits) by {}
            }
            assert(tseitin_output_ok(vs, rks, start, result.0@, result.1@, match clause {
                Some(c) => Some(c@),
                None => None::<Seq<i32>>,
            }));
            assert forall|c1: i32, c2: i32, o: i32|
                #[trigger] result.1@.contains_pair(c1, o) && #[trigger] result.1@.contains_pair(
                c2,
                o,
            ) implies c1 == c2 by {
                assert(forward@.contains_pair(o, c1));
                assert(forward@.contains_pair(o, c2));
            }
        }
        result
    }

    /// The number of distinct variables in the support of `v`.
    fn count_support_vars(&self, v: usize) -> (r: usize)
        requires
            self.wf(),
            (v as int) < self.spec_vertices().len(),
        ensures
            r as int == support_vars(
                spec_support(self.spec_vertices(), self.spec_ranks(), v as int),
            ).len(),
    {
        let ghost full = spec_support(self.spec_vertices(), self.spec_ranks(), v as int);
        let sup = &self.supports[v];
        proof {
            assert(self.spec_support_of(v as int) == spec_support(
                self.spec_vertices(),
                self.spec_ranks(),
                v as int,
            ));
            assert(sup@.to_set() == full);
        }
        let mut vars: Vec<i32> = Vec::new();
        let mut i: usize = 0;
        proof {
            assert(sup@.take(0) =~= Seq::<i32>::empty());
            assert(Seq::<i32>::empty().to_set() =~= Set::<i32>::empty());
            assert(vars@.to_set() =~= support_vars(sup@.take(0).to_set())) by {
                assert forall|y: i32| !support_vars(Set::<i32>::empty()).contains(y) by {}
            }
        }
        while i < sup.len()
            invariant
                sup@.to_set() == full,
                i <= sup@.len(),
                vars@.no_duplicates(),
                vars@.to_set() == support_vars(sup@.take(i as int).to_set()),
            decreases sup@.len() - i,
        {
            let l = sup[i];
            #[verifier::truncate]
            let var: i32 = if l < 0 {
                (-(l as i64)) as i32
            } else {
                l
            };
            proof {
                assert(var == spec_lit_var(l));
            }
            let ghost pre = vars@;
            let ghost pre_set = sup@.take(i as int).to_set();
            if !vec_contains_i32(&vars, var) {
                vars.push(var);
                proof {
                    assert(vars@ =~= pre.push(var));
                    crate::data_structure::lemma_to_set_push(pre, var);
                    assert forall|p: int, q: int|
                        0 <= p < q < vars@.len() implies vars@[p] != vars@[q] || !(p != q) by {
                        if q == vars@.len() - 1 {
                            assert(pre[p] == vars@[p]);
                            assert(!pre.contains(var));
                        }
                    }
                    assert(vars@.no_duplicates());
                }
            } else {
                proof {
                    assert(pre.contains(var));
                    assert(vars@.to_set().contains(var));
                }
            }
            proof {
                assert(sup@.take(i + 1) =~= sup@.take(i as int).push(sup@[i as int]));
                crate::data_structure::lemma_to_set_push(sup@.take(i as int), sup@[i as int]);
                assert forall|y: i32|
                    support_vars(pre_set.insert(l)).contains(y) <==> support_vars(
                    pre_set,
                ).contains(y) || y == var by {
                    if support_vars(pre_set.insert(l)).contains(y) {
                        let w = choose|w: i32|
                            pre_set.insert(l).contains(w) && y == #[trigger] spec_lit_var(w);
                        if w != l {
                            assert(pre_set.contains(w));
                            assert(support_vars(pre_set).contains(y));
                        }
                    }
                    if support_vars(pre_set).contains(y) {
                        let w = choose|w: i32|
                            pre_set.contains(w) && y == #[trigger] spec_lit_var(w);
                        assert(pre_set.insert(l).contains(w));
                    }
                    if y == var {
                        assert(pre_set.insert(l).contains(l));
                        assert(spec_lit_var(l) == var);
                    }
                }
                assert(support_vars(pre_set.insert(l)) =~= support_vars(pre_set).insert(var));
                assert(vars@.to_set() =~= support_vars(sup@.take(i + 1).to_set()));
            }
            i = i + 1;
        }
        proof {
            assert(sup@.take(sup@.len() as int) =~= sup@);
            lemma_no_dup_len(vars@);
        }
        vars.len()
    }
}


/// An edge target after the rewire: the replaced vertex becomes the new
/// subroot, every other target is kept.
pub open spec fn retarget(rep: int, nr: usize, c: usize) -> usize {
    if c as int == rep {
        nr
    } else {
        c
    }
}

/// The host literal value a compiled literal is unified to: its variable
/// mapped back through the inverse renumber map when present, offset by one
/// million as a synthetic auxiliary otherwise, the sign kept.
pub open spec fn spliced_value(m: Map<i32, i32>, l: i32) -> int {
    let v = spec_lit_var(l);
    let base: int = if m.contains_key(v) {
        m[v] as int
    } else {
        v as int + 1_000_000
    };
    if l > 0 {
        base
    } else {
        -base
    }
}

/// The grown arena `fvs` is the old arena `ovs` with the compiled circuit
/// `cvs` grafted through the embedding `em` and every edge into `rep`
/// rewired to the image of the compiled root: old vertices keep kind and
/// literal with retargeted edges; a compiled literal maps to a vertex
/// carrying its spliced value; a compiled gate maps to one of the same kind
/// whose children are the retargeted images of its children.
pub open spec fn splice_ok(
    ovs: Seq<Vertex>,
    cvs: Seq<Vertex>,
    m: Map<i32, i32>,
    rep: int,
    croot: int,
    em: Seq<usize>,
    fvs: Seq<Vertex>,
) -> bool {
    &&& em.len() == cvs.len()
    &&& ovs.len() <= fvs.len()
    &&& 0 <= croot < cvs.len()
    &&& ({
        let nr = em[croot];
        &&& forall|v: int|
            0 <= v < ovs.len() ==> (#[trigger] fvs[v]).kind == ovs[v].kind && fvs[v].literal
                == ovs[v].literal && fvs[v].children@.len() == ovs[v].children@.len() && (forall|
                k: int,
            |
                0 <= k < ovs[v].children@.len() ==> fvs[v].children@[k] == retarget(
                    rep,
                    nr,
                    #[trigger] ovs[v].children@[k],
                ))
        &&& forall|sv: int|
            0 <= sv < cvs.len() ==> ((#[trigger] em[sv]) as int) < fvs.len() && (match cvs[sv].kind {
                VertexKind::Literal => fvs[em[sv] as int].kind == VertexKind::Literal && fvs[em[sv] as int].literal as int
                    == spliced_value(m, cvs[sv].literal),
                _ => fvs[em[sv] as int].kind == cvs[sv].kind && fvs[em[sv] as int].children@.len()
                    == cvs[sv].children@.len() && (forall|k: int|
                    0 <= k < cvs[sv].children@.len() ==> fvs[em[sv] as int].children@[k]
                        == retarget(rep, nr, em[(#[trigger] cvs[sv].children@[k]) as int])),
            })
    })
}

/// Some replaced vertex and embedding exhibit the final arena and root as
/// the splice of the compiled circuit into the old arena.
pub open spec fn spliced_from(
    ovs: Seq<Vertex>,
    cvs: Seq<Vertex>,
    m: Map<i32, i32>,
    croot: int,
    oroot: int,
    fvs: Seq<Vertex>,
    froot: int,
) -> bool {
    exists|rep: int, em: Seq<usize>|
        {
            &&& 0 <= rep < ovs.len()
            &&& #[trigger] splice_ok(ovs, cvs, m, rep, croot, em, fvs)
            &&& froot == (if rep == oroot {
                em[croot] as int
            } else {
                oroot
            })
        }
}

/// Whether the staged arena, rank witness and root satisfy the structural
/// well-formedness checks.
fn validate(vertices: &Vec<Vertex>, ranks: &Vec<u64>, root: usize) -> (r: bool)
    ensures
        r == graph_ok(vertices@, ranks@, root as int),
{
    if root >= vertices.len() {
        return false;
    }
    if ranks.len() != vertices.len() {
        return false;
    }
    let n = vertices.len();
    let mut v: usize = 0;
    while v < n
        invariant
            n == vertices@.len(),
            ranks@.len() == n,
            v <= n,
            forall|u: int| 0 <= u < v ==> vertex_ok(vertices@, u),
            forall|u: int| 0 <= u < v ==> (#[trigger] ranks@[u]) < u64::MAX,
            forall|u: int, k: int|
                0 <= u < v && 0 <= k < vertices@[u].children@.len() ==> ranks@[(
                #[trigger] vertices@[u].children@[k]) as int] < ranks@[u],
        decreases n - v,
    {
        let vx = &vertices[v];
        if ranks[v] == u64::MAX {
            return false;
        }
        let nc = vx.children.len();
        match vx.kind {
            VertexKind::And | VertexKind::Or => {
                if nc == 0 {
                    proof {
                        assert(!vertex_ok(vertices@, v as int));
                    }
                    return false;
                }
            },
            VertexKind::Literal => {
                if nc != 0 || vx.literal == 0 || vx.literal == i32::MIN {
                    proof {
                        assert(!vertex_ok(vertices@, v as int));
                    }
                    return false;
                }
            },
            VertexKind::True | VertexKind::False => {
                if nc != 0 {
                    proof {
                        assert(!vertex_ok(vertices@, v as int));
                    }
                    return false;
                }
            },
        }
        let mut k: usize = 0;
        while k < vx.children.len()
            invariant
                n == vertices@.len(),
                ranks@.len() == n,
                v < n,
                vx == &vertices@[v as int],
                k <= vx.children@.len(),
                forall|j: int| 0 <= j < k ==> (#[trigger] vx.children@[j]) < n,
                forall|j: int|
                    0 <= j < k ==> ranks@[(#[trigger] vx.children@[j]) as int] < ranks@[v as int],
            decreases vx.children@.len() - k,
        {
            let c = vx.children[k];
            if c >= n {
                proof {
                    assert(!vertex_ok(vertices@, v as int));
                }
                return false;
            }
            if ranks[c] >= ranks[v] {
                return false;
            }
            k = k + 1;
        }
        v = v + 1;
    }
    let mut a: usize = 0;
    while a < n
        invariant
            n == vertices@.len(),
            a <= n,
            forall|v1: int, v2: int|
                0 <= v1 < a && 0 <= v2 < n && v1 != v2 && (#[trigger] vertices@[v1]).kind
                    == VertexKind::Literal && (#[trigger] vertices@[v2]).kind
                    == VertexKind::Literal ==> vertices@[v1].literal != vertices@[v2].literal,
        decreases n - a,
    {
        if matches!(vertices[a].kind, VertexKind::Literal) {
            let mut b: usize = a + 1;
            while b < n
                invariant
                    n == vertices@.len(),
                    a < b,
                    b <= n,
                    vertices@[a as int].kind == VertexKind::Literal,
                    forall|v2: int|
                        a < v2 < b && (#[trigger] vertices@[v2]).kind == VertexKind::Literal
                            ==> vertices@[a as int].literal != vertices@[v2].literal,
                decreases n - b,
            {
                if matches!(vertices[b].kind, VertexKind::Literal) {
                    if vertices[b].literal == vertices[a].literal {
                        proof {
                            assert(!literals_unique(vertices@));
                        }
                        return false;
                    }
                }
                b = b + 1;
            }
        }
        a = a + 1;
    }
    true
}

impl IntermediateGraph {
    /// Conjoins a clause to the circuit: the subcircuit around the closest
    /// unsplittable And is replaced by the compiled replacement circuit,
    /// whose literal vertices are unified back into the host through the
    /// inverse renumber map; Tseitin auxiliaries get synthetic values offset
    /// by one million.  An empty clause leaves the graph unchanged, and a
    /// failing edit leaves the graph unchanged and reports its reason.
    pub fn add_clause(
        &mut self,
        clause: &[i32],
        re_indices: &HashMap<i32, i32>,
        compiled: &IntermediateGraph,
    ) -> (r: Result<(), GraphError>)
        requires
            old(self).wf(),
            compiled.wf(),
            fresh_ordered(compiled.spec_vertices()),
        ensures
            final(self).wf(),
            r is Err ==> *final(self) == *old(self),
            clause@.len() == 0 ==> r is Ok && *final(self) == *old(self),
            final(self).spec_vertices().len() >= old(self).spec_vertices().len(),
            r is Ok && clause@.len() > 0 ==> spliced_from(
                old(self).spec_vertices(),
                compiled.spec_vertices(),
                re_indices@,
                compiled.spec_root(),
                old(self).spec_root(),
                final(self).spec_vertices(),
                final(self).spec_root(),
            ),
    {
        if clause.len() == 0 {
            return Ok(());
        }
        let ghost ovs = old(self).spec_vertices();
        let ghost cvs = compiled.spec_vertices();
        let ghost m = re_indices@;
        let (replace, _sup) = self.closest_unsplitable_and(clause);
        // stage a working copy of the arena
        let mut vs2: Vec<Vertex> = Vec::new();
        let mut i: usize = 0;
        let n = self.vertices.len();
        while i < n
            invariant
                self.wf(),
                *self == *old(self),
                clause@.len() > 0,
                ovs == old(self).spec_vertices(),
                n == self.spec_vertices().len(),
                i <= n,
                vs2@.len() == i,
                forall|v: int|
                    0 <= v < i ==> (#[trigger] vs2@[v]).kind == ovs[v].kind && vs2@[v].literal
                        == ovs[v].literal && vs2@[v].children@ == ovs[v].children@,
            decreases n - i,
        {
            let vx = &self.vertices[i];
            let copied = clone_usizes(&vx.children);
            proof {
                assert(*self == *old(self));
                assert(self.vertices@ == old(self).vertices@);
                assert(self.vertices@[i as int] == ovs[i as int]);
                assert(copied@ == ovs[i as int].children@);
            }
            vs2.push(Vertex { kind: vx.kind, literal: vx.literal, children: copied });
            proof {
                assert forall|v: int|
                    0 <= v < i + 1 implies (#[trigger] vs2@[v]).kind == ovs[v].kind
                    && vs2@[v].literal == ovs[v].literal && vs2@[v].children@
                    == ovs[v].children@ by {
                    if v == i as int {
                        assert(vs2@[v] == vs2@.last());
                    } else {
                        assert(vs2@[v] == vs2@.drop_last()[v]);
                    }
                }
            }
            i = i + 1;
        }
        if replace >= n {
            return Err(GraphError::BadRoot);
        }
        // graft the compiled circuit, unifying literal vertices by value
        let m_count = compiled.vertices.len();
        let mut cache: Vec<usize> = Vec::new();
        let mut sv: usize = 0;
        while sv < m_count
            invariant
                self.wf(),
                *self == *old(self),
                clause@.len() > 0,
                ovs == old(self).spec_vertices(),
                m == re_indices@,
                n == self.spec_vertices().len(),
                compiled.wf(),
                fresh_ordered(cvs),
                cvs == compiled.spec_vertices(),
                m_count == cvs.len(),
                sv <= m_count,
                cache@.len() == sv,
                vs2@.len() >= n,
                forall|v: int|
                    0 <= v < n ==> (#[trigger] vs2@[v]).kind == ovs[v].kind && vs2@[v].literal
                        == ovs[v].literal && vs2@[v].children@ == ovs[v].children@,
                forall|j: int| 0 <= j < sv ==> (#[trigger] cache@[j]) < vs2@.len(),
                forall|j: int|
                    0 <= j < sv ==> (match cvs[j].kind {
                        VertexKind::Literal => vs2@[(#[trigger] cache@[j]) as int].kind
                            == VertexKind::Literal && vs2@[cache@[j] as int].literal as int
                            == spliced_value(m, cvs[j].literal),
                        _ => vs2@[(#[trigger] cache@[j]) as int].kind == cvs[j].kind
                            && vs2@[cache@[j] as int].children@.len() == cvs[j].children@.len()
                            && (forall|k: int|
                            0 <= k < cvs[j].children@.len() ==> vs2@[cache@[j] as int].children@[k]
                                == cache@[(#[trigger] cvs[j].children@[k]) as int]),
                    }),
            decreases m_count - sv,
        {
            let cx = &compiled.vertices[sv];
            proof {
                assert(vertex_ok(cvs, sv as int));
            }
            if matches!(cx.kind, VertexKind::Literal) {
                let lv = cx.literal;
                let cvar: i32 = if lv < 0 {
                    ((-(lv as i64)) as i32)
                } else {
                    lv
                };
                proof {
                    assert(cvar == spec_lit_var(lv));
                }
                let target: i64 = match re_indices.get(&cvar) {
                    Some(o) => {
                        // a real original variable: reuse its vertex
                        proof {
                            assert(vstd::std_specs::hash::obeys_key_model::<i32>());
                            assert(re_indices@.contains_pair(cvar, *o));
                            assert(m == re_indices@);
                            assert(m.contains_key(cvar) && m[cvar] == *o);
                        }
                        if lv > 0 {
                            *o as i64
                        } else {
                            -(*o as i64)
                        }
                    },
                    None => {
                        // a Tseitin auxiliary: a synthetic offset value
                        proof {
                            assert(vstd::std_specs::hash::obeys_key_model::<i32>());
                            assert(!re_indices@.contains_key(cvar));
                            assert(m == re_indices@);
                            assert(!m.contains_key(cvar));
                        }
                        if lv > 0 {
                            lv as i64 + 1_000_000i64
                        } else {
                            lv as i64 - 1_000_000i64
                        }
                    },
                };
                proof {
                    assert(target as int == spliced_value(m, lv));
                }
                if target == 0 || target > i32::MAX as i64 || target < -(i32::MAX as i64) {
                    return Err(GraphError::SyntheticCollision);
                }
                let t = target as i32;
                let found = find_literal(&vs2, t);
                match found {
                    Some(existing) => {
                        cache.push(existing);
                    },
                    None => {
                        let idx = vs2.len();
                        vs2.push(Vertex { kind: VertexKind::Literal, literal: t, children: Vec::new() });
                        cache.push(idx);
                    },
                }
            } else {
                let mut mapped: Vec<usize> = Vec::new();
                let mut k: usize = 0;
                while k < cx.children.len()
                    invariant
                        sv < m_count,
                        m_count == cvs.len(),
                        cx == &cvs[sv as int],
                        fresh_ordered(cvs),
                        cache@.len() == sv,
                        k <= cx.children@.len(),
                        mapped@.len() == k,
                        vs2@.len() >= n,
                        forall|j: int| 0 <= j < sv ==> (#[trigger] cache@[j]) < vs2@.len(),
                        forall|j: int|
                            0 <= j < k ==> (#[trigger] mapped@[j]) == cache@[cvs[sv as int].children@[j] as int],
                        forall|j: int| 0 <= j < k ==> (#[trigger] mapped@[j]) < vs2@.len(),
                    decreases cx.children@.len() - k,
                {
                    let c = cx.children[k];
                    proof {
                        assert(cvs[sv as int].children@[k as int] < sv);
                    }
                    mapped.push(cache[c]);
                    k = k + 1;
                }
                let idx = vs2.len();
                vs2.push(Vertex { kind: cx.kind, literal: 0, children: mapped });
                cache.push(idx);
            }
            sv = sv + 1;
        }
        if m_count == 0 {
            return Err(GraphError::BadRoot);
        }
        let compiled_root = compiled.root();
        proof {
            assert(0 <= compiled.spec_root() < m_count);
        }
        let r_new = cache[compiled_root];
        // rewire every edge into the replaced vertex
        let ghost pre_rewire = vs2@;
        let total = vs2.len();
        let mut u: usize = 0;
        while u < total
            invariant
                self.wf(),
                *self == *old(self),
                clause@.len() > 0,
                ovs == old(self).spec_vertices(),
                m == re_indices@,
                cvs == compiled.spec_vertices(),
                n == self.spec_vertices().len(),
                u <= total,
                total == vs2@.len(),
                total >= n,
                pre_rewire.len() == total,
                (r_new as int) < total,
                forall|v: int|
                    0 <= v < u ==> (#[trigger] vs2@[v]).kind == pre_rewire[v].kind
                        && vs2@[v].literal == pre_rewire[v].literal && vs2@[v].children@.len()
                        == pre_rewire[v].children@.len() && (forall|k: int|
                        0 <= k < pre_rewire[v].children@.len() ==> vs2@[v].children@[k] == retarget(
                            replace as int,
                            r_new,
                            #[trigger] pre_rewire[v].children@[k],
                        )),
                forall|v: int| u <= v < total ==> #[trigger] vs2@[v] == pre_rewire[v],
            decreases total - u,
        {
            let ghost pre2 = vs2@;
            let mut nd = vs2.remove(u);
            proof {
                assert(nd == pre_rewire[u as int]);
            }
            let ghost nd_children = nd.children@;
            let mut k: usize = 0;
            while k < nd.children.len()
                invariant
                    k <= nd.children@.len(),
                    nd.children@.len() == nd_children.len(),
                    nd.kind == pre_rewire[u as int].kind,
                    nd.literal == pre_rewire[u as int].literal,
                    nd_children == pre_rewire[u as int].children@,
                    (r_new as int) < total,
                    forall|kk: int|
                        0 <= kk < k ==> (#[trigger] nd.children@[kk]) == retarget(
                            replace as int,
                            r_new,
                            nd_children[kk],
                        ),
                    forall|kk: int|
                        k <= kk < nd.children@.len() ==> (#[trigger] nd.children@[kk])
                            == nd_children[kk],
                decreases nd.children@.len() - k,
            {
                if nd.children[k] == replace {
                    nd.children.set(k, r_new);
                }
                k = k + 1;
            }
            vs2.insert(u, nd);
            proof {
                assert(vs2@.len() == pre2.len());
                assert forall|v: int| 0 <= v < total && v != u implies vs2@[v] == pre2[v] by {
                    if v < u {
                    } else {
                        assert(vs2@[v] == pre2.remove(u as int)[v - 1]);
                    }
                }
            }
            u = u + 1;
        }
        let root2: usize = if replace == self.root {
            r_new
        } else {
            self.root
        };
        // fresh ranks: sinks at zero, grafted vertices low, old gates lifted
        let fresh = total - n;
        if fresh as u64 >= u64::MAX - 2 {
            return Err(GraphError::RankOverflow);
        }
        let mut ranks2: Vec<u64> = Vec::new();
        let mut w: usize = 0;
        while w < total
            invariant
                self.wf(),
                *self == *old(self),
                clause@.len() > 0,
                ovs == old(self).spec_vertices(),
                m == re_indices@,
                cvs == compiled.spec_vertices(),
                n == self.spec_vertices().len(),
                w <= total,
                total == vs2@.len(),
                ranks2@.len() == w,
                total >= n,
                fresh == total - n,
                (fresh as u64) < u64::MAX - 2,
            decreases total - w,
        {
            let rk: u64 = if vs2[w].children.len() == 0 {
                0
            } else if w >= n {
                1 + (w - n) as u64
            } else {
                let base = self.ranks[w];
                if base >= u64::MAX - 2 - (fresh as u64) {
                    return Err(GraphError::RankOverflow);
                }
                fresh as u64 + 2 + base
            };
            ranks2.push(rk);
            w = w + 1;
        }
        // the grown graph must pass the same checks as a parsed one
        if !validate(&vs2, &ranks2, root2) {
            return Err(GraphError::NotTopological);
        }
        let ghost fvs = vs2@;
        proof {
            // the staged arena is the splice of the compiled circuit
            assert(splice_ok(ovs, cvs, m, replace as int, compiled.spec_root(), cache@, fvs)) by {
                let nr = cache@[compiled.spec_root()];
                assert(nr == r_new);
                assert forall|v: int|
                    0 <= v < ovs.len() implies (#[trigger] fvs[v]).kind == ovs[v].kind
                    && fvs[v].literal == ovs[v].literal && fvs[v].children@.len()
                    == ovs[v].children@.len() && (forall|k: int|
                    0 <= k < ovs[v].children@.len() ==> fvs[v].children@[k] == retarget(
                        replace as int,
                        nr,
                        #[trigger] ovs[v].children@[k],
                    )) by {
                    assert(pre_rewire[v].kind == ovs[v].kind);
                    assert(pre_rewire[v].children@ == ovs[v].children@);
                }
                assert forall|s2: int|
                    0 <= s2 < cvs.len() implies ((#[trigger] cache@[s2]) as int) < fvs.len() && (
                match cvs[s2].kind {
                    VertexKind::Literal => fvs[cache@[s2] as int].kind == VertexKind::Literal
                        && fvs[cache@[s2] as int].literal as int == spliced_value(
                        m,
                        cvs[s2].literal,
                    ),
                    _ => fvs[cache@[s2] as int].kind == cvs[s2].kind && fvs[cache@[s2] as int].children@.len()
                        == cvs[s2].children@.len() && (forall|k: int|
                        0 <= k < cvs[s2].children@.len() ==> fvs[cache@[s2] as int].children@[k]
                            == retarget(
                            replace as int,
                            nr,
                            cache@[(#[trigger] cvs[s2].children@[k]) as int],
                        )),
                }) by {
                    let t = cache@[s2] as int;
                    assert(fvs[t].kind == pre_rewire[t].kind);
                    assert(fvs[t].literal == pre_rewire[t].literal);
                    match cvs[s2].kind {
                        VertexKind::Literal => {},
                        _ => {
                            assert(pre_rewire[t].children@.len() == cvs[s2].children@.len());
                            assert forall|k: int|
                                0 <= k < cvs[s2].children@.len() implies fvs[t].children@[k]
                                == retarget(
                                replace as int,
                                nr,
                                cache@[(#[trigger] cvs[s2].children@[k]) as int],
                            ) by {
                                assert(pre_rewire[t].children@[k]
                                    == cache@[cvs[s2].children@[k] as int]);
                                assert(fvs[t].children@[k] == retarget(
                                    replace as int,
                                    nr,
                                    pre_rewire[t].children@[k],
                                ));
                            }
                        },
                    }
                }
            }
        }
        self.vertices = vs2;
        self.ranks = ranks2;
        self.root = root2;
        self.recompute_supports();
        proof {
            assert(final(self).spec_vertices() == fvs);
            assert(splice_ok(ovs, cvs, m, replace as int, compiled.spec_root(), cache@,
                self.spec_vertices()));
            assert(self.spec_root() == (if replace as int == old(self).spec_root() {
                cache@[compiled.spec_root()] as int
            } else {
                old(self).spec_root()
            }));
            assert(spliced_from(ovs, cvs, m, compiled.spec_root(), old(self).spec_root(),
                self.spec_vertices(), self.spec_root()));
        }
        Ok(())
    }
}

/// The index of the literal vertex carrying the given value, if any.
fn find_literal(vs: &Vec<Vertex>, value: i32) -> (r: Option<usize>)
    ensures
        match r {
            Some(i) => (i as int) < vs@.len() && vs@[i as int].kind == VertexKind::Literal
                && vs@[i as int].literal == value,
            None => true,
        },
{
    let mut i: usize = 0;
    while i < vs.len()
        invariant
            i <= vs@.len(),
        decreases vs@.len() - i,
    {
        if matches!(vs[i].kind, VertexKind::Literal) {
            if vs[i].literal == value {
                return Some(i);
            }
        }
        i = i + 1;
    }
    None
}

impl IntermediateGraph {
    /// Whether no constant (True or False) vertex sits at or below `v`: the
    /// precondition of the Tseitin emission, which callers test first.
    pub fn subcircuit_free_of_constants(&self, v: usize) -> (r: bool)
        requires
            self.wf(),
            (v as int) < self.spec_vertices().len(),
        ensures
            r == forall|u: int|
                0 <= u < self.spec_vertices().len() && #[trigger] spec_descendants(
                    self.spec_vertices(),
                    self.spec_ranks(),
                    v as int,
                ).contains(u) ==> self.spec_vertices()[u].kind != VertexKind::True
                    && self.spec_vertices()[u].kind != VertexKind::False,
    {
        let ghost vs = self.spec_vertices();
        let ghost rks = self.spec_ranks();
        let n = self.vertices.len();
        let mut visited: Vec<bool> = Vec::new();
        let mut i: usize = 0;
        while i < n
            invariant
                i <= n,
                visited@.len() == i,
                forall|u: int| 0 <= u < i ==> !visited@[u],
            decreases n - i,
        {
            visited.push(false);
            i = i + 1;
        }
        proof {
            assert forall|u: int|
                0 <= u < visited@.len() && visited@[u] implies rks[u] > rks[v as int]
                || spec_descendants(vs, rks, u).subset_of(visited_set(visited@)) by {}
        }
        self.mark_rec(v, &mut visited);
        proof {
            assert forall|u: int|
                0 <= u < vs.len() implies (visited@[u] <==> spec_descendants(
                vs,
                rks,
                v as int,
            ).contains(u)) by {
                if visited@[u] {
                    assert(visited_set(visited@).contains(u));
                }
                if spec_descendants(vs, rks, v as int).contains(u) {
                    assert(visited_set(visited@).contains(u));
                }
            }
        }
        let mut u: usize = 0;
        while u < n
            invariant
                self.wf(),
                vs == self.spec_vertices(),
                rks == self.spec_ranks(),
                (v as int) < vs.len(),
                n == vs.len(),
                u <= n,
                visited@.len() == n,
                forall|w: int|
                    0 <= w < vs.len() ==> (#[trigger] visited@[w] <==> spec_descendants(
                        vs,
                        rks,
                        v as int,
                    ).contains(w)),
                forall|w: int|
                    0 <= w < u && spec_descendants(vs, rks, v as int).contains(w) ==> (
                    #[trigger] vs[w].kind) != VertexKind::True && vs[w].kind != VertexKind::False,
            decreases n - u,
        {
            if visited[u] {
                if matches!(self.vertices[u].kind, VertexKind::True) || matches!(
                    self.vertices[u].kind,
                    VertexKind::False,
                ) {
                    proof {
                        assert(spec_descendants(vs, rks, v as int).contains(u as int));
                    }
                    return false;
                }
            }
            u = u + 1;
        }
        true
    }
}

} // verus!
