use crate::counter::Integer;
use vstd::prelude::*;

verus! {

/// One record of the linearized circuit: the node kind with its cached
/// cardinality, two scratch cardinality slots for query machinery, the
/// redundant parent back-edges, and a transient marker.
#[derive(Debug, Clone, PartialEq)]
pub struct Node {
    pub marker: bool,
    /// The cardinality of the node for the cardinality of a feature model.
    pub count: Integer,
    /// The cardinality during the different queries.
    pub temp: Integer,
    /// The partial derivative during the different queries.
    pub partial_derivative: Integer,
    /// Every node except the root has (multiple) parent nodes.
    pub parents: Vec<usize>,
    /// The different kinds of nodes with their additional fields.
    pub ntype: NodeType,
}

/// The kind of a linearized node; children are indices into the node array.
#[derive(Debug, Clone, PartialEq)]
pub enum NodeType {
    /// The cardinality of an And node is always the product of its children.
    And { children: Vec<usize> },
    /// The cardinality of an Or node is the sum of its children.
    Or { children: Vec<usize> },
    /// The cardinality is one if not declared otherwise due to some query.
    Literal { literal: i32 },
    /// The cardinality is one.
    True,
    /// The cardinality is zero.
    False,
}

/// The child index list of a node kind; leaves have none.
pub open spec fn node_children(nt: NodeType) -> Seq<usize> {
    match nt {
        NodeType::And { children } => children@,
        NodeType::Or { children } => children@,
        _ => Seq::empty(),
    }
}

/// The product of a sequence of naturals; the empty product is one.
pub open spec fn seq_product(s: Seq<nat>) -> nat
    decreases s.len(),
{
    if s.len() == 0 {
        1
    } else {
        seq_product(s.take(s.len() - 1)) * s[s.len() - 1]
    }
}

/// The sum of a sequence of naturals; the empty sum is zero.
pub open spec fn seq_sum(s: Seq<nat>) -> nat
    decreases s.len(),
{
    if s.len() == 0 {
        0
    } else {
        seq_sum(s.take(s.len() - 1)) + s[s.len() - 1]
    }
}

/// The cardinalities of the nodes selected by `idxs`.
pub open spec fn counts_of(nodes: Seq<Node>, idxs: Seq<usize>) -> Seq<nat> {
    idxs.map_values(|c: usize| nodes[c as int].count@)
}

/// The cardinality law of the linearized form: an And node's count is the
/// product of its children's counts, an Or node's count is their sum, a
/// Literal or True node counts one, and a False node counts zero.
pub open spec fn cardinality_ok(nodes: Seq<Node>, i: int) -> bool {
    match nodes[i].ntype {
        NodeType::And { children } => nodes[i].count@ == seq_product(
            counts_of(nodes, children@),
        ),
        NodeType::Or { children } => nodes[i].count@ == seq_sum(counts_of(nodes, children@)),
        NodeType::Literal { literal } => nodes[i].count@ == 1,
        NodeType::True => nodes[i].count@ == 1,
        NodeType::False => nodes[i].count@ == 0,
    }
}

impl Node {
    /// Creates a new node with cleared scratch slots and no parents.
    pub fn new_node(count: Integer, ntype: NodeType) -> (r: Node)
        ensures
            r.marker == false,
            r.count == count,
            r.temp@ == 0,
            r.partial_derivative@ == 0,
            r.parents@ == Seq::<usize>::empty(),
            r.ntype == ntype,
    {
        Node {
            marker: false,
            count,
            temp: Integer::zero(),
            partial_derivative: Integer::zero(),
            parents: Vec::new(),
            ntype,
        }
    }

    /// Creates a new And node.
    pub fn new_and(count: Integer, children: Vec<usize>) -> (r: Node)
        ensures
            r.marker == false,
            r.count == count,
            r.temp@ == 0,
            r.partial_derivative@ == 0,
            r.parents@ == Seq::<usize>::empty(),
            r.ntype == (NodeType::And { children }),
    {
        Node::new_node(count, NodeType::And { children })
    }

    /// Creates a new Or node.
    pub fn new_or(_decision_var: u32, count: Integer, children: Vec<usize>) -> (r: Node)
        ensures
            r.marker == false,
            r.count == count,
            r.temp@ == 0,
            r.partial_derivative@ == 0,
            r.parents@ == Seq::<usize>::empty(),
            r.ntype == (NodeType::Or { children }),
    {
        Node::new_node(count, NodeType::Or { children })
    }

    /// Creates a new Literal node; its cardinality is one.
    pub fn new_literal(literal: i32) -> (r: Node)
        ensures
            r.marker == false,
            r.count@ == 1,
            r.temp@ == 0,
            r.partial_derivative@ == 0,
            r.parents@ == Seq::<usize>::empty(),
            r.ntype == (NodeType::Literal { literal }),
    {
        Node::new_node(Integer::from(1), NodeType::Literal { literal })
    }

    /// Creates either a new True or False node, counting one or zero.
    pub fn new_bool(b: bool) -> (r: Node)
        ensures
            r.marker == false,
            r.count@ == (if b {
                1nat
            } else {
                0nat
            }),
            r.temp@ == 0,
            r.partial_derivative@ == 0,
            r.parents@ == Seq::<usize>::empty(),
            r.ntype == (if b {
                NodeType::True
            } else {
                NodeType::False
            }),
    {
        if b {
            Node::new_node(Integer::from(1), NodeType::True)
        } else {
            Node::new_node(Integer::zero(), NodeType::False)
        }
    }
}

/// The product of the cardinalities of the nodes selected by `indices`.
pub fn calc_and_count(nodes: &Vec<Node>, indices: &Vec<usize>) -> (r: Integer)
    requires
        forall|k: int| 0 <= k < indices@.len() ==> indices@[k] < nodes@.len(),
    ensures
        r@ == seq_product(counts_of(nodes@, indices@)),
{
    let mut acc = Integer::from(1);
    let mut i: usize = 0;
    proof {
        assert(counts_of(nodes@, indices@).take(0) =~= Seq::<nat>::empty());
    }
    while i < indices.len()
        invariant
            i <= indices@.len(),
            forall|k: int| 0 <= k < indices@.len() ==> indices@[k] < nodes@.len(),
            acc@ == seq_product(counts_of(nodes@, indices@).take(i as int)),
        decreases indices@.len() - i,
    {
        acc = acc.mul(&nodes[indices[i]].count);
        proof {
            let cs = counts_of(nodes@, indices@);
            assert(cs.take(i + 1).take(i as int) =~= cs.take(i as int));
            assert(seq_product(cs.take(i + 1)) == seq_product(cs.take(i as int)) * cs[i as int]);
        }
        i = i + 1;
    }
    proof {
        assert(counts_of(nodes@, indices@).take(indices@.len() as int) =~= counts_of(
            nodes@,
            indices@,
        ));
    }
    acc
}

/// The sum of the cardinalities of the nodes selected by `indices`.
pub fn calc_or_count(nodes: &Vec<Node>, indices: &Vec<usize>) -> (r: Integer)
    requires
        forall|k: int| 0 <= k < indices@.len() ==> indices@[k] < nodes@.len(),
    ensures
        r@ == seq_sum(counts_of(nodes@, indices@)),
{
    let mut acc = Integer::zero();
    let mut i: usize = 0;
    proof {
        assert(counts_of(nodes@, indices@).take(0) =~= Seq::<nat>::empty());
    }
    while i < indices.len()
        invariant
            i <= indices@.len(),
            forall|k: int| 0 <= k < indices@.len() ==> indices@[k] < nodes@.len(),
            acc@ == seq_sum(counts_of(nodes@, indices@).take(i as int)),
        decreases indices@.len() - i,
    {
        acc = acc.add(&nodes[indices[i]].count);
        proof {
            let cs = counts_of(nodes@, indices@);
            assert(cs.take(i + 1).take(i as int) =~= cs.take(i as int));
            assert(seq_sum(cs.take(i + 1)) == seq_sum(cs.take(i as int)) + cs[i as int]);
        }
        i = i + 1;
    }
    proof {
        assert(counts_of(nodes@, indices@).take(indices@.len() as int) =~= counts_of(
            nodes@,
            indices@,
        ));
    }
    acc
}

} // verus!
