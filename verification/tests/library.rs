use ddnnf_lib::counter::Integer;
use ddnnf_lib::data_structure::{Config, Sample};
use ddnnf_lib::intermediate_representation::{GraphError, IntermediateGraph, Vertex, VertexKind};
use ddnnf_lib::node::{Node, NodeType};
use std::collections::HashMap;
use std::collections::HashSet;

fn lit(v: i32) -> Vertex {
    Vertex { kind: VertexKind::Literal, literal: v, children: vec![] }
}

fn and(children: Vec<usize>) -> Vertex {
    Vertex { kind: VertexKind::And, literal: 0, children }
}

fn or(children: Vec<usize>) -> Vertex {
    Vertex { kind: VertexKind::Or, literal: 0, children }
}

/// The two-branch circuit (1 and 2) or (-1 and -2): two models.
fn small_circuit() -> IntermediateGraph {
    let vs = vec![
        lit(1),
        lit(2),
        and(vec![0, 1]),
        lit(-1),
        lit(-2),
        and(vec![3, 4]),
        or(vec![2, 5]),
    ];
    IntermediateGraph::new(vs, 6).unwrap()
}

#[test]
fn build_nodes() {
    assert_eq!(
        Node::new_and(Integer::from(42), vec![1, 5, 10]),
        Node {
            marker: false,
            count: Integer::from(42),
            temp: Integer::zero(),
            partial_derivative: Integer::zero(),
            parents: vec![],
            ntype: NodeType::And { children: vec![1, 5, 10] }
        }
    );
    assert_eq!(
        Node::new_node(
            Integer::from(42),
            NodeType::And { children: vec![1, 5, 10] }
        ),
        Node {
            marker: false,
            count: Integer::from(42),
            temp: Integer::zero(),
            partial_derivative: Integer::zero(),
            parents: vec![],
            ntype: NodeType::And { children: vec![1, 5, 10] }
        }
    );
    assert_eq!(
        Node::new_or(42, Integer::from(42), vec![1, 5, 10]),
        Node {
            marker: false,
            count: Integer::from(42),
            temp: Integer::zero(),
            partial_derivative: Integer::zero(),
            parents: vec![],
            ntype: NodeType::Or { children: vec![1, 5, 10] }
        }
    );
    assert_eq!(
        Node::new_literal(42),
        Node {
            marker: false,
            count: Integer::from(1),
            temp: Integer::zero(),
            partial_derivative: Integer::zero(),
            parents: vec![],
            ntype: NodeType::Literal { literal: 42 }
        }
    );
    assert_eq!(
        Node::new_bool(true),
        Node {
            marker: false,
            count: Integer::from(1),
            temp: Integer::zero(),
            partial_derivative: Integer::zero(),
            parents: vec![],
            ntype: NodeType::True
        }
    );
    assert_eq!(
        Node::new_bool(false),
        Node {
            marker: false,
            count: Integer::from(0),
            temp: Integer::zero(),
            partial_derivative: Integer::zero(),
            parents: vec![],
            ntype: NodeType::False
        }
    );
}

#[test]
fn test_sample_covering() {
    let mut sample = Sample::new_with_literals(
        HashSet::from([1, 2, 3, 4, 5]),
        HashSet::from([1, 2, 3, -4, -5]),
    );
    sample.add_complete(Config::from(&[1, 2, 3, -4, -5]));

    let covered_interaction = vec![1, 2, -4];
    assert!(sample.covers(&covered_interaction));

    let uncovered_interaction = vec![1, 2, 4];
    assert!(!sample.covers(&uncovered_interaction));
}

#[test]
fn counter_arithmetic() {
    let a = Integer::from(1_000_000_007);
    let b = Integer::from(998_244_353);
    assert_eq!(a.add(&b), Integer::from(1_000_000_007 + 998_244_353));
    assert_eq!(
        Integer::from(65535).mul(&Integer::from(65537)),
        Integer::from(65535u64 * 65537u64)
    );
    assert_eq!(Integer::from(0), Integer::zero());
    assert!(Integer::zero().is_zero());
    assert!(!Integer::from(2).is_zero());
    // doubling past the machine word keeps counting exactly
    let mut big = Integer::from(1);
    for _ in 0..70 {
        big = big.mul(&Integer::from(2));
    }
    let mut expected = Integer::from(u64::MAX);
    expected = expected.add(&Integer::from(1)); // 2^64
    expected = expected.mul(&Integer::from(64)); // 2^70
    assert_eq!(big, expected);
}

#[test]
fn rebuild_counts_models() {
    let g = small_circuit();
    let (nodes, literal_index, true_nodes) = g.rebuild(None);
    assert_eq!(nodes.len(), 7);
    assert!(true_nodes.is_empty());
    // the root cardinality equals the model count of the circuit
    assert_eq!(nodes.last().unwrap().count, Integer::from(2));
    // every literal is indexed
    for v in [1, 2, -1, -2] {
        let i = *literal_index.get(&v).unwrap();
        assert_eq!(nodes[i].ntype, NodeType::Literal { literal: v });
    }
    // children sit strictly below their parents
    for (i, nd) in nodes.iter().enumerate() {
        match &nd.ntype {
            NodeType::And { children } | NodeType::Or { children } => {
                for &c in children {
                    assert!(c < i);
                }
            }
            _ => {}
        }
    }
}

#[test]
fn graph_construction_rejects_bad_input() {
    // a cycle cannot be written in child-before-parent order
    let vs = vec![lit(1), and(vec![1])];
    assert_eq!(IntermediateGraph::new(vs, 1).err(), Some(GraphError::NotTopological));
    let vs = vec![lit(1), lit(1), and(vec![0, 1])];
    assert_eq!(IntermediateGraph::new(vs, 2).err(), Some(GraphError::DuplicateLiteral));
    let vs = vec![lit(0)];
    assert_eq!(IntermediateGraph::new(vs, 0).err(), Some(GraphError::BadVertex));
}

#[test]
fn closest_unsplittable_and() {
    let mut g = small_circuit();
    // empty clause: the sentinel
    let (v0, s0) = g.closest_unsplitable_and(&[]);
    assert_eq!(v0, 0);
    assert!(s0.is_empty());
    // clause over 1: only the left And contains it
    let (v1, mut s1) = g.closest_unsplitable_and(&[1]);
    assert_eq!(v1, 2);
    s1.sort();
    assert_eq!(s1, vec![1, 2]);
    // clause over -2: only the right And
    let (v2, mut s2) = g.closest_unsplitable_and(&[-2]);
    assert_eq!(v2, 5);
    s2.sort();
    assert_eq!(s2, vec![-2, -1]);
}

#[test]
fn from_ddnnf_to_cnf() {
    let g = small_circuit();
    let (lines, re_indices) = g.transform_to_cnf(g.root(), None);
    assert!(lines[0].starts_with("p cnf "));
    for line in lines.iter().skip(1) {
        assert!(line.ends_with("0\n"));
    }
    // the header declares the clause count
    let header: Vec<&str> = lines[0].trim_end().split(' ').collect();
    let nclauses: usize = header[3].parse().unwrap();
    assert_eq!(nclauses, lines.len() - 1);
    // compact ids map back to original variables 1 and 2
    let mut originals: Vec<i32> = re_indices.values().cloned().collect();
    originals.sort();
    assert_eq!(originals, vec![1, 2]);
}

#[test]
fn empty_clause_insertion_is_identity() {
    let mut g = small_circuit();
    let before = g.rebuild(None).0.last().unwrap().count.clone();
    let compiled = IntermediateGraph::new(vec![lit(7)], 0).unwrap();
    let map: HashMap<i32, i32> = HashMap::new();
    assert!(g.add_clause(&[], &map, &compiled).is_ok());
    let after = g.rebuild(None).0.last().unwrap().count.clone();
    assert_eq!(before, after);
}

#[test]
fn unsatisfiable_insertion_gives_zero_count() {
    let mut g = small_circuit();
    // the external compiler would return an unsatisfiable (False) circuit
    // for either branch once both polarities of variable 1 are conjoined
    let false_circuit =
        || IntermediateGraph::new(vec![Vertex { kind: VertexKind::False, literal: 0, children: vec![] }], 0).unwrap();
    let map: HashMap<i32, i32> = HashMap::new();
    assert!(g.add_clause(&[1], &map, &false_circuit()).is_ok());
    assert!(g.add_clause(&[-1], &map, &false_circuit()).is_ok());
    let (nodes, _, _) = g.rebuild(None);
    assert!(nodes.last().unwrap().count.is_zero());
    assert_eq!(nodes.last().unwrap().count, Integer::zero());
}

#[test]
fn incremental_insertion_unifies_literals() {
    let mut g = small_circuit();
    let n_before = g.vertex_count();
    // the compiler returns the branch circuit (1 and 2) with compact ids 1, 2
    let compiled = IntermediateGraph::new(vec![lit(1), lit(2), and(vec![0, 1])], 2).unwrap();
    let mut map: HashMap<i32, i32> = HashMap::new();
    map.insert(1, 1);
    map.insert(2, 2);
    assert!(g.add_clause(&[1], &map, &compiled).is_ok());
    // the literal vertices were reused, only the And is fresh
    assert_eq!(g.vertex_count(), n_before + 1);
    let (nodes, _, _) = g.rebuild(None);
    assert_eq!(nodes.last().unwrap().count, Integer::from(2));
}

#[test]
fn config_extend_sorts_and_dedups() {
    let mut c = Config::from(&[5, 1, 3]);
    c.extend(&[3, -2, 5, 7]);
    assert_eq!(c.get_literals(), &[-2, 1, 3, 5, 7]);
    assert!(c.covers(&[1, 7]));
    assert!(c.conflicts_with(&[2]));
    assert!(!c.conflicts_with(&[1]));
}

#[test]
fn sample_classifies_configs() {
    let mut sample = Sample::new(HashSet::from([1, 2]));
    sample.add(Config::from(&[1, 2]));
    sample.add(Config::from(&[-1]));
    assert_eq!(sample.complete_configs.len(), 1);
    assert_eq!(sample.partial_configs.len(), 1);
    assert_eq!(sample.len(), 2);
    assert!(!sample.is_empty());
    let all = sample.iter();
    assert_eq!(all[0].get_literals(), &[1, 2]);
    let with_completeness = sample.iter_with_completeness();
    assert_eq!(with_completeness[0].1, true);
    assert_eq!(with_completeness[1].1, false);
    assert!(sample.get_literals().contains(&-1));
    let single = Sample::from_literal(-3);
    assert_eq!(single.complete_configs.len(), 1);
    let joined = Sample::new_from_samples(&[&sample, &single]);
    assert!(joined.is_empty());
    let both = Config::from_disjoint(&Config::from(&[1]), &Config::from(&[2]));
    assert_eq!(both.get_literals(), &[1, 2]);
    let from_configs = Sample::new_from_configs(vec![Config::from(&[1, -2]), Config::from(&[1])]);
    assert_eq!(from_configs.complete_configs.len(), 1);
    assert_eq!(from_configs.partial_configs.len(), 1);
}

#[test]
fn config_sat_state_cache() {
    let mut c = Config::from(&[3]);
    assert!(c.get_sat_state().is_none());
    assert!(!c.is_sat_state_complete());
    c.update_sat_state(vec![true, false]);
    assert_eq!(c.sat_state, Some(vec![true, false]));
    assert!(c.is_sat_state_complete());
    // a complete cache is kept
    c.update_sat_state(vec![false]);
    assert_eq!(c.sat_state, Some(vec![true, false]));
    c.set_sat_state(vec![false]);
    assert_eq!(c.get_sat_state(), Some(&vec![false]));
}

#[test]
fn test_cache_updating() {
    // the per-node sat states the solver would compute for config [3] and,
    // after extending by 2, for config [2, 3]
    let expected_for_3 = vec![
        true, false, false, true, false, false, false, false, false, false, false, false, false,
        false, false, false, false,
    ];
    let expected_for_2_3 = vec![
        true, true, false, true, false, false, false, false, false, false, true, false, false,
        false, false, false, false,
    ];

    // config without sat state
    let mut config = Config::from(&vec![3]);
    assert_eq!(config.sat_state, None);

    // update from None to Some(_)
    config.update_sat_state(expected_for_3.clone());
    assert_eq!(config.sat_state, Some(expected_for_3.clone()));

    // a complete cache is kept as it is
    config.update_sat_state(expected_for_2_3.clone());
    assert_eq!(config.sat_state, Some(expected_for_3));

    // extend the config, then update from Some(_) to Some(_)
    config.extend(&[2]);
    assert!(!config.is_sat_state_complete());
    config.update_sat_state(expected_for_2_3.clone());
    assert_eq!(config.sat_state, Some(expected_for_2_3));
}
