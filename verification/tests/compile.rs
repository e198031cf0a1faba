use graph_craft::compiler::Compiler;
use graph_craft::error::{CompileError, StageError};
use graph_craft::graph::{DocumentNode, Network, NodeInput, NodeNetwork, IDENTITY_OP};
use graph_craft::proto::{stable_id, ProtoInput, ProtoNetwork};

fn node(op: u64, inputs: Vec<NodeInput>) -> DocumentNode {
    DocumentNode { op, inputs, body: None }
}

fn composite(op: u64, inputs: Vec<NodeInput>, body: usize) -> DocumentNode {
    DocumentNode { op, inputs, body: Some(body) }
}

fn single(nodes: Vec<(u64, DocumentNode)>, outputs: Vec<u64>) -> NodeNetwork {
    NodeNetwork { networks: vec![Network { nodes, outputs }], root: 0 }
}

/// The nodes of a compiled network as (identity, op, tagged inputs),
/// sorted by identity.
fn shape(p: &ProtoNetwork) -> Vec<(u64, u64, Vec<(u8, u64)>)> {
    let mut v: Vec<(u64, u64, Vec<(u8, u64)>)> = p
        .nodes
        .iter()
        .map(|n| {
            let ins: Vec<(u8, u64)> = n
                .inputs
                .iter()
                .map(|pi| match pi {
                    ProtoInput::Value(v) => (1u8, *v),
                    ProtoInput::Node(d) => (2u8, *d),
                })
                .collect();
            (n.id, n.op, ins)
        })
        .collect();
    v.sort();
    v
}

fn op_of(p: &ProtoNetwork, id: u64) -> u64 {
    p.nodes.iter().find(|n| n.id == id).unwrap().op
}

/// Every producer reference resolves within the network, and producers
/// stand before their consumers.
fn assert_closed_and_topo(p: &ProtoNetwork) {
    for (k, n) in p.nodes.iter().enumerate() {
        for input in &n.inputs {
            if let ProtoInput::Node(d) = input {
                let j = p.nodes.iter().position(|m| m.id == *d);
                assert!(j.is_some(), "dangling producer {d}");
                assert!(j.unwrap() < k, "producer after consumer");
            }
        }
    }
    assert!(p.nodes.iter().any(|n| n.id == p.output));
}

/// Every node of the compiled network is reachable from its output.
fn assert_all_reachable(p: &ProtoNetwork) {
    let mut reached = vec![p.output];
    let mut i = 0;
    while i < reached.len() {
        let id = reached[i];
        if let Some(n) = p.nodes.iter().find(|n| n.id == id) {
            for input in &n.inputs {
                if let ProtoInput::Node(d) = input {
                    if !reached.contains(d) {
                        reached.push(*d);
                    }
                }
            }
        }
        i += 1;
    }
    for n in &p.nodes {
        assert!(reached.contains(&n.id), "unreachable node survived");
    }
}

fn linear_chain() -> NodeNetwork {
    single(
        vec![
            (1, node(10, vec![])),
            (2, node(20, vec![NodeInput::Node(1)])),
            (3, node(30, vec![NodeInput::Node(2)])),
            (4, node(40, vec![])),
        ],
        vec![3],
    )
}

#[test]
fn linear_chain_prunes_unreferenced_node() {
    let g = linear_chain();
    assert!(g.is_well_formed());
    let p = (Compiler {}).compile_single(g).unwrap();
    assert_eq!(p.nodes.len(), 3);
    let mut ops: Vec<u64> = p.nodes.iter().map(|n| n.op).collect();
    ops.sort();
    assert_eq!(ops, vec![10, 20, 30]);
    assert_eq!(op_of(&p, p.output), 30);
    assert_closed_and_topo(&p);
    assert_all_reachable(&p);
}

#[test]
fn compiling_twice_is_deterministic() {
    let p1 = (Compiler {}).compile_single(linear_chain()).unwrap();
    let p2 = (Compiler {}).compile_single(linear_chain()).unwrap();
    assert_eq!(shape(&p1), shape(&p2));
    assert_eq!(p1.output, p2.output);
}

#[test]
fn renaming_author_ids_keeps_stable_identities() {
    let renamed = single(
        vec![
            (400, node(40, vec![])),
            (300, node(30, vec![NodeInput::Node(200)])),
            (200, node(20, vec![NodeInput::Node(100)])),
            (100, node(10, vec![])),
        ],
        vec![300],
    );
    let p1 = (Compiler {}).compile_single(linear_chain()).unwrap();
    let p2 = (Compiler {}).compile_single(renamed).unwrap();
    assert_eq!(shape(&p1), shape(&p2));
    assert_eq!(p1.output, p2.output);
}

#[test]
fn composite_instantiated_twice_inlines_fully() {
    // A composite wrapping X -> Y, instantiated twice: I -> G1 -> G2 -> output.
    let body = Network {
        nodes: vec![
            (0, node(100, vec![NodeInput::Param(0)])),
            (1, node(200, vec![NodeInput::Node(0)])),
        ],
        outputs: vec![1],
    };
    let root = Network {
        nodes: vec![
            (5, node(10, vec![])),
            (6, composite(999, vec![NodeInput::Node(5)], 1)),
            (7, composite(999, vec![NodeInput::Node(6)], 1)),
        ],
        outputs: vec![7],
    };
    let g = NodeNetwork { networks: vec![root, body], root: 0 };
    assert!(g.is_well_formed());

    let flat = g.flatten().unwrap();
    assert_eq!(flat.nodes.len(), 5, "one source node plus four inlined nodes");
    assert!(flat.nodes.iter().all(|(_, n)| n.body.is_none()));

    let p = (Compiler {}).compile_single(g).unwrap();
    assert_eq!(p.nodes.len(), 5);
    let mut ops: Vec<u64> = p.nodes.iter().map(|n| n.op).collect();
    ops.sort();
    assert_eq!(ops, vec![10, 100, 100, 200, 200]);
    assert!(p.nodes.iter().all(|n| n.op != IDENTITY_OP));
    assert_closed_and_topo(&p);
    assert_all_reachable(&p);

    // Wiring: output <- Y2 <- X2 <- Y1 <- X1 <- I.
    let y2 = p.nodes.iter().find(|n| n.id == p.output).unwrap();
    assert_eq!(y2.op, 200);
    let x2 = match y2.inputs[0] {
        ProtoInput::Node(d) => p.nodes.iter().find(|n| n.id == d).unwrap(),
        _ => panic!("expected a producer reference"),
    };
    assert_eq!(x2.op, 100);
    let y1 = match x2.inputs[0] {
        ProtoInput::Node(d) => p.nodes.iter().find(|n| n.id == d).unwrap(),
        _ => panic!("expected a producer reference"),
    };
    assert_eq!(y1.op, 200);
    let x1 = match y1.inputs[0] {
        ProtoInput::Node(d) => p.nodes.iter().find(|n| n.id == d).unwrap(),
        _ => panic!("expected a producer reference"),
    };
    assert_eq!(x1.op, 100);
    let i = match x1.inputs[0] {
        ProtoInput::Node(d) => p.nodes.iter().find(|n| n.id == d).unwrap(),
        _ => panic!("expected a producer reference"),
    };
    assert_eq!(i.op, 10);
}

#[test]
fn unwired_required_input_is_a_missing_input() {
    let g = single(vec![(1, node(10, vec![NodeInput::Param(0)]))], vec![1]);
    match (Compiler {}).compile_single(g) {
        Err(CompileError::CompilationFailed(StageError::MissingInput { node: _, slot })) => {
            assert_eq!(slot, 0);
        }
        other => panic!("expected a missing input, got {other:?}"),
    }
}

#[test]
fn self_instantiating_composite_is_a_cyclic_composition() {
    let body = Network {
        nodes: vec![(0, composite(999, vec![], 1))],
        outputs: vec![0],
    };
    let root = Network {
        nodes: vec![(1, composite(999, vec![], 1))],
        outputs: vec![1],
    };
    let g = NodeNetwork { networks: vec![root, body], root: 0 };
    assert!(g.is_well_formed());
    match (Compiler {}).compile_single(g) {
        Err(CompileError::CompilationFailed(StageError::CyclicComposition { .. })) => {}
        other => panic!("expected a cyclic composition, got {other:?}"),
    }
}

#[test]
fn reference_to_absent_node_is_dangling() {
    let g = single(vec![(1, node(10, vec![NodeInput::Node(99)]))], vec![1]);
    match (Compiler {}).compile_single(g) {
        Err(CompileError::CompilationFailed(StageError::DanglingReference { node: _, slot })) => {
            assert_eq!(slot, 0);
        }
        other => panic!("expected a dangling reference, got {other:?}"),
    }
}

#[test]
fn wiring_cycle_is_detected() {
    let g = single(
        vec![
            (1, node(10, vec![NodeInput::Node(2)])),
            (2, node(20, vec![NodeInput::Node(1)])),
        ],
        vec![1],
    );
    match (Compiler {}).compile_single(g) {
        Err(CompileError::CompilationFailed(StageError::CycleDetected)) => {}
        other => panic!("expected a detected cycle, got {other:?}"),
    }
}

#[test]
fn broken_wiring_on_an_unreachable_node_is_tolerated() {
    // Input resolution runs after pruning, so a dangling reference on a
    // node no output reaches never fails the compilation.
    let g = single(
        vec![
            (1, node(10, vec![])),
            (2, node(20, vec![NodeInput::Node(1)])),
            (9, node(90, vec![NodeInput::Node(77)])),
        ],
        vec![2],
    );
    let p = (Compiler {}).compile_single(g).unwrap();
    assert_eq!(p.nodes.len(), 2);
}

#[test]
fn two_outputs_need_compile_not_compile_single() {
    let g = single(
        vec![(1, node(10, vec![])), (2, node(20, vec![]))],
        vec![1, 2],
    );
    match (Compiler {}).compile_single(g) {
        Err(CompileError::MultipleOutputsUnsupported) => {}
        other => panic!("expected the multiple-outputs error, got {other:?}"),
    }
}

#[test]
fn each_output_gets_its_own_partition() {
    let shared = single(
        vec![
            (1, node(10, vec![])),
            (2, node(20, vec![NodeInput::Node(1)])),
            (3, node(30, vec![NodeInput::Node(1)])),
        ],
        vec![2, 3],
    );
    let results = (Compiler {}).compile(shared);
    assert_eq!(results.len(), 2);
    let p0 = results[0].as_ref().unwrap();
    let p1 = results[1].as_ref().unwrap();
    // The shared producer is duplicated into both partitions.
    assert_eq!(p0.nodes.len(), 2);
    assert_eq!(p1.nodes.len(), 2);
    assert_eq!(op_of(p0, p0.output), 20);
    assert_eq!(op_of(p1, p1.output), 30);
    assert_closed_and_topo(p0);
    assert_closed_and_topo(p1);
}

#[test]
fn one_failing_output_leaves_the_other_usable() {
    let g = single(
        vec![
            (1, node(10, vec![])),
            (2, node(20, vec![NodeInput::Param(0)])),
        ],
        vec![1, 2],
    );
    let results = (Compiler {}).compile(g);
    assert_eq!(results.len(), 2);
    assert!(results[0].is_ok());
    assert!(matches!(
        results[1],
        Err(StageError::MissingInput { node: _, slot: 0 })
    ));
}

#[test]
fn pass_through_nodes_collapse_and_collapse_is_idempotent() {
    let net = Network {
        nodes: vec![
            (1, node(10, vec![])),
            (2, node(IDENTITY_OP, vec![NodeInput::Node(1)])),
            (3, node(IDENTITY_OP, vec![NodeInput::Node(2)])),
            (4, node(30, vec![NodeInput::Node(3)])),
        ],
        outputs: vec![4],
    };
    let once = net.remove_redundant_id_nodes();
    assert_eq!(once.nodes.len(), 2);
    let consumer = &once.nodes.iter().find(|(_, n)| n.op == 30).unwrap().1;
    assert_eq!(consumer.inputs, vec![NodeInput::Node(1)]);
    assert_eq!(once.outputs, vec![4]);

    let nodes_before: Vec<(u64, u64, Vec<NodeInput>)> = once
        .nodes
        .iter()
        .map(|(id, n)| (*id, n.op, n.inputs.clone()))
        .collect();
    let outputs_before = once.outputs.clone();
    let twice = once.remove_redundant_id_nodes();
    let nodes_after: Vec<(u64, u64, Vec<NodeInput>)> = twice
        .nodes
        .iter()
        .map(|(id, n)| (*id, n.op, n.inputs.clone()))
        .collect();
    assert_eq!(nodes_before, nodes_after);
    assert_eq!(outputs_before, twice.outputs);
}

#[test]
fn output_pointing_at_pass_through_is_rewired() {
    let net = Network {
        nodes: vec![
            (1, node(10, vec![])),
            (2, node(IDENTITY_OP, vec![NodeInput::Node(1)])),
        ],
        outputs: vec![2],
    };
    let lean = net.remove_redundant_id_nodes();
    assert_eq!(lean.nodes.len(), 1);
    assert_eq!(lean.outputs, vec![1]);
}

#[test]
fn stable_identity_matches_the_hash_formula() {
    fn mix(h: u64, x: u64) -> u64 {
        (((h ^ x) as u128 * 0x100000001b3u128) % (1u128 << 64)) as u64
    }
    let expected = mix(mix(mix(0xcbf29ce484222325, 7), 1), 3);
    assert_eq!(stable_id(7, &vec![ProtoInput::Value(3)]), expected);
    let expected2 = mix(mix(mix(0xcbf29ce484222325, 7), 2), 3);
    assert_eq!(stable_id(7, &vec![ProtoInput::Node(3)]), expected2);
    assert_ne!(expected, expected2, "a literal and a reference hash apart");
}

#[test]
fn structural_validity_is_checked() {
    assert!(linear_chain().is_well_formed());
    let dup = single(vec![(1, node(10, vec![])), (1, node(20, vec![]))], vec![1]);
    assert!(!dup.is_well_formed());
    let bad_body = single(vec![(1, composite(9, vec![], 7))], vec![1]);
    assert!(!bad_body.is_well_formed());
    let bad_root = NodeNetwork { networks: vec![], root: 0 };
    assert!(!bad_root.is_well_formed());
}
