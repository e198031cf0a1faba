use vstd::prelude::*;

use crate::graph::{contains_id, ids_unique, is_flat, DocumentNode, Network, NodeInput, IDENTITY_OP};

verus! {

/// A pass-through node: its sole function is to forward its single input,
/// itself the output of another node, unchanged.
pub open spec fn is_redundant_node(n: DocumentNode) -> bool {
    n.op == IDENTITY_OP && n.inputs@.len() == 1 && n.inputs@[0] is Node
}

/// Some pass-through node remains in the network.
pub open spec fn has_redundant(nodes: Seq<(u64, DocumentNode)>) -> bool {
    exists|i: int| 0 <= i < nodes.len() && is_redundant_node(nodes[i].1)
}

/// Every surviving node keeps the identifier, operation, body and arity of
/// a node of the original network.
pub open spec fn nodes_from(r: Seq<(u64, DocumentNode)>, orig: Seq<(u64, DocumentNode)>) -> bool {
    forall|k: int|
        0 <= k < r.len() ==> exists|i: int|
            0 <= i < orig.len() && (#[trigger] r[k]).0 == orig[i].0 && r[k].1.op == orig[i].1.op
                && r[k].1.body == orig[i].1.body && r[k].1.inputs@.len() == orig[i].1.inputs@.len()
}

/// One consumer-side rewrite: a reference to the eliminated node `rid`
/// becomes a reference to its own producer `t`; every other slot is kept.
pub open spec fn spec_rewire(sl: NodeInput, rid: u64, t: u64) -> NodeInput {
    if sl == NodeInput::Node(rid) {
        NodeInput::Node(t)
    } else {
        sl
    }
}

fn rewire_slot(sl: NodeInput, rid: u64, t: u64) -> (r: NodeInput)
    ensures
        r == spec_rewire(sl, rid, t),
{
    match sl {
        NodeInput::Node(m) => {
            if m == rid {
                NodeInput::Node(t)
            } else {
                NodeInput::Node(m)
            }
        },
        other => other,
    }
}

fn find_redundant(nodes: &Vec<(u64, DocumentNode)>) -> (r: Option<usize>)
    ensures
        r matches Some(i) ==> i < nodes@.len() && is_redundant_node(nodes@[i as int].1),
        r is None ==> !has_redundant(nodes@),
{
    let mut i: usize = 0;
    while i < nodes.len()
        invariant
            i <= nodes@.len(),
            forall|k: int| 0 <= k < i ==> !is_redundant_node(nodes@[k].1),
        decreases nodes@.len() - i,
    {
        let n = &nodes[i].1;
        if n.op == IDENTITY_OP && n.inputs.len() == 1 {
            match n.inputs[0] {
                NodeInput::Node(_) => {
                    return Some(i);
                },
                _ => {},
            }
        }
        i = i + 1;
    }
    None
}

impl Network {
    /// Collapses pass-through nodes to a fixed point: every consumer of a
    /// pass-through node is rewired directly to that node's own producer,
    /// the node is deleted, and the scan repeats until none remain.  A
    /// network already free of pass-through nodes is returned unchanged, so
    /// the elimination is idempotent.
    #[verifier::rlimit(100)]
    #[verifier::spinoff_prover]
    pub fn remove_redundant_id_nodes(self) -> (r: Network)
        requires
            ids_unique(self.nodes@),
        ensures
            !has_redundant(r.nodes@),
            !has_redundant(self.nodes@) ==> r == self,
            ids_unique(r.nodes@),
            is_flat(self.nodes@) ==> is_flat(r.nodes@),
            r.outputs@.len() == self.outputs@.len(),
            nodes_from(r.nodes@, self.nodes@),
            forall|p: int|
                0 <= p < r.nodes@.len() ==> node_forwarded_from(
                    self.nodes@,
                    (#[trigger] r.nodes@[p]).0,
                    r.nodes@[p].1,
                ),
            forall|w: int|
                0 <= w < r.outputs@.len() ==> output_forwarded(
                    self.nodes@,
                    self.outputs@[w],
                    #[trigger] r.outputs@[w],
                ),
            forall|i: int|
                0 <= i < self.nodes@.len() ==> ((#[trigger] contains_id(
                    r.nodes@,
                    self.nodes@[i].0,
                )) <==> !is_redundant_node(self.nodes@[i].1)),
    {
        proof {
            reveal(node_forwarded_from);
            reveal(slot_forwarded);
            reveal(output_forwarded);
            assert forall|p: int| 0 <= p < self.nodes@.len() implies node_forwarded_from(
                self.nodes@,
                (#[trigger] self.nodes@[p]).0,
                self.nodes@[p].1,
            ) by {
                assert forall|s: int| 0 <= s < self.nodes@[p].1.inputs@.len()
                    implies slot_forwarded(
                    self.nodes@,
                    self.nodes@[p].1.inputs@[s],
                    #[trigger] self.nodes@[p].1.inputs@[s],
                ) by {
                    match self.nodes@[p].1.inputs@[s] {
                        NodeInput::Node(a) => {
                            assert(forward_chain(self.nodes@, a, a, 0));
                        },
                        _ => {},
                    }
                }
                assert(0 <= p < self.nodes@.len() && self.nodes@[p].0 == self.nodes@[p].0
                    && self.nodes@[p].1.op == self.nodes@[p].1.op);
            }
            assert forall|w: int| 0 <= w < self.outputs@.len() implies output_forwarded(
                self.nodes@,
                self.outputs@[w],
                #[trigger] self.outputs@[w],
            ) by {
                assert(forward_chain(self.nodes@, self.outputs@[w], self.outputs@[w], 0));
            }
        }
        match find_redundant(&self.nodes) {
            None => {
                proof {
                    assert forall|i: int| 0 <= i < self.nodes@.len() implies contains_id(
                        self.nodes@,
                        (#[trigger] self.nodes@[i]).0,
                    ) by {
                        assert(self.nodes@[i].0 == self.nodes@[i].0);
                    }
                }
                return self;
            },
            Some(_) => {},
        }
        proof {
            assert forall|i: int| 0 <= i < self.nodes@.len() implies contains_id(
                self.nodes@,
                (#[trigger] self.nodes@[i]).0,
            ) by {
                assert(self.nodes@[i].0 == self.nodes@[i].0);
            }
        }
        let mut nodes = self.nodes;
        let mut outputs = self.outputs;
        loop
            invariant
                ids_unique(nodes@),
                is_flat(self.nodes@) ==> is_flat(nodes@),
                outputs@.len() == self.outputs@.len(),
                nodes_from(nodes@, self.nodes@),
                forall|p: int|
                    0 <= p < nodes@.len() ==> node_forwarded_from(
                        self.nodes@,
                        (#[trigger] nodes@[p]).0,
                        nodes@[p].1,
                    ),
                forall|w: int|
                    0 <= w < outputs@.len() ==> output_forwarded(
                        self.nodes@,
                        self.outputs@[w],
                        #[trigger] outputs@[w],
                    ),
                ids_unique(self.nodes@),
                forall|i: int|
                    0 <= i < self.nodes@.len() && !is_redundant_node(self.nodes@[i].1)
                        ==> contains_id(nodes@, (#[trigger] self.nodes@[i]).0),
            ensures
                !has_redundant(nodes@),
                ids_unique(nodes@),
                is_flat(self.nodes@) ==> is_flat(nodes@),
                outputs@.len() == self.outputs@.len(),
                nodes_from(nodes@, self.nodes@),
                forall|p: int|
                    0 <= p < nodes@.len() ==> node_forwarded_from(
                        self.nodes@,
                        (#[trigger] nodes@[p]).0,
                        nodes@[p].1,
                    ),
                forall|w: int|
                    0 <= w < outputs@.len() ==> output_forwarded(
                        self.nodes@,
                        self.outputs@[w],
                        #[trigger] outputs@[w],
                    ),
                forall|i: int|
                    0 <= i < self.nodes@.len() && !is_redundant_node(self.nodes@[i].1)
                        ==> contains_id(nodes@, (#[trigger] self.nodes@[i]).0),
            decreases nodes@.len(),
        {
            let k = match find_redundant(&nodes) {
                None => {
                    break;
                },
                Some(k) => k,
            };
            let rid = nodes[k].0;
            let t: u64 = match nodes[k].1.inputs[0] {
                NodeInput::Node(m) => m,
                _ => {
                    proof {
                        assert(false);
                    }
                    0
                },
            };
            let ghost cur = nodes@;
            let mut rebuilt: Vec<(u64, DocumentNode)> = Vec::new();
            let mut i: usize = 0;
            while i < nodes.len()
                invariant
                    k < cur.len(),
                    nodes@ == cur,
                    i <= cur.len(),
                    rebuilt@.len() == (if i <= k {
                        i as int
                    } else {
                        i - 1
                    }),
                    forall|p: int|
                        0 <= p < rebuilt@.len() ==> {
                            let q = if p < k {
                                p
                            } else {
                                p + 1
                            };
                            (#[trigger] rebuilt@[p]).0 == cur[q].0 && rebuilt@[p].1.op
                                == cur[q].1.op && rebuilt@[p].1.body == cur[q].1.body
                                && rebuilt@[p].1.inputs@.len() == cur[q].1.inputs@.len()
                                && (forall|s: int|
                                0 <= s < cur[q].1.inputs@.len()
                                    ==> (#[trigger] rebuilt@[p].1.inputs@[s]) == spec_rewire(
                                    cur[q].1.inputs@[s],
                                    rid,
                                    t,
                                ))
                        },
                decreases cur.len() - i,
            {
                if i != k {
                    let src = &nodes[i].1;
                    let mut slots: Vec<NodeInput> = Vec::new();
                    let mut s: usize = 0;
                    while s < src.inputs.len()
                        invariant
                            i < cur.len(),
                            nodes@ == cur,
                            *src == cur[i as int].1,
                            s <= src.inputs@.len(),
                            slots@.len() == s as int,
                            forall|w: int|
                                0 <= w < s ==> (#[trigger] slots@[w]) == spec_rewire(
                                    src.inputs@[w],
                                    rid,
                                    t,
                                ),
                        decreases src.inputs@.len() - s,
                    {
                        slots.push(rewire_slot(src.inputs[s], rid, t));
                        s = s + 1;
                    }
                    rebuilt.push(
                        (nodes[i].0, DocumentNode { op: src.op, inputs: slots, body: src.body }),
                    );
                }
                i = i + 1;
            }
            let ghost outs0 = outputs@;
            let mut new_outputs: Vec<u64> = Vec::new();
            let mut oi: usize = 0;
            while oi < outputs.len()
                invariant
                    outputs@ == outs0,
                    oi <= outputs@.len(),
                    new_outputs@.len() == oi as int,
                    forall|w: int|
                        0 <= w < oi ==> (#[trigger] new_outputs@[w]) == (if outs0[w] == rid {
                            t
                        } else {
                            outs0[w]
                        }),
                decreases outputs@.len() - oi,
            {
                let o = outputs[oi];
                new_outputs.push(if o == rid {
                    t
                } else {
                    o
                });
                oi = oi + 1;
            }
            proof {
                assert forall|a: int, b: int| 0 <= a < b < rebuilt@.len() implies rebuilt@[a].0
                    != rebuilt@[b].0 by {
                    let qa = if a < k {
                        a
                    } else {
                        a + 1
                    };
                    let qb = if b < k {
                        b
                    } else {
                        b + 1
                    };
                    assert(cur[qa].0 != cur[qb].0);
                }
                assert forall|p: int| 0 <= p < rebuilt@.len() implies exists|j: int|
                    0 <= j < self.nodes@.len() && (#[trigger] rebuilt@[p]).0 == self.nodes@[j].0
                        && rebuilt@[p].1.op == self.nodes@[j].1.op && rebuilt@[p].1.body
                        == self.nodes@[j].1.body && rebuilt@[p].1.inputs@.len()
                        == self.nodes@[j].1.inputs@.len() by {
                    let q = if p < k {
                        p
                    } else {
                        p + 1
                    };
                    assert(0 <= q < cur.len());
                    assert(exists|j: int|
                        0 <= j < self.nodes@.len() && (#[trigger] cur[q]).0 == self.nodes@[j].0
                            && cur[q].1.op == self.nodes@[j].1.op && cur[q].1.body
                            == self.nodes@[j].1.body && cur[q].1.inputs@.len()
                            == self.nodes@[j].1.inputs@.len());
                }
                lemma_elim_step(
                    self.nodes@,
                    self.outputs@,
                    cur,
                    rebuilt@,
                    outs0,
                    new_outputs@,
                    k as int,
                    rid,
                    t,
                );
            }
            nodes = rebuilt;
            outputs = new_outputs;
        }
        proof {
            lemma_surviving_not_redundant(self.nodes@, nodes@);
        }
        Network { nodes, outputs }
    }
}

} // verus!
verus! {

/// Following the single inputs of pass-through nodes of `orig` leads from
/// `a` to `b` in at most `k` hops.
pub open spec fn forward_chain(orig: Seq<(u64, DocumentNode)>, a: u64, b: u64, k: nat) -> bool
    decreases k,
{
    a == b || (k > 0 && exists|i: int|
        0 <= i < orig.len() && (#[trigger] orig[i]).0 == a && is_redundant_node(orig[i].1) && (
        orig[i].1.inputs@[0] matches NodeInput::Node(m) && forward_chain(
            orig,
            m,
            b,
            (k - 1) as nat,
        )))
}

/// A surviving slot equals the original with an eliminated pass-through
/// identifier replaced by its transitive producer.
#[verifier::opaque]
pub open spec fn slot_forwarded(orig: Seq<(u64, DocumentNode)>, sl0: NodeInput, sl1: NodeInput) -> bool {
    match sl0 {
        NodeInput::Value(v) => sl1 == NodeInput::Value(v),
        NodeInput::Param(q) => sl1 == NodeInput::Param(q),
        NodeInput::Node(a) => (sl1 matches NodeInput::Node(b) && output_forwarded(orig, a, b)),
    }
}

/// A surviving node keeps the identifier, operation, body and arity of an
/// original node, with every slot forwarded through eliminated
/// pass-through chains.
#[verifier::opaque]
pub open spec fn node_forwarded_from(orig: Seq<(u64, DocumentNode)>, id: u64, n: DocumentNode) -> bool {
    exists|i: int|
        0 <= i < orig.len() && (#[trigger] orig[i]).0 == id && orig[i].1.op == n.op
            && orig[i].1.body == n.body && orig[i].1.inputs@.len() == n.inputs@.len() && (forall|
            s: int,
        |
            0 <= s < n.inputs@.len() ==> slot_forwarded(
                orig,
                orig[i].1.inputs@[s],
                #[trigger] n.inputs@[s],
            ))
}

/// An output is forwarded likewise.
#[verifier::opaque]
pub open spec fn output_forwarded(orig: Seq<(u64, DocumentNode)>, o0: u64, o1: u64) -> bool {
    exists|k: nat| #[trigger] forward_chain(orig, o0, o1, k)
}

proof fn lemma_chain_trans(orig: Seq<(u64, DocumentNode)>, a: u64, b: u64, c: u64, k1: nat, k2: nat)
    requires
        forward_chain(orig, a, b, k1),
        forward_chain(orig, b, c, k2),
    ensures
        forward_chain(orig, a, c, (k1 + k2) as nat),
    decreases k1,
{
    if a == b {
        assert(forward_chain(orig, a, c, k2));
        lemma_chain_widen(orig, a, c, k2, (k1 + k2) as nat);
    } else {
        let i = choose|i: int|
            0 <= i < orig.len() && (#[trigger] orig[i]).0 == a && is_redundant_node(orig[i].1) && (
            orig[i].1.inputs@[0] matches NodeInput::Node(m) && forward_chain(
                orig,
                m,
                b,
                (k1 - 1) as nat,
            ));
        match orig[i].1.inputs@[0] {
            NodeInput::Node(m) => {
                lemma_chain_trans(orig, m, b, c, (k1 - 1) as nat, k2);
                assert(forward_chain(orig, m, c, ((k1 + k2) - 1) as nat));
            },
            _ => {
                assert(false);
            },
        }
    }
}

proof fn lemma_chain_widen(orig: Seq<(u64, DocumentNode)>, a: u64, b: u64, k1: nat, k2: nat)
    requires
        forward_chain(orig, a, b, k1),
        k1 <= k2,
    ensures
        forward_chain(orig, a, b, k2),
    decreases k1,
{
    if a != b {
        let i = choose|i: int|
            0 <= i < orig.len() && (#[trigger] orig[i]).0 == a && is_redundant_node(orig[i].1) && (
            orig[i].1.inputs@[0] matches NodeInput::Node(m) && forward_chain(
                orig,
                m,
                b,
                (k1 - 1) as nat,
            ));
        match orig[i].1.inputs@[0] {
            NodeInput::Node(m) => {
                lemma_chain_widen(orig, m, b, (k1 - 1) as nat, (k2 - 1) as nat);
            },
            _ => {
                assert(false);
            },
        }
    }
}

/// A slot already forwarded stays forwarded after one more rewiring step,
/// when the step replaces the eliminated `rid` by its own producer `t`.
proof fn lemma_slot_forward_step(
    orig: Seq<(u64, DocumentNode)>,
    sl0: NodeInput,
    sl1: NodeInput,
    rid: u64,
    t: u64,
    ir: int,
)
    requires
        slot_forwarded(orig, sl0, sl1),
        0 <= ir < orig.len(),
        orig[ir].0 == rid,
        is_redundant_node(orig[ir].1),
        orig[ir].1.inputs@[0] matches NodeInput::Node(t0) && output_forwarded(orig, t0, t),
    ensures
        slot_forwarded(orig, sl0, spec_rewire(sl1, rid, t)),
{
    reveal(slot_forwarded);
    reveal(output_forwarded);
    if sl1 == NodeInput::Node(rid) {
        match sl0 {
            NodeInput::Node(a) => {
                let k0 = choose|k: nat| forward_chain(orig, a, rid, k);
                match orig[ir].1.inputs@[0] {
                    NodeInput::Node(t0) => {
                        let kt = choose|k: nat| forward_chain(orig, t0, t, k);
                        assert(forward_chain(orig, t0, t, kt));
                        assert(forward_chain(orig, rid, t, (1 + kt) as nat));
                        lemma_chain_trans(orig, a, rid, t, k0, (1 + kt) as nat);
                        assert(forward_chain(orig, a, t, (k0 + (1 + kt)) as nat));
                        assert(output_forwarded(orig, a, t));
                    },
                    _ => {
                        assert(false);
                    },
                }
            },
            _ => {
                assert(false);
            },
        }
    }
}

} // verus!

verus! {

/// One elimination step keeps the forwarding relations and the survival
/// of every non-pass-through node.
proof fn lemma_elim_step(
    orig: Seq<(u64, DocumentNode)>,
    souts: Seq<u64>,
    cur: Seq<(u64, DocumentNode)>,
    rebuilt: Seq<(u64, DocumentNode)>,
    outs0: Seq<u64>,
    nouts: Seq<u64>,
    k: int,
    rid: u64,
    t: u64,
)
    requires
        ids_unique(orig),
        0 <= k < cur.len(),
        cur[k].0 == rid,
        is_redundant_node(cur[k].1),
        cur[k].1.inputs@[0] == NodeInput::Node(t),
        forall|p: int|
            0 <= p < cur.len() ==> node_forwarded_from(orig, (#[trigger] cur[p]).0, cur[p].1),
        forall|i: int|
            0 <= i < orig.len() && !is_redundant_node(orig[i].1) ==> contains_id(
                cur,
                (#[trigger] orig[i]).0,
            ),
        rebuilt.len() == cur.len() - 1,
        forall|p: int|
            0 <= p < rebuilt.len() ==> {
                let q = if p < k {
                    p
                } else {
                    p + 1
                };
                (#[trigger] rebuilt[p]).0 == cur[q].0 && rebuilt[p].1.op == cur[q].1.op
                    && rebuilt[p].1.body == cur[q].1.body && rebuilt[p].1.inputs@.len()
                    == cur[q].1.inputs@.len() && (forall|s: int|
                    0 <= s < cur[q].1.inputs@.len() ==> (#[trigger] rebuilt[p].1.inputs@[s])
                        == spec_rewire(cur[q].1.inputs@[s], rid, t))
            },
        nouts.len() == outs0.len(),
        souts.len() == outs0.len(),
        forall|w: int|
            0 <= w < nouts.len() ==> (#[trigger] nouts[w]) == (if outs0[w] == rid {
                t
            } else {
                outs0[w]
            }),
        forall|w: int|
            0 <= w < outs0.len() ==> output_forwarded(orig, souts[w], #[trigger] outs0[w]),
    ensures
        forall|p: int|
            0 <= p < rebuilt.len() ==> node_forwarded_from(
                orig,
                (#[trigger] rebuilt[p]).0,
                rebuilt[p].1,
            ),
        forall|w: int|
            0 <= w < nouts.len() ==> output_forwarded(orig, souts[w], #[trigger] nouts[w]),
        forall|i: int|
            0 <= i < orig.len() && !is_redundant_node(orig[i].1) ==> contains_id(
                rebuilt,
                (#[trigger] orig[i]).0,
            ),
{
    reveal(node_forwarded_from);
    reveal(slot_forwarded);
    reveal(output_forwarded);
    assert(cur[k].1.inputs@[0] == NodeInput::Node(t));
    assert(node_forwarded_from(orig, cur[k].0, cur[k].1));
    let ir = choose|i2: int|
        0 <= i2 < orig.len() && (#[trigger] orig[i2]).0
            == cur[k].0 && orig[i2].1.op == cur[k].1.op
            && orig[i2].1.body == cur[k].1.body
            && orig[i2].1.inputs@.len() == cur[k].1.inputs@.len() && (
        forall|s2: int|
            0 <= s2 < cur[k].1.inputs@.len() ==> slot_forwarded(
                orig,
                orig[i2].1.inputs@[s2],
                #[trigger] cur[k].1.inputs@[s2],
            ));
    assert(slot_forwarded(
        orig,
        orig[ir].1.inputs@[0],
        cur[k].1.inputs@[0],
    ));
    assert(orig[ir].1.inputs@[0] is Node && is_redundant_node(
        orig[ir].1,
    )) by {
        match orig[ir].1.inputs@[0] {
            NodeInput::Node(_) => {},
            _ => {
                assert(false);
            },
        }
    }
    assert(orig[ir].1.inputs@[0] matches NodeInput::Node(t0)
        && output_forwarded(orig, t0, t));
    assert forall|p: int| 0 <= p < rebuilt.len() implies node_forwarded_from(
        orig,
        (#[trigger] rebuilt[p]).0,
        rebuilt[p].1,
    ) by {
        let q = if p < k {
            p
        } else {
            p + 1
        };
        assert(node_forwarded_from(orig, cur[q].0, cur[q].1));
        let iq = choose|i2: int|
            0 <= i2 < orig.len() && (#[trigger] orig[i2]).0 == cur[q].0
                && orig[i2].1.op == cur[q].1.op && orig[i2].1.body
                == cur[q].1.body && orig[i2].1.inputs@.len()
                == cur[q].1.inputs@.len() && (forall|s2: int|
                0 <= s2 < cur[q].1.inputs@.len() ==> slot_forwarded(
                    orig,
                    orig[i2].1.inputs@[s2],
                    #[trigger] cur[q].1.inputs@[s2],
                ));
        assert forall|s2: int| 0 <= s2 < rebuilt[p].1.inputs@.len()
            implies slot_forwarded(
            orig,
            orig[iq].1.inputs@[s2],
            #[trigger] rebuilt[p].1.inputs@[s2],
        ) by {
            assert(rebuilt[p].1.inputs@[s2] == spec_rewire(
                cur[q].1.inputs@[s2],
                rid,
                t,
            ));
            assert(slot_forwarded(
                orig,
                orig[iq].1.inputs@[s2],
                cur[q].1.inputs@[s2],
            ));
            lemma_slot_forward_step(
                orig,
                orig[iq].1.inputs@[s2],
                cur[q].1.inputs@[s2],
                rid,
                t,
                ir,
            );
        }
        assert(0 <= iq < orig.len() && orig[iq].0 == rebuilt[p].0
            && orig[iq].1.op == rebuilt[p].1.op && orig[iq].1.body
            == rebuilt[p].1.body && orig[iq].1.inputs@.len()
            == rebuilt[p].1.inputs@.len());
    }
    assert forall|w: int| 0 <= w < nouts.len() implies output_forwarded(
        orig,
        souts[w],
        #[trigger] nouts[w],
    ) by {
        assert(output_forwarded(orig, souts[w], outs0[w]));
        if outs0[w] == rid {
            let k1 = choose|kk: nat|
                forward_chain(orig, souts[w], outs0[w], kk);
            match orig[ir].1.inputs@[0] {
                NodeInput::Node(t0) => {
                    let kt = choose|kk: nat| forward_chain(orig, t0, t, kk);
                    assert(forward_chain(orig, t0, t, kt));
                    assert(forward_chain(orig, rid, t, (1 + kt) as nat));
                    lemma_chain_trans(
                        orig,
                        souts[w],
                        rid,
                        t,
                        k1,
                        (1 + kt) as nat,
                    );
                },
                _ => {
                    assert(false);
                },
            }
        }
    }
    assert forall|i2: int|
        0 <= i2 < orig.len() && !is_redundant_node(orig[i2].1)
        implies contains_id(rebuilt, (#[trigger] orig[i2]).0) by {
        assert(contains_id(cur, orig[i2].0));
        let w = choose|w: int|
            0 <= w < cur.len() && (#[trigger] cur[w]).0 == orig[i2].0;
        if w == k {
            assert(orig[ir].0 == orig[i2].0);
            assert(ir == i2);
            assert(false);
        } else {
            let p2 = if w < k {
                w
            } else {
                w - 1
            };
            assert(rebuilt[p2].0 == cur[w].0);
            assert(contains_id(rebuilt, orig[i2].0));
        }
    }
}

} // verus!
verus! {

/// Once no pass-through node remains, an original node whose identifier
/// survives cannot have been a pass-through: its descendant keeps the
/// operation, arity and slot kind.
proof fn lemma_surviving_not_redundant(orig: Seq<(u64, DocumentNode)>, cur: Seq<(u64, DocumentNode)>)
    requires
        ids_unique(orig),
        !has_redundant(cur),
        forall|p: int|
            0 <= p < cur.len() ==> node_forwarded_from(orig, (#[trigger] cur[p]).0, cur[p].1),
    ensures
        forall|i: int|
            0 <= i < orig.len() && contains_id(cur, (#[trigger] orig[i]).0)
                ==> !is_redundant_node(orig[i].1),
{
    reveal(node_forwarded_from);
    reveal(slot_forwarded);
    assert forall|i: int|
        0 <= i < orig.len() && contains_id(cur, (#[trigger] orig[i]).0)
        implies !is_redundant_node(orig[i].1) by {
        let p = choose|p: int| 0 <= p < cur.len() && (#[trigger] cur[p]).0 == orig[i].0;
        assert(node_forwarded_from(orig, cur[p].0, cur[p].1));
        let j = choose|j: int|
            0 <= j < orig.len() && (#[trigger] orig[j]).0 == cur[p].0 && orig[j].1.op
                == cur[p].1.op && orig[j].1.body == cur[p].1.body && orig[j].1.inputs@.len()
                == cur[p].1.inputs@.len() && (forall|s2: int|
                0 <= s2 < cur[p].1.inputs@.len() ==> slot_forwarded(
                    orig,
                    orig[j].1.inputs@[s2],
                    #[trigger] cur[p].1.inputs@[s2],
                ));
        assert(j == i);
        if is_redundant_node(orig[i].1) {
            assert(slot_forwarded(orig, orig[i].1.inputs@[0], cur[p].1.inputs@[0]));
            match orig[i].1.inputs@[0] {
                NodeInput::Node(_) => {
                    assert(cur[p].1.inputs@[0] is Node);
                    assert(is_redundant_node(cur[p].1));
                    assert(false);
                },
                _ => {
                    assert(false);
                },
            }
        }
    }
}

} // verus!
