use vstd::prelude::*;

use crate::error::StageError;
use crate::graph::{contains_id, ids_unique, map_has, map_val, map_get, DocumentNode, Network,
    NodeInput};

verus! {

/// A fully resolved input of an executable node: an embedded literal value
/// or the stable identity of the producing node.  No symbolic or
/// positional references remain.
#[derive(Clone, Copy, PartialEq, Eq, Structural, Debug)]
pub enum ProtoInput {
    Value(u64),
    Node(u64),
}

/// An executable node: a stable content-derived identity, an operation
/// reference, and fully resolved input producers.
#[derive(Debug)]
pub struct ProtoNode {
    pub id: u64,
    pub op: u64,
    pub inputs: Vec<ProtoInput>,
}

/// The flat, execution-ready graph: nodes keyed by stable identity, kept
/// in dependency order (producers before consumers), plus the identity of
/// the node that produces the declared output.
#[derive(Debug)]
pub struct ProtoNetwork {
    pub nodes: Vec<ProtoNode>,
    pub output: u64,
}

pub open spec fn proto_ids_unique(nodes: Seq<ProtoNode>) -> bool {
    forall|i: int, j: int| 0 <= i < j < nodes.len() ==> nodes[i].id != nodes[j].id
}

pub open spec fn proto_contains(nodes: Seq<ProtoNode>, id: u64) -> bool {
    exists|i: int| 0 <= i < nodes.len() && (#[trigger] nodes[i]).id == id
}

/// Some node before position `k` carries identity `d`.
pub open spec fn produced_before(nodes: Seq<ProtoNode>, k: int, d: u64) -> bool {
    exists|j: int| 0 <= j < k && j < nodes.len() && (#[trigger] nodes[j]).id == d
}

/// Nodes are listed in dependency order: every producer referenced by a
/// node stands earlier in the list.
pub open spec fn topo_sorted(nodes: Seq<ProtoNode>) -> bool {
    forall|k: int, s: int|
        0 <= k < nodes.len() && 0 <= s < nodes[k].inputs@.len() ==> ((
        #[trigger] nodes[k].inputs@[s]) matches ProtoInput::Node(d) ==> produced_before(
            nodes,
            k,
            d,
        ))
}

/// Every producer referenced by any node exists in the same network.
pub open spec fn proto_refs_closed(nodes: Seq<ProtoNode>) -> bool {
    forall|k: int, s: int|
        0 <= k < nodes.len() && 0 <= s < nodes[k].inputs@.len() ==> ((
        #[trigger] nodes[k].inputs@[s]) matches ProtoInput::Node(d) ==> proto_contains(nodes, d))
}

/// A dependency edge between stable identities.
pub open spec fn proto_edge(nodes: Seq<ProtoNode>, a: u64, b: u64) -> bool {
    exists|i: int, s: int|
        0 <= i < nodes.len() && nodes[i].id == a && 0 <= s < nodes[i].inputs@.len() && (
        #[trigger] nodes[i].inputs@[s]) == ProtoInput::Node(b)
}

pub open spec fn proto_reaches(nodes: Seq<ProtoNode>, a: u64, b: u64, k: nat) -> bool
    decreases k,
{
    a == b || (k > 0 && exists|m: u64|
        proto_edge(nodes, a, m) && proto_reaches(nodes, m, b, (k - 1) as nat))
}

/// No node's transitive producer set includes itself: no edge leads out
/// of a node and back to it.
pub open spec fn proto_acyclic(nodes: Seq<ProtoNode>) -> bool {
    forall|a: u64, b: u64, k: nat|
        #[trigger] proto_edge(nodes, a, b) ==> !(#[trigger] proto_reaches(nodes, b, a, k))
}

/// The position of the node carrying `id`; meaningful when identities are
/// unique and `id` is present.
pub open spec fn pos_of(nodes: Seq<ProtoNode>, id: u64) -> int {
    choose|i: int| 0 <= i < nodes.len() && (#[trigger] nodes[i]).id == id
}

proof fn lemma_edge_pos(nodes: Seq<ProtoNode>, a: u64, b: u64)
    requires
        proto_ids_unique(nodes),
        topo_sorted(nodes),
        proto_edge(nodes, a, b),
    ensures
        proto_contains(nodes, a),
        proto_contains(nodes, b),
        0 <= pos_of(nodes, b) < pos_of(nodes, a) < nodes.len(),
{
    let (i, s): (int, int) = choose|i: int, s: int|
        0 <= i < nodes.len() && nodes[i].id == a && 0 <= s < nodes[i].inputs@.len() && (
        #[trigger] nodes[i].inputs@[s]) == ProtoInput::Node(b);
    assert(nodes[i].id == a);
    assert(proto_contains(nodes, a));
    assert(produced_before(nodes, i, b));
    let j = choose|j: int| 0 <= j < i && j < nodes.len() && (#[trigger] nodes[j]).id == b;
    assert(proto_contains(nodes, b));
    let pa = pos_of(nodes, a);
    let pb = pos_of(nodes, b);
    assert(0 <= pa < nodes.len() && nodes[pa].id == a);
    assert(0 <= pb < nodes.len() && nodes[pb].id == b);
    assert(pa == i);
    assert(pb == j);
}

proof fn lemma_reaches_pos(nodes: Seq<ProtoNode>, a: u64, b: u64, k: nat)
    requires
        proto_ids_unique(nodes),
        topo_sorted(nodes),
        proto_reaches(nodes, a, b, k),
        a != b,
    ensures
        proto_contains(nodes, a),
        proto_contains(nodes, b),
        pos_of(nodes, a) > pos_of(nodes, b),
    decreases k,
{
    let m = choose|m: u64| proto_edge(nodes, a, m) && proto_reaches(nodes, m, b, (k - 1) as nat);
    lemma_edge_pos(nodes, a, m);
    if m == b {
    } else {
        lemma_reaches_pos(nodes, m, b, (k - 1) as nat);
    }
}

/// Dependency order rules out cycles: in a network whose nodes stand in
/// topological order with unique identities, no identity transitively
/// produces itself.
pub proof fn lemma_topo_sorted_acyclic(nodes: Seq<ProtoNode>)
    requires
        proto_ids_unique(nodes),
        topo_sorted(nodes),
    ensures
        proto_acyclic(nodes),
{
    assert forall|a: u64, b: u64, k: nat| #[trigger] proto_edge(nodes, a, b) implies !(
    #[trigger] proto_reaches(nodes, b, a, k)) by {
        if proto_reaches(nodes, b, a, k) {
            lemma_edge_pos(nodes, a, b);
            if b == a {
            } else {
                lemma_reaches_pos(nodes, b, a, k);
            }
        }
    }
}

/// Dependency order also means every reference resolves: each producer a
/// node names stands earlier in the list, hence in the network.
pub proof fn lemma_topo_sorted_refs_closed(nodes: Seq<ProtoNode>)
    requires
        topo_sorted(nodes),
    ensures
        proto_refs_closed(nodes),
{
    assert forall|k: int, s: int|
        0 <= k < nodes.len() && 0 <= s < nodes[k].inputs@.len() implies ((
    #[trigger] nodes[k].inputs@[s]) matches ProtoInput::Node(d) ==> proto_contains(nodes, d)) by {
        match nodes[k].inputs@[s] {
            ProtoInput::Node(d) => {
                assert(produced_before(nodes, k, d));
                let j = choose|j: int|
                    0 <= j < k && j < nodes.len() && (#[trigger] nodes[j]).id == d;
                assert(proto_contains(nodes, d));
            },
            _ => {},
        }
    }
}

pub const HASH_BASIS: u64 = 0xcbf29ce484222325;

pub const HASH_PRIME: u64 = 0x100000001b3;

/// One multiply-and-fold step of the stable-identity hash.
pub open spec fn spec_mix(h: u64, x: u64) -> u64 {
    ((((h ^ x) as int) * (HASH_PRIME as int)) % 0x10000000000000000) as u64
}

fn mix(h: u64, x: u64) -> (r: u64)
    ensures
        r == spec_mix(h, x),
{
    let y: u64 = h ^ x;
    proof {
        assert((y as int) * (HASH_PRIME as int) < 0x100000000000000000000000000000000int)
            by (nonlinear_arith)
            requires
                y <= 0xffffffffffffffffu64,
        ;
        assert((y as int) * (HASH_PRIME as int) >= 0) by (nonlinear_arith)
            requires
                y >= 0,
        ;
    }
    let wide: u128 = (y as u128) * (HASH_PRIME as u128);
    let r: u64 = (wide % 0x10000000000000000u128) as u64;
    r
}

/// Folding one resolved input into the hash: the slot kind is tagged so
/// that a literal and a producer reference of equal numeric value hash
/// apart.
pub open spec fn spec_mix_input(h: u64, pi: ProtoInput) -> u64 {
    match pi {
        ProtoInput::Value(v) => spec_mix(spec_mix(h, 1), v),
        ProtoInput::Node(d) => spec_mix(spec_mix(h, 2), d),
    }
}

pub open spec fn spec_hash_prefix(op: u64, inputs: Seq<ProtoInput>, n: int) -> u64
    decreases n,
{
    if n <= 0 {
        spec_mix(HASH_BASIS, op)
    } else {
        spec_mix_input(spec_hash_prefix(op, inputs, n - 1), inputs[n - 1])
    }
}

/// The stable identity of a node: a hash over its operation reference and
/// its resolved inputs, in order — content, not position, so structurally
/// identical nodes agree across compilations.
pub open spec fn stable_id_of(op: u64, inputs: Seq<ProtoInput>) -> u64 {
    spec_hash_prefix(op, inputs, inputs.len() as int)
}

/// Computes the stable identity of a node from its operation reference
/// and resolved inputs.
pub fn stable_id(op: u64, inputs: &Vec<ProtoInput>) -> (r: u64)
    ensures
        r == stable_id_of(op, inputs@),
{
    let mut h = mix(HASH_BASIS, op);
    let mut s: usize = 0;
    while s < inputs.len()
        invariant
            s <= inputs@.len(),
            h == spec_hash_prefix(op, inputs@, s as int),
        decreases inputs@.len() - s,
    {
        match inputs[s] {
            ProtoInput::Value(v) => {
                h = mix(mix(h, 1), v);
            },
            ProtoInput::Node(d) => {
                h = mix(mix(h, 2), d);
            },
        }
        s = s + 1;
    }
    h
}

/// A slot the input resolver accepts: an embedded literal, or a reference
/// to a node present in the same network.  An enclosing-parameter slot is
/// an unwired required input.
pub open spec fn slot_wired(nodes: Seq<(u64, DocumentNode)>, sl: NodeInput) -> bool {
    match sl {
        NodeInput::Value(_) => true,
        NodeInput::Node(m) => contains_id(nodes, m),
        NodeInput::Param(_) => false,
    }
}

pub open spec fn wired_ok(nodes: Seq<(u64, DocumentNode)>) -> bool {
    forall|i: int, s: int|
        0 <= i < nodes.len() && 0 <= s < nodes[i].1.inputs@.len() ==> slot_wired(
            nodes,
            #[trigger] nodes[i].1.inputs@[s],
        )
}

/// How one author-time slot resolves to an executable input.
pub open spec fn slot_resolves(sl: NodeInput, pi: ProtoInput) -> bool {
    match sl {
        NodeInput::Value(v) => pi == ProtoInput::Value(v),
        NodeInput::Node(m) => pi == ProtoInput::Node(m),
        NodeInput::Param(_) => false,
    }
}

impl Network {
    /// Replaces every author-time input reference with an executable one:
    /// literals are embedded, node references are checked to point at a
    /// node of this network.  Fails with `MissingInput` on an unwired
    /// required slot and with `DanglingReference` on a reference to an
    /// absent node, naming the node and slot; succeeds exactly when every
    /// slot of every node is wired.
    pub fn resolve_inputs(&self) -> (r: Result<ProtoNetwork, StageError>)
        requires
            self.outputs@.len() == 1,
        ensures
            r matches Ok(p) ==> {
                &&& p.nodes@.len() == self.nodes@.len()
                &&& forall|i: int|
                    0 <= i < self.nodes@.len() ==> (#[trigger] p.nodes@[i]).id
                        == self.nodes@[i].0 && p.nodes@[i].op == self.nodes@[i].1.op
                        && p.nodes@[i].inputs@.len() == self.nodes@[i].1.inputs@.len()
                &&& forall|i: int, s: int|
                    0 <= i < self.nodes@.len() && 0 <= s < self.nodes@[i].1.inputs@.len()
                        ==> slot_resolves(
                        self.nodes@[i].1.inputs@[s],
                        #[trigger] p.nodes@[i].inputs@[s],
                    )
                &&& p.output == self.outputs@[0]
            },
            r is Ok <==> wired_ok(self.nodes@),
            r matches Err(e) ==> (e matches StageError::MissingInput { node, slot } ==> exists|
                i: int,
            |
                0 <= i < self.nodes@.len() && (#[trigger] self.nodes@[i]).0 == node && (slot as int)
                    < self.nodes@[i].1.inputs@.len() && self.nodes@[i].1.inputs@[slot as int]
                    is Param),
            r matches Err(e) ==> (e matches StageError::DanglingReference { node, slot } ==> exists|
                i: int,
            |
                0 <= i < self.nodes@.len() && (#[trigger] self.nodes@[i]).0 == node && (slot as int)
                    < self.nodes@[i].1.inputs@.len() && !slot_wired(
                    self.nodes@,
                    self.nodes@[i].1.inputs@[slot as int],
                ) && self.nodes@[i].1.inputs@[slot as int] is Node),
            r matches Err(e) ==> (e is MissingInput || e is DanglingReference),
    {
        let mut out: Vec<ProtoNode> = Vec::new();
        let mut i: usize = 0;
        while i < self.nodes.len()
            invariant
                i <= self.nodes@.len(),
                out@.len() == i as int,
                forall|x: int|
                    0 <= x < i ==> (#[trigger] out@[x]).id == self.nodes@[x].0 && out@[x].op
                        == self.nodes@[x].1.op && out@[x].inputs@.len()
                        == self.nodes@[x].1.inputs@.len(),
                forall|x: int, s: int|
                    0 <= x < i && 0 <= s < self.nodes@[x].1.inputs@.len() ==> slot_resolves(
                        self.nodes@[x].1.inputs@[s],
                        #[trigger] out@[x].inputs@[s],
                    ),
                forall|x: int, s: int|
                    0 <= x < i && 0 <= s < self.nodes@[x].1.inputs@.len() ==> slot_wired(
                        self.nodes@,
                        #[trigger] self.nodes@[x].1.inputs@[s],
                    ),
            decreases self.nodes@.len() - i,
        {
            let node = &self.nodes[i].1;
            let nid = self.nodes[i].0;
            let mut rins: Vec<ProtoInput> = Vec::new();
            let mut s: usize = 0;
            while s < node.inputs.len()
                invariant
                    i < self.nodes@.len(),
                    *node == self.nodes@[i as int].1,
                    nid == self.nodes@[i as int].0,
                    s <= node.inputs@.len(),
                    rins@.len() == s as int,
                    forall|y: int|
                        0 <= y < s ==> slot_resolves(
                            self.nodes@[i as int].1.inputs@[y],
                            #[trigger] rins@[y],
                        ),
                    forall|y: int|
                        0 <= y < s ==> slot_wired(
                            self.nodes@,
                            #[trigger] self.nodes@[i as int].1.inputs@[y],
                        ),
                decreases node.inputs@.len() - s,
            {
                match node.inputs[s] {
                    NodeInput::Value(v) => {
                        rins.push(ProtoInput::Value(v));
                    },
                    NodeInput::Node(m) => {
                        match crate::graph::find_node(&self.nodes, m) {
                            Some(w) => {
                                proof {
                                    assert(self.nodes@[w as int].0 == m);
                                    assert(contains_id(self.nodes@, m));
                                }
                                rins.push(ProtoInput::Node(m));
                            },
                            None => {
                                proof {
                                    assert(self.nodes@[i as int].1.inputs@[s as int]
                                        == NodeInput::Node(m));
                                    assert(!slot_wired(
                                        self.nodes@,
                                        self.nodes@[i as int].1.inputs@[s as int],
                                    ));
                                }
                                return Err(StageError::DanglingReference { node: nid, slot: s });
                            },
                        }
                    },
                    NodeInput::Param(_) => {
                        proof {
                            assert(self.nodes@[i as int].1.inputs@[s as int] is Param);
                            assert(!slot_wired(
                                self.nodes@,
                                self.nodes@[i as int].1.inputs@[s as int],
                            ));
                        }
                        return Err(StageError::MissingInput { node: nid, slot: s });
                    },
                }
                s = s + 1;
            }
            out.push(ProtoNode { id: nid, op: node.op, inputs: rins });
            i = i + 1;
        }
        Ok(ProtoNetwork { nodes: out, output: self.outputs[0] })
    }
}

} // verus!
use vstd::prelude::*;
use vstd::set_lib::{lemma_int_range, lemma_len_subset, set_int_range};

use crate::prune::{count_true, lemma_count_true_le, lemma_count_true_update};

verus! {

/// Some node with identity `a` is already processed.
pub open spec fn done_id(nodes: Seq<ProtoNode>, done: Seq<bool>, a: u64) -> bool {
    exists|j: int| 0 <= j < nodes.len() && (#[trigger] nodes[j]).id == a && done[j]
}

/// Node `i` names a producer whose stable identity is not yet assigned.
pub open spec fn lacks_dep(nodes: Seq<ProtoNode>, m: Seq<(u64, u64)>, i: int) -> bool {
    exists|s: int|
        0 <= s < nodes[i].inputs@.len() && ((#[trigger] nodes[i].inputs@[s]) matches
        ProtoInput::Node(d) && !map_has(m, d))
}

/// Every producer named by node `i` already has a stable identity.
pub open spec fn deps_ready(nodes: Seq<ProtoNode>, m: Seq<(u64, u64)>, i: int) -> bool {
    forall|s: int|
        0 <= s < nodes[i].inputs@.len() ==> ((#[trigger] nodes[i].inputs@[s]) matches
        ProtoInput::Node(d) ==> map_has(m, d))
}

/// Node `i` is unprocessed and depends on some other unprocessed node.
pub open spec fn blocked(nodes: Seq<ProtoNode>, done: Seq<bool>, i: int) -> bool {
    exists|jd: int|
        0 <= jd < nodes.len() && !done[jd] && proto_edge(nodes, nodes[i].id, (
        #[trigger] nodes[jd]).id)
}

proof fn lemma_count_true_all(s: Seq<bool>)
    requires
        count_true(s) == s.len(),
    ensures
        forall|j: int| 0 <= j < s.len() ==> s[j],
    decreases s.len(),
{
    if s.len() > 0 {
        lemma_count_true_le(s.drop_first());
        lemma_count_true_all(s.drop_first());
        assert forall|j: int| 0 <= j < s.len() implies s[j] by {
            if j > 0 {
                assert(s.drop_first()[j - 1]);
            }
        }
    }
}

proof fn lemma_count_true_some_false(s: Seq<bool>)
    requires
        count_true(s) < s.len(),
    ensures
        exists|j: int| 0 <= j < s.len() && !s[j],
    decreases s.len(),
{
    lemma_count_true_le(s.drop_first());
    if s[0] {
        lemma_count_true_some_false(s.drop_first());
        let j = choose|j: int| 0 <= j < s.drop_first().len() && !s.drop_first()[j];
        assert(!s[j + 1]);
    } else {
        assert(!s[0]);
    }
}

proof fn lemma_walk(nodes: Seq<ProtoNode>, done: Seq<bool>, start: int, len: nat) -> (w: Seq<int>)
    requires
        done.len() == nodes.len(),
        0 <= start < nodes.len(),
        !done[start],
        forall|i: int| 0 <= i < nodes.len() && !done[i] ==> #[trigger] blocked(nodes, done, i),
    ensures
        w.len() == len + 1,
        w[0] == start,
        forall|t: int| 0 <= t < w.len() ==> 0 <= #[trigger] w[t] < nodes.len() && !done[w[t]],
        forall|t: int|
            0 <= t < w.len() - 1 ==> proto_edge(nodes, nodes[#[trigger] w[t]].id, nodes[w[t
                + 1]].id),
    decreases len,
{
    if len == 0 {
        let w = seq![start];
        w
    } else {
        let w0 = lemma_walk(nodes, done, start, (len - 1) as nat);
        let last = w0[w0.len() - 1];
        assert(blocked(nodes, done, last));
        let jd = choose|jd: int|
            0 <= jd < nodes.len() && !done[jd] && proto_edge(nodes, nodes[last].id, (
            #[trigger] nodes[jd]).id);
        let w = w0.push(jd);
        assert forall|t: int| 0 <= t < w.len() implies 0 <= #[trigger] w[t] < nodes.len()
            && !done[w[t]] by {
            if t < w0.len() {
                assert(w[t] == w0[t]);
            }
        }
        assert forall|t: int| 0 <= t < w.len() - 1 implies proto_edge(
            nodes,
            nodes[#[trigger] w[t]].id,
            nodes[w[t + 1]].id,
        ) by {
            if t < w0.len() - 1 {
                assert(w[t] == w0[t] && w[t + 1] == w0[t + 1]);
            } else {
                assert(w[t] == last && w[t + 1] == jd);
            }
        }
        w
    }
}

proof fn lemma_pigeonhole(w: Seq<int>, n: int)
    requires
        n >= 0,
        w.len() > n,
        forall|t: int| 0 <= t < w.len() ==> 0 <= #[trigger] w[t] < n,
    ensures
        exists|t1: int, t2: int| 0 <= t1 < t2 < w.len() && w[t1] == w[t2],
{
    if w.no_duplicates() {
        w.unique_seq_to_set();
        lemma_int_range(0, n);
        assert forall|x: int| w.to_set().contains(x) implies set_int_range(0, n).contains(x) by {
            let t = choose|t: int| 0 <= t < w.len() && w[t] == x;
            assert(0 <= x < n);
        }
        lemma_len_subset(w.to_set(), set_int_range(0, n));
        assert(false);
    } else {
        let (i, j): (int, int) = choose|i: int, j: int|
            0 <= i < w.len() && 0 <= j < w.len() && i != j && #[trigger] w[i] == #[trigger] w[j];
        if i < j {
            assert(0 <= i < j < w.len() && w[i] == w[j]);
        } else {
            assert(0 <= j < i < w.len() && w[j] == w[i]);
        }
    }
}

proof fn lemma_walk_reaches(nodes: Seq<ProtoNode>, w: Seq<int>, t1: int, t2: int)
    requires
        0 <= t1 <= t2 < w.len(),
        forall|t: int| 0 <= t < w.len() ==> 0 <= #[trigger] w[t] < nodes.len(),
        forall|t: int|
            0 <= t < w.len() - 1 ==> proto_edge(nodes, nodes[#[trigger] w[t]].id, nodes[w[t
                + 1]].id),
    ensures
        proto_reaches(nodes, nodes[w[t1]].id, nodes[w[t2]].id, (t2 - t1) as nat),
    decreases t2 - t1,
{
    if t1 == t2 {
    } else {
        lemma_walk_reaches(nodes, w, t1 + 1, t2);
        assert(proto_edge(nodes, nodes[w[t1]].id, nodes[w[t1 + 1]].id));
        assert(proto_reaches(nodes, nodes[w[t1 + 1]].id, nodes[w[t2]].id, ((t2 - t1) - 1) as nat));
    }
}

/// If every unprocessed node depends on another unprocessed node, the
/// dependency relation has a cycle.
proof fn lemma_stuck_cycle(nodes: Seq<ProtoNode>, done: Seq<bool>, start: int)
    requires
        done.len() == nodes.len(),
        0 <= start < nodes.len(),
        !done[start],
        forall|i: int| 0 <= i < nodes.len() && !done[i] ==> #[trigger] blocked(nodes, done, i),
    ensures
        !proto_acyclic(nodes),
{
    let w = lemma_walk(nodes, done, start, nodes.len());
    lemma_pigeonhole(w, nodes.len() as int);
    let (t1, t2): (int, int) = choose|t1: int, t2: int|
        0 <= t1 < t2 < w.len() && #[trigger] w[t1] == #[trigger] w[t2];
    lemma_walk_reaches(nodes, w, t1 + 1, t2);
    assert(proto_edge(nodes, nodes[w[t1]].id, nodes[w[t1 + 1]].id));
    assert(proto_reaches(nodes, nodes[w[t1 + 1]].id, nodes[w[t1]].id, (t2 - (t1 + 1)) as nat));
}

fn find_proto(nodes: &Vec<ProtoNode>, id: u64) -> (r: Option<usize>)
    ensures
        r matches Some(i) ==> i < nodes@.len() && nodes@[i as int].id == id,
        r is None ==> !proto_contains(nodes@, id),
{
    let mut i: usize = 0;
    while i < nodes.len()
        invariant
            i <= nodes@.len(),
            forall|k: int| 0 <= k < i ==> (#[trigger] nodes@[k]).id != id,
        decreases nodes@.len() - i,
    {
        if nodes[i].id == id {
            return Some(i);
        }
        i = i + 1;
    }
    None
}

fn find_ready(nodes: &Vec<ProtoNode>, done: &Vec<bool>, m: &Vec<(u64, u64)>) -> (r: Option<usize>)
    requires
        done@.len() == nodes@.len(),
        forall|t1: int, t2: int| 0 <= t1 < t2 < m@.len() ==> m@[t1].0 != m@[t2].0,
    ensures
        r matches Some(i) ==> i < nodes@.len() && !done@[i as int] && deps_ready(nodes@, m@, i as int),
        r is None ==> forall|i: int|
            0 <= i < nodes@.len() && !done@[i] ==> #[trigger] lacks_dep(nodes@, m@, i),
{
    let mut i: usize = 0;
    while i < nodes.len()
        invariant
            i <= nodes@.len(),
            done@.len() == nodes@.len(),
            forall|t1: int, t2: int| 0 <= t1 < t2 < m@.len() ==> m@[t1].0 != m@[t2].0,
            forall|x: int| 0 <= x < i && !done@[x] ==> #[trigger] lacks_dep(nodes@, m@, x),
        decreases nodes@.len() - i,
    {
        if !done[i] {
            let node = &nodes[i];
            let mut ok = true;
            let mut s: usize = 0;
            while s < node.inputs.len()
                invariant
                    i < nodes@.len(),
                    *node == nodes@[i as int],
                    s <= node.inputs@.len(),
                    forall|t1: int, t2: int| 0 <= t1 < t2 < m@.len() ==> m@[t1].0 != m@[t2].0,
                    ok ==> forall|y: int|
                        0 <= y < s ==> ((#[trigger] nodes@[i as int].inputs@[y]) matches
                        ProtoInput::Node(d) ==> map_has(m@, d)),
                    !ok ==> lacks_dep(nodes@, m@, i as int),
                decreases node.inputs@.len() - s,
            {
                match node.inputs[s] {
                    ProtoInput::Node(d) => {
                        match map_get(m, d) {
                            Some(_) => {},
                            None => {
                                proof {
                                    assert(nodes@[i as int].inputs@[s as int]
                                        == ProtoInput::Node(d));
                                }
                                ok = false;
                            },
                        }
                    },
                    _ => {},
                }
                s = s + 1;
            }
            if ok {
                return Some(i);
            }
        }
        i = i + 1;
    }
    None
}

impl ProtoNetwork {
    /// Assigns every node its stable, content-derived identity, processing
    /// producers before consumers and rewriting each input reference to
    /// the producer's new identity.  Structurally identical nodes collapse
    /// onto one entry.  The result is in dependency order with unique
    /// identities, every reference resolving inside the network, and each
    /// identity equal to the hash of the node's own content — so identical
    /// content yields identical identities across compilations.  Fails
    /// with `CycleDetected` exactly when the dependency relation is
    /// cyclic, and with `DanglingReference` when the declared output names
    /// no node.
    #[verifier::rlimit(80)]
    pub fn generate_stable_node_ids(&self) -> (r: Result<ProtoNetwork, StageError>)
        requires
            proto_ids_unique(self.nodes@),
            proto_refs_closed(self.nodes@),
        ensures
            r matches Ok(p) ==> {
                &&& proto_ids_unique(p.nodes@)
                &&& topo_sorted(p.nodes@)
                &&& proto_acyclic(p.nodes@)
                &&& proto_refs_closed(p.nodes@)
                &&& proto_contains(p.nodes@, p.output)
                &&& forall|k: int|
                    0 <= k < p.nodes@.len() ==> (#[trigger] p.nodes@[k]).id == stable_id_of(
                        p.nodes@[k].op,
                        p.nodes@[k].inputs@,
                    )
            },
            r matches Ok(p) ==> assigned_from(self.nodes@, self.output, p.nodes@, p.output),
            r matches Err(e) ==> (e is CycleDetected || e is DanglingReference),
            r matches Err(e) ==> (e is CycleDetected ==> !proto_acyclic(self.nodes@)),
            r matches Err(e) ==> (e is DanglingReference ==> !proto_contains(
                self.nodes@,
                self.output,
            )),
            (proto_acyclic(self.nodes@) && proto_contains(self.nodes@, self.output)) ==> r is Ok,
    {
        let n = self.nodes.len();
        match find_proto(&self.nodes, self.output) {
            Some(_) => {},
            None => {
                return Err(StageError::DanglingReference { node: self.output, slot: 0 });
            },
        }
        let mut done: Vec<bool> = Vec::new();
        let mut t: usize = 0;
        while t < n
            invariant
                t <= n,
                done@.len() == t as int,
                forall|j: int| 0 <= j < t ==> !done@[j],
            decreases n - t,
        {
            done.push(false);
            t = t + 1;
        }
        proof {
            lemma_count_true_le(done@);
        }
        let mut m: Vec<(u64, u64)> = Vec::new();
        let mut out: Vec<ProtoNode> = Vec::new();
        loop
            invariant
                n == self.nodes@.len(),
                done@.len() == n as int,
                proto_ids_unique(self.nodes@),
                proto_refs_closed(self.nodes@),
                proto_contains(self.nodes@, self.output),
                forall|t1: int, t2: int| 0 <= t1 < t2 < m@.len() ==> m@[t1].0 != m@[t2].0,
                forall|t0: int|
                    0 <= t0 < m@.len() ==> done_id(self.nodes@, done@, #[trigger] m@[t0].0),
                forall|j: int|
                    0 <= j < n && done@[j] ==> map_has(m@, #[trigger] self.nodes@[j].id),
                forall|t0: int|
                    0 <= t0 < m@.len() ==> proto_contains(out@, #[trigger] m@[t0].1),
                proto_ids_unique(out@),
                topo_sorted(out@),
                forall|k: int|
                    0 <= k < out@.len() ==> (#[trigger] out@[k]).id == stable_id_of(
                        out@[k].op,
                        out@[k].inputs@,
                    ),
                forall|k: int|
                    0 <= k < out@.len() ==> image_of_some(m@, self.nodes@, #[trigger] out@[k]),
            ensures
                forall|j: int| 0 <= j < n ==> done@[j],
                forall|t1: int, t2: int| 0 <= t1 < t2 < m@.len() ==> m@[t1].0 != m@[t2].0,
                forall|j: int|
                    0 <= j < n && done@[j] ==> map_has(m@, #[trigger] self.nodes@[j].id),
                forall|t0: int|
                    0 <= t0 < m@.len() ==> proto_contains(out@, #[trigger] m@[t0].1),
                proto_ids_unique(out@),
                topo_sorted(out@),
                forall|k: int|
                    0 <= k < out@.len() ==> (#[trigger] out@[k]).id == stable_id_of(
                        out@[k].op,
                        out@[k].inputs@,
                    ),
                forall|k: int|
                    0 <= k < out@.len() ==> image_of_some(m@, self.nodes@, #[trigger] out@[k]),
            decreases n as int - count_true(done@),
        {
            proof {
                lemma_count_true_le(done@);
            }
            if count_done(&done) == n {
                proof {
                    lemma_count_true_all(done@);
                }
                break;
            }
            let i = match find_ready(&self.nodes, &done, &m) {
                Some(i) => i,
                None => {
                    proof {
                        lemma_count_true_some_false(done@);
                        let start = choose|j: int| 0 <= j < done@.len() && !done@[j];
                        assert forall|x: int| 0 <= x < n && !done@[x] implies #[trigger] blocked(
                            self.nodes@,
                            done@,
                            x,
                        ) by {
                            assert(lacks_dep(self.nodes@, m@, x));
                            let s = choose|s: int|
                                0 <= s < self.nodes@[x].inputs@.len() && ((
                                #[trigger] self.nodes@[x].inputs@[s]) matches ProtoInput::Node(d)
                                    && !map_has(m@, d));
                            match self.nodes@[x].inputs@[s] {
                                ProtoInput::Node(d) => {
                                    assert(proto_contains(self.nodes@, d));
                                    let jd = choose|jd: int|
                                        0 <= jd < self.nodes@.len() && (
                                        #[trigger] self.nodes@[jd]).id == d;
                                    assert(!done@[jd]);
                                    assert(proto_edge(self.nodes@, self.nodes@[x].id, d));
                                },
                                _ => {},
                            }
                        }
                        lemma_stuck_cycle(self.nodes@, done@, start);
                    }
                    return Err(StageError::CycleDetected);
                },
            };
            let node = &self.nodes[i];
            let mut rins: Vec<ProtoInput> = Vec::new();
            let mut s: usize = 0;
            while s < node.inputs.len()
                invariant
                    i < n,
                    n == self.nodes@.len(),
                    *node == self.nodes@[i as int],
                    deps_ready(self.nodes@, m@, i as int),
                    forall|t1: int, t2: int| 0 <= t1 < t2 < m@.len() ==> m@[t1].0 != m@[t2].0,
                    forall|t0: int|
                        0 <= t0 < m@.len() ==> proto_contains(out@, #[trigger] m@[t0].1),
                    s <= node.inputs@.len(),
                    rins@.len() == s as int,
                    forall|y: int|
                        0 <= y < s ==> ((#[trigger] rins@[y]) matches ProtoInput::Node(st)
                            ==> proto_contains(out@, st)),
                    forall|y: int|
                        0 <= y < s ==> input_mapped(
                            m@,
                            self.nodes@[i as int].inputs@[y],
                            #[trigger] rins@[y],
                        ),
                decreases node.inputs@.len() - s,
            {
                proof {
                    reveal(input_mapped);
                }
                match node.inputs[s] {
                    ProtoInput::Value(v) => {
                        rins.push(ProtoInput::Value(v));
                    },
                    ProtoInput::Node(d) => {
                        proof {
                            assert(self.nodes@[i as int].inputs@[s as int] == ProtoInput::Node(d));
                            assert(map_has(m@, d));
                        }
                        let st = match map_get(&m, d) {
                            Some(st) => st,
                            None => {
                                proof {
                                    assert(false);
                                }
                                0
                            },
                        };
                        proof {
                            let t0 = choose|t0: int| 0 <= t0 < m@.len() && m@[t0].0 == d;
                            assert(m@[t0].1 == map_val(m@, d));
                            assert(proto_contains(out@, m@[t0].1));
                        }
                        rins.push(ProtoInput::Node(st));
                    },
                }
                s = s + 1;
            }
            let st = stable_id(node.op, &rins);
            let ghost m0 = m@;
            let ghost done0 = done@;
            let ghost out0 = out@;
            proof {
                lemma_count_true_update(done@, i as int);
            }
            done.set(i, true);
            m.push((self.nodes[i].id, st));
            let pushed = match find_proto(&out, st) {
                Some(_) => false,
                None => {
                    out.push(ProtoNode { id: st, op: node.op, inputs: rins });
                    true
                },
            };
            proof {
                assert(!map_has(m0, self.nodes@[i as int].id)) by {
                    if map_has(m0, self.nodes@[i as int].id) {
                        let t0 = choose|t0: int|
                            0 <= t0 < m0.len() && m0[t0].0 == self.nodes@[i as int].id;
                        assert(done_id(self.nodes@, done0, m0[t0].0));
                        let j = choose|j: int|
                            0 <= j < self.nodes@.len() && (#[trigger] self.nodes@[j]).id
                                == m0[t0].0 && done0[j];
                        assert(j == i as int);
                    }
                }
                // map keys stay unique: the new key belongs to a node that
                // was not yet processed.
                assert forall|t1: int, t2: int| 0 <= t1 < t2 < m@.len() implies m@[t1].0
                    != m@[t2].0 by {
                    if t2 == m@.len() - 1 {
                        assert(m@[t1] == m0[t1]);
                        assert(done_id(self.nodes@, done0, m0[t1].0));
                        let j = choose|j: int|
                            0 <= j < self.nodes@.len() && (#[trigger] self.nodes@[j]).id
                                == m0[t1].0 && done0[j];
                        if m@[t1].0 == m@[t2].0 {
                            assert(self.nodes@[j].id == self.nodes@[i as int].id);
                            assert(j == i as int);
                        }
                    } else {
                        assert(m@[t1] == m0[t1] && m@[t2] == m0[t2]);
                    }
                }
                assert forall|t0: int| 0 <= t0 < m@.len() implies done_id(
                    self.nodes@,
                    done@,
                    #[trigger] m@[t0].0,
                ) by {
                    if t0 < m0.len() {
                        assert(done_id(self.nodes@, done0, m0[t0].0));
                        let j = choose|j: int|
                            0 <= j < self.nodes@.len() && (#[trigger] self.nodes@[j]).id
                                == m0[t0].0 && done0[j];
                        assert(done@[j]);
                    } else {
                        assert(self.nodes@[i as int].id == m@[t0].0 && done@[i as int]);
                    }
                }
                assert forall|j: int| 0 <= j < n && done@[j] implies map_has(
                    m@,
                    #[trigger] self.nodes@[j].id,
                ) by {
                    if j == i as int {
                        assert(m@[m@.len() - 1].0 == self.nodes@[j].id);
                    } else {
                        assert(done0[j]);
                        let t0 = choose|t0: int| 0 <= t0 < m0.len() && m0[t0].0
                            == self.nodes@[j].id;
                        assert(m@[t0].0 == self.nodes@[j].id);
                    }
                }
                // the new map value is present in `out`, and old values stay.
                if pushed {
                    assert(out@ == out0.push(ProtoNode { id: st, op: node.op, inputs: rins }));
                    assert(out@[out@.len() - 1].id == st);
                    assert(proto_contains(out@, st));
                } else {
                    assert(proto_contains(out@, st));
                }
                assert forall|t0: int| 0 <= t0 < m@.len() implies proto_contains(
                    out@,
                    #[trigger] m@[t0].1,
                ) by {
                    if t0 < m0.len() {
                        assert(proto_contains(out0, m0[t0].1));
                        let j = choose|j: int|
                            0 <= j < out0.len() && (#[trigger] out0[j]).id == m0[t0].1;
                        assert(out@[j].id == m0[t0].1);
                    }
                }
                let ghost e = (self.nodes@[i as int].id, st);
                assert(m@ == m0.push(e));
                lemma_images_after_step(self.nodes@, m0, e, out0, out@, i as int, rins@, st);
                if pushed {
                    assert forall|a: int, b: int| 0 <= a < b < out@.len() implies out@[a].id
                        != out@[b].id by {
                        if b == out@.len() - 1 {
                            assert(out@[a] == out0[a]);
                            assert(proto_contains(out0, out0[a].id));
                        }
                    }
                    assert forall|k: int, s2: int|
                        0 <= k < out@.len() && 0 <= s2 < out@[k].inputs@.len() implies ((
                    #[trigger] out@[k].inputs@[s2]) matches ProtoInput::Node(d) ==> produced_before(
                        out@,
                        k,
                        d,
                    )) by {
                        if k < out0.len() {
                            assert(out@[k] == out0[k]);
                            match out0[k].inputs@[s2] {
                                ProtoInput::Node(d) => {
                                    assert(produced_before(out0, k, d));
                                    let j = choose|j: int|
                                        0 <= j < k && j < out0.len() && (#[trigger] out0[j]).id
                                            == d;
                                    assert(out@[j].id == d);
                                },
                                _ => {},
                            }
                        } else {
                            match out@[k].inputs@[s2] {
                                ProtoInput::Node(d) => {
                                    assert(rins@[s2] == out@[k].inputs@[s2]);
                                    assert(proto_contains(out0, d));
                                    let j = choose|j: int|
                                        0 <= j < out0.len() && (#[trigger] out0[j]).id == d;
                                    assert(out@[j].id == d && j < k);
                                },
                                _ => {},
                            }
                        }
                    }
                    assert forall|k: int| 0 <= k < out@.len() implies (#[trigger] out@[k]).id
                        == stable_id_of(out@[k].op, out@[k].inputs@) by {
                        if k < out0.len() {
                            assert(out@[k] == out0[k]);
                        } else {
                            assert(out@[k].id == st && out@[k].op == node.op && out@[k].inputs@
                                == rins@);
                        }
                    }
                }
            }
        }
        let outid = match map_get(&m, self.output) {
            Some(v) => v,
            None => {
                proof {
                    let j0 = choose|j0: int|
                        0 <= j0 < self.nodes@.len() && (#[trigger] self.nodes@[j0]).id
                            == self.output;
                    assert(done@[j0]);
                    assert(false);
                }
                0
            },
        };
        proof {
            let t0 = choose|t0: int| 0 <= t0 < m@.len() && m@[t0].0 == self.output;
            assert(m@[t0].1 == map_val(m@, self.output));
            assert(proto_contains(out@, m@[t0].1));
            lemma_topo_sorted_refs_closed(out@);
            lemma_topo_sorted_acyclic(out@);
            assert forall|j: int| 0 <= j < self.nodes@.len() implies map_has(
                m@,
                (#[trigger] self.nodes@[j]).id,
            ) && proto_contains(out@, map_val(m@, self.nodes@[j].id)) by {
                assert(done@[j]);
                assert(map_has(m@, self.nodes@[j].id));
                let tj = choose|tj: int| 0 <= tj < m@.len() && m@[tj].0 == self.nodes@[j].id;
                lemma_map_val_at(m@, tj);
                assert(proto_contains(out@, m@[tj].1));
            }
            assert(map_val(m@, self.output) == outid) by {
                let tw = choose|tw: int| 0 <= tw < m@.len() && m@[tw].0 == self.output;
                lemma_map_val_at(m@, tw);
            }
            reveal(valid_assignment);
            assert(valid_assignment(self.nodes@, self.output, out@, outid, m@));
        }
        let p = ProtoNetwork { nodes: out, output: outid };
        proof {
            reveal(assigned_from);
            assert(valid_assignment(self.nodes@, self.output, p.nodes@, p.output, m@));
            assert(assigned_from(self.nodes@, self.output, p.nodes@, p.output));
        }
        Ok(p)
    }
}

/// How many entries are processed so far.
fn count_done(done: &Vec<bool>) -> (r: usize)
    ensures
        r as int == count_true(done@),
{
    let mut c: usize = 0;
    let mut i: usize = 0;
    while i < done.len()
        invariant
            i <= done@.len(),
            c as int == count_true(done@.subrange(0, i as int)),
            c <= i,
        decreases done@.len() - i,
    {
        let ghost pre = done@.subrange(0, i as int);
        if done[i] {
            c = c + 1;
        }
        proof {
            assert(done@.subrange(0, i + 1 as int).drop_last() =~= pre);
            lemma_count_true_snoc(done@.subrange(0, i + 1 as int));
        }
        i = i + 1;
    }
    proof {
        assert(done@.subrange(0, done@.len() as int) =~= done@);
    }
    c
}

proof fn lemma_count_true_snoc(s: Seq<bool>)
    requires
        s.len() > 0,
    ensures
        count_true(s) == count_true(s.drop_last()) + (if s.last() {
            1int
        } else {
            0int
        }),
    decreases s.len(),
{
    if s.len() == 1 {
        assert(s.drop_last() =~= Seq::<bool>::empty());
        assert(s.drop_first() =~= Seq::<bool>::empty());
    } else {
        lemma_count_true_snoc(s.drop_first());
        assert(s.drop_first().drop_last() =~= s.drop_last().drop_first());
        assert(s.drop_first().last() == s.last());
        assert(s.drop_last()[0] == s[0]);
    }
}

} // verus!
use vstd::relations::injective;

verus! {

/// A pairwise-distinct sequence of indices below `n` has at most `n`
/// entries.
pub proof fn lemma_seq_usize_bounded(w: Seq<usize>, n: int)
    requires
        n >= 0,
        forall|t: int| 0 <= t < w.len() ==> (#[trigger] w[t]) < n,
        forall|t1: int, t2: int| 0 <= t1 < t2 < w.len() ==> #[trigger] w[t1] != #[trigger] w[t2],
    ensures
        w.len() <= n,
{
    if w.len() > n {
        let f = |x: usize| x as int;
        assert(w.no_duplicates()) by {
            assert forall|i: int, j: int|
                0 <= i < w.len() && 0 <= j < w.len() && i != j implies w[i] != w[j] by {
                if i < j {
                    assert(w[i] != w[j]);
                } else {
                    assert(w[j] != w[i]);
                }
            }
        }
        assert(injective(f)) by {
            assert forall|x: usize, y: usize| #[trigger] f(x) == #[trigger] f(y) implies x == y by {
            }
        }
        w.lemma_no_duplicates_injective(f);
        let wi = w.map_values(f);
        assert forall|t: int| 0 <= t < wi.len() implies 0 <= #[trigger] wi[t] < n by {
            assert(wi[t] == f(w[t]));
        }
        lemma_pigeonhole(wi, n);
        let (t1, t2): (int, int) = choose|t1: int, t2: int|
            0 <= t1 < t2 < wi.len() && #[trigger] wi[t1] == #[trigger] wi[t2];
        assert(wi[t1] == f(w[t1]) && wi[t2] == f(w[t2]));
        assert(false);
    }
}

} // verus!
verus! {

/// Stable identities are content-derived: two nodes with the same
/// operation reference and the same resolved inputs receive the same
/// identity, in whatever networks and at whatever positions they stand.
/// Author-time identifiers never enter the identity, so renaming them
/// cannot change it.
pub proof fn lemma_identity_from_content_alone(a: ProtoNode, b: ProtoNode)
    requires
        a.id == stable_id_of(a.op, a.inputs@),
        b.id == stable_id_of(b.op, b.inputs@),
        a.op == b.op,
        a.inputs@ == b.inputs@,
    ensures
        a.id == b.id,
{
}

} // verus!
verus! {

/// Resolved input `b` is the image of `a` under the identity assignment
/// `am`: literals are kept, a producer reference is rewritten to the
/// producer's assigned identity.
#[verifier::opaque]
pub open spec fn input_mapped(am: Seq<(u64, u64)>, a: ProtoInput, b: ProtoInput) -> bool {
    match a {
        ProtoInput::Value(v) => b == ProtoInput::Value(v),
        ProtoInput::Node(d) => map_has(am, d) && b == ProtoInput::Node(map_val(am, d)),
    }
}

/// `p` is the image of `n` under the identity assignment `am`: same
/// operation, the assigned identity, and every input slot mapped through
/// `am`.
#[verifier::opaque]
pub open spec fn node_image(am: Seq<(u64, u64)>, n: ProtoNode, p: ProtoNode) -> bool {
    &&& p.op == n.op
    &&& map_has(am, n.id)
    &&& p.id == map_val(am, n.id)
    &&& p.inputs@.len() == n.inputs@.len()
    &&& forall|s: int|
        0 <= s < n.inputs@.len() ==> input_mapped(am, #[trigger] n.inputs@[s], p.inputs@[s])
}

/// `p` is the image of some node of `src` under `am`.
#[verifier::opaque]
pub open spec fn image_of_some(am: Seq<(u64, u64)>, src: Seq<ProtoNode>, p: ProtoNode) -> bool {
    exists|j: int| 0 <= j < src.len() && node_image(am, #[trigger] src[j], p)
}

/// `am` is an identity assignment carrying `src` to `dst`: every source
/// node receives an identity whose node is present in `dst`, every node
/// of `dst` is the faithful image of some source node, and the output is
/// the image of the source output.  Structurally identical source nodes
/// receive the same identity and collapse onto one image.
/// An identity assignment carrying `src` to `dst` exists.
#[verifier::opaque]
pub open spec fn assigned_from(
    src: Seq<ProtoNode>,
    src_output: u64,
    dst: Seq<ProtoNode>,
    dst_output: u64,
) -> bool {
    exists|am: Seq<(u64, u64)>|
        #[trigger] valid_assignment(src, src_output, dst, dst_output, am)
}

#[verifier::opaque]
pub open spec fn valid_assignment(
    src: Seq<ProtoNode>,
    src_output: u64,
    dst: Seq<ProtoNode>,
    dst_output: u64,
    am: Seq<(u64, u64)>,
) -> bool {
    &&& forall|t1: int, t2: int| 0 <= t1 < t2 < am.len() ==> am[t1].0 != am[t2].0
    &&& forall|j: int| 0 <= j < src.len() ==> map_has(am, (#[trigger] src[j]).id)
    &&& forall|j: int|
        0 <= j < src.len() ==> proto_contains(dst, map_val(am, (#[trigger] src[j]).id))
    &&& forall|k: int| 0 <= k < dst.len() ==> image_of_some(am, src, #[trigger] dst[k])
    &&& map_has(am, src_output)
    &&& dst_output == map_val(am, src_output)
}

proof fn lemma_map_val_at(m: Seq<(u64, u64)>, t: int)
    requires
        forall|t1: int, t2: int| 0 <= t1 < t2 < m.len() ==> m[t1].0 != m[t2].0,
        0 <= t < m.len(),
    ensures
        map_has(m, m[t].0),
        map_val(m, m[t].0) == m[t].1,
{
    assert(map_has(m, m[t].0));
    let wd = choose|i: int| 0 <= i < m.len() && m[i].0 == m[t].0;
    assert(wd == t);
}

proof fn lemma_map_val_stable(m: Seq<(u64, u64)>, e: (u64, u64), k: u64)
    requires
        forall|t1: int, t2: int| 0 <= t1 < t2 < m.len() ==> m[t1].0 != m[t2].0,
        map_has(m, k),
        e.0 != k,
    ensures
        map_has(m.push(e), k),
        map_val(m.push(e), k) == map_val(m, k),
{
    let w = choose|w: int| 0 <= w < m.len() && m[w].0 == k;
    assert(m.push(e)[w] == m[w]);
    assert(map_has(m.push(e), k));
    let wd = choose|i: int| 0 <= i < m.len() && m[i].0 == k;
    assert(wd == w);
    let wd2 = choose|i: int| 0 <= i < m.push(e).len() && m.push(e)[i].0 == k;
    assert(wd2 != m.len());
    assert(m.push(e)[wd2] == m[wd2]);
    assert(wd2 == w);
}

proof fn lemma_input_mapped_stable(m: Seq<(u64, u64)>, e: (u64, u64), a: ProtoInput, b: ProtoInput)
    requires
        forall|t1: int, t2: int| 0 <= t1 < t2 < m.len() ==> m[t1].0 != m[t2].0,
        !map_has(m, e.0),
        input_mapped(m, a, b),
    ensures
        input_mapped(m.push(e), a, b),
{
    reveal(input_mapped);
    match a {
        ProtoInput::Value(_) => {},
        ProtoInput::Node(d) => {
            assert(d != e.0);
            lemma_map_val_stable(m, e, d);
        },
    }
}

proof fn lemma_node_image_stable(m: Seq<(u64, u64)>, e: (u64, u64), n: ProtoNode, p: ProtoNode)
    requires
        forall|t1: int, t2: int| 0 <= t1 < t2 < m.len() ==> m[t1].0 != m[t2].0,
        !map_has(m, e.0),
        node_image(m, n, p),
    ensures
        node_image(m.push(e), n, p),
{
    reveal(node_image);
    assert(n.id != e.0);
    lemma_map_val_stable(m, e, n.id);
    assert forall|s: int| 0 <= s < n.inputs@.len() implies input_mapped(
        m.push(e),
        #[trigger] n.inputs@[s],
        p.inputs@[s],
    ) by {
        lemma_input_mapped_stable(m, e, n.inputs@[s], p.inputs@[s]);
    }
}

} // verus!
verus! {

/// One assignment step keeps every emitted node the image of a source
/// node: old images survive the map extension, and a newly emitted node
/// is the image of the node just processed.
proof fn lemma_images_after_step(
    src: Seq<ProtoNode>,
    m0: Seq<(u64, u64)>,
    e: (u64, u64),
    out0: Seq<ProtoNode>,
    out1: Seq<ProtoNode>,
    i: int,
    rins: Seq<ProtoInput>,
    st: u64,
)
    requires
        forall|t1: int, t2: int| 0 <= t1 < t2 < m0.len() ==> m0[t1].0 != m0[t2].0,
        0 <= i < src.len(),
        e == (src[i].id, st),
        !map_has(m0, e.0),
        forall|k: int| 0 <= k < out0.len() ==> image_of_some(m0, src, #[trigger] out0[k]),
        rins.len() == src[i].inputs@.len(),
        forall|s2: int|
            0 <= s2 < rins.len() ==> input_mapped(m0, src[i].inputs@[s2], #[trigger] rins[s2]),
        out0.len() <= out1.len() <= out0.len() + 1,
        forall|k: int| 0 <= k < out0.len() ==> out1[k] == #[trigger] out0[k],
        out1.len() == out0.len() + 1 ==> (out1[out1.len() - 1].id == st && out1[out1.len()
            - 1].op == src[i].op && out1[out1.len() - 1].inputs@ == rins),
    ensures
        forall|k: int|
            0 <= k < out1.len() ==> image_of_some(m0.push(e), src, #[trigger] out1[k]),
{
    reveal(image_of_some);
    reveal(node_image);
    let m1 = m0.push(e);
    assert forall|t1: int, t2: int| 0 <= t1 < t2 < m1.len() implies m1[t1].0 != m1[t2].0 by {
        if t2 == m1.len() - 1 {
            assert(m1[t1] == m0[t1]);
            assert(!map_has(m0, e.0));
        } else {
            assert(m1[t1] == m0[t1] && m1[t2] == m0[t2]);
        }
    }
    assert forall|k: int| 0 <= k < out1.len() implies image_of_some(
        m1,
        src,
        #[trigger] out1[k],
    ) by {
        if k < out0.len() {
            assert(image_of_some(m0, src, out0[k]));
            let j = choose|j: int|
                0 <= j < src.len() && node_image(m0, #[trigger] src[j], out0[k]);
            lemma_node_image_stable(m0, e, src[j], out0[k]);
            assert(out1[k] == out0[k]);
            assert(node_image(m1, src[j], out1[k]));
        } else {
            assert(out1[k].op == src[i].op && out1[k].inputs@ == rins && out1[k].id == st);
            lemma_map_val_at(m1, m1.len() - 1);
            assert(map_has(m1, src[i].id) && map_val(m1, src[i].id) == st);
            assert forall|s2: int| 0 <= s2 < src[i].inputs@.len() implies input_mapped(
                m1,
                #[trigger] src[i].inputs@[s2],
                out1[k].inputs@[s2],
            ) by {
                assert(input_mapped(m0, src[i].inputs@[s2], rins[s2]));
                lemma_input_mapped_stable(m0, e, src[i].inputs@[s2], rins[s2]);
            }
            assert(node_image(m1, src[i], out1[k]));
        }
    }
}

} // verus!
