use vstd::prelude::*;

verus! {

/// One input slot of an author-time node: an embedded literal value, a
/// reference to another node's output within the same network, or a
/// reference to a parameter slot of the enclosing network.  A `Param` slot
/// is satisfied only when a composite instantiation wires something into
/// it; one that survives to input resolution is an unwired required input.
#[derive(Clone, Copy, PartialEq, Eq, Structural, Debug)]
pub enum NodeInput {
    Value(u64),
    Node(u64),
    Param(usize),
}

/// An author-time node: an operation reference, an ordered list of input
/// slots and, for composite nodes, the arena index of the network that
/// forms the node's body.
#[derive(Debug)]
pub struct DocumentNode {
    pub op: u64,
    pub inputs: Vec<NodeInput>,
    pub body: Option<usize>,
}

/// One level of an author graph: a mapping from node identifier to node
/// (kept as an association list whose keys are unique), plus the declared
/// outputs, each the identifier of a node within this network.
#[derive(Debug)]
pub struct Network {
    pub nodes: Vec<(u64, DocumentNode)>,
    pub outputs: Vec<u64>,
}

/// The nested author graph: an arena of networks.  `networks[root]` is the
/// top level; a composite node's body is another arena entry, referenced by
/// index, so nesting carries no ownership cycles and unbounded depth costs
/// nothing structurally.
#[derive(Debug)]
pub struct NodeNetwork {
    pub networks: Vec<Network>,
    pub root: usize,
}

/// The operation reference of a pass-through node: it forwards its single
/// input unchanged.  Such nodes stitch inlining boundaries together and are
/// collapsed by the redundancy eliminator.
pub const IDENTITY_OP: u64 = 0;

/// Node identifiers are unique within one network's scope.
pub open spec fn ids_unique(nodes: Seq<(u64, DocumentNode)>) -> bool {
    forall|i: int, j: int| 0 <= i < j < nodes.len() ==> nodes[i].0 != nodes[j].0
}

/// Some node in `nodes` has identifier `id`.
pub open spec fn contains_id(nodes: Seq<(u64, DocumentNode)>, id: u64) -> bool {
    exists|i: int| 0 <= i < nodes.len() && nodes[i].0 == id
}

/// No composite nodes remain: the network is a single level.
pub open spec fn is_flat(nodes: Seq<(u64, DocumentNode)>) -> bool {
    forall|i: int| 0 <= i < nodes.len() ==> nodes[i].1.body is None
}

/// Structural equality of nodes, stated over the slot view so that copies
/// built slot by slot compare equal.
pub open spec fn node_eq(a: DocumentNode, b: DocumentNode) -> bool {
    a.op == b.op && a.inputs@ == b.inputs@ && a.body == b.body
}

/// Well-formedness of one network within an arena of `arena_len` entries:
/// identifiers are unique and every composite body index points at an
/// arena entry.
pub open spec fn net_wf(net: Network, arena_len: int) -> bool {
    &&& ids_unique(net.nodes@)
    &&& forall|i: int|
        0 <= i < net.nodes@.len() ==> ((#[trigger] net.nodes@[i]).1.body matches Some(b) ==> b
            < arena_len)
}

impl NodeNetwork {
    /// The author graph's structural invariant: the root index and every
    /// composite body index point at arena entries, and identifiers are
    /// unique within each network.
    pub open spec fn wf(self) -> bool {
        &&& self.root < self.networks@.len()
        &&& forall|n: int|
            0 <= n < self.networks@.len() ==> net_wf(#[trigger] self.networks@[n], self.networks@.len() as int)
    }

    /// The declared outputs of the top-level network.
    pub open spec fn spec_root_outputs(self) -> Seq<u64> {
        self.networks@[self.root as int].outputs@
    }

    /// Checks the structural invariant executably, so that unverified
    /// callers can establish what `compile` requires.
    pub fn is_well_formed(&self) -> (r: bool)
        ensures
            r == self.wf(),
    {
        if self.root >= self.networks.len() {
            return false;
        }
        let mut n: usize = 0;
        while n < self.networks.len()
            invariant
                n <= self.networks@.len(),
                forall|k: int|
                    0 <= k < n ==> net_wf(#[trigger] self.networks@[k], self.networks@.len() as int),
                self.root < self.networks@.len(),
            decreases self.networks@.len() - n,
        {
            let net = &self.networks[n];
            let mut i: usize = 0;
            while i < net.nodes.len()
                invariant
                    n < self.networks@.len(),
                    *net == self.networks@[n as int],
                    i <= net.nodes@.len(),
                    forall|a: int, b: int| 0 <= a < b < i ==> net.nodes@[a].0 != net.nodes@[b].0,
                    forall|a: int|
                        0 <= a < i ==> ((#[trigger] net.nodes@[a]).1.body matches Some(bi)
                            ==> bi < self.networks@.len()),
                decreases net.nodes@.len() - i,
            {
                match net.nodes[i].1.body {
                    Some(b) => {
                        if b >= self.networks.len() {
                            proof {
                                assert(!net_wf(
                                    self.networks@[n as int],
                                    self.networks@.len() as int,
                                ));
                            }
                            return false;
                        }
                    },
                    None => {},
                }
                let mut j: usize = 0;
                while j < i
                    invariant
                        n < self.networks@.len(),
                        *net == self.networks@[n as int],
                        j <= i < net.nodes@.len(),
                        forall|a: int| 0 <= a < j ==> net.nodes@[a].0 != net.nodes@[i as int].0,
                    decreases i - j,
                {
                    if net.nodes[j].0 == net.nodes[i].0 {
                        proof {
                            assert(net.nodes@[j as int].0 == net.nodes@[i as int].0);
                            assert(!ids_unique(self.networks@[n as int].nodes@));
                            assert(!net_wf(
                                self.networks@[n as int],
                                self.networks@.len() as int,
                            ));
                        }
                        return false;
                    }
                    j = j + 1;
                }
                i = i + 1;
            }
            n = n + 1;
        }
        true
    }
}

/// Finds the index of the node with identifier `id`, scanning in order.
pub fn find_node(nodes: &Vec<(u64, DocumentNode)>, id: u64) -> (r: Option<usize>)
    ensures
        r matches Some(i) ==> i < nodes@.len() && nodes@[i as int].0 == id,
        r is None ==> !contains_id(nodes@, id),
{
    let mut i: usize = 0;
    while i < nodes.len()
        invariant
            i <= nodes@.len(),
            forall|k: int| 0 <= k < i ==> nodes@[k].0 != id,
        decreases nodes@.len() - i,
    {
        if nodes[i].0 == id {
            return Some(i);
        }
        i = i + 1;
    }
    None
}

/// Copies a node slot by slot; the copy is structurally equal to the
/// original.
pub fn clone_node(n: &DocumentNode) -> (r: DocumentNode)
    ensures
        node_eq(r, *n),
{
    let mut inputs: Vec<NodeInput> = Vec::new();
    let mut i: usize = 0;
    while i < n.inputs.len()
        invariant
            i <= n.inputs@.len(),
            inputs@ == n.inputs@.subrange(0, i as int),
        decreases n.inputs@.len() - i,
    {
        inputs.push(n.inputs[i]);
        assert(inputs@ =~= n.inputs@.subrange(0, i + 1 as int));
        i = i + 1;
    }
    assert(inputs@ =~= n.inputs@);
    DocumentNode { op: n.op, inputs, body: n.body }
}

/// A key is bound in an association list.
pub open spec fn map_has(m: Seq<(u64, u64)>, k: u64) -> bool {
    exists|i: int| 0 <= i < m.len() && m[i].0 == k
}

/// The value bound to `k`: that of the first matching entry.
pub open spec fn map_val(m: Seq<(u64, u64)>, k: u64) -> u64 {
    m[choose|i: int| 0 <= i < m.len() && m[i].0 == k].1
}

/// Looks a key up in an association list whose keys are unique.
pub fn map_get(m: &Vec<(u64, u64)>, k: u64) -> (r: Option<u64>)
    requires
        forall|i: int, j: int| 0 <= i < j < m@.len() ==> m@[i].0 != m@[j].0,
    ensures
        r matches Some(v) ==> map_has(m@, k) && map_val(m@, k) == v,
        r is None ==> !map_has(m@, k),
{
    let mut i: usize = 0;
    while i < m.len()
        invariant
            i <= m@.len(),
            forall|a: int, b: int| 0 <= a < b < m@.len() ==> m@[a].0 != m@[b].0,
            forall|t: int| 0 <= t < i ==> m@[t].0 != k,
        decreases m@.len() - i,
    {
        if m[i].0 == k {
            proof {
                let w = choose|t: int| 0 <= t < m@.len() && m@[t].0 == k;
                assert(m@[i as int].0 == k);
                assert(w == i as int);
            }
            return Some(m[i].1);
        }
        i = i + 1;
    }
    None
}

} // verus!
