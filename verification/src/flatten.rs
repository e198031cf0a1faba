use vstd::prelude::*;

use crate::error::StageError;
use crate::graph::{clone_node, ids_unique, is_flat, map_get, net_wf, node_eq, DocumentNode,
    Network, NodeInput, NodeNetwork};
use crate::proto::lemma_seq_usize_bounded;

verus! {

/// The identifier a rewritten reference receives when its target does not
/// exist: no node ever carries it, so the input resolver later reports the
/// reference as dangling.
pub const DANGLING_ID: u64 = 0xffffffffffffffff;

/// The parameter index marking an input slot that no instantiation wired:
/// the input resolver later reports it as a missing input.
pub const UNWIRED_PARAM: usize = 0xffffffff;

/// Network `a` holds a composite node whose body is network `b`.
pub open spec fn comp_edge(g: NodeNetwork, a: usize, b: usize) -> bool {
    a < g.networks@.len() && exists|i: int|
        0 <= i < g.networks@[a as int].nodes@.len() && (#[trigger] g.networks@[a as int].nodes@[i]).1.body
            == Some(b)
}

/// A chain of composite-body references starting at the top level.
pub open spec fn comp_path_from_root(g: NodeNetwork, p: Seq<usize>) -> bool {
    &&& p.len() >= 1
    &&& p[0] == g.root
    &&& forall|k: int| 0 <= k < p.len() - 1 ==> comp_edge(g, #[trigger] p[k], p[k + 1])
}

/// Some composite instantiated below the top level contains itself,
/// directly or through other composites.
pub open spec fn has_cyclic_composition(g: NodeNetwork) -> bool {
    exists|p: Seq<usize>, t1: int, t2: int|
        comp_path_from_root(g, p) && 0 <= t1 < t2 < p.len() && #[trigger] p[t1] == #[trigger] p[t2]
}

/// No entry of the sequence repeats.
pub open spec fn no_dup_seq(s: Seq<usize>) -> bool {
    forall|t1: int, t2: int| 0 <= t1 < t2 < s.len() ==> #[trigger] s[t1] != #[trigger] s[t2]
}

/// A chain of composite-body references starting at `start`.
pub open spec fn path_from(g: NodeNetwork, q: Seq<usize>, start: usize) -> bool {
    &&& q.len() >= 1
    &&& q[0] == start
    &&& forall|k: int| 0 <= k < q.len() - 1 ==> comp_edge(g, #[trigger] q[k], q[k + 1])
}

/// Expanding network `b` below the ancestry `ch` meets no repetition: `b`
/// is not an ancestor, and no composition path out of `b` revisits an
/// ancestor or itself.
pub open spec fn subtree_safe(g: NodeNetwork, ch: Seq<usize>, b: usize) -> bool {
    &&& !ch.contains(b)
    &&& forall|q: Seq<usize>| #[trigger] path_from(g, q, b) ==> no_dup_seq(ch + q)
}

/// Some node of `out` carries the operation reference and input arity of
/// `n`: inlining replaces composite nodes only, so plain nodes survive.
pub open spec fn keeps_plain_node(out: Seq<(u64, DocumentNode)>, n: DocumentNode) -> bool {
    exists|k: int|
        0 <= k < out.len() && (#[trigger] out[k]).1.op == n.op && out[k].1.inputs@.len()
            == n.inputs@.len()
}

/// Every node's identifier equals its position, so identifiers are unique
/// and fresh ones are always at hand.
pub open spec fn ids_are_indices(nodes: Seq<(u64, DocumentNode)>) -> bool {
    forall|k: int| 0 <= k < nodes.len() ==> (#[trigger] nodes[k]).0 == k as u64
}

/// The ancestry of one recursive expansion: the arena indices currently
/// being inlined, from the top level down to `idx`, pairwise distinct and
/// linked by composite-body edges.
pub open spec fn valid_chain(g: NodeNetwork, ch: Seq<usize>, idx: usize) -> bool {
    &&& ch.len() >= 1
    &&& ch[ch.len() - 1] == idx
    &&& ch[0] == g.root
    &&& forall|t: int| 0 <= t < ch.len() ==> (#[trigger] ch[t]) < g.networks@.len()
    &&& forall|t1: int, t2: int| 0 <= t1 < t2 < ch.len() ==> #[trigger] ch[t1] != #[trigger] ch[t2]
    &&& forall|t: int| 0 <= t < ch.len() - 1 ==> comp_edge(g, #[trigger] ch[t], ch[t + 1])
}

fn contains_usize(v: &Vec<usize>, x: usize) -> (r: bool)
    ensures
        r == v@.contains(x),
{
    let mut i: usize = 0;
    while i < v.len()
        invariant
            i <= v@.len(),
            forall|k: int| 0 <= k < i ==> v@[k] != x,
        decreases v@.len() - i,
    {
        if v[i] == x {
            assert(v@[i as int] == x);
            return true;
        }
        i = i + 1;
    }
    false
}

fn clone_chain(v: &Vec<usize>) -> (r: Vec<usize>)
    ensures
        r@ == v@,
{
    let mut r: Vec<usize> = Vec::new();
    let mut i: usize = 0;
    while i < v.len()
        invariant
            i <= v@.len(),
            r@ == v@.subrange(0, i as int),
        decreases v@.len() - i,
    {
        r.push(v[i]);
        assert(r@ =~= v@.subrange(0, i + 1 as int));
        i = i + 1;
    }
    assert(r@ =~= v@);
    r
}

/// Rewrites one top-level slot: node references go through the identifier
/// map, literals and enclosing-parameter references are kept.
fn rewrite_src_slot(sl: NodeInput, m: &Vec<(u64, u64)>) -> (r: NodeInput)
    requires
        forall|t1: int, t2: int| 0 <= t1 < t2 < m@.len() ==> m@[t1].0 != m@[t2].0,
{
    match sl {
        NodeInput::Value(v) => NodeInput::Value(v),
        NodeInput::Param(p) => NodeInput::Param(p),
        NodeInput::Node(x) => {
            match map_get(m, x) {
                Some(v) => NodeInput::Node(v),
                None => NodeInput::Node(DANGLING_ID),
            }
        },
    }
}

/// Recursively inlines every composite node of `g.networks[idx]`: each
/// body is flattened depth-first, its nodes are renamed into the
/// surrounding scope, references to the composite's enclosing parameters
/// are spliced to what the instantiation wired into the matching slot, and
/// consumers of the composite are rewired to the body's designated output.
/// `chain` holds the arena indices currently being expanded; meeting one
/// again is a cyclic composition.
fn flatten_net(g: &NodeNetwork, idx: usize, chain: &Vec<usize>) -> (r: Result<Network, StageError>)
    requires
        g.wf(),
        valid_chain(*g, chain@, idx),
        chain@.len() <= g.networks@.len(),
    ensures
        r matches Ok(net) ==> ids_are_indices(net.nodes@) && is_flat(net.nodes@)
            && net.outputs@.len() == g.networks@[idx as int].outputs@.len(),
        r matches Ok(net) ==> forall|t: int|
            0 <= t < g.networks@[idx as int].nodes@.len() ==> ((
            #[trigger] g.networks@[idx as int].nodes@[t]).1.body is None ==> keeps_plain_node(
                net.nodes@,
                g.networks@[idx as int].nodes@[t].1,
            )),
        r is Ok ==> forall|q: Seq<usize>|
            #[trigger] path_from(*g, q, idx) ==> no_dup_seq(chain@.drop_last() + q),
        r matches Err(e) ==> (e is CyclicComposition && has_cyclic_composition(*g)),
    decreases g.networks@.len() - chain@.len(),
{
    let src = &g.networks[idx];
    let mut raw: Vec<(u64, DocumentNode)> = Vec::new();
    let mut m: Vec<(u64, u64)> = Vec::new();
    let mut prov: Vec<(usize, usize, usize)> = Vec::new();
    let mut i: usize = 0;
    while i < src.nodes.len()
        invariant
            g.wf(),
            valid_chain(*g, chain@, idx),
            chain@.len() <= g.networks@.len(),
            idx < g.networks@.len(),
            *src == g.networks@[idx as int],
            i <= src.nodes@.len(),
            m@.len() == i as int,
            forall|t: int| 0 <= t < m@.len() ==> (#[trigger] m@[t]).0 == src.nodes@[t].0,
            forall|t1: int, t2: int| 0 <= t1 < t2 < m@.len() ==> m@[t1].0 != m@[t2].0,
            prov@.len() == raw@.len(),
            ids_are_indices(raw@),
            forall|k: int| 0 <= k < raw@.len() ==> (#[trigger] raw@[k]).1.body is None,
            forall|k: int|
                0 <= k < prov@.len() ==> (#[trigger] prov@[k]).0 < src.nodes@.len() && prov@[k].1
                    + prov@[k].2 <= raw@.len(),
            forall|ii: int|
                0 <= ii < i ==> ((#[trigger] src.nodes@[ii]).1.body matches Some(b)
                    ==> subtree_safe(*g, chain@, b)),
            forall|ii: int|
                0 <= ii < i ==> ((#[trigger] src.nodes@[ii]).1.body is None ==> keeps_plain_node(
                    raw@,
                    src.nodes@[ii].1,
                )),
        decreases src.nodes@.len() - i,
    {
        let old_id = src.nodes[i].0;
        match src.nodes[i].1.body {
            None => {
                let ghost m0 = m@;
                m.push((old_id, raw.len() as u64));
                proof {
                    assert(net_wf(g.networks@[idx as int], g.networks@.len() as int));
                    assert forall|t1: int, t2: int| 0 <= t1 < t2 < m@.len() implies m@[t1].0
                        != m@[t2].0 by {
                        if t2 == m@.len() - 1 {
                            assert(m@[t1].0 == src.nodes@[t1].0);
                            assert(m@[t2].0 == src.nodes@[i as int].0);
                        }
                    }
                }
                prov.push((i, 0, 0));
                let ghost raw0 = raw@;
                raw.push((raw.len() as u64, clone_node(&src.nodes[i].1)));
                proof {
                    assert(node_eq(raw@[raw@.len() - 1].1, src.nodes@[i as int].1));
                    assert(keeps_plain_node(raw@, src.nodes@[i as int].1));
                    assert forall|ii: int|
                        0 <= ii < i + 1 && (#[trigger] src.nodes@[ii]).1.body is None
                        implies keeps_plain_node(raw@, src.nodes@[ii].1) by {
                        if ii < i as int {
                            let k = choose|k: int|
                                0 <= k < raw0.len() && (#[trigger] raw0[k]).1.op
                                    == src.nodes@[ii].1.op && raw0[k].1.inputs@.len()
                                    == src.nodes@[ii].1.inputs@.len();
                            assert(raw@[k] == raw0[k]);
                        }
                    }
                }
            },
            Some(b) => {
                if contains_usize(chain, b) {
                    proof {
                        let w = choose|w: int| 0 <= w < chain@.len() && chain@[w] == b;
                        let p = chain@.push(b);
                        assert(comp_edge(*g, idx, b)) by {
                            assert(g.networks@[idx as int].nodes@[i as int].1.body == Some(b));
                        }
                        assert(comp_path_from_root(*g, p)) by {
                            assert(p[0] == g.root);
                            assert forall|t: int| 0 <= t < p.len() - 1 implies comp_edge(
                                *g,
                                #[trigger] p[t],
                                p[t + 1],
                            ) by {
                                if t < chain@.len() - 1 {
                                    assert(p[t] == chain@[t] && p[t + 1] == chain@[t + 1]);
                                } else {
                                    assert(p[t] == idx && p[t + 1] == b);
                                }
                            }
                        }
                        assert(0 <= w < p.len() - 1 && p[w] == b && p[p.len() - 1] == b);
                        assert(has_cyclic_composition(*g));
                    }
                    return Err(StageError::CyclicComposition { network: b });
                }
                proof {
                    assert(net_wf(g.networks@[idx as int], g.networks@.len() as int));
                    assert(b < g.networks@.len());
                }
                let mut chain2 = clone_chain(chain);
                chain2.push(b);
                proof {
                    assert(comp_edge(*g, idx, b)) by {
                        assert(g.networks@[idx as int].nodes@[i as int].1.body == Some(b));
                    }
                    assert(valid_chain(*g, chain2@, b)) by {
                        assert(chain2@[chain2@.len() - 1] == b);
                        assert(chain2@[0] == chain@[0]);
                        assert forall|t1: int, t2: int| 0 <= t1 < t2 < chain2@.len() implies
                            #[trigger] chain2@[t1] != #[trigger] chain2@[t2] by {
                            if t2 == chain2@.len() - 1 {
                                assert(chain2@[t1] == chain@[t1]);
                                assert(!chain@.contains(b));
                                assert(chain@[t1] != b);
                            }
                        }
                        assert forall|t: int| 0 <= t < chain2@.len() - 1 implies comp_edge(
                            *g,
                            #[trigger] chain2@[t],
                            chain2@[t + 1],
                        ) by {
                            if t < chain@.len() - 1 {
                                assert(chain2@[t] == chain@[t] && chain2@[t + 1] == chain@[t + 1]);
                            } else {
                                assert(chain2@[t] == idx && chain2@[t + 1] == b);
                            }
                        }
                    }
                    lemma_seq_usize_bounded(chain2@, g.networks@.len() as int);
                }
                let fb = match flatten_net(g, b, &chain2) {
                    Ok(fb) => fb,
                    Err(e) => {
                        return Err(e);
                    },
                };
                proof {
                    assert(chain2@.drop_last() =~= chain@);
                    assert forall|q: Seq<usize>| #[trigger] path_from(*g, q, b)
                        implies no_dup_seq(chain@ + q) by {
                        assert(no_dup_seq(chain2@.drop_last() + q));
                        assert(chain2@.drop_last() + q =~= chain@ + q);
                    }
                    assert(subtree_safe(*g, chain@, b));
                }
                let base = raw.len();
                let blen = fb.nodes.len();
                let mut j: usize = 0;
                while j < fb.nodes.len()
                    invariant
                        j <= fb.nodes@.len(),
                        base + j == raw@.len(),
                        prov@.len() == raw@.len(),
                        blen == fb.nodes@.len(),
                        i < src.nodes@.len(),
                        ids_are_indices(raw@),
                        ids_are_indices(fb.nodes@),
                        is_flat(fb.nodes@),
                        forall|k: int| 0 <= k < raw@.len() ==> (#[trigger] raw@[k]).1.body is None,
                        forall|k: int|
                            0 <= k < prov@.len() ==> (#[trigger] prov@[k]).0 < src.nodes@.len()
                                && prov@[k].1 + prov@[k].2 <= base + blen,
                        forall|ii: int|
                            0 <= ii < i ==> ((#[trigger] src.nodes@[ii]).1.body is None
                                ==> keeps_plain_node(raw@, src.nodes@[ii].1)),
                    decreases fb.nodes@.len() - j,
                {
                    prov.push((i, base, blen));
                    let ghost rawb = raw@;
                    raw.push((raw.len() as u64, clone_node(&fb.nodes[j].1)));
                    proof {
                        assert(node_eq(raw@[raw@.len() - 1].1, fb.nodes@[j as int].1));
                        assert(fb.nodes@[j as int].1.body is None);
                        assert forall|ii: int|
                            0 <= ii < i && (#[trigger] src.nodes@[ii]).1.body is None
                            implies keeps_plain_node(raw@, src.nodes@[ii].1) by {
                            let k = choose|k: int|
                                0 <= k < rawb.len() && (#[trigger] rawb[k]).1.op
                                    == src.nodes@[ii].1.op && rawb[k].1.inputs@.len()
                                    == src.nodes@[ii].1.inputs@.len();
                            assert(raw@[k] == rawb[k]);
                        }
                    }
                    j = j + 1;
                }
                let rl = raw.len();
                proof {
                    assert(rl as int == base + blen);
                }
                let newid: u64 = if fb.outputs.len() >= 1 {
                    let o = fb.outputs[0];
                    if o < blen as u64 {
                        proof {
                            assert((o as usize) < blen);
                        }
                        (base + (o as usize)) as u64
                    } else {
                        DANGLING_ID
                    }
                } else {
                    DANGLING_ID
                };
                let ghost m0 = m@;
                m.push((old_id, newid));
                proof {
                    assert(net_wf(g.networks@[idx as int], g.networks@.len() as int));
                    assert forall|t1: int, t2: int| 0 <= t1 < t2 < m@.len() implies m@[t1].0
                        != m@[t2].0 by {
                        if t2 == m@.len() - 1 {
                            assert(m@[t1].0 == src.nodes@[t1].0);
                            assert(m@[t2].0 == src.nodes@[i as int].0);
                        }
                    }
                }
            },
        }
        i = i + 1;
    }
    proof {
        assert forall|q: Seq<usize>| #[trigger] path_from(*g, q, idx) implies no_dup_seq(
            chain@.drop_last() + q,
        ) by {
            if q.len() == 1 {
                assert(chain@.drop_last() + q =~= chain@);
                assert(no_dup_seq(chain@));
            } else {
                let b = q[1];
                assert(comp_edge(*g, idx, b));
                let ii = choose|ii: int|
                    0 <= ii < g.networks@[idx as int].nodes@.len() && (
                    #[trigger] g.networks@[idx as int].nodes@[ii]).1.body == Some(b);
                assert(subtree_safe(*g, chain@, b));
                let q2 = q.drop_first();
                assert(path_from(*g, q2, b)) by {
                    assert(q2[0] == q[1]);
                    assert forall|k: int| 0 <= k < q2.len() - 1 implies comp_edge(
                        *g,
                        #[trigger] q2[k],
                        q2[k + 1],
                    ) by {
                        assert(q2[k] == q[k + 1] && q2[k + 1] == q[k + 2]);
                        assert(comp_edge(*g, q[k + 1], q[k + 2]));
                    }
                }
                assert(no_dup_seq(chain@ + q2));
                assert(chain@ + q2 =~= chain@.drop_last() + q);
            }
        }
    }
    // Second pass: rewrite every slot now that the whole identifier map is
    // known.  Top-level slots go through the map; inlined body slots are
    // renamed into this scope, and parameter references are spliced to
    // whatever the instantiation wired into the matching input slot.
    let mut outn: Vec<(u64, DocumentNode)> = Vec::new();
    let rn = raw.len();
    let mut k: usize = 0;
    while k < raw.len()
        invariant
            rn as int == raw@.len(),
            idx < g.networks@.len(),
            *src == g.networks@[idx as int],
            forall|t1: int, t2: int| 0 <= t1 < t2 < m@.len() ==> m@[t1].0 != m@[t2].0,
            prov@.len() == raw@.len(),
            ids_are_indices(raw@),
            forall|x: int| 0 <= x < raw@.len() ==> (#[trigger] raw@[x]).1.body is None,
            forall|x: int|
                0 <= x < prov@.len() ==> (#[trigger] prov@[x]).0 < src.nodes@.len() && prov@[x].1
                    + prov@[x].2 <= raw@.len(),
            k <= raw@.len(),
            outn@.len() == k as int,
            ids_are_indices(outn@),
            is_flat(outn@),
            forall|q: int|
                0 <= q < outn@.len() ==> (#[trigger] outn@[q]).1.op == raw@[q].1.op
                    && outn@[q].1.inputs@.len() == raw@[q].1.inputs@.len(),
        decreases raw@.len() - k,
    {
        let (si, base, blen) = prov[k];
        let node = &raw[k].1;
        let mut slots: Vec<NodeInput> = Vec::new();
        let mut s: usize = 0;
        while s < node.inputs.len()
            invariant
                idx < g.networks@.len(),
                *src == g.networks@[idx as int],
                rn as int == raw@.len(),
                k < raw@.len(),
                *node == raw@[k as int].1,
                si < src.nodes@.len(),
                base + blen <= raw@.len(),
                forall|t1: int, t2: int| 0 <= t1 < t2 < m@.len() ==> m@[t1].0 != m@[t2].0,
                s <= node.inputs@.len(),
                slots@.len() == s as int,
            decreases node.inputs@.len() - s,
        {
            let sl = node.inputs[s];
            let rewritten: NodeInput = if blen == 0 {
                rewrite_src_slot(sl, &m)
            } else {
                match sl {
                    NodeInput::Value(v) => NodeInput::Value(v),
                    NodeInput::Node(x) => {
                        if x < blen as u64 {
                            NodeInput::Node((base + (x as usize)) as u64)
                        } else {
                            NodeInput::Node(DANGLING_ID)
                        }
                    },
                    NodeInput::Param(p) => {
                        let cinputs = &src.nodes[si].1.inputs;
                        if p < cinputs.len() {
                            rewrite_src_slot(cinputs[p], &m)
                        } else {
                            NodeInput::Param(UNWIRED_PARAM)
                        }
                    },
                }
            };
            slots.push(rewritten);
            s = s + 1;
        }
        outn.push((raw[k].0, DocumentNode { op: node.op, inputs: slots, body: None }));
        k = k + 1;
    }
    proof {
        assert forall|t: int|
            0 <= t < g.networks@[idx as int].nodes@.len() && (
            #[trigger] g.networks@[idx as int].nodes@[t]).1.body is None
            implies keeps_plain_node(outn@, g.networks@[idx as int].nodes@[t].1) by {
            assert(keeps_plain_node(raw@, src.nodes@[t].1));
            let kx = choose|kx: int|
                0 <= kx < raw@.len() && (#[trigger] raw@[kx]).1.op == src.nodes@[t].1.op
                    && raw@[kx].1.inputs@.len() == src.nodes@[t].1.inputs@.len();
            assert(outn@[kx].1.op == src.nodes@[t].1.op && outn@[kx].1.inputs@.len()
                == src.nodes@[t].1.inputs@.len());
        }
    }
    let mut outputs: Vec<u64> = Vec::new();
    let mut oi: usize = 0;
    while oi < src.outputs.len()
        invariant
            oi <= src.outputs@.len(),
            outputs@.len() == oi as int,
            forall|t1: int, t2: int| 0 <= t1 < t2 < m@.len() ==> m@[t1].0 != m@[t2].0,
        decreases src.outputs@.len() - oi,
    {
        let v: u64 = match map_get(&m, src.outputs[oi]) {
            Some(v) => v,
            None => DANGLING_ID,
        };
        outputs.push(v);
        oi = oi + 1;
    }
    Ok(Network { nodes: outn, outputs })
}

impl NodeNetwork {
    /// Inlines every composite node below the top level, producing a
    /// single-level network with one node entry per inlined instance and
    /// one output entry per declared output.  Fails with
    /// `CyclicComposition`, before producing any flattened output, exactly
    /// when a composite instantiated below the top level contains itself.
    pub fn flatten(&self) -> (r: Result<Network, StageError>)
        requires
            self.wf(),
        ensures
            r matches Ok(net) ==> is_flat(net.nodes@) && ids_unique(net.nodes@)
                && net.outputs@.len() == self.spec_root_outputs().len(),
            r matches Ok(net) ==> forall|t: int|
                0 <= t < self.networks@[self.root as int].nodes@.len() ==> ((
                #[trigger] self.networks@[self.root as int].nodes@[t]).1.body is None
                    ==> keeps_plain_node(
                    net.nodes@,
                    self.networks@[self.root as int].nodes@[t].1,
                )),
            r matches Err(e) ==> e is CyclicComposition,
            r is Ok <==> !has_cyclic_composition(*self),
    {
        let mut chain: Vec<usize> = Vec::new();
        chain.push(self.root);
        proof {
            assert(valid_chain(*self, chain@, self.root));
        }
        match flatten_net(self, self.root, &chain) {
            Ok(net) => {
                let n2 = net.nodes.len();
                proof {
                    assert(net.nodes@.len() == n2 as int);
                    assert forall|a: int, b: int| 0 <= a < b < net.nodes@.len() implies
                        net.nodes@[a].0 != net.nodes@[b].0 by {
                        assert(net.nodes@[a].0 == a as u64 && net.nodes@[b].0 == b as u64);
                        assert(a <= n2 as int && b <= n2 as int);
                    }
                    if has_cyclic_composition(*self) {
                        let (p, t1, t2): (Seq<usize>, int, int) = choose|
                            p: Seq<usize>,
                            t1: int,
                            t2: int,
                        |
                            comp_path_from_root(*self, p) && 0 <= t1 < t2 < p.len() && #[trigger] p[t1]
                                == #[trigger] p[t2];
                        assert(path_from(*self, p, self.root));
                        assert(no_dup_seq(chain@.drop_last() + p));
                        assert(chain@.drop_last() + p =~= p);
                        assert(p[t1] != p[t2]);
                    }
                }
                Ok(net)
            },
            Err(e) => Err(e),
        }
    }
}

} // verus!
