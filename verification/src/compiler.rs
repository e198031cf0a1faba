use vstd::prelude::*;

use crate::error::{CompileError, StageError};
use crate::flatten::has_cyclic_composition;
use crate::graph::{contains_id, ids_unique, NodeNetwork, NodeInput};
use crate::proto::{proto_acyclic, proto_contains, proto_ids_unique, proto_refs_closed,
    slot_resolves, stable_id_of, topo_sorted, ProtoInput, ProtoNetwork};

verus! {

/// A compiled network fit for execution: unique stable identities in
/// dependency order and therefore acyclic, every producer reference
/// resolving within the network, the declared output present, and each
/// identity derived from the node's own content alone.
pub open spec fn proto_wf(p: ProtoNetwork) -> bool {
    &&& proto_ids_unique(p.nodes@)
    &&& topo_sorted(p.nodes@)
    &&& proto_acyclic(p.nodes@)
    &&& proto_refs_closed(p.nodes@)
    &&& proto_contains(p.nodes@, p.output)
    &&& forall|k: int|
        0 <= k < p.nodes@.len() ==> (#[trigger] p.nodes@[k]).id == stable_id_of(
            p.nodes@[k].op,
            p.nodes@[k].inputs@,
        )
}

/// The compiler façade: runs the stages in fixed order and exposes the
/// entry points used by callers.
pub struct Compiler {}

impl Compiler {
    /// Compiles an author graph into one executable network per declared
    /// output: flatten, collapse pass-through nodes, prune unreachable
    /// nodes, partition per output, then resolve inputs and assign stable
    /// identities within each partition.  Each output compiles
    /// independently, so one output's failure still leaves the other
    /// entries usable.  Every successful entry satisfies `proto_wf`; a
    /// `CyclicComposition` entry appears only for a graph whose
    /// composition really is cyclic.
    pub fn compile(&self, network: NodeNetwork) -> (r: Vec<Result<ProtoNetwork, StageError>>)
        requires
            network.wf(),
        ensures
            r@.len() == network.spec_root_outputs().len(),
            forall|p: int|
                0 <= p < r@.len() ==> ((#[trigger] r@[p]) matches Ok(pn) ==> proto_wf(pn)),
            forall|p: int|
                0 <= p < r@.len() ==> ((#[trigger] r@[p]) matches Err(e) ==> (e
                    is CyclicComposition ==> has_cyclic_composition(network))),
            has_cyclic_composition(network) ==> forall|p: int|
                0 <= p < r@.len() ==> ((#[trigger] r@[p]) matches Err(e) && e
                    is CyclicComposition),
            !has_cyclic_composition(network) ==> exists|
                flat: Network,
                lean: Network,
                live: Network,
                parts: Seq<Network>,
            | #[trigger] facade_pipeline(network, flat, lean, live, parts, r@),
    {
        let num = network.networks[network.root].outputs.len();
        let flat = match network.flatten() {
            Ok(f) => f,
            Err(e) => {
                let mut r: Vec<Result<ProtoNetwork, StageError>> = Vec::new();
                let mut i: usize = 0;
                while i < num
                    invariant
                        i <= num,
                        r@.len() == i as int,
                        e is CyclicComposition && has_cyclic_composition(network),
                        forall|p: int| 0 <= p < i ==> (#[trigger] r@[p]) == Err::<
                            ProtoNetwork,
                            StageError,
                        >(e),
                    decreases num - i,
                {
                    r.push(Err(e));
                    i = i + 1;
                }
                return r;
            },
        };
        let ghost gflat = flat;
        let lean = flat.remove_redundant_id_nodes();
        let ghost glean = lean;
        let live = lean.remove_dead_nodes();
        let ghost glive = live;
        let parts = live.into_proto_networks();
        let mut r: Vec<Result<ProtoNetwork, StageError>> = Vec::new();
        let mut p: usize = 0;
        while p < parts.len()
            invariant
                p <= parts@.len(),
                r@.len() == p as int,
                forall|q: int|
                    0 <= q < parts@.len() ==> (#[trigger] parts@[q]).outputs@.len() == 1
                        && ids_unique(parts@[q].nodes@),
                forall|q: int|
                    0 <= q < r@.len() ==> ((#[trigger] r@[q]) matches Ok(pn) ==> proto_wf(pn)),
                forall|q: int|
                    0 <= q < r@.len() ==> ((#[trigger] r@[q]) matches Err(e) ==> !(e
                        is CyclicComposition)),
                forall|q: int|
                    0 <= q < r@.len() ==> #[trigger] entry_matches_partition(parts@[q], r@[q]),
            decreases parts@.len() - p,
        {
            let part = &parts[p];
            match part.resolve_inputs() {
                Err(e) => {
                    proof {
                        reveal(entry_matches_partition);
                        assert(entry_matches_partition(
                            parts@[p as int],
                            Err::<ProtoNetwork, StageError>(e),
                        ));
                    }
                    r.push(Err(e));
                },
                Ok(pn) => {
                    proof {
                        assert forall|a: int, b: int| 0 <= a < b < pn.nodes@.len() implies
                            pn.nodes@[a].id != pn.nodes@[b].id by {
                            assert(pn.nodes@[a].id == parts@[p as int].nodes@[a].0);
                            assert(pn.nodes@[b].id == parts@[p as int].nodes@[b].0);
                        }
                        assert forall|k: int, s: int|
                            0 <= k < pn.nodes@.len() && 0 <= s < pn.nodes@[k].inputs@.len()
                            implies ((#[trigger] pn.nodes@[k].inputs@[s]) matches
                        ProtoInput::Node(d) ==> proto_contains(pn.nodes@, d)) by {
                            match pn.nodes@[k].inputs@[s] {
                                ProtoInput::Node(d) => {
                                    assert(slot_resolves(
                                        parts@[p as int].nodes@[k].1.inputs@[s],
                                        pn.nodes@[k].inputs@[s],
                                    ));
                                    match parts@[p as int].nodes@[k].1.inputs@[s] {
                                        NodeInput::Node(mm) => {
                                            assert(mm == d);
                                            assert(contains_id(parts@[p as int].nodes@, d));
                                            let w = choose|w: int|
                                                0 <= w < parts@[p as int].nodes@.len() && (
                                                #[trigger] parts@[p as int].nodes@[w]).0 == d;
                                            assert(pn.nodes@[w].id == d);
                                            assert(proto_contains(pn.nodes@, d));
                                        },
                                        _ => {
                                            assert(false);
                                        },
                                    }
                                },
                                _ => {},
                            }
                        }
                    }
                    proof {
                        reveal(resolves_partition);
                        assert(resolves_partition(parts@[p as int], pn));
                    }
                    match pn.generate_stable_node_ids() {
                        Ok(done) => {
                            proof {
                                reveal(entry_matches_partition);
                                assert(entry_matches_partition(
                                    parts@[p as int],
                                    Ok::<ProtoNetwork, StageError>(done),
                                ));
                            }
                            r.push(Ok(done));
                        },
                        Err(e) => {
                            proof {
                                reveal(entry_matches_partition);
                                if e is DanglingReference {
                                    // the partition's one output names no node:
                                    // otherwise its resolved image would hold it.
                                    assert(!contains_id(
                                        parts@[p as int].nodes@,
                                        parts@[p as int].outputs@[0],
                                    )) by {
                                        reveal(resolves_partition);
                                        if contains_id(
                                            parts@[p as int].nodes@,
                                            parts@[p as int].outputs@[0],
                                        ) {
                                            let w = choose|w: int|
                                                0 <= w < parts@[p as int].nodes@.len() && (
                                                #[trigger] parts@[p as int].nodes@[w]).0
                                                    == parts@[p as int].outputs@[0];
                                            assert(pn.nodes@[w].id == pn.output);
                                            assert(proto_contains(pn.nodes@, pn.output));
                                        }
                                    }
                                }
                                assert(entry_matches_partition(
                                    parts@[p as int],
                                    Err::<ProtoNetwork, StageError>(e),
                                ));
                            }
                            r.push(Err(e));
                        },
                    }
                },
            }
            p = p + 1;
        }
        proof {
            reveal(facade_pipeline);
            reveal(flattened_form);
            reveal(collapsed_form);
            reveal(pruned_form);
            assert(flattened_form(network, gflat));
            assert(collapsed_form(gflat, glean));
            assert(pruned_form(glean, glive));
            // the pruned graph is flat and free of pass-through nodes: each
            // of its nodes copies one of the collapsed graph's nodes.
            assert forall|k: int| 0 <= k < glive.nodes@.len() implies (
            #[trigger] glive.nodes@[k]).1.body is None && !is_redundant_node(
                glive.nodes@[k].1,
            ) by {
                assert(copied_from(glive.nodes@, lean.nodes@, k));
                let i = choose|i: int|
                    0 <= i < lean.nodes@.len() && (#[trigger] lean.nodes@[i]).0
                        == glive.nodes@[k].0 && node_eq(glive.nodes@[k].1, lean.nodes@[i].1);
                assert(lean.nodes@[i].1.body is None);
                assert(!is_redundant_node(lean.nodes@[i].1));
            }
            assert(facade_pipeline(network, gflat, glean, glive, parts@, r@));
        }
        r
    }

    /// Compiles a graph that declares exactly one output, handing back
    /// that output's executable network.  Fails with
    /// `MultipleOutputsUnsupported` when the graph does not declare
    /// exactly one output, and with `CompilationFailed`, carrying the
    /// first underlying stage error, when that output's compilation
    /// fails.
    pub fn compile_single(&self, network: NodeNetwork) -> (r: Result<ProtoNetwork, CompileError>)
        requires
            network.wf(),
        ensures
            network.spec_root_outputs().len() != 1 ==> r == Err::<ProtoNetwork, CompileError>(
                CompileError::MultipleOutputsUnsupported,
            ),
            network.spec_root_outputs().len() == 1 ==> !(r == Err::<ProtoNetwork, CompileError>(
                CompileError::MultipleOutputsUnsupported,
            )),
            r matches Ok(pn) ==> proto_wf(pn),
            r matches Err(e) ==> (e is MultipleOutputsUnsupported || e is CompilationFailed),
            r matches Err(e) ==> (e matches CompileError::CompilationFailed(se) ==> (se
                is CyclicComposition ==> has_cyclic_composition(network))),
            (network.spec_root_outputs().len() == 1 && has_cyclic_composition(network)) ==> (r
                matches Err(ce) && ce matches CompileError::CompilationFailed(se) && se
                is CyclicComposition),
            (network.spec_root_outputs().len() == 1 && !has_cyclic_composition(network))
                ==> exists|
                flat: Network,
                lean: Network,
                live: Network,
                parts: Seq<Network>,
                res0: Result<ProtoNetwork, StageError>,
            |
                #[trigger] facade_pipeline(network, flat, lean, live, parts, seq![res0]) && (res0
                    matches Ok(pn) ==> r == Ok::<ProtoNetwork, CompileError>(pn)) && (res0
                    matches Err(se) ==> r == Err::<ProtoNetwork, CompileError>(
                    CompileError::CompilationFailed(se),
                )),
    {
        if network.networks[network.root].outputs.len() != 1 {
            return Err(CompileError::MultipleOutputsUnsupported);
        }
        let mut results = self.compile(network);
        let ghost results0 = results@;
        let first = match results.pop() {
            Some(res) => res,
            None => {
                proof {
                    assert(false);
                }
                return Err(CompileError::MultipleOutputsUnsupported);
            },
        };
        proof {
            if !has_cyclic_composition(network) {
                let (flat, lean, live, parts): (Network, Network, Network, Seq<Network>) = choose|
                    flat: Network,
                    lean: Network,
                    live: Network,
                    parts: Seq<Network>,
                |
                    #[trigger] facade_pipeline(network, flat, lean, live, parts, results0);
                assert(results0 =~= seq![first]);
                assert(facade_pipeline(network, flat, lean, live, parts, seq![first]));
            }
        }
        match first {
            Ok(pn) => Ok(pn),
            Err(e) => Err(CompileError::CompilationFailed(e)),
        }
    }
}

/// The execution collaborator's contract: a compiled graph is submitted
/// with an input value and yields either a produced output or an
/// execution error.  The compiler has no visibility into how the
/// collaborator runs the graph; implementations live outside this crate.
pub trait Executor<I, O> {
    fn execute(&self, input: I) -> Result<O, String>;
}

} // verus!
use crate::flatten::keeps_plain_node;
use crate::graph::{is_flat, node_eq, Network};
use crate::prune::{copied_from, reachable_from};
use crate::proto::{assigned_from, wired_ok};
use crate::redundancy::{has_redundant, is_redundant_node, node_forwarded_from,
    output_forwarded};

verus! {

/// `flat` is a flattened form of the author graph `g`: single-level,
/// identifier-unique, one output entry per declared output, every plain
/// top-level node preserved, and `g` free of cyclic composition.
#[verifier::opaque]
pub open spec fn flattened_form(g: NodeNetwork, flat: Network) -> bool {
    &&& is_flat(flat.nodes@)
    &&& ids_unique(flat.nodes@)
    &&& flat.outputs@.len() == g.spec_root_outputs().len()
    &&& forall|t: int|
        0 <= t < g.networks@[g.root as int].nodes@.len() ==> ((
        #[trigger] g.networks@[g.root as int].nodes@[t]).1.body is None ==> keeps_plain_node(
            flat.nodes@,
            g.networks@[g.root as int].nodes@[t].1,
        ))
    &&& !has_cyclic_composition(g)
}

/// `lean` is the pass-through-collapsed form of `flat`: exactly the
/// non-pass-through nodes survive, every surviving slot and output is
/// forwarded through eliminated chains to its transitive producer.
#[verifier::opaque]
pub open spec fn collapsed_form(flat: Network, lean: Network) -> bool {
    &&& !has_redundant(lean.nodes@)
    &&& ids_unique(lean.nodes@)
    &&& is_flat(lean.nodes@)
    &&& lean.outputs@.len() == flat.outputs@.len()
    &&& forall|p: int|
        0 <= p < lean.nodes@.len() ==> node_forwarded_from(
            flat.nodes@,
            (#[trigger] lean.nodes@[p]).0,
            lean.nodes@[p].1,
        )
    &&& forall|w: int|
        0 <= w < lean.outputs@.len() ==> output_forwarded(
            flat.nodes@,
            flat.outputs@[w],
            #[trigger] lean.outputs@[w],
        )
    &&& forall|i: int|
        0 <= i < flat.nodes@.len() ==> ((#[trigger] contains_id(lean.nodes@, flat.nodes@[i].0))
            <==> !is_redundant_node(flat.nodes@[i].1))
}

/// `live` is the reachability-pruned form of `lean`: exactly the present
/// nodes reachable from some declared output survive, unchanged, and the
/// outputs are kept.
#[verifier::opaque]
pub open spec fn pruned_form(lean: Network, live: Network) -> bool {
    &&& forall|id: u64|
        (#[trigger] contains_id(live.nodes@, id)) <==> (contains_id(lean.nodes@, id)
            && reachable_from(lean.nodes@, lean.outputs@, id))
    &&& ids_unique(live.nodes@)
    &&& live.outputs@ == lean.outputs@
    &&& forall|k: int|
        0 <= k < live.nodes@.len() ==> #[trigger] copied_from(live.nodes@, lean.nodes@, k)
}

/// `rp` is the resolved form of the single-output partition `part`: same
/// nodes in order, identifiers and operations kept, and every slot
/// resolved literal-for-literal and reference-for-reference.
#[verifier::opaque]
pub open spec fn resolves_partition(part: Network, rp: ProtoNetwork) -> bool {
    &&& part.outputs@.len() == 1
    &&& rp.nodes@.len() == part.nodes@.len()
    &&& forall|i: int|
        0 <= i < part.nodes@.len() ==> (#[trigger] rp.nodes@[i]).id == part.nodes@[i].0
            && rp.nodes@[i].op == part.nodes@[i].1.op && rp.nodes@[i].inputs@.len()
            == part.nodes@[i].1.inputs@.len()
    &&& forall|i: int, s: int|
        0 <= i < part.nodes@.len() && 0 <= s < part.nodes@[i].1.inputs@.len() ==> slot_resolves(
            part.nodes@[i].1.inputs@[s],
            #[trigger] rp.nodes@[i].inputs@[s],
        )
    &&& rp.output == part.outputs@[0]
}

/// One compilation entry answers for its own partition: success exactly
/// where the partition resolves and assigns identities, the yielded
/// network the identity-assigned image of the resolved partition, and
/// each failure kind tied to the condition that forces it.
#[verifier::opaque]
pub open spec fn entry_matches_partition(part: Network, res: Result<
    ProtoNetwork,
    StageError,
>) -> bool {
    &&& (res matches Ok(pn) ==> exists|rd: ProtoNetwork|
        #[trigger] resolves_partition(part, rd) && assigned_from(
            rd.nodes@,
            rd.output,
            pn.nodes@,
            pn.output,
        ))
    &&& (res is Ok ==> wired_ok(part.nodes@))
    &&& ((wired_ok(part.nodes@) && contains_id(part.nodes@, part.outputs@[0]) && (forall|
        rd: ProtoNetwork,
    |
        #[trigger] resolves_partition(part, rd) ==> proto_acyclic(rd.nodes@))) ==> res is Ok)
    &&& (res matches Err(e) ==> {
        &&& (e is MissingInput ==> !wired_ok(part.nodes@))
        &&& (e is DanglingReference ==> (!wired_ok(part.nodes@) || !contains_id(
            part.nodes@,
            part.outputs@[0],
        )))
        &&& (e is CycleDetected ==> exists|rd: ProtoNetwork|
            #[trigger] resolves_partition(part, rd) && !proto_acyclic(rd.nodes@))
        &&& !(e is CyclicComposition)
    })
}

/// The witness a successful run of the façade leaves behind: a flattened,
/// collapsed, pruned graph `live` with one partition per declared output,
/// each partition holding exactly the nodes reachable from its own
/// output as unchanged copies, and entry `p` of the result answering for
/// partition `p`.
#[verifier::opaque]
pub open spec fn facade_pipeline(
    network: NodeNetwork,
    flat: Network,
    lean: Network,
    live: Network,
    parts: Seq<Network>,
    r: Seq<Result<ProtoNetwork, StageError>>,
) -> bool {
    &&& flattened_form(network, flat)
    &&& collapsed_form(flat, lean)
    &&& pruned_form(lean, live)
    &&& is_flat(live.nodes@)
    &&& ids_unique(live.nodes@)
    &&& !has_redundant(live.nodes@)
    &&& parts.len() == r.len()
    &&& r.len() == live.outputs@.len()
    &&& forall|p: int| 0 <= p < parts.len() ==> (#[trigger] parts[p]).outputs@ == seq![
        live.outputs@[p],
    ]
    &&& forall|p: int, id: u64|
        0 <= p < parts.len() ==> ((#[trigger] contains_id(parts[p].nodes@, id)) <==> (contains_id(
            live.nodes@,
            id,
        ) && reachable_from(live.nodes@, seq![live.outputs@[p]], id)))
    &&& forall|p: int, k: int|
        0 <= p < parts.len() && 0 <= k < parts[p].nodes@.len() ==> #[trigger] copied_from(
            parts[p].nodes@,
            live.nodes@,
            k,
        )
    &&& forall|p: int|
        0 <= p < parts.len() ==> #[trigger] entry_matches_partition(parts[p], r[p])
}

} // verus!
