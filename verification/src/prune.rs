use vstd::prelude::*;

use crate::graph::{clone_node, contains_id, find_node, ids_unique, node_eq, DocumentNode, Network,
    NodeInput};

verus! {

/// A dependency edge: the node with identifier `a` has an input slot wired
/// to the output of the node with identifier `b`.
pub open spec fn edge(nodes: Seq<(u64, DocumentNode)>, a: u64, b: u64) -> bool {
    exists|i: int, s: int|
        0 <= i < nodes.len() && nodes[i].0 == a && 0 <= s < nodes[i].1.inputs@.len() && (
        #[trigger] nodes[i].1.inputs@[s]) == NodeInput::Node(b)
}

/// `b` is reachable from `a` by following input edges backward through at
/// most `k` steps.
pub open spec fn reaches(nodes: Seq<(u64, DocumentNode)>, a: u64, b: u64, k: nat) -> bool
    decreases k,
{
    a == b || (k > 0 && exists|m: u64|
        edge(nodes, a, m) && reaches(nodes, m, b, (k - 1) as nat))
}

/// `id` is reachable from some declared output.
pub open spec fn reachable_from(nodes: Seq<(u64, DocumentNode)>, outputs: Seq<u64>, id: u64) -> bool {
    exists|oi: int, k: nat| 0 <= oi < outputs.len() && reaches(nodes, outputs[oi], id, k)
}

/// Some index holding identifier `m` is marked.
pub open spec fn seen_id(nodes: Seq<(u64, DocumentNode)>, seen: Seq<bool>, m: u64) -> bool {
    exists|j: int| 0 <= j < nodes.len() && (#[trigger] nodes[j]).0 == m && seen[j]
}

/// Every marked node has each of its present producers marked as well.
pub open spec fn marks_closed(nodes: Seq<(u64, DocumentNode)>, seen: Seq<bool>) -> bool {
    forall|j: int, s: int|
        0 <= j < nodes.len() && seen[j] && 0 <= s < nodes[j].1.inputs@.len() ==> {
            let sl = #[trigger] nodes[j].1.inputs@[s];
            (sl matches NodeInput::Node(m) ==> (contains_id(nodes, m) ==> seen_id(nodes, seen, m)))
        }
}

/// Entry `k` of `kept` is an unchanged copy of some node of `nodes`.
pub open spec fn copied_from(kept: Seq<(u64, DocumentNode)>, nodes: Seq<(u64, DocumentNode)>, k: int) -> bool {
    exists|i: int|
        0 <= i < nodes.len() && (#[trigger] nodes[i]).0 == kept[k].0 && node_eq(
            kept[k].1,
            nodes[i].1,
        )
}

/// Entry `k` of `kept` copies a marked node of `nodes` with index below
/// `bound`.
pub open spec fn marked_origin(
    kept: Seq<(u64, DocumentNode)>,
    nodes: Seq<(u64, DocumentNode)>,
    seen: Seq<bool>,
    k: int,
    bound: int,
) -> bool {
    exists|jx: int|
        0 <= jx < bound && seen[jx] && (#[trigger] nodes[jx]).0 == kept[k].0 && node_eq(
            kept[k].1,
            nodes[jx].1,
        )
}

pub open spec fn count_true(s: Seq<bool>) -> int
    decreases s.len(),
{
    if s.len() == 0 {
        0
    } else {
        (if s[0] {
            1int
        } else {
            0int
        }) + count_true(s.drop_first())
    }
}

pub proof fn lemma_count_true_le(s: Seq<bool>)
    ensures
        0 <= count_true(s) <= s.len(),
    decreases s.len(),
{
    if s.len() > 0 {
        lemma_count_true_le(s.drop_first());
    }
}

pub proof fn lemma_count_true_update(s: Seq<bool>, j: int)
    requires
        0 <= j < s.len(),
        !s[j],
    ensures
        count_true(s.update(j, true)) == count_true(s) + 1,
    decreases s.len(),
{
    if j == 0 {
        assert(s.update(0, true).drop_first() =~= s.drop_first());
    } else {
        assert(s.update(j, true).drop_first() =~= s.drop_first().update(j - 1, true));
        lemma_count_true_update(s.drop_first(), j - 1);
    }
}

proof fn lemma_seen_id_mono(nodes: Seq<(u64, DocumentNode)>, s1: Seq<bool>, s2: Seq<bool>, m: u64)
    requires
        s1.len() == s2.len(),
        s1.len() == nodes.len(),
        seen_id(nodes, s1, m),
        forall|j: int| 0 <= j < s1.len() && s1[j] ==> s2[j],
    ensures
        seen_id(nodes, s2, m),
{
    let jw = choose|j: int| 0 <= j < nodes.len() && (#[trigger] nodes[j]).0 == m && s1[j];
    assert(nodes[jw].0 == m && s2[jw]);
}

proof fn lemma_push_contains(s: Seq<u64>, x: u64, y: u64)
    requires
        s.contains(y),
    ensures
        s.push(x).contains(y),
{
    let w = choose|w: int| 0 <= w < s.len() && s[w] == y;
    assert(s.push(x)[w] == y);
}

/// Reachability is closed under appending one edge.
pub proof fn lemma_reaches_extend(nodes: Seq<(u64, DocumentNode)>, a: u64, b: u64, c: u64, k: nat)
    requires
        reaches(nodes, a, b, k),
        edge(nodes, b, c),
    ensures
        reaches(nodes, a, c, (k + 1) as nat),
    decreases k,
{
    if a == b {
        assert(reaches(nodes, c, c, 0));
        assert(edge(nodes, a, c) && reaches(nodes, c, c, ((k + 1) - 1) as nat));
    } else {
        let m = choose|m: u64| edge(nodes, a, m) && reaches(nodes, m, b, (k - 1) as nat);
        lemma_reaches_extend(nodes, m, b, c, (k - 1) as nat);
        assert(edge(nodes, a, m) && reaches(nodes, m, c, ((k + 1) - 1) as nat));
    }
}

/// Every present node reachable from a marked node is marked, provided the
/// marking is closed under edges.
proof fn lemma_closed_reachable(
    nodes: Seq<(u64, DocumentNode)>,
    seen: Seq<bool>,
    src: u64,
    id: u64,
    k: nat,
)
    requires
        seen.len() == nodes.len(),
        ids_unique(nodes),
        marks_closed(nodes, seen),
        seen_id(nodes, seen, src),
        reaches(nodes, src, id, k),
        contains_id(nodes, id),
    ensures
        seen_id(nodes, seen, id),
    decreases k,
{
    if src == id {
    } else {
        let m = choose|m: u64| edge(nodes, src, m) && reaches(nodes, m, id, (k - 1) as nat);
        if contains_id(nodes, m) {
            let js = choose|j: int| 0 <= j < nodes.len() && (#[trigger] nodes[j]).0 == src && seen[j];
            let (i, s): (int, int) = choose|i: int, s: int|
                0 <= i < nodes.len() && nodes[i].0 == src && 0 <= s < nodes[i].1.inputs@.len() && (
                #[trigger] nodes[i].1.inputs@[s]) == NodeInput::Node(m);
            assert(i == js);
            assert(seen_id(nodes, seen, m));
            lemma_closed_reachable(nodes, seen, m, id, (k - 1) as nat);
        } else {
            // A path cannot continue out of an absent node, so this case is
            // impossible: `m` differs from the present `id`, hence the
            // remaining path must take a step out of `m`.
            assert(m != id);
            assert((k - 1) as nat > 0);
            let m2 = choose|m2: u64|
                edge(nodes, m, m2) && reaches(nodes, m2, id, (((k - 1) as nat) - 1) as nat);
            assert(contains_id(nodes, m));
        }
    }
}

/// Deletes every node not reachable from the given outputs: a worklist
/// traversal backward over input edges.  The surviving identifiers are
/// exactly the present, reachable ones, and each surviving node is an
/// unchanged copy of the original.
pub fn prune_nodes(nodes: &Vec<(u64, DocumentNode)>, outputs: &Vec<u64>) -> (kept: Vec<(u64,
    DocumentNode)>)
    requires
        ids_unique(nodes@),
    ensures
        forall|id: u64|
            contains_id(kept@, id) <==> (contains_id(nodes@, id) && reachable_from(
                nodes@,
                outputs@,
                id,
            )),
        ids_unique(kept@),
        forall|k: int| 0 <= k < kept@.len() ==> #[trigger] copied_from(kept@, nodes@, k),
{
    let n = nodes.len();
    let mut seen: Vec<bool> = Vec::new();
    let mut t: usize = 0;
    while t < n
        invariant
            t <= n,
            seen@.len() == t as int,
            forall|j: int| 0 <= j < t ==> !seen@[j],
        decreases n - t,
    {
        seen.push(false);
        t = t + 1;
    }
    proof {
        lemma_count_true_le(seen@);
    }
    let mut queue: Vec<u64> = Vec::new();
    let mut oi: usize = 0;
    while oi < outputs.len()
        invariant
            n == nodes@.len(),
            seen@.len() == n as int,
            forall|j: int| 0 <= j < n && seen@[j] ==> reachable_from(nodes@, outputs@, nodes@[j].0),
            forall|q: int|
                0 <= q < queue@.len() ==> seen_id(nodes@, seen@, #[trigger] queue@[q])
                    && contains_id(nodes@, queue@[q]),
            forall|j: int| 0 <= j < n && seen@[j] ==> queue@.contains(#[trigger] nodes@[j].0),
            oi <= outputs@.len(),
            forall|w: int|
                0 <= w < oi && contains_id(nodes@, #[trigger] outputs@[w]) ==> seen_id(
                    nodes@,
                    seen@,
                    outputs@[w],
                ),
        decreases outputs@.len() - oi,
    {
        let o = outputs[oi];
        match find_node(nodes, o) {
            Some(j) => {
                if !seen[j] {
                    let ghost seen_b = seen@;
                    let ghost q_b = queue@;
                    proof {
                        lemma_count_true_update(seen@, j as int);
                    }
                    seen.set(j, true);
                    queue.push(o);
                    proof {
                        assert(queue@[queue@.len() - 1] == o);
                        assert(nodes@[j as int].0 == o && seen@[j as int]);
                        assert(seen_id(nodes@, seen@, o));
                        assert(reaches(nodes@, outputs@[oi as int], o, 0));
                        assert(reachable_from(nodes@, outputs@, o));
                        assert forall|q: int| 0 <= q < queue@.len() implies seen_id(
                            nodes@,
                            seen@,
                            #[trigger] queue@[q],
                        ) && contains_id(nodes@, queue@[q]) by {
                            if q < q_b.len() {
                                assert(queue@[q] == q_b[q]);
                                lemma_seen_id_mono(nodes@, seen_b, seen@, q_b[q]);
                            }
                        }
                        assert forall|j2: int| 0 <= j2 < n && seen@[j2] implies queue@.contains(
                            #[trigger] nodes@[j2].0,
                        ) by {
                            if j2 == j as int {
                                assert(queue@[queue@.len() - 1] == nodes@[j2].0);
                            } else {
                                lemma_push_contains(q_b, o, nodes@[j2].0);
                            }
                        }
                        assert forall|w: int|
                            0 <= w < oi + 1 && contains_id(nodes@, #[trigger] outputs@[w])
                            implies seen_id(nodes@, seen@, outputs@[w]) by {
                            if w < oi as int {
                                lemma_seen_id_mono(nodes@, seen_b, seen@, outputs@[w]);
                            } else {
                                assert(outputs@[w] == o);
                            }
                        }
                    }
                } else {
                    proof {
                        assert(nodes@[j as int].0 == o && seen@[j as int]);
                        assert(seen_id(nodes@, seen@, o));
                    }
                }
            },
            None => {},
        }
        oi = oi + 1;
    }
    proof {
        lemma_count_true_le(seen@);
    }
    loop
        invariant
            n == nodes@.len(),
            seen@.len() == n as int,
            ids_unique(nodes@),
            forall|j: int| 0 <= j < n && seen@[j] ==> reachable_from(nodes@, outputs@, nodes@[j].0),
            forall|q: int|
                0 <= q < queue@.len() ==> seen_id(nodes@, seen@, #[trigger] queue@[q])
                    && contains_id(nodes@, queue@[q]),
            forall|w: int|
                0 <= w < outputs@.len() && contains_id(nodes@, #[trigger] outputs@[w]) ==> seen_id(
                    nodes@,
                    seen@,
                    outputs@[w],
                ),
            forall|j: int, s: int|
                0 <= j < n && seen@[j] && !queue@.contains(nodes@[j].0) && 0 <= s
                    < nodes@[j].1.inputs@.len() ==> {
                    let sl = #[trigger] nodes@[j].1.inputs@[s];
                    (sl matches NodeInput::Node(m) ==> (contains_id(nodes@, m) ==> seen_id(
                        nodes@,
                        seen@,
                        m,
                    )))
                },
        ensures
            marks_closed(nodes@, seen@),
            seen@.len() == n as int,
            forall|j: int| 0 <= j < n && seen@[j] ==> reachable_from(nodes@, outputs@, nodes@[j].0),
            forall|w: int|
                0 <= w < outputs@.len() && contains_id(nodes@, #[trigger] outputs@[w]) ==> seen_id(
                    nodes@,
                    seen@,
                    outputs@[w],
                ),
        decreases n as int - count_true(seen@), queue@.len(),
    {
        proof {
            lemma_count_true_le(seen@);
        }
        if queue.len() == 0 {
            break;
        }
        let ghost q_pre = queue@;
        let id = match queue.pop() {
            Some(x) => x,
            None => {
                proof {
                    assert(false);
                }
                0
            },
        };
        proof {
            assert(q_pre[q_pre.len() - 1] == id);
            assert(seen_id(nodes@, seen@, id));
            assert forall|x: u64| q_pre.contains(x) && x != id implies queue@.contains(x) by {
                let w = choose|w: int| 0 <= w < q_pre.len() && q_pre[w] == x;
                assert(w != q_pre.len() - 1);
                assert(queue@[w] == x);
            }
        }
        let j = match find_node(nodes, id) {
            Some(j) => j,
            None => {
                proof {
                    assert(false);
                }
                0
            },
        };
        proof {
            let jw = choose|jw: int|
                0 <= jw < nodes@.len() && (#[trigger] nodes@[jw]).0 == id && seen@[jw];
            assert(jw == j as int);
        }
        let node = &nodes[j].1;
        let ghost seen_at_pop = seen@;
        let ghost q_after_pop = queue@.len();
        let mut s: usize = 0;
        while s < node.inputs.len()
            invariant
                n == nodes@.len(),
                seen@.len() == n as int,
                ids_unique(nodes@),
                j < n,
                nodes@[j as int].0 == id,
                *node == nodes@[j as int].1,
                s <= node.inputs@.len(),
                forall|x: int| 0 <= x < n && seen_at_pop[x] ==> seen@[x],
                count_true(seen_at_pop) <= count_true(seen@),
                forall|x: int|
                    0 <= x < n && seen@[x] ==> reachable_from(nodes@, outputs@, nodes@[x].0),
                forall|q: int|
                    0 <= q < queue@.len() ==> seen_id(nodes@, seen@, #[trigger] queue@[q])
                        && contains_id(nodes@, queue@[q]),
                forall|w: int|
                    0 <= w < outputs@.len() && contains_id(nodes@, #[trigger] outputs@[w])
                        ==> seen_id(nodes@, seen@, outputs@[w]),
                forall|x: int, y: int|
                    0 <= x < n && seen@[x] && !queue@.contains(nodes@[x].0) && nodes@[x].0 != id
                        && 0 <= y < nodes@[x].1.inputs@.len() ==> {
                        let sl = #[trigger] nodes@[x].1.inputs@[y];
                        (sl matches NodeInput::Node(m) ==> (contains_id(nodes@, m) ==> seen_id(
                            nodes@,
                            seen@,
                            m,
                        )))
                    },
                forall|y: int|
                    0 <= y < s ==> {
                        let sl = #[trigger] nodes@[j as int].1.inputs@[y];
                        (sl matches NodeInput::Node(m) ==> (contains_id(nodes@, m) ==> seen_id(
                            nodes@,
                            seen@,
                            m,
                        )))
                    },
                seen@[j as int],
                queue@.len() as int - q_after_pop == count_true(seen@) - count_true(seen_at_pop),
            decreases node.inputs@.len() - s,
        {
            match node.inputs[s] {
                NodeInput::Node(m) => {
                    match find_node(nodes, m) {
                        Some(jm) => {
                            if !seen[jm] {
                                proof {
                                    lemma_count_true_update(seen@, jm as int);
                                    assert(edge(nodes@, id, m)) by {
                                        assert(0 <= j < nodes@.len() && nodes@[j as int].0 == id
                                            && nodes@[j as int].1.inputs@[s as int]
                                            == NodeInput::Node(m));
                                    }
                                    let (oo, kk): (int, nat) = choose|oo: int, kk: nat|
                                        0 <= oo < outputs@.len() && reaches(
                                            nodes@,
                                            outputs@[oo],
                                            id,
                                            kk,
                                        );
                                    lemma_reaches_extend(nodes@, outputs@[oo], id, m, kk);
                                }
                                let ghost seen_b = seen@;
                                let ghost q_b = queue@;
                                seen.set(jm, true);
                                queue.push(m);
                                proof {
                                    assert(queue@[queue@.len() - 1] == m);
                                    assert(nodes@[jm as int].0 == m && seen@[jm as int]);
                                    assert(seen_id(nodes@, seen@, m));
                                    assert(reachable_from(nodes@, outputs@, m));
                                    assert forall|q: int| 0 <= q < queue@.len() implies seen_id(
                                        nodes@,
                                        seen@,
                                        #[trigger] queue@[q],
                                    ) && contains_id(nodes@, queue@[q]) by {
                                        if q < q_b.len() {
                                            assert(queue@[q] == q_b[q]);
                                            lemma_seen_id_mono(nodes@, seen_b, seen@, q_b[q]);
                                        }
                                    }
                                    assert forall|w: int|
                                        0 <= w < outputs@.len() && contains_id(
                                            nodes@,
                                            #[trigger] outputs@[w],
                                        ) implies seen_id(nodes@, seen@, outputs@[w]) by {
                                        lemma_seen_id_mono(nodes@, seen_b, seen@, outputs@[w]);
                                    }
                                    assert forall|x: int, y: int|
                                        0 <= x < n && seen@[x] && !queue@.contains(nodes@[x].0)
                                            && nodes@[x].0 != id && 0 <= y
                                            < nodes@[x].1.inputs@.len() implies {
                                        let sl = #[trigger] nodes@[x].1.inputs@[y];
                                        (sl matches NodeInput::Node(mm) ==> (contains_id(
                                            nodes@,
                                            mm,
                                        ) ==> seen_id(nodes@, seen@, mm)))
                                    } by {
                                        if x == jm as int {
                                            lemma_push_contains(q_b, m, m);
                                            assert(queue@.contains(nodes@[x].0));
                                        } else {
                                            assert(seen_b[x]);
                                            if q_b.contains(nodes@[x].0) {
                                                lemma_push_contains(q_b, m, nodes@[x].0);
                                                assert(queue@.contains(nodes@[x].0));
                                            } else {
                                                let sl = nodes@[x].1.inputs@[y];
                                                match sl {
                                                    NodeInput::Node(mm) => {
                                                        if contains_id(nodes@, mm) {
                                                            lemma_seen_id_mono(
                                                                nodes@,
                                                                seen_b,
                                                                seen@,
                                                                mm,
                                                            );
                                                        }
                                                    },
                                                    _ => {},
                                                }
                                            }
                                        }
                                    }
                                    assert forall|y: int| 0 <= y < s + 1 implies {
                                        let sl = #[trigger] nodes@[j as int].1.inputs@[y];
                                        (sl matches NodeInput::Node(mm) ==> (contains_id(
                                            nodes@,
                                            mm,
                                        ) ==> seen_id(nodes@, seen@, mm)))
                                    } by {
                                        if y < s as int {
                                            let sl = nodes@[j as int].1.inputs@[y];
                                            match sl {
                                                NodeInput::Node(mm) => {
                                                    if contains_id(nodes@, mm) {
                                                        lemma_seen_id_mono(
                                                            nodes@,
                                                            seen_b,
                                                            seen@,
                                                            mm,
                                                        );
                                                    }
                                                },
                                                _ => {},
                                            }
                                        } else {
                                            assert(nodes@[j as int].1.inputs@[y]
                                                == NodeInput::Node(m));
                                        }
                                    }
                                }
                            } else {
                                proof {
                                    assert(nodes@[jm as int].0 == m && seen@[jm as int]);
                                    assert(seen_id(nodes@, seen@, m));
                                }
                            }
                        },
                        None => {},
                    }
                },
                _ => {},
            }
            s = s + 1;
        }
        proof {
            lemma_count_true_le(seen@);
        }
    }
    // Keep exactly the marked nodes, as unchanged copies.
    let mut kept: Vec<(u64, DocumentNode)> = Vec::new();
    let mut i: usize = 0;
    while i < n
        invariant
            n == nodes@.len(),
            seen@.len() == n as int,
            ids_unique(nodes@),
            i <= n,
            forall|k: int|
                0 <= k < kept@.len() ==> #[trigger] marked_origin(
                    kept@,
                    nodes@,
                    seen@,
                    k,
                    i as int,
                ),
            forall|jx: int|
                0 <= jx < i && seen@[jx] ==> contains_id(kept@, #[trigger] nodes@[jx].0),
            ids_unique(kept@),
        decreases n - i,
    {
        if seen[i] {
            let ghost kept0 = kept@;
            let copy = clone_node(&nodes[i].1);
            kept.push((nodes[i].0, copy));
            proof {
                assert(kept@[kept@.len() - 1].0 == nodes@[i as int].0 && node_eq(
                    kept@[kept@.len() - 1].1,
                    nodes@[i as int].1,
                ));
                assert forall|k: int| 0 <= k < kept@.len() implies #[trigger] marked_origin(
                    kept@,
                    nodes@,
                    seen@,
                    k,
                    i + 1,
                ) by {
                    if k < kept0.len() {
                        assert(marked_origin(kept0, nodes@, seen@, k, i as int));
                        let jx = choose|jx: int|
                            0 <= jx < i && seen@[jx] && (#[trigger] nodes@[jx]).0 == kept0[k].0
                                && node_eq(kept0[k].1, nodes@[jx].1);
                        assert(kept@[k] == kept0[k]);
                        assert(0 <= jx < i + 1 && seen@[jx] && nodes@[jx].0 == kept@[k].0
                            && node_eq(kept@[k].1, nodes@[jx].1));
                    } else {
                        let jx = i as int;
                        assert(0 <= jx < i + 1 && seen@[jx] && nodes@[jx].0 == kept@[k].0
                            && node_eq(kept@[k].1, nodes@[jx].1));
                    }
                }
                assert forall|jx: int| 0 <= jx < i + 1 && seen@[jx] implies contains_id(
                    kept@,
                    #[trigger] nodes@[jx].0,
                ) by {
                    if jx < i as int {
                        assert(contains_id(kept0, nodes@[jx].0));
                        let w = choose|w: int|
                            0 <= w < kept0.len() && (#[trigger] kept0[w]).0 == nodes@[jx].0;
                        assert(kept@[w].0 == nodes@[jx].0);
                    } else {
                        assert(kept@[kept@.len() - 1].0 == nodes@[jx].0);
                    }
                }
                assert forall|a: int, b: int| 0 <= a < b < kept@.len() implies kept@[a].0
                    != kept@[b].0 by {
                    if b == kept@.len() - 1 {
                        assert(marked_origin(kept0, nodes@, seen@, a, i as int));
                        let ja = choose|jx: int|
                            0 <= jx < i && seen@[jx] && (#[trigger] nodes@[jx]).0 == kept0[a].0
                                && node_eq(kept0[a].1, nodes@[jx].1);
                        assert(kept@[b].0 == nodes@[i as int].0);
                        assert(nodes@[ja].0 != nodes@[i as int].0);
                    }
                }
            }
        } else {
            proof {
                assert forall|k: int| 0 <= k < kept@.len() implies #[trigger] marked_origin(
                    kept@,
                    nodes@,
                    seen@,
                    k,
                    i + 1,
                ) by {
                    assert(marked_origin(kept@, nodes@, seen@, k, i as int));
                    let jx = choose|jx: int|
                        0 <= jx < i && seen@[jx] && (#[trigger] nodes@[jx]).0 == kept@[k].0
                            && node_eq(kept@[k].1, nodes@[jx].1);
                    assert(0 <= jx < i + 1 && seen@[jx] && nodes@[jx].0 == kept@[k].0 && node_eq(
                        kept@[k].1,
                        nodes@[jx].1,
                    ));
                }
            }
        }
        i = i + 1;
    }
    proof {
        assert forall|id: u64| contains_id(kept@, id) implies (contains_id(nodes@, id)
            && reachable_from(nodes@, outputs@, id)) by {
            let k = choose|k: int| 0 <= k < kept@.len() && (#[trigger] kept@[k]).0 == id;
            assert(marked_origin(kept@, nodes@, seen@, k, n as int));
            let jx = choose|jx: int|
                0 <= jx < n && seen@[jx] && (#[trigger] nodes@[jx]).0 == kept@[k].0 && node_eq(
                    kept@[k].1,
                    nodes@[jx].1,
                );
            assert(nodes@[jx].0 == id);
            assert(contains_id(nodes@, id));
        }
        assert forall|id: u64| (contains_id(nodes@, id) && reachable_from(nodes@, outputs@, id))
            implies contains_id(kept@, id) by {
            let jx = choose|jx: int| 0 <= jx < nodes@.len() && (#[trigger] nodes@[jx]).0 == id;
            let (oo, kk): (int, nat) = choose|oo: int, kk: nat|
                0 <= oo < outputs@.len() && reaches(nodes@, outputs@[oo], id, kk);
            let o = outputs@[oo];
            if contains_id(nodes@, o) {
                lemma_closed_reachable(nodes@, seen@, o, id, kk);
                let js = choose|jy: int|
                    0 <= jy < nodes@.len() && (#[trigger] nodes@[jy]).0 == id && seen@[jy];
                assert(js == jx);
                assert(contains_id(kept@, nodes@[jx].0));
            } else {
                // An absent output reaches only itself, and `id` is present.
                if o == id {
                    assert(contains_id(nodes@, o));
                } else {
                    let m = choose|m: u64|
                        edge(nodes@, o, m) && reaches(nodes@, m, id, (kk - 1) as nat);
                    assert(contains_id(nodes@, o));
                }
            }
        }
        assert forall|k: int| 0 <= k < kept@.len() implies #[trigger] copied_from(
            kept@,
            nodes@,
            k,
        ) by {
            assert(marked_origin(kept@, nodes@, seen@, k, n as int));
            let jx = choose|jx: int|
                0 <= jx < n && seen@[jx] && (#[trigger] nodes@[jx]).0 == kept@[k].0 && node_eq(
                    kept@[k].1,
                    nodes@[jx].1,
                );
            assert(0 <= jx < nodes@.len() && nodes@[jx].0 == kept@[k].0 && node_eq(
                kept@[k].1,
                nodes@[jx].1,
            ));
        }
    }
    kept
}

impl Network {
    /// Deletes every node not transitively reachable from some declared
    /// output, leaving the outputs themselves untouched.
    pub fn remove_dead_nodes(self) -> (r: Network)
        requires
            ids_unique(self.nodes@),
        ensures
            forall|id: u64|
                contains_id(r.nodes@, id) <==> (contains_id(self.nodes@, id) && reachable_from(
                    self.nodes@,
                    self.outputs@,
                    id,
                )),
            ids_unique(r.nodes@),
            r.outputs@ == self.outputs@,
            forall|k: int|
                0 <= k < r.nodes@.len() ==> #[trigger] copied_from(r.nodes@, self.nodes@, k),
    {
        let kept = prune_nodes(&self.nodes, &self.outputs);
        Network { nodes: kept, outputs: self.outputs }
    }

    /// Splits the graph into one candidate network per declared output:
    /// each partition holds exactly the nodes reachable from its one
    /// output, duplicating nodes shared between outputs rather than sharing
    /// structure across independently compiled partitions.
    pub fn into_proto_networks(self) -> (r: Vec<Network>)
        requires
            ids_unique(self.nodes@),
        ensures
            r@.len() == self.outputs@.len(),
            forall|p: int|
                0 <= p < r@.len() ==> (#[trigger] r@[p]).outputs@ =~= seq![self.outputs@[p]],
            forall|p: int, id: u64|
                0 <= p < r@.len() ==> ((#[trigger] contains_id(r@[p].nodes@, id)) <==> (
                contains_id(self.nodes@, id) && reachable_from(
                    self.nodes@,
                    seq![self.outputs@[p]],
                    id,
                ))),
            forall|p: int| 0 <= p < r@.len() ==> ids_unique((#[trigger] r@[p]).nodes@),
            forall|p: int, k: int|
                0 <= p < r@.len() && 0 <= k < r@[p].nodes@.len() ==> #[trigger] copied_from(
                    r@[p].nodes@,
                    self.nodes@,
                    k,
                ),
    {
        let mut r: Vec<Network> = Vec::new();
        let mut p: usize = 0;
        while p < self.outputs.len()
            invariant
                p <= self.outputs@.len(),
                r@.len() == p as int,
                ids_unique(self.nodes@),
                forall|q: int|
                    0 <= q < p ==> (#[trigger] r@[q]).outputs@ =~= seq![self.outputs@[q]],
                forall|q: int, id: u64|
                    0 <= q < p ==> ((#[trigger] contains_id(r@[q].nodes@, id)) <==> (contains_id(
                        self.nodes@,
                        id,
                    ) && reachable_from(self.nodes@, seq![self.outputs@[q]], id))),
                forall|q: int| 0 <= q < p ==> ids_unique((#[trigger] r@[q]).nodes@),
                forall|q: int, k: int|
                    0 <= q < p && 0 <= k < r@[q].nodes@.len() ==> #[trigger] copied_from(
                        r@[q].nodes@,
                        self.nodes@,
                        k,
                    ),
            decreases self.outputs@.len() - p,
        {
            let o = self.outputs[p];
            let mut single: Vec<u64> = Vec::new();
            single.push(o);
            let kept = prune_nodes(&self.nodes, &single);
            proof {
                assert(single@ =~= seq![self.outputs@[p as int]]);
            }
            r.push(Network { nodes: kept, outputs: single });
            proof {
                assert forall|q: int, k: int|
                    0 <= q < p + 1 && 0 <= k < r@[q].nodes@.len() implies #[trigger] copied_from(
                    r@[q].nodes@,
                    self.nodes@,
                    k,
                ) by {
                    if q == p as int {
                        assert(r@[q].nodes@ == kept@);
                        assert(copied_from(kept@, self.nodes@, k));
                    }
                }
            }
            p = p + 1;
        }
        r
    }
}

} // verus!
