use vstd::prelude::*;
use crate::dep::DepKind;
use crate::error::CliResult;
use crate::graph::{DepGraph, EdgeView, kinds_set, kinds_wf};
use crate::project::rdm_get;

verus! {

/// The set of kinds carried into `v` by its incoming edges.
pub open spec fn incoming_kinds(edges: Seq<EdgeView>, v: int) -> Set<DepKind>
    decreases edges.len(),
{
    if edges.len() == 0 {
        Set::empty()
    } else if edges.last().child == v {
        incoming_kinds(edges.drop_last(), v).union(edges.last().kinds)
    } else {
        incoming_kinds(edges.drop_last(), v)
    }
}

/// The kind set an edge ends up with: what the manifest declared for it,
/// or Regular for an edge that exists only through transitive closure.
pub open spec fn filled_kinds(declared: Set<DepKind>) -> Set<DepKind> {
    if declared.is_empty() {
        Set::empty().insert(DepKind::Regular)
    } else {
        declared
    }
}

proof fn lemma_incoming_prefix(edges: Seq<EdgeView>, v: int, t: int)
    requires
        0 <= t <= edges.len(),
    ensures
        incoming_kinds(edges.take(t), v) == if t == 0 {
            Set::<DepKind>::empty()
        } else if edges[t - 1].child == v {
            incoming_kinds(edges.take(t - 1), v).union(edges[t - 1].kinds)
        } else {
            incoming_kinds(edges.take(t - 1), v)
        },
    decreases t,
{
    if t > 0 {
        let pre = edges.take(t);
        assert(pre.drop_last() =~= edges.take(t - 1));
        assert(pre.last() == edges[t - 1]);
    }
}

/// Merges one more kind into a duplicate-free kind list.
#[verifier::loop_isolation(false)]
fn push_kind(kinds: &mut Vec<DepKind>, k: DepKind)
    requires
        kinds_wf(old(kinds)@),
    ensures
        kinds_wf(final(kinds)@),
        kinds_set(final(kinds)@) == kinds_set(old(kinds)@).insert(k),
{
    if !crate::graph::kind_in_vec(kinds, k) {
        let ghost before = kinds@;
        kinds.push(k);
        proof {
            assert forall|x: DepKind| #[trigger] kinds@.contains(x) implies before.contains(x) || x
                == k by {
                let w = choose|w: int| 0 <= w < kinds@.len() && kinds@[w] == x;
                if w < before.len() {
                    assert(before[w] == x);
                }
            }
            assert forall|x: DepKind| before.contains(x) implies #[trigger] kinds@.contains(x) by {
                let w = choose|w: int| 0 <= w < before.len() && before[w] == x;
                assert(kinds@[w] == x);
            }
            assert(kinds@[kinds@.len() - 1] == k);
            assert(kinds_set(kinds@) =~= kinds_set(before).insert(k));
        }
    } else {
        proof {
            assert(kinds_set(kinds@) =~= kinds_set(kinds@).insert(k));
        }
    }
}

impl DepGraph {
    /// Whether this node's name is a root the manifest declared.
    pub open spec fn spec_is_root(&self, v: int) -> bool {
        rdm_get(self.root_deps_map.entries@, self@.nodes[v].name) is Some
    }

    /// Fixes the effective kind set of every edge and node. The policy,
    /// which the manifest's declarations leave open for crates reached only
    /// through transitive closure, is documented here once: an edge whose
    /// kinds the manifest declared keeps exactly those kinds; every other
    /// edge counts as Regular. A node then resolves to the union of its
    /// incoming edges' kinds, with Regular added for the roots themselves,
    /// so no finished edge is ever left without a kind.
    #[verifier::loop_isolation(false)]
    pub fn set_resolved_kind(&mut self) -> (r: CliResult<()>)
        requires
            old(self).wf(),
        ensures
            r is Ok,
            final(self).wf(),
            final(self).cfg == old(self).cfg,
            final(self).root_deps_map == old(self).root_deps_map,
            final(self).order@ == old(self).order@,
            final(self)@.nodes.len() == old(self)@.nodes.len(),
            final(self)@.edges.len() == old(self)@.edges.len(),
            forall|v: int|
                0 <= v < old(self)@.nodes.len() ==> {
                    let n0 = old(self)@.nodes[v];
                    let n1 = #[trigger] final(self)@.nodes[v];
                    n1.name == n0.name && n1.ver == n0.ver && n1.duplicate == n0.duplicate
                },
            forall|e: int|
                0 <= e < old(self)@.edges.len() ==> {
                    let e0 = old(self)@.edges[e];
                    let e1 = #[trigger] final(self)@.edges[e];
                    e1.parent == e0.parent && e1.child == e0.child && e1.kinds == filled_kinds(
                        e0.kinds,
                    )
                },
            forall|e: int|
                0 <= e < final(self)@.edges.len() ==> !(#[trigger] final(self)@.edges[e].kinds
                    =~= Set::<DepKind>::empty()),
            forall|v: int|
                0 <= v < final(self).nodes@.len() ==> kinds_set(
                    #[trigger] final(self).nodes@[v].resolved_kinds@,
                ) == if old(self).spec_is_root(v) {
                    incoming_kinds(final(self)@.edges, v).insert(DepKind::Regular)
                } else {
                    incoming_kinds(final(self)@.edges, v)
                },
    {
        let m = self.edges.len();
        let n = self.nodes.len();
        let ghost g0 = self@;
        let mut e: usize = 0;
        while e < m
            invariant
                n == self.nodes@.len(),
                m == self.edges@.len(),
                self.nodes@ == old(self).nodes@,
                self.order@ == old(self).order@,
                self.cfg == old(self).cfg,
                self.root_deps_map == old(self).root_deps_map,
                0 <= e <= m,
                forall|t: int|
                    0 <= t < m ==> #[trigger] self.edges@[t].parent == old(self).edges@[t].parent
                        && self.edges@[t].child == old(self).edges@[t].child,
                forall|t: int| 0 <= t < m ==> kinds_wf(#[trigger] self.edges@[t].kinds@),
                forall|t: int|
                    0 <= t < e ==> #[trigger] self@.edges[t].kinds == filled_kinds(
                        g0.edges[t].kinds,
                    ),
                forall|t: int|
                    e <= t < m ==> #[trigger] self@.edges[t].kinds == g0.edges[t].kinds,
            decreases m - e,
        {
            if self.edges[e].kinds.len() == 0 {
                let ghost before = self@;
                proof {
                    assert(self.edges@[e as int].kinds@.len() == 0);
                    assert forall|k: DepKind| !(#[trigger] self@.edges[e as int].kinds.contains(
                        k,
                    )) by {}
                    assert(self@.edges[e as int].kinds =~= Set::<DepKind>::empty());
                    assert(g0.edges[e as int].kinds =~= Set::<DepKind>::empty());
                }
                let parent = self.edges[e].parent;
                let child = self.edges[e].child;
                let mut kinds: Vec<DepKind> = Vec::new();
                kinds.push(DepKind::Regular);
                self.edges[e] = crate::graph::Edge { parent, child, kinds };
                proof {
                    assert(g0.edges[e as int].kinds =~= Set::<DepKind>::empty());
                    assert(self.edges@[e as int].kinds@.len() == 1);
                    assert(self.edges@[e as int].kinds@[0] == DepKind::Regular);
                    assert forall|k: DepKind|
                        #[trigger] self@.edges[e as int].kinds.contains(k) implies k
                        == DepKind::Regular by {
                        let w = choose|w: int|
                            0 <= w < self.edges@[e as int].kinds@.len() && self.edges@[
                                e as int
                            ].kinds@[w] == k;
                    }
                    assert(self.edges@[e as int].kinds@.contains(DepKind::Regular));
                    assert(self@.edges[e as int].kinds =~= Set::<DepKind>::empty().insert(
                        DepKind::Regular,
                    ));
                    assert(self@.edges[e as int].kinds == filled_kinds(g0.edges[e as int].kinds));
                    assert forall|t: int| 0 <= t < m && t != e implies #[trigger] self@.edges[t]
                        == before.edges[t] by {}
                    assert forall|t: int|
                        0 <= t < e + 1 implies #[trigger] self@.edges[t].kinds == filled_kinds(
                        g0.edges[t].kinds,
                    ) by {
                        if t < e {
                            assert(self@.edges[t] == before.edges[t]);
                        }
                    }
                }
            } else {
                proof {
                    assert(self@.edges[e as int].kinds.contains(self.edges@[e as int].kinds@[0]));
                    assert(!(g0.edges[e as int].kinds =~= Set::<DepKind>::empty()));
                    assert(self@.edges[e as int].kinds == filled_kinds(g0.edges[e as int].kinds));
                }
            }
            e += 1;
        }
        let ghost gedges = self@.edges;
        let ghost mid_edges = self.edges@;
        proof {
            assert forall|t: int|
                0 <= t < m implies !(#[trigger] gedges[t].kinds =~= Set::<DepKind>::empty()) by {
                if g0.edges[t].kinds =~= Set::<DepKind>::empty() {
                    assert(gedges[t].kinds.contains(DepKind::Regular));
                }
            }
        }
        let mut v: usize = 0;
        while v < n
            invariant
                n == self.nodes@.len(),
                m == self.edges@.len(),
                self.edges@ == mid_edges,
                gedges == self@.edges,
                forall|t: int| 0 <= t < m ==> kinds_wf(#[trigger] self.edges@[t].kinds@),
                self.order@ == old(self).order@,
                self.cfg == old(self).cfg,
                self.root_deps_map == old(self).root_deps_map,
                0 <= v <= n,
                forall|t: int|
                    0 <= t < n ==> {
                        let e0 = old(self).nodes@[t];
                        let e1 = #[trigger] self.nodes@[t];
                        e1.name@ == e0.name@ && e1.ver@ == e0.ver@ && e1.duplicate == e0.duplicate
                    },
                forall|t: int| 0 <= t < n ==> kinds_wf(#[trigger] self.nodes@[t].resolved_kinds@),
                forall|t: int|
                    0 <= t < v ==> kinds_set(#[trigger] self.nodes@[t].resolved_kinds@) == if old(
                        self,
                    ).spec_is_root(t) {
                        incoming_kinds(gedges, t).insert(DepKind::Regular)
                    } else {
                        incoming_kinds(gedges, t)
                    },
            decreases n - v,
        {
            let mut rk: Vec<DepKind> = Vec::new();
            let is_root = self.root_deps_map.contains_key(self.nodes[v].name.as_str());
            proof {
                assert(gedges.take(0) =~= Seq::<EdgeView>::empty());
                assert(kinds_set(rk@) =~= Set::<DepKind>::empty());
            }
            let mut t: usize = 0;
            while t < m
                invariant
                    0 <= t <= m,
                    0 <= v < n,
                    m == self.edges@.len(),
                    gedges == self@.edges,
                    kinds_wf(rk@),
                    kinds_set(rk@) == incoming_kinds(gedges.take(t as int), v as int),
                decreases m - t,
            {
                proof {
                    lemma_incoming_prefix(gedges, v as int, t as int + 1);
                }
                if self.edges[t].child == v {
                    let merged = crate::graph::merge_kinds(&rk, &self.edges[t].kinds);
                    rk = merged;
                }
                t += 1;
            }
            proof {
                assert(gedges.take(m as int) =~= gedges);
            }
            if is_root {
                push_kind(&mut rk, DepKind::Regular);
            }
            proof {
                assert(kinds_set(rk@) == if is_root {
                    incoming_kinds(gedges, v as int).insert(DepKind::Regular)
                } else {
                    incoming_kinds(gedges, v as int)
                });
            }
            let ghost before_nodes = self.nodes@;
            let ghost grk = rk@;
            self.nodes[v].resolved_kinds = rk;
            proof {
                assert forall|t: int| 0 <= t < n && t != v implies #[trigger] self.nodes@[t]
                    == before_nodes[t] by {}
                assert(self.nodes@[v as int].name@ == before_nodes[v as int].name@);
                assert(self.nodes@[v as int].ver@ == before_nodes[v as int].ver@);
                assert(self.nodes@[v as int].duplicate == before_nodes[v as int].duplicate);
                assert(self.nodes@[v as int].resolved_kinds@ == grk);
                assert(old(self).spec_is_root(v as int) == (rdm_get(
                    self.root_deps_map.entries@,
                    before_nodes[v as int].name@,
                ) is Some));
                assert(is_root == old(self).spec_is_root(v as int));
                assert forall|t: int|
                    0 <= t < v + 1 implies kinds_set(#[trigger] self.nodes@[t].resolved_kinds@)
                    == if old(self).spec_is_root(t) {
                        incoming_kinds(gedges, t).insert(DepKind::Regular)
                    } else {
                        incoming_kinds(gedges, t)
                    } by {
                    if t < v {
                        assert(self.nodes@[t] == before_nodes[t]);
                    } else {
                        assert(self.nodes@[t].resolved_kinds@ == grk);
                        if old(self).spec_is_root(t) {
                            assert(kinds_set(grk) == incoming_kinds(gedges, t).insert(
                                DepKind::Regular,
                            ));
                        } else {
                            assert(kinds_set(grk) == incoming_kinds(gedges, t));
                        }
                    }
                }
            }
            v += 1;
        }
        proof {
            assert forall|a: int, b: int|
                0 <= a < b < self@.nodes.len() implies !(#[trigger] self@.nodes[a].name
                == #[trigger] self@.nodes[b].name && self@.nodes[a].ver == self@.nodes[b].ver) by {
                assert(old(self)@.nodes[a].name == self@.nodes[a].name);
                assert(old(self)@.nodes[b].name == self@.nodes[b].name);
                assert(old(self)@.nodes[a].ver == self@.nodes[a].ver);
                assert(old(self)@.nodes[b].ver == self@.nodes[b].ver);
            }
            assert forall|a: int, b: int|
                0 <= a < b < self@.edges.len() implies !(#[trigger] self@.edges[a].parent
                == #[trigger] self@.edges[b].parent && self@.edges[a].child == self@.edges[
                b
            ].child) by {
                assert(old(self)@.edges[a].parent == self@.edges[a].parent);
                assert(old(self)@.edges[b].parent == self@.edges[b].parent);
                assert(old(self)@.edges[a].child == self@.edges[a].child);
                assert(old(self)@.edges[b].child == self@.edges[b].child);
            }
            assert forall|t: int|
                0 <= t < self@.edges.len() implies 0 <= #[trigger] self@.edges[t].parent
                < self@.nodes.len() && 0 <= self@.edges[t].child < self@.nodes.len() by {
                assert(old(self)@.edges[t].parent == self@.edges[t].parent);
                assert(old(self)@.edges[t].child == self@.edges[t].child);
            }
            assert(self.wf());
        }
        Ok(())
    }
}

} // verus!
