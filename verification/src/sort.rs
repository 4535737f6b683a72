use vstd::prelude::*;
use vstd::seq_lib::*;
use vstd::set_lib::*;
use crate::error::{CliError, CliResult};
use crate::graph::{DepGraph, EdgeView, GraphView};

verus! {

/// Whether some edge joins `a` to `b`.
pub open spec fn edge_between(edges: Seq<EdgeView>, a: int, b: int) -> bool {
    exists|e: int|
        0 <= e < edges.len() && #[trigger] edges[e].parent == a && edges[e].child == b
}

/// A nonempty closed walk: consecutive entries are joined by edges, and an
/// edge joins the last entry back to the first.
pub open spec fn is_cycle(edges: Seq<EdgeView>, c: Seq<int>) -> bool {
    &&& c.len() >= 1
    &&& forall|t: int| 0 <= t < c.len() - 1 ==> edge_between(edges, #[trigger] c[t], c[t + 1])
    &&& edge_between(edges, c[c.len() - 1], c[0])
}

/// Whether the edge list closes some walk on itself.
pub open spec fn has_cycle(edges: Seq<EdgeView>) -> bool {
    exists|c: Seq<int>| is_cycle(edges, c)
}

/// An ordering of all node indices that every edge respects: each index
/// exactly once, and every dependent placed before its dependencies.
pub open spec fn topo_order_valid(g: GraphView, ord: Seq<int>) -> bool {
    &&& ord.len() == g.nodes.len()
    &&& forall|i: int| 0 <= i < ord.len() ==> 0 <= #[trigger] ord[i] < g.nodes.len()
    &&& forall|i: int, j: int| 0 <= i < j < ord.len() ==> ord[i] != ord[j]
    &&& forall|v: int| 0 <= v < g.nodes.len() ==> ord.contains(v)
    &&& forall|i: int, j: int|
        0 <= i < ord.len() && 0 <= j < ord.len() && edge_between(g.edges, ord[i], ord[j])
            ==> i < j
}

/// Two nodes joined in both directions admit no valid topological order:
/// once a graph holds such a cycle, every candidate ordering breaks one of
/// the two edges.
pub proof fn lemma_two_cycle_has_no_order(g: GraphView, a: int, b: int)
    requires
        edge_between(g.edges, a, b),
        edge_between(g.edges, b, a),
        0 <= a < g.nodes.len(),
        0 <= b < g.nodes.len(),
    ensures
        forall|ord: Seq<int>| !topo_order_valid(g, ord),
{
    assert forall|ord: Seq<int>| !topo_order_valid(g, ord) by {
        if topo_order_valid(g, ord) {
            assert(ord.contains(a));
            assert(ord.contains(b));
            let i = choose|i: int| 0 <= i < ord.len() && ord[i] == a;
            let j = choose|j: int| 0 <= j < ord.len() && ord[j] == b;
            assert(i < j);
            assert(j < i);
        }
    }
}


/// The position a value holds in an ordering.
pub open spec fn idx_of(ord: Seq<int>, v: int) -> int {
    choose|i: int| 0 <= i < ord.len() && ord[i] == v
}

proof fn lemma_chain_monotone(g: GraphView, ord: Seq<int>, c: Seq<int>, t: int)
    requires
        topo_order_valid(g, ord),
        is_cycle(g.edges, c),
        forall|e: int|
            0 <= e < g.edges.len() ==> 0 <= #[trigger] g.edges[e].parent < g.nodes.len()
                && 0 <= g.edges[e].child < g.nodes.len(),
        0 <= t < c.len(),
        forall|t2: int|
            0 <= t2 < c.len() ==> ord.contains(#[trigger] c[t2]) && 0 <= c[t2] < g.nodes.len(),
    ensures
        idx_of(ord, c[0]) <= idx_of(ord, c[t]),
        0 <= idx_of(ord, c[t]) < ord.len() && ord[idx_of(ord, c[t])] == c[t],
    decreases t,
{
    assert(ord.contains(c[t]));
    assert(0 <= idx_of(ord, c[t]) < ord.len() && ord[idx_of(ord, c[t])] == c[t]);
    if t > 0 {
        lemma_chain_monotone(g, ord, c, t - 1);
        assert(edge_between(g.edges, c[t - 1], c[t]));
        assert(idx_of(ord, c[t - 1]) < idx_of(ord, c[t]));
    }
}

/// A graph that some ordering places dependents-first has no cycle at
/// all: any closed walk would have to climb strictly along the order and
/// still come back to its start.
pub proof fn lemma_valid_order_acyclic(g: GraphView, ord: Seq<int>)
    requires
        topo_order_valid(g, ord),
        forall|e: int|
            0 <= e < g.edges.len() ==> 0 <= #[trigger] g.edges[e].parent < g.nodes.len()
                && 0 <= g.edges[e].child < g.nodes.len(),
    ensures
        !has_cycle(g.edges),
{
    if has_cycle(g.edges) {
        let c = choose|c: Seq<int>| is_cycle(g.edges, c);
        assert forall|t2: int|
            0 <= t2 < c.len() implies ord.contains(#[trigger] c[t2]) && 0 <= c[t2]
            < g.nodes.len() by {
            if t2 < c.len() - 1 {
                assert(edge_between(g.edges, c[t2], c[t2 + 1]));
                let e = choose|e: int|
                    0 <= e < g.edges.len() && #[trigger] g.edges[e].parent == c[t2] && g.edges[
                        e
                    ].child == c[t2 + 1];
            } else {
                assert(edge_between(g.edges, c[c.len() - 1], c[0]));
                let e = choose|e: int|
                    0 <= e < g.edges.len() && #[trigger] g.edges[e].parent == c[c.len() - 1]
                        && g.edges[e].child == c[0];
            }
        }
        lemma_chain_monotone(g, ord, c, c.len() - 1);
        assert(edge_between(g.edges, c[c.len() - 1], c[0]));
        assert(idx_of(ord, c[c.len() - 1]) < idx_of(ord, c[0]));
    }
}

/// The count of nodes the search has not yet reached.
pub open spec fn count_white(c: Seq<u8>) -> int
    decreases c.len(),
{
    if c.len() == 0 {
        0
    } else {
        count_white(c.drop_last()) + if c.last() == 0 {
            1int
        } else {
            0int
        }
    }
}

proof fn lemma_count_white_nonneg(c: Seq<u8>)
    ensures
        count_white(c) >= 0,
    decreases c.len(),
{
    if c.len() > 0 {
        lemma_count_white_nonneg(c.drop_last());
    }
}

proof fn lemma_count_white_update(c: Seq<u8>, i: int, v: u8)
    requires
        0 <= i < c.len(),
        c[i] == 0,
        v != 0,
    ensures
        count_white(c.update(i, v)) == count_white(c) - 1,
    decreases c.len(),
{
    let updated = c.update(i, v);
    if i == c.len() - 1 {
        assert(updated.drop_last() =~= c.drop_last());
    } else {
        assert(updated.drop_last() =~= c.drop_last().update(i, v));
        lemma_count_white_update(c.drop_last(), i, v);
    }
}

/// How much edge scanning is left on the stack.
pub open spec fn stack_weight(st: Seq<(usize, usize)>, m: int) -> int
    decreases st.len(),
{
    if st.len() == 0 {
        0
    } else {
        stack_weight(st.drop_last(), m) + (m - st.last().1)
    }
}

proof fn lemma_stack_weight_nonneg(st: Seq<(usize, usize)>, m: int)
    requires
        forall|s: int| 0 <= s < st.len() ==> #[trigger] st[s].1 <= m,
    ensures
        stack_weight(st, m) >= 0,
    decreases st.len(),
{
    if st.len() > 0 {
        lemma_stack_weight_nonneg(st.drop_last(), m);
    }
}

proof fn lemma_stack_weight_update_last(st: Seq<(usize, usize)>, m: int, e: (usize, usize))
    requires
        st.len() > 0,
    ensures
        stack_weight(st.update(st.len() - 1, e), m) == stack_weight(st, m) - (m - st.last().1) + (
        m - e.1),
{
    let updated = st.update(st.len() - 1, e);
    assert(updated.drop_last() =~= st.drop_last());
    assert(updated.last() == e);
}

impl DepGraph {
    /// Orders the nodes so that every dependent precedes each of its
    /// dependencies, by depth-first descent with three node states; a
    /// package reached again while still in progress is a cycle, reported
    /// as the structural error instead of an order. Ties fall to
    /// first-discovery order, so equal inputs give equal orders.
    #[verifier::loop_isolation(false)]
    #[verifier::rlimit(100)]
    pub fn topological_sort(&mut self) -> (r: CliResult<()>)
        requires
            old(self).wf(),
        ensures
            final(self).nodes@ == old(self).nodes@,
            final(self).edges@ == old(self).edges@,
            final(self).cfg == old(self).cfg,
            final(self).root_deps_map == old(self).root_deps_map,
            final(self).wf(),
            r is Ok ==> topo_order_valid(old(self)@, final(self)@.order) && !has_cycle(
                old(self)@.edges,
            ),
            r is Err ==> has_cycle(old(self)@.edges) && final(self).order@ == old(self).order@,
            r matches Err(e) ==> e is Cycle,
    {
        let n = self.nodes.len();
        let m = self.edges.len();
        let ghost gedges = self@.edges;
        let mut color: Vec<u8> = Vec::new();
        let mut ci: usize = 0;
        while ci < n
            invariant
                0 <= ci <= n,
                color@.len() == ci,
                forall|v: int| 0 <= v < ci ==> #[trigger] color@[v] == 0,
            decreases n - ci,
        {
            color.push(0u8);
            ci += 1;
        }
        let mut finished: Vec<usize> = Vec::new();
        let mut stack: Vec<(usize, usize)> = Vec::new();
        let mut root: usize = 0;
        while root < n
            invariant
                n == self.nodes@.len(),
                m == self.edges@.len(),
                gedges == self@.edges,
                color@.len() == n,
                stack@.len() == 0,
                forall|v: int| 0 <= v < n ==> #[trigger] color@[v] == 0 || color@[v] == 1
                    || color@[v] == 2,
                forall|v: int| 0 <= v < root ==> #[trigger] color@[v] != 0,
                forall|v: int| 0 <= v < n ==> (#[trigger] color@[v] == 2 <==> finished@.contains(
                    v as usize,
                )),
                forall|v: int| 0 <= v < n ==> (#[trigger] color@[v] == 1 ==> false),
                forall|t: int| 0 <= t < finished@.len() ==> #[trigger] finished@[t] < n,
                forall|t: int, t2: int|
                    0 <= t < t2 < finished@.len() ==> finished@[t] != finished@[t2],
                forall|t: int, e: int|
                    #![trigger gedges[e], finished@[t]]
                    0 <= t < finished@.len() && 0 <= e < m && gedges[e].parent
                        == finished@[t] as int ==> exists|t2: int|
                        0 <= t2 < t && finished@[t2] as int == gedges[e].child,
            decreases n - root,
        {
            if color[root] == 0 {
                let ghost pre_color = color@;
                color[root] = 1;
                stack.push((root, 0));
                proof {
                    assert(stack@[0].0 == root);
                    assert forall|v: int| 0 <= v < n && #[trigger] color@[v] == 1 implies exists|
                        s: int,
                    |
                        0 <= s < stack@.len() && stack@[s].0 as int == v by {
                        if v == root as int {
                            assert(stack@[0].0 as int == v);
                        } else {
                            assert(color@[v] == pre_color[v]);
                        }
                    }
                }
                while stack.len() > 0
                    invariant
                        n == self.nodes@.len(),
                        m == self.edges@.len(),
                        color@[root as int] != 0,
                        forall|v: int| 0 <= v < root ==> #[trigger] color@[v] != 0,
                        gedges == self@.edges,
                        color@.len() == n,
                        forall|v: int| 0 <= v < n ==> #[trigger] color@[v] == 0 || color@[v] == 1
                            || color@[v] == 2,
                        forall|s: int| 0 <= s < stack@.len() ==> #[trigger] stack@[s].0 < n
                            && stack@[s].1 <= m,
                        forall|s: int| 0 <= s < stack@.len() ==> color@[#[trigger] stack@[s].0 as int]
                            == 1,
                        forall|v: int| 0 <= v < n && #[trigger] color@[v] == 1 ==> exists|s: int|
                            0 <= s < stack@.len() && stack@[s].0 as int == v,
                        forall|s: int, s2: int|
                            0 <= s < s2 < stack@.len() ==> stack@[s].0 != stack@[s2].0,
                        forall|s: int|
                            0 <= s < stack@.len() - 1 ==> edge_between(
                                gedges,
                                #[trigger] stack@[s].0 as int,
                                stack@[s + 1].0 as int,
                            ),
                        forall|s: int, e: int|
                            0 <= s < stack@.len() && 0 <= e < stack@[s].1 && #[trigger] gedges[
                                e
                            ].parent == #[trigger] stack@[s].0 as int ==> (color@[gedges[e].child]
                                == 2 || (s + 1 < stack@.len() && gedges[e].child == stack@[s
                                + 1].0 as int)),
                        forall|v: int| 0 <= v < n ==> (#[trigger] color@[v] == 2
                            <==> finished@.contains(v as usize)),
                        forall|t: int| 0 <= t < finished@.len() ==> #[trigger] finished@[t] < n,
                        forall|t: int, t2: int|
                            0 <= t < t2 < finished@.len() ==> finished@[t] != finished@[t2],
                        forall|t: int, e: int|
                            #![trigger gedges[e], finished@[t]]
                            0 <= t < finished@.len() && 0 <= e < m && gedges[e].parent
                                == finished@[t] as int ==> exists|t2: int|
                                0 <= t2 < t && finished@[t2] as int == gedges[e].child,
                    decreases count_white(color@), stack_weight(stack@, m as int), stack@.len(),
                {
                    proof {
                        lemma_count_white_nonneg(color@);
                        lemma_stack_weight_nonneg(stack@, m as int);
                    }
                    let top = stack.len() - 1;
                    let u = stack[top].0;
                    let k = stack[top].1;
                    if k == m {
                        let ghost old_color = color@;
                        let ghost old_stack = stack@;
                        let ghost old_finished = finished@;
                        color[u] = 2;
                        finished.push(u);
                        stack.pop();
                        proof {
                            assert(stack@ =~= old_stack.drop_last());
                            assert(finished@ =~= old_finished.push(u));
                            lemma_count_white_update_keeps(old_color, u as int, 2u8);
                            assert(old_stack[old_stack.len() - 1].0 == u);
                            assert forall|v: int|
                                0 <= v < n implies (#[trigger] color@[v] == 2
                                <==> finished@.contains(v as usize)) by {
                                if v == u as int {
                                    assert(finished@[finished@.len() - 1] == u);
                                    assert(finished@.contains(u));
                                } else {
                                    assert(color@[v] == old_color[v]);
                                    if old_finished.contains(v as usize) {
                                        let t0 = choose|t: int|
                                            0 <= t < old_finished.len() && old_finished[t]
                                                == v as usize;
                                        assert(finished@[t0] == v as usize);
                                    }
                                    if finished@.contains(v as usize) {
                                        let t0 = choose|t: int|
                                            0 <= t < finished@.len() && finished@[t] == v as usize;
                                        assert(t0 < old_finished.len());
                                        assert(old_finished[t0] == v as usize);
                                    }
                                }
                            }
                            assert forall|v: int|
                                0 <= v < n && #[trigger] color@[v] == 1 implies exists|s: int|
                                0 <= s < stack@.len() && stack@[s].0 as int == v by {
                                assert(old_color[v] == 1);
                                let s0 = choose|s: int|
                                    0 <= s < old_stack.len() && #[trigger] old_stack[s].0 as int
                                        == v;
                                assert(color@[u as int] == 2);
                                assert(s0 < old_stack.len() - 1);
                                assert(stack@[s0].0 as int == v);
                            }
                            assert(stack_weight(old_stack, m as int) == stack_weight(
                                stack@,
                                m as int,
                            ) + (m - k));
                            assert forall|t: int, e: int|
                                #![trigger gedges[e], finished@[t]]
                                0 <= t < finished@.len() && 0 <= e < m && gedges[e].parent
                                    == finished@[t] as int implies exists|t2: int|
                                0 <= t2 < t && finished@[t2] as int == gedges[e].child by {
                                if t < old_finished.len() {
                                    assert(old_finished[t] == finished@[t]);
                                    let t2 = choose|t2: int|
                                        0 <= t2 < t && old_finished[t2] as int == gedges[e].child;
                                    assert(finished@[t2] as int == gedges[e].child);
                                } else {
                                    assert(finished@[t] == u);
                                    assert(old_color[gedges[e].child] == 2);
                                    assert(old_finished.contains(gedges[e].child as usize));
                                    let t2 = choose|t2: int|
                                        0 <= t2 < old_finished.len() && old_finished[t2] == gedges[
                                            e
                                        ].child as usize;
                                    assert(finished@[t2] as int == gedges[e].child);
                                }
                            }
                        }
                    } else {
                        let ghost old_stack = stack@;
                        stack[top] = (u, k + 1);
                        proof {
                            lemma_stack_weight_update_last(old_stack, m as int, (u, (k + 1) as usize));
                            assert(stack@ =~= old_stack.update(old_stack.len() - 1, (u, (k + 1) as usize)));
                            assert(stack@.len() == old_stack.len());
                            assert forall|s: int|
                                0 <= s < stack@.len() implies #[trigger] stack@[s].0 == old_stack[
                                s
                            ].0 by {}
                            assert forall|s: int|
                                0 <= s < stack@.len() implies #[trigger] stack@[s].1 <= m by {
                                if s < stack@.len() - 1 {
                                    assert(stack@[s].1 == old_stack[s].1);
                                }
                            }
                            lemma_stack_weight_nonneg(stack@, m as int);
                            assert forall|v: int|
                                0 <= v < n && #[trigger] color@[v] == 1 implies exists|s: int|
                                0 <= s < stack@.len() && stack@[s].0 as int == v by {
                                let s0 = choose|s: int|
                                    0 <= s < old_stack.len() && #[trigger] old_stack[s].0 as int
                                        == v;
                                assert(stack@[s0].0 as int == v);
                            }
                        }
                        if self.edges[k].parent == u {
                            let w = self.edges[k].child;
                            proof {
                                assert(gedges[k as int].parent == u as int);
                                assert(gedges[k as int].child == w as int);
                                assert(w < n);
                            }
                            let cw = color[w];
                            if cw == 1 {
                                proof {
                                    assert(stack@.len() == old_stack.len());
                                    assert forall|s: int|
                                        0 <= s < stack@.len() implies #[trigger] stack@[s].0
                                        == old_stack[s].0 by {}
                                    assert(exists|s: int|
                                        0 <= s < stack@.len() && #[trigger] stack@[s].0 as int
                                            == w as int) by {
                                        let s0 = choose|s: int|
                                            0 <= s < old_stack.len() && #[trigger] old_stack[
                                                s
                                            ].0 as int == w as int;
                                        assert(stack@[s0].0 as int == w as int);
                                    }
                                    let sv = choose|s: int|
                                        0 <= s < stack@.len() && #[trigger] stack@[s].0 as int
                                            == w as int;
                                    let c = Seq::new(
                                        (stack@.len() - sv) as nat,
                                        |t: int| stack@[sv + t].0 as int,
                                    );
                                    assert(c[0] == w as int);
                                    assert(c[c.len() - 1] == u as int);
                                    assert forall|t: int|
                                        0 <= t < c.len() - 1 implies edge_between(
                                        gedges,
                                        #[trigger] c[t],
                                        c[t + 1],
                                    ) by {
                                        assert(stack@[sv + t].0 == old_stack[sv + t].0);
                                        assert(stack@[sv + t + 1].0 == old_stack[sv + t + 1].0);
                                        assert(edge_between(
                                            gedges,
                                            old_stack[sv + t].0 as int,
                                            old_stack[sv + t + 1].0 as int,
                                        ));
                                    }
                                    assert(edge_between(gedges, u as int, w as int));
                                    assert(is_cycle(gedges, c));
                                }
                                let mut msg = String::from_str("cyclic dependency involving ");
                                msg.append(self.nodes[w].name.as_str());
                                msg.append(" ");
                                msg.append(self.nodes[w].ver.as_str());
                                msg.append(" and ");
                                msg.append(self.nodes[u].name.as_str());
                                msg.append(" ");
                                msg.append(self.nodes[u].ver.as_str());
                                return Err(CliError::Cycle(msg));
                            }
                            if cw == 0 {
                                let ghost mid_color = color@;
                                let ghost mid_stack = stack@;
                                color[w] = 1;
                                stack.push((w, 0));
                                proof {
                                    lemma_count_white_update(mid_color, w as int, 1u8);
                                    assert(stack@ =~= mid_stack.push((w, 0)));
                                    assert(stack@.drop_last() =~= mid_stack);
                                    assert(stack@.last() == (w, 0usize));
                                    assert(stack_weight(stack@, m as int) == stack_weight(
                                        mid_stack,
                                        m as int,
                                    ) + m);
                                    lemma_count_white_nonneg(color@);
                                    assert forall|v: int|
                                        0 <= v < n && #[trigger] color@[v] == 1 implies exists|
                                        s: int,
                                    |
                                        0 <= s < stack@.len() && stack@[s].0 as int == v by {
                                        if v == w as int {
                                            assert(stack@[stack@.len() - 1].0 as int == v);
                                        } else {
                                            assert(mid_color[v] == 1);
                                            let s0 = choose|s: int|
                                                0 <= s < mid_stack.len() && #[trigger] mid_stack[
                                                s
                                            ].0 as int == v;
                                            assert(stack@[s0].0 as int == v);
                                        }
                                    }
                                }
                            }
                        }
                    }
                }
            }
            root += 1;
        }
        proof {
            assert forall|v: int| 0 <= v < n implies #[trigger] color@[v] == 2 && finished@.contains(
                v as usize,
            ) by {}
            let fint = Seq::new(finished@.len(), |t: int| finished@[t] as int);
            assert(fint.no_duplicates()) by {
                assert forall|a: int, b: int|
                    0 <= a < fint.len() && 0 <= b < fint.len() && a != b implies fint[a]
                    != fint[b] by {
                    if a < b {
                        assert(finished@[a] != finished@[b]);
                    } else {
                        assert(finished@[b] != finished@[a]);
                    }
                }
            }
            fint.unique_seq_to_set();
            seq_to_set_is_finite(fint);
            lemma_int_range(0, n as int);
            assert(fint.to_set().subset_of(set_int_range(0, n as int))) by {
                assert forall|x: int| fint.to_set().contains(x) implies set_int_range(
                    0,
                    n as int,
                ).contains(x) by {
                    let t = choose|t: int| 0 <= t < fint.len() && fint[t] == x;
                    assert(finished@[t] < n);
                }
            }
            assert(set_int_range(0, n as int).subset_of(fint.to_set())) by {
                assert forall|x: int| set_int_range(0, n as int).contains(x) implies fint.to_set()
                    .contains(x) by {
                    assert(color@[x] == 2);
                    assert(finished@.contains(x as usize));
                    let t = choose|t: int|
                        0 <= t < finished@.len() && finished@[t] == x as usize;
                    assert(fint[t] == x);
                    assert(fint.contains(x));
                }
            }
            lemma_len_subset(fint.to_set(), set_int_range(0, n as int));
            lemma_len_subset(set_int_range(0, n as int), fint.to_set());
            assert(finished@.len() == n);
        }
        let mut order: Vec<usize> = Vec::new();
        let mut i: usize = 0;
        while i < n
            invariant
                n == self.nodes@.len(),
                finished@.len() == n,
                order@.len() == i,
                0 <= i <= n,
                forall|t: int| 0 <= t < i ==> #[trigger] order@[t] == finished@[n - 1 - t],
            decreases n - i,
        {
            order.push(finished[n - 1 - i]);
            i += 1;
        }
        let ghost old_view = self@;
        self.order = order;
        proof {
            assert(self@.nodes =~= old_view.nodes);
            assert(self@.edges =~= old_view.edges);
            let ord = self@.order;
            assert(ord.len() == n);
            assert forall|t: int| 0 <= t < n implies 0 <= #[trigger] ord[t] < n by {
                assert(order@[t] == finished@[n - 1 - t]);
            }
            assert forall|t: int, t2: int| 0 <= t < t2 < n implies ord[t] != ord[t2] by {
                assert(order@[t] == finished@[n - 1 - t]);
                assert(order@[t2] == finished@[n - 1 - t2]);
            }
            assert forall|v: int| 0 <= v < n implies ord.contains(v) by {
                assert(color@[v] == 2);
                assert(finished@.contains(v as usize));
                let t = choose|t: int| 0 <= t < n && finished@[t] == v as usize;
                assert(ord[n - 1 - t] == v);
            }
            assert forall|i2: int, j2: int|
                0 <= i2 < ord.len() && 0 <= j2 < ord.len() && edge_between(
                    gedges,
                    ord[i2],
                    ord[j2],
                ) implies i2 < j2 by {
                let e = choose|e: int|
                    0 <= e < gedges.len() && #[trigger] gedges[e].parent == ord[i2] && gedges[
                        e
                    ].child == ord[j2];
                let tp = n - 1 - i2;
                let tc = n - 1 - j2;
                assert(finished@[tp] as int == ord[i2]);
                assert(finished@[tc] as int == ord[j2]);
                let t2 = choose|t2: int|
                    0 <= t2 < tp && finished@[t2] as int == gedges[e].child;
                assert(finished@[t2] == finished@[tc]);
                assert(t2 == tc);
            }
            assert(topo_order_valid(old_view, self@.order));
            lemma_valid_order_acyclic(old_view, self@.order);
        }
        Ok(())
    }
}

/// Repainting a node that is not white leaves the white count alone.
proof fn lemma_count_white_update_keeps(c: Seq<u8>, i: int, v: u8)
    requires
        0 <= i < c.len(),
        c[i] != 0,
        v != 0,
    ensures
        count_white(c.update(i, v)) == count_white(c),
    decreases c.len(),
{
    let updated = c.update(i, v);
    if i == c.len() - 1 {
        assert(updated.drop_last() =~= c.drop_last());
    } else {
        assert(updated.drop_last() =~= c.drop_last().update(i, v));
        lemma_count_white_update_keeps(c.drop_last(), i, v);
    }
}

} // verus!
