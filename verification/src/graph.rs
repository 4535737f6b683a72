use vstd::prelude::*;
use crate::config::Config;
use crate::dep::DepKind;
use crate::project::RootDepsMap;

verus! {

/// The mathematical value of a node: its key, its resolved kind set and
/// the duplicate-name mark.
#[verifier::ext_equal]
pub ghost struct NodeView {
    pub name: Seq<char>,
    pub ver: Seq<char>,
    pub resolved_kinds: Set<DepKind>,
    pub duplicate: bool,
}

/// The mathematical value of an edge: the two node indices and the set of
/// kinds under which the parent reaches the child.
#[verifier::ext_equal]
pub ghost struct EdgeView {
    pub parent: int,
    pub child: int,
    pub kinds: Set<DepKind>,
}

/// The mathematical value of the whole graph: nodes in creation order,
/// edges in creation order, and the topological order once it is computed.
#[verifier::ext_equal]
pub ghost struct GraphView {
    pub nodes: Seq<NodeView>,
    pub edges: Seq<EdgeView>,
    pub order: Seq<int>,
}

/// The set of kinds a kind list holds.
pub open spec fn kinds_set(s: Seq<DepKind>) -> Set<DepKind> {
    Set::new(|k: DepKind| s.contains(k))
}

/// A kind list without repeats.
pub open spec fn kinds_wf(s: Seq<DepKind>) -> bool {
    forall|i: int, j: int| 0 <= i < j < s.len() ==> s[i] != s[j]
}

/// A node of the dependency graph, identified by its (name, version) pair.
#[derive(Debug)]
pub struct Node {
    pub name: String,
    pub ver: String,
    pub resolved_kinds: Vec<DepKind>,
    pub duplicate: bool,
}

impl View for Node {
    type V = NodeView;

    open spec fn view(&self) -> NodeView {
        NodeView {
            name: self.name@,
            ver: self.ver@,
            resolved_kinds: kinds_set(self.resolved_kinds@),
            duplicate: self.duplicate,
        }
    }
}

/// A directed edge from a dependent package to one of its dependencies.
#[derive(Debug)]
pub struct Edge {
    pub parent: usize,
    pub child: usize,
    pub kinds: Vec<DepKind>,
}

impl View for Edge {
    type V = EdgeView;

    open spec fn view(&self) -> EdgeView {
        EdgeView { parent: self.parent as int, child: self.child as int, kinds: kinds_set(self.kinds@) }
    }
}

/// First node index holding this (name, version) key.
pub open spec fn view_find(nodes: Seq<NodeView>, name: Seq<char>, ver: Seq<char>) -> Option<int>
    decreases nodes.len(),
{
    if nodes.len() == 0 {
        None
    } else if nodes[0].name == name && nodes[0].ver == ver {
        Some(0)
    } else {
        match view_find(nodes.drop_first(), name, ver) {
            Some(i) => Some(i + 1),
            None => None,
        }
    }
}

/// The node a fresh key gets: empty kind set, not a duplicate.
pub open spec fn fresh_node(name: Seq<char>, ver: Seq<char>) -> NodeView {
    NodeView { name: name, ver: ver, resolved_kinds: Set::empty(), duplicate: false }
}

/// Node lookup-or-creation at the level of graph values: the untouched
/// graph and the index of the present node, or the graph grown by one
/// fresh node at the end.
pub open spec fn view_find_or_add(g: GraphView, name: Seq<char>, ver: Seq<char>) -> (GraphView, int) {
    match view_find(g.nodes, name, ver) {
        Some(i) => (g, i),
        None => (
            GraphView { nodes: g.nodes.push(fresh_node(name, ver)), ..g },
            g.nodes.len() as int,
        ),
    }
}

/// First edge index joining this (parent, child) pair.
pub open spec fn view_find_edge(edges: Seq<EdgeView>, parent: int, child: int) -> Option<int>
    decreases edges.len(),
{
    if edges.len() == 0 {
        None
    } else if edges[0].parent == parent && edges[0].child == child {
        Some(0)
    } else {
        match view_find_edge(edges.drop_first(), parent, child) {
            Some(i) => Some(i + 1),
            None => None,
        }
    }
}

/// Edge creation at the level of graph values: the child is looked up or
/// created, then the kinds are merged into the one edge of the pair, or a
/// new edge carries them.
pub open spec fn view_add_child(
    g: GraphView,
    parent: int,
    name: Seq<char>,
    ver: Seq<char>,
    kinds: Set<DepKind>,
) -> (GraphView, int) {
    let (g1, c) = view_find_or_add(g, name, ver);
    match view_find_edge(g1.edges, parent, c) {
        Some(j) => (
            GraphView {
                edges: g1.edges.update(
                    j,
                    EdgeView { kinds: g1.edges[j].kinds.union(kinds), ..g1.edges[j] },
                ),
                ..g1
            },
            c,
        ),
        None => (
            GraphView { edges: g1.edges.push(EdgeView { parent: parent, child: c, kinds: kinds }), ..g1 },
            c,
        ),
    }
}

/// Distinct nodes never share a key.
pub open spec fn nodes_unique(nodes: Seq<NodeView>) -> bool {
    forall|i: int, j: int|
        0 <= i < j < nodes.len() ==> !(#[trigger] nodes[i].name == #[trigger] nodes[j].name
            && nodes[i].ver == nodes[j].ver)
}

/// Every edge joins two existing nodes, and no pair is joined twice.
pub open spec fn edges_wf(g: GraphView) -> bool {
    &&& forall|e: int|
        0 <= e < g.edges.len() ==> 0 <= #[trigger] g.edges[e].parent < g.nodes.len()
            && 0 <= g.edges[e].child < g.nodes.len()
    &&& forall|e: int, f: int|
        0 <= e < f < g.edges.len() ==> !(#[trigger] g.edges[e].parent == #[trigger] g.edges[f].parent
            && g.edges[e].child == g.edges[f].child)
}

/// Consistency of a graph value: unique keys and well-formed edges.
pub open spec fn gv_wf(g: GraphView) -> bool {
    nodes_unique(g.nodes) && edges_wf(g)
}

/// The dependency graph: a node arena addressed by index, the edge list,
/// the kinds the manifest declared for each root, and the configuration.
#[derive(Debug)]
pub struct DepGraph {
    pub cfg: Config,
    pub nodes: Vec<Node>,
    pub edges: Vec<Edge>,
    pub root_deps_map: RootDepsMap,
    pub order: Vec<usize>,
}

impl View for DepGraph {
    type V = GraphView;

    open spec fn view(&self) -> GraphView {
        GraphView {
            nodes: Seq::new(self.nodes@.len(), |i: int| self.nodes@[i]@),
            edges: Seq::new(self.edges@.len(), |i: int| self.edges@[i]@),
            order: Seq::new(self.order@.len(), |i: int| self.order@[i] as int),
        }
    }
}

impl DepGraph {
    /// The executable store is consistent, and its kind lists are free of
    /// repeats.
    pub open spec fn wf(&self) -> bool {
        &&& gv_wf(self@)
        &&& forall|i: int| 0 <= i < self.nodes@.len() ==> kinds_wf(#[trigger] self.nodes@[i].resolved_kinds@)
        &&& forall|e: int| 0 <= e < self.edges@.len() ==> kinds_wf(#[trigger] self.edges@[e].kinds@)
    }

    /// An empty graph under the given configuration.
    pub fn new(cfg: Config, root_deps_map: RootDepsMap) -> (g: DepGraph)
        ensures
            g@.nodes.len() == 0,
            g@.edges.len() == 0,
            g@.order.len() == 0,
            g.cfg == cfg,
            g.root_deps_map == root_deps_map,
            g.wf(),
    {
        DepGraph {
            cfg,
            nodes: Vec::new(),
            edges: Vec::new(),
            root_deps_map,
            order: Vec::new(),
        }
    }

    /// Exact lookup of a (name, version) key; nothing fuzzy.
    pub fn find(&self, name: &str, ver: &str) -> (r: Option<usize>)
        ensures
            match r {
                Some(i) => view_find(self@.nodes, name@, ver@) == Some(i as int),
                None => view_find(self@.nodes, name@, ver@) is None,
            },
    {
        let ghost nv = self@.nodes;
        let mut i: usize = 0;
        while i < self.nodes.len()
            invariant
                0 <= i <= self.nodes.len(),
                nv == self@.nodes,
                nv.len() == self.nodes.len(),
                forall|j: int| 0 <= j < i ==> !(#[trigger] nv[j].name == name@ && nv[j].ver == ver@),
            decreases self.nodes.len() - i,
        {
            if crate::util::str_eq(self.nodes[i].name.as_str(), name)
                && crate::util::str_eq(self.nodes[i].ver.as_str(), ver) {
                proof {
                    lemma_view_find_at(nv, name@, ver@, i as int);
                }
                return Some(i);
            }
            i += 1;
        }
        proof {
            lemma_view_find_none(nv, name@, ver@);
        }
        None
    }
}

/// A key that first matches at `i` is the one `view_find` returns.
pub proof fn lemma_view_find_at(nodes: Seq<NodeView>, name: Seq<char>, ver: Seq<char>, i: int)
    requires
        0 <= i < nodes.len(),
        nodes[i].name == name && nodes[i].ver == ver,
        forall|j: int| 0 <= j < i ==> !(#[trigger] nodes[j].name == name && nodes[j].ver == ver),
    ensures
        view_find(nodes, name, ver) == Some(i),
    decreases nodes.len(),
{
    if i > 0 {
        lemma_view_find_at(nodes.drop_first(), name, ver, i - 1);
    }
}

/// A key no node holds is one `view_find` misses.
pub proof fn lemma_view_find_none(nodes: Seq<NodeView>, name: Seq<char>, ver: Seq<char>)
    requires
        forall|j: int| 0 <= j < nodes.len() ==> !(#[trigger] nodes[j].name == name && nodes[j].ver == ver),
    ensures
        view_find(nodes, name, ver) is None,
    decreases nodes.len(),
{
    if nodes.len() > 0 {
        lemma_view_find_none(nodes.drop_first(), name, ver);
    }
}

/// Whether a kind list holds `k`.
pub fn kind_in_vec(v: &Vec<DepKind>, k: DepKind) -> (r: bool)
    ensures
        r == v@.contains(k),
{
    let mut i: usize = 0;
    while i < v.len()
        invariant
            0 <= i <= v.len(),
            forall|j: int| 0 <= j < i ==> v@[j] != k,
        decreases v.len() - i,
    {
        if v[i] == k {
            return true;
        }
        i += 1;
    }
    false
}

/// A copy of `base` extended by whatever of `extra` it does not yet hold.
#[verifier::loop_isolation(false)]
pub(crate) fn merge_kinds(base: &Vec<DepKind>, extra: &Vec<DepKind>) -> (r: Vec<DepKind>)
    requires
        kinds_wf(base@),
    ensures
        kinds_wf(r@),
        kinds_set(r@) == kinds_set(base@).union(kinds_set(extra@)),
{
    let mut r: Vec<DepKind> = Vec::new();
    let mut t: usize = 0;
    while t < base.len()
        invariant
            0 <= t <= base.len(),
            r@ == base@.take(t as int),
        decreases base.len() - t,
    {
        r.push(base[t]);
        proof {
            assert(r@ =~= base@.take(t as int + 1));
        }
        t += 1;
    }
    proof {
        assert(r@ =~= base@);
    }
    let mut u: usize = 0;
    while u < extra.len()
        invariant
            0 <= u <= extra.len(),
            kinds_wf(r@),
            forall|k: DepKind|
                #[trigger] r@.contains(k) <==> base@.contains(k) || extra@.take(u as int).contains(
                    k,
                ),
        decreases extra.len() - u,
    {
        let k = extra[u];
        if !kind_in_vec(&r, k) {
            let ghost before = r@;
            r.push(k);
            proof {
                assert forall|x: DepKind| #[trigger] r@.contains(x) implies before.contains(x) || x
                    == k by {
                    let w = choose|w: int| 0 <= w < r@.len() && r@[w] == x;
                    if w < before.len() {
                        assert(before[w] == x);
                    }
                }
                assert forall|x: DepKind| before.contains(x) implies #[trigger] r@.contains(x) by {
                    let w = choose|w: int| 0 <= w < before.len() && before[w] == x;
                    assert(r@[w] == x);
                }
                assert(r@[r@.len() - 1] == k);
            }
        }
        proof {
            assert(extra@.take(u as int + 1).drop_last() =~= extra@.take(u as int));
            assert(extra@.take(u as int + 1).last() == extra@[u as int]);
            assert forall|x: DepKind| extra@.take(u as int + 1).contains(x) implies extra@.take(
                u as int,
            ).contains(x) || x == extra@[u as int] by {
                let w = choose|w: int| 0 <= w < u + 1 && #[trigger] extra@.take(u as int + 1)[w]
                    == x;
                if w < u {
                    assert(extra@.take(u as int)[w] == x);
                }
            }
            assert forall|x: DepKind| extra@.take(u as int).contains(x) implies extra@.take(
                u as int + 1,
            ).contains(x) by {
                let w = choose|w: int| 0 <= w < u && #[trigger] extra@.take(u as int)[w] == x;
                assert(extra@.take(u as int + 1)[w] == x);
            }
            if extra@[u as int] == k {
                assert(r@.contains(k));
            }
        }
        u += 1;
    }
    proof {
        assert(extra@.take(extra@.len() as int) =~= extra@);
        assert(kinds_set(r@) =~= kinds_set(base@).union(kinds_set(extra@)));
    }
    r
}

/// What `view_find` returns really is a first match.
pub proof fn lemma_view_find_found(nodes: Seq<NodeView>, name: Seq<char>, ver: Seq<char>)
    ensures
        match view_find(nodes, name, ver) {
            Some(i) => 0 <= i < nodes.len() && nodes[i].name == name && nodes[i].ver == ver
                && forall|j: int| 0 <= j < i ==> !(#[trigger] nodes[j].name == name && nodes[j].ver == ver),
            None => forall|j: int|
                0 <= j < nodes.len() ==> !(#[trigger] nodes[j].name == name && nodes[j].ver == ver),
        },
    decreases nodes.len(),
{
    if nodes.len() > 0 {
        lemma_view_find_found(nodes.drop_first(), name, ver);
        let rest = nodes.drop_first();
        if !(nodes[0].name == name && nodes[0].ver == ver) {
            match view_find(rest, name, ver) {
                Some(i) => {
                    assert(view_find(nodes, name, ver) == Some(i + 1));
                    assert(nodes[i + 1] == rest[i]);
                    assert forall|j: int|
                        0 <= j < i + 1 implies !(#[trigger] nodes[j].name == name && nodes[j].ver
                        == ver) by {
                        if j > 0 {
                            assert(rest[j - 1] == nodes[j]);
                        }
                    }
                },
                None => {
                    assert forall|j: int|
                        0 <= j < nodes.len() implies !(#[trigger] nodes[j].name == name
                        && nodes[j].ver == ver) by {
                        if j > 0 {
                            assert(rest[j - 1] == nodes[j]);
                        }
                    }
                },
            }
        }
    }
}

/// A key first matching at `i` is the one `view_find_edge` returns.
pub proof fn lemma_view_find_edge_at(edges: Seq<EdgeView>, parent: int, child: int, i: int)
    requires
        0 <= i < edges.len(),
        edges[i].parent == parent && edges[i].child == child,
        forall|j: int| 0 <= j < i ==> !(#[trigger] edges[j].parent == parent && edges[j].child == child),
    ensures
        view_find_edge(edges, parent, child) == Some(i),
    decreases edges.len(),
{
    if i > 0 {
        lemma_view_find_edge_at(edges.drop_first(), parent, child, i - 1);
    }
}

/// What `view_find_edge` returns really is a first match.
pub proof fn lemma_view_find_edge_found(edges: Seq<EdgeView>, parent: int, child: int)
    ensures
        match view_find_edge(edges, parent, child) {
            Some(i) => 0 <= i < edges.len() && edges[i].parent == parent && edges[i].child == child
                && forall|j: int|
                    0 <= j < i ==> !(#[trigger] edges[j].parent == parent && edges[j].child == child),
            None => forall|j: int|
                0 <= j < edges.len() ==> !(#[trigger] edges[j].parent == parent && edges[j].child
                == child),
        },
    decreases edges.len(),
{
    if edges.len() > 0 {
        lemma_view_find_edge_found(edges.drop_first(), parent, child);
        let rest = edges.drop_first();
        if !(edges[0].parent == parent && edges[0].child == child) {
            match view_find_edge(rest, parent, child) {
                Some(i) => {
                    assert(edges[i + 1] == rest[i]);
                    assert forall|j: int|
                        0 <= j < i + 1 implies !(#[trigger] edges[j].parent == parent
                        && edges[j].child == child) by {
                        if j > 0 {
                            assert(rest[j - 1] == edges[j]);
                        }
                    }
                },
                None => {
                    assert forall|j: int|
                        0 <= j < edges.len() implies !(#[trigger] edges[j].parent == parent
                        && edges[j].child == child) by {
                        if j > 0 {
                            assert(rest[j - 1] == edges[j]);
                        }
                    }
                },
            }
        }
    }
}

impl DepGraph {
    /// Idempotent node creation: the id of the key's node, which is made
    /// fresh at the next index only when the key is new.
    #[verifier::loop_isolation(false)]
    pub fn find_or_add(&mut self, name: &str, ver: &str) -> (r: usize)
        ensures
            final(self)@ == view_find_or_add(old(self)@, name@, ver@).0,
            r as int == view_find_or_add(old(self)@, name@, ver@).1,
            final(self).cfg == old(self).cfg,
            final(self).root_deps_map == old(self).root_deps_map,
            old(self).wf() ==> final(self).wf(),
    {
        match self.find(name, ver) {
            Some(i) => i,
            None => {
                let i = self.nodes.len();
                let ghost old_view = self@;
                self.nodes.push(
                    Node {
                        name: name.to_owned(),
                        ver: ver.to_owned(),
                        resolved_kinds: Vec::new(),
                        duplicate: false,
                    },
                );
                proof {
                    assert(kinds_set(Seq::<DepKind>::empty()) =~= Set::<DepKind>::empty());
                    assert(self@.nodes =~= old_view.nodes.push(fresh_node(name@, ver@)));
                    assert(self@.edges =~= old_view.edges);
                    assert(self@.order =~= old_view.order);
                    assert(self@ == view_find_or_add(old_view, name@, ver@).0);
                    if old(self).wf() {
                        lemma_view_find_found(old_view.nodes, name@, ver@);
                        assert forall|a: int, b: int|
                            0 <= a < b < self@.nodes.len() implies !(#[trigger] self@.nodes[a].name
                            == #[trigger] self@.nodes[b].name && self@.nodes[a].ver
                            == self@.nodes[b].ver) by {
                            if b < self@.nodes.len() - 1 {
                                assert(old_view.nodes[a] == self@.nodes[a]);
                                assert(old_view.nodes[b] == self@.nodes[b]);
                            } else {
                                assert(old_view.nodes[a] == self@.nodes[a]);
                                assert(self@.nodes[b].name == name@ && self@.nodes[b].ver == ver@);
                                assert(!(old_view.nodes[a].name == name@ && old_view.nodes[a].ver
                                    == ver@));
                            }
                        }
                        assert(self.wf());
                    }
                }
                i
            },
        }
    }

    /// Resolves or creates the child node, then adds or merges the one
    /// directed edge from `parent` to it: a pair joined twice keeps a
    /// single edge whose kind set is the union of both calls' kinds.
    #[verifier::loop_isolation(false)]
    pub fn add_child(&mut self, parent: usize, dep_name: &str, dep_ver: &str, kinds: &Vec<DepKind>)
        -> (r: usize)
        requires
            old(self).wf(),
            parent < old(self).nodes@.len(),
        ensures
            final(self)@ == view_add_child(
                old(self)@,
                parent as int,
                dep_name@,
                dep_ver@,
                kinds_set(kinds@),
            ).0,
            r as int == view_add_child(
                old(self)@,
                parent as int,
                dep_name@,
                dep_ver@,
                kinds_set(kinds@),
            ).1,
            final(self).wf(),
            final(self).cfg == old(self).cfg,
            final(self).root_deps_map == old(self).root_deps_map,
    {
        let ghost g0 = self@;
        let child = self.find_or_add(dep_name, dep_ver);
        proof {
            lemma_view_find_found(g0.nodes, dep_name@, dep_ver@);
        }
        let ghost g1 = self@;
        let mut j: usize = 0;
        while j < self.edges.len()
            invariant
                self@ == g1,
                self.wf(),
                self.cfg == old(self).cfg,
                self.root_deps_map == old(self).root_deps_map,
                j <= self.edges.len(),
                child < self.nodes.len(),
                parent < self.nodes.len(),
                forall|t: int|
                    0 <= t < j ==> !(#[trigger] g1.edges[t].parent == parent as int
                        && g1.edges[t].child == child as int),
            decreases self.edges.len() - j,
        {
            if self.edges[j].parent == parent && self.edges[j].child == child {
                proof {
                    lemma_view_find_edge_at(g1.edges, parent as int, child as int, j as int);
                }
                let merged = merge_kinds(&self.edges[j].kinds, kinds);
                self.edges[j] = Edge { parent, child, kinds: merged };
                proof {
                    assert(self@.edges =~= g1.edges.update(
                        j as int,
                        EdgeView {
                            kinds: g1.edges[j as int].kinds.union(kinds_set(kinds@)),
                            ..g1.edges[j as int]
                        },
                    ));
                    assert(self@.nodes =~= g1.nodes);
                    assert(self@.order =~= g1.order);
                    assert(self@ == view_add_child(
                        g0,
                        parent as int,
                        dep_name@,
                        dep_ver@,
                        kinds_set(kinds@),
                    ).0);
                    assert forall|a: int, b: int|
                        0 <= a < b < self@.edges.len() implies !(#[trigger] self@.edges[a].parent
                        == #[trigger] self@.edges[b].parent && self@.edges[a].child
                        == self@.edges[b].child) by {
                        assert(self@.edges[a].parent == g1.edges[a].parent);
                        assert(self@.edges[b].parent == g1.edges[b].parent);
                        assert(self@.edges[a].child == g1.edges[a].child);
                        assert(self@.edges[b].child == g1.edges[b].child);
                    }
                    assert(self.wf());
                }
                return child;
            }
            j += 1;
        }
        proof {
            lemma_view_find_edge_found(g1.edges, parent as int, child as int);
        }
        let fresh: Vec<DepKind> = Vec::new();
        let merged = merge_kinds(&fresh, kinds);
        self.edges.push(Edge { parent, child, kinds: merged });
        proof {
            assert(kinds_set(merged@) =~= kinds_set(kinds@));
            assert(self@.edges =~= g1.edges.push(
                EdgeView { parent: parent as int, child: child as int, kinds: kinds_set(kinds@) },
            ));
            assert(self@.nodes =~= g1.nodes);
            assert(self@.order =~= g1.order);
            assert(self@ == view_add_child(
                g0,
                parent as int,
                dep_name@,
                dep_ver@,
                kinds_set(kinds@),
            ).0);
            assert forall|a: int, b: int|
                0 <= a < b < self@.edges.len() implies !(#[trigger] self@.edges[a].parent
                == #[trigger] self@.edges[b].parent && self@.edges[a].child
                == self@.edges[b].child) by {
                if b < self@.edges.len() - 1 {
                    assert(self@.edges[a] == g1.edges[a]);
                    assert(self@.edges[b] == g1.edges[b]);
                } else {
                    assert(self@.edges[a] == g1.edges[a]);
                }
            }
            assert(self.wf());
        }
        child
    }

    /// Marks every node whose name another version also carries: exactly
    /// the nodes that share a name with a differently versioned node get
    /// `duplicate` set; everything else is left alone.
    #[verifier::loop_isolation(false)]
    pub fn show_version_on_duplicates(&mut self)
        ensures
            final(self)@.nodes.len() == old(self)@.nodes.len(),
            forall|i: int|
                0 <= i < old(self)@.nodes.len() ==> {
                    let n0 = old(self)@.nodes[i];
                    let n1 = #[trigger] final(self)@.nodes[i];
                    n1.name == n0.name && n1.ver == n0.ver && n1.resolved_kinds
                        == n0.resolved_kinds && n1.duplicate == (n0.duplicate || exists|j: int|
                        0 <= j < old(self)@.nodes.len() && j != i
                            && #[trigger] old(self)@.nodes[j].name == n0.name
                            && old(self)@.nodes[j].ver != n0.ver)
                },
            final(self)@.edges == old(self)@.edges,
            final(self)@.order == old(self)@.order,
            final(self).cfg == old(self).cfg,
            final(self).root_deps_map == old(self).root_deps_map,
            old(self).wf() ==> final(self).wf(),
    {
        let ghost g0 = self@;
        let ghost old_nodes = self.nodes@;
        let n = self.nodes.len();
        let mut i: usize = 0;
        while i < n
            invariant
                n == self.nodes@.len(),
                0 <= i <= n,
                self@.nodes.len() == g0.nodes.len(),
                self.edges@ == old(self).edges@,
                self.order@ == old(self).order@,
                self.cfg == old(self).cfg,
                self.root_deps_map == old(self).root_deps_map,
                forall|t: int|
                    0 <= t < n ==> {
                        let e0 = old_nodes[t];
                        let e1 = #[trigger] self.nodes@[t];
                        e1.name@ == e0.name@ && e1.ver@ == e0.ver@ && e1.resolved_kinds@
                            == e0.resolved_kinds@
                    },
                forall|t: int|
                    0 <= t < i ==> #[trigger] self@.nodes[t].duplicate == (g0.nodes[t].duplicate
                        || exists|j: int|
                        0 <= j < n && j != t && #[trigger] g0.nodes[j].name == g0.nodes[t].name
                            && g0.nodes[j].ver != g0.nodes[t].ver),
                forall|t: int|
                    i <= t < n ==> #[trigger] self@.nodes[t].duplicate == g0.nodes[t].duplicate,
            decreases n - i,
        {
            let mut j: usize = 0;
            let mut seen_other = false;
            while j < n
                invariant
                    n == self.nodes@.len(),
                    0 <= j <= n,
                    0 <= i < n,
                    seen_other == (exists|t: int|
                        0 <= t < j && t != i && #[trigger] g0.nodes[t].name == g0.nodes[
                            i as int
                        ].name && g0.nodes[t].ver != g0.nodes[i as int].ver),
                decreases n - j,
            {
                if j != i {
                    let same_name = crate::util::str_eq(
                        self.nodes[j].name.as_str(),
                        self.nodes[i].name.as_str(),
                    );
                    let same_ver = crate::util::str_eq(
                        self.nodes[j].ver.as_str(),
                        self.nodes[i].ver.as_str(),
                    );
                    proof {
                        assert(self.nodes@[j as int].name@ == g0.nodes[j as int].name);
                        assert(self.nodes@[i as int].name@ == g0.nodes[i as int].name);
                        assert(self.nodes@[j as int].ver@ == g0.nodes[j as int].ver);
                        assert(self.nodes@[i as int].ver@ == g0.nodes[i as int].ver);
                    }
                    if same_name && !same_ver {
                        seen_other = true;
                        proof {
                            assert(g0.nodes[j as int].name == g0.nodes[i as int].name
                                && g0.nodes[j as int].ver != g0.nodes[i as int].ver);
                        }
                    }
                }
                j += 1;
            }
            let ghost before = self@;
            let ghost before_nodes = self.nodes@;
            if seen_other {
                self.nodes[i].duplicate = true;
            }
            proof {
                assert forall|t: int| 0 <= t < n && t != i implies self.nodes@[t]
                    == before_nodes[t] by {}
                assert(self.nodes@[i as int].name@ == before_nodes[i as int].name@);
                assert(self.nodes@[i as int].ver@ == before_nodes[i as int].ver@);
                assert(self.nodes@[i as int].resolved_kinds@ == before_nodes[
                    i as int
                ].resolved_kinds@);
                assert forall|t: int|
                    i + 1 <= t < n implies #[trigger] self@.nodes[t].duplicate == g0.nodes[
                    t
                ].duplicate by {
                    assert(self.nodes@[t] == before_nodes[t]);
                    assert(before.nodes[t].duplicate == g0.nodes[t].duplicate);
                }
                assert forall|t: int|
                    0 <= t < i + 1 implies #[trigger] self@.nodes[t].duplicate == (
                g0.nodes[t].duplicate || exists|j2: int|
                    0 <= j2 < n && j2 != t && #[trigger] g0.nodes[j2].name == g0.nodes[t].name
                        && g0.nodes[j2].ver != g0.nodes[t].ver) by {
                    if t < i {
                        assert(self@.nodes[t] == before.nodes[t]);
                    } else {
                        if seen_other {
                            assert(self@.nodes[t].duplicate == true);
                        } else {
                            assert(self@.nodes[t] == before.nodes[t]);
                            assert(!(exists|j2: int|
                                0 <= j2 < n && j2 != t && #[trigger] g0.nodes[j2].name == g0.nodes[
                                    t
                                ].name && g0.nodes[j2].ver != g0.nodes[t].ver));
                        }
                    }
                }
            }
            i += 1;
        }
        proof {
            assert(self@.edges =~= old(self)@.edges);
            assert(self@.order =~= old(self)@.order);
            assert forall|t: int| 0 <= t < n implies {
                let n0 = g0.nodes[t];
                let n1 = #[trigger] self@.nodes[t];
                n1.name == n0.name && n1.ver == n0.ver && n1.resolved_kinds == n0.resolved_kinds
            } by {
                assert(self.nodes@[t].resolved_kinds@ == old_nodes[t].resolved_kinds@);
                assert(kinds_set(self.nodes@[t].resolved_kinds@) =~= kinds_set(
                    old_nodes[t].resolved_kinds@,
                ));
            }
            if old(self).wf() {
                assert forall|a: int, b: int|
                    0 <= a < b < self@.nodes.len() implies !(#[trigger] self@.nodes[a].name
                    == #[trigger] self@.nodes[b].name && self@.nodes[a].ver == self@.nodes[b].ver)
                    by {
                    assert(g0.nodes[a].name == self@.nodes[a].name);
                    assert(g0.nodes[b].name == self@.nodes[b].name);
                    assert(g0.nodes[a].ver == self@.nodes[a].ver);
                    assert(g0.nodes[b].ver == self@.nodes[b].ver);
                }
                assert(self.wf());
            }
        }
    }
}

/// Node creation is idempotent: once a key has its node, looking it up or
/// creating it again returns the same id and leaves the graph untouched.
pub proof fn lemma_find_or_add_idempotent(g: GraphView, name: Seq<char>, ver: Seq<char>)
    ensures
        ({
            let (g1, i1) = view_find_or_add(g, name, ver);
            let (g2, i2) = view_find_or_add(g1, name, ver);
            g2 == g1 && i2 == i1
        }),
{
    let (g1, i1) = view_find_or_add(g, name, ver);
    match view_find(g.nodes, name, ver) {
        Some(i) => {},
        None => {
            lemma_view_find_found(g.nodes, name, ver);
            lemma_view_find_at(g1.nodes, name, ver, g.nodes.len() as int);
        },
    }
}

/// Edge stores that agree pairwise on endpoints agree on pair lookup.
pub proof fn lemma_view_find_edge_pairs(a: Seq<EdgeView>, b: Seq<EdgeView>, p: int, c: int)
    requires
        a.len() == b.len(),
        forall|t: int|
            0 <= t < a.len() ==> #[trigger] a[t].parent == b[t].parent && a[t].child == b[t].child,
    ensures
        view_find_edge(a, p, c) == view_find_edge(b, p, c),
    decreases a.len(),
{
    if a.len() > 0 {
        assert forall|t: int|
            0 <= t < a.len() - 1 implies #[trigger] a.drop_first()[t].parent == b.drop_first()[
            t
        ].parent && a.drop_first()[t].child == b.drop_first()[t].child by {
            assert(a.drop_first()[t] == a[t + 1]);
            assert(b.drop_first()[t] == b[t + 1]);
        }
        lemma_view_find_edge_pairs(a.drop_first(), b.drop_first(), p, c);
    }
}

/// Joining the same (parent, child) pair twice, under two kind sets,
/// leaves one single edge for the pair, whose kind set is the union of
/// what it already carried and both calls' kinds: re-adding merges, it
/// never creates a second edge.
pub proof fn lemma_add_child_merges(
    g: GraphView,
    parent: int,
    name: Seq<char>,
    ver: Seq<char>,
    k1: Set<DepKind>,
    k2: Set<DepKind>,
)
    ensures
        ({
            let (ga, c1) = view_add_child(g, parent, name, ver, k1);
            let (gb, c2) = view_add_child(ga, parent, name, ver, k2);
            &&& c2 == c1
            &&& gb.nodes == ga.nodes
            &&& gb.edges.len() == ga.edges.len()
            &&& view_find_edge(gb.edges, parent, c1) is Some
            &&& gb.edges[view_find_edge(gb.edges, parent, c1).unwrap()].kinds == (match
                view_find_edge(g.edges, parent, c1) {
                Some(j0) => g.edges[j0].kinds,
                None => Set::empty(),
            }).union(k1).union(k2)
        }),
{
    let (g1, c) = view_find_or_add(g, name, ver);
    lemma_find_or_add_idempotent(g, name, ver);
    let (ga, c1) = view_add_child(g, parent, name, ver, k1);
    assert(ga.nodes == g1.nodes);
    assert(view_find(g1.nodes, name, ver) == Some(c)) by {
        if view_find(g1.nodes, name, ver) is None {
            assert(view_find_or_add(g1, name, ver).0.nodes.len() == g1.nodes.len() + 1);
        }
    }
    assert(view_find_or_add(ga, name, ver) == (ga, c));
    assert(g1.edges == g.edges);
    match view_find_edge(g.edges, parent, c) {
        Some(j0) => {
            lemma_view_find_edge_found(g.edges, parent, c);
            assert(ga.edges.len() == g.edges.len());
            assert forall|t: int|
                0 <= t < ga.edges.len() implies #[trigger] ga.edges[t].parent == g.edges[t].parent
                && ga.edges[t].child == g.edges[t].child by {}
            lemma_view_find_edge_pairs(ga.edges, g.edges, parent, c);
            assert(view_find_edge(ga.edges, parent, c) == Some(j0));
            let gb = view_add_child(ga, parent, name, ver, k2).0;
            assert(gb.edges.len() == ga.edges.len());
            assert forall|t: int|
                0 <= t < gb.edges.len() implies #[trigger] gb.edges[t].parent == ga.edges[t].parent
                && gb.edges[t].child == ga.edges[t].child by {}
            lemma_view_find_edge_pairs(gb.edges, ga.edges, parent, c);
            assert(gb.edges[j0].kinds == g.edges[j0].kinds.union(k1).union(k2));
        },
        None => {
            lemma_view_find_edge_found(g.edges, parent, c);
            assert(ga.edges == g.edges.push(EdgeView { parent: parent, child: c, kinds: k1 }));
            assert forall|t: int|
                0 <= t < g.edges.len() implies !(#[trigger] ga.edges[t].parent == parent
                && ga.edges[t].child == c) by {
                assert(ga.edges[t] == g.edges[t]);
            }
            lemma_view_find_edge_at(ga.edges, parent, c, g.edges.len() as int);
            let gb = view_add_child(ga, parent, name, ver, k2).0;
            assert(gb.edges.len() == ga.edges.len());
            assert forall|t: int|
                0 <= t < gb.edges.len() implies #[trigger] gb.edges[t].parent == ga.edges[t].parent
                && gb.edges[t].child == ga.edges[t].child by {}
            lemma_view_find_edge_pairs(gb.edges, ga.edges, parent, c);
            let j = g.edges.len() as int;
            assert(gb.edges[j].kinds == k1.union(k2));
            assert(Set::<DepKind>::empty().union(k1).union(k2) =~= k1.union(k2));
        },
    }
}


} // verus!
