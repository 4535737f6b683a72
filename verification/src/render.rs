use vstd::prelude::*;
use crate::config::{ConfigView, filter_allows, subgraph_holds};
use crate::dep::DepKind;
use crate::graph::{DepGraph, GraphView, NodeView};
use crate::util::name_in_list;

verus! {

/// The text naming a node: its name, with the version appended when the
/// configuration asks for versions or another version of the name exists.
pub open spec fn node_ident(n: NodeView, cfg: ConfigView) -> Seq<char> {
    if cfg.include_vers || n.duplicate {
        n.name + (" v")@ + n.ver
    } else {
        n.name
    }
}

/// Whether an edge survives filtering: both of its endpoints must.
pub open spec fn edge_included(g: GraphView, cfg: ConfigView, e: int) -> bool {
    &&& 0 <= g.edges[e].parent < g.nodes.len()
    &&& 0 <= g.edges[e].child < g.nodes.len()
    &&& filter_allows(cfg, g.nodes[g.edges[e].parent].name)
    &&& filter_allows(cfg, g.nodes[g.edges[e].child].name)
}

/// Whether any surviving edge still touches this node.
pub open spec fn has_live_edge(g: GraphView, cfg: ConfigView, v: int) -> bool {
    exists|e: int|
        0 <= e < g.edges.len() && #[trigger] edge_included(g, cfg, e) && (g.edges[e].parent == v
            || g.edges[e].child == v)
}

/// Whether a node is rendered: it must pass the filter, and a node left
/// without edges is pruned unless orphans are kept.
pub open spec fn node_included(g: GraphView, cfg: ConfigView, v: int) -> bool {
    filter_allows(cfg, g.nodes[v].name) && (cfg.include_orphans || has_live_edge(g, cfg, v))
}

/// The attribute block of a node statement: kept orphans are colored.
pub open spec fn node_attr(g: GraphView, cfg: ConfigView, v: int) -> Seq<char> {
    if !has_live_edge(g, cfg, v) {
        ("[color=yellow]")@
    } else {
        Seq::empty()
    }
}

/// The attribute block of an edge statement, keyed by its resolved kinds:
/// a regular edge stays unstyled.
pub open spec fn edge_attr(kinds: Set<DepKind>) -> Seq<char> {
    if kinds.contains(DepKind::Regular) {
        Seq::empty()
    } else if kinds.contains(DepKind::Build) {
        ("[color=purple]")@
    } else if kinds.contains(DepKind::Dev) {
        ("[color=blue]")@
    } else if kinds.contains(DepKind::Optional) {
        ("[color=red]")@
    } else {
        Seq::empty()
    }
}

/// One node statement.
pub open spec fn node_stmt(g: GraphView, cfg: ConfigView, v: int) -> Seq<char> {
    ("    \"")@ + node_ident(g.nodes[v], cfg) + ("\"")@ + node_attr(g, cfg, v) + (";\n")@
}

/// One edge statement.
pub open spec fn edge_stmt(g: GraphView, cfg: ConfigView, e: int) -> Seq<char> {
    ("    \"")@ + node_ident(g.nodes[g.edges[e].parent], cfg) + ("\" -> \"")@ + node_ident(
        g.nodes[g.edges[e].child],
        cfg,
    ) + ("\"")@ + edge_attr(g.edges[e].kinds) + (";\n")@
}

/// The node statements of the first `k` entries of the sorted order.
pub open spec fn nodes_section(g: GraphView, cfg: ConfigView, k: int) -> Seq<char>
    decreases k,
{
    if k <= 0 {
        Seq::empty()
    } else {
        nodes_section(g, cfg, k - 1) + {
            let v = g.order[k - 1];
            if 0 <= v < g.nodes.len() && node_included(g, cfg, v) {
                node_stmt(g, cfg, v)
            } else {
                Seq::empty()
            }
        }
    }
}

/// The edge statements of the first `k` edges.
pub open spec fn edges_section(g: GraphView, cfg: ConfigView, k: int) -> Seq<char>
    decreases k,
{
    if k <= 0 {
        Seq::empty()
    } else {
        edges_section(g, cfg, k - 1) + if edge_included(g, cfg, k - 1) {
            edge_stmt(g, cfg, k - 1)
        } else {
            Seq::empty()
        }
    }
}

/// The member lines of the cluster, over the first `k` entries of the
/// sorted order.
pub open spec fn cluster_members(g: GraphView, cfg: ConfigView, k: int) -> Seq<char>
    decreases k,
{
    if k <= 0 {
        Seq::empty()
    } else {
        cluster_members(g, cfg, k - 1) + {
            let v = g.order[k - 1];
            if 0 <= v < g.nodes.len() && node_included(g, cfg, v) && subgraph_holds(
                cfg,
                g.nodes[v].name,
            ) {
                ("        \"")@ + node_ident(g.nodes[v], cfg) + ("\";\n")@
            } else {
                Seq::empty()
            }
        }
    }
}

/// The cluster block: present only when a subgraph was configured.
pub open spec fn cluster_section(g: GraphView, cfg: ConfigView) -> Seq<char> {
    match cfg.subgraph {
        None => Seq::empty(),
        Some(_) => ("    subgraph cluster_0 {\n")@ + match cfg.subgraph_name {
            Some(name) => ("        label=\"")@ + name + ("\";\n")@,
            None => Seq::empty(),
        } + cluster_members(g, cfg, g.order.len() as int) + ("    }\n")@,
    }
}

/// The whole dot document: header, optional cluster, the nodes in sorted
/// order, the edges in creation order, and the closing brace.
pub open spec fn render_spec(g: GraphView, cfg: ConfigView) -> Seq<char> {
    ("digraph dependencies {\n")@ + cluster_section(g, cfg) + nodes_section(
        g,
        cfg,
        g.order.len() as int,
    ) + edges_section(g, cfg, g.edges.len() as int) + ("}\n")@
}

/// A name kept out of the filter is rendered nowhere: its node statement
/// is dropped, and so is every edge that touches it.
pub proof fn lemma_filter_excludes(g: GraphView, cfg: ConfigView, v: int)
    requires
        0 <= v < g.nodes.len(),
        !filter_allows(cfg, g.nodes[v].name),
    ensures
        !node_included(g, cfg, v),
        forall|e: int|
            0 <= e < g.edges.len() && (g.edges[e].parent == v || g.edges[e].child == v)
                ==> !edge_included(g, cfg, e),
{
}

/// With orphan pruning on, a node that no surviving edge touches is
/// dropped even when its own name passes the filter.
pub proof fn lemma_orphan_pruned(g: GraphView, cfg: ConfigView, v: int)
    requires
        0 <= v < g.nodes.len(),
        !cfg.include_orphans,
        !has_live_edge(g, cfg, v),
    ensures
        !node_included(g, cfg, v),
{
}

impl DepGraph {
    /// Whether the filter lets this name through.
    fn name_allowed(&self, name: &String) -> (r: bool)
        ensures
            r == filter_allows(self.cfg@, name@),
    {
        match &self.cfg.filter {
            None => true,
            Some(f) => name_in_list(f, name.as_str()),
        }
    }

    /// Whether the subgraph list names this node.
    fn name_in_subgraph(&self, name: &String) -> (r: bool)
        ensures
            r == subgraph_holds(self.cfg@, name@),
    {
        match &self.cfg.subgraph {
            None => false,
            Some(f) => name_in_list(f, name.as_str()),
        }
    }

    /// Whether a surviving edge still touches node `v`.
    #[verifier::loop_isolation(false)]
    fn node_has_live_edge(&self, v: usize) -> (r: bool)
        requires
            self.wf(),
        ensures
            r == has_live_edge(self@, self.cfg@, v as int),
    {
        let mut e: usize = 0;
        while e < self.edges.len()
            invariant
                0 <= e <= self.edges@.len(),
                forall|t: int|
                    0 <= t < e ==> !(#[trigger] edge_included(self@, self.cfg@, t) && (
                    self@.edges[t].parent == v as int || self@.edges[t].child == v as int)),
            decreases self.edges@.len() - e,
        {
            if self.edges[e].parent == v || self.edges[e].child == v {
                let p = self.edges[e].parent;
                let c = self.edges[e].child;
                proof {
                    assert(0 <= self@.edges[e as int].parent < self@.nodes.len());
                    assert(0 <= self@.edges[e as int].child < self@.nodes.len());
                }
                if self.name_allowed(&self.nodes[p].name) && self.name_allowed(&self.nodes[c].name)
                {
                    proof {
                        assert(edge_included(self@, self.cfg@, e as int));
                    }
                    return true;
                }
            }
            e += 1;
        }
        false
    }

    /// The text naming node `v` in the output.
    fn node_ident_of(&self, v: usize) -> (r: String)
        requires
            v < self.nodes@.len(),
        ensures
            r@ == node_ident(self@.nodes[v as int], self.cfg@),
    {
        let mut s = self.nodes[v].name.clone();
        if self.cfg.include_vers || self.nodes[v].duplicate {
            s.append(" v");
            s.append(self.nodes[v].ver.as_str());
        }
        s
    }

    /// The cluster block of the output, when a subgraph is configured.
    #[verifier::loop_isolation(false)]
    fn render_cluster(&self) -> (out: String)
        requires
            self.wf(),
        ensures
            out@ == cluster_section(self@, self.cfg@),
    {
        let ghost g = self@;
        let ghost cfg = self.cfg@;
        let mut out = String::new();
        match &self.cfg.subgraph {
            None => {},
            Some(_) => {
                out.append("    subgraph cluster_0 {\n");
                match &self.cfg.subgraph_name {
                    Some(name) => {
                        out.append("        label=\"");
                        out.append(name.as_str());
                        out.append("\";\n");
                    },
                    None => {},
                }
                let mut i: usize = 0;
                let ghost base = out@;
                while i < self.order.len()
                    invariant
                        0 <= i <= self.order@.len(),
                        out@ == base + cluster_members(g, cfg, i as int),
                    decreases self.order@.len() - i,
                {
                    let v = self.order[i];
                    if v < self.nodes.len() {
                        let included = self.name_allowed(&self.nodes[v].name) && (
                        self.cfg.include_orphans || self.node_has_live_edge(v));
                        if included && self.name_in_subgraph(&self.nodes[v].name) {
                            out.append("        \"");
                            let ident = self.node_ident_of(v);
                            out.append(ident.as_str());
                            out.append("\";\n");
                        }
                    }
                    proof {
                        assert(out@ =~= base + cluster_members(g, cfg, i as int + 1));
                    }
                    i += 1;
                }
                out.append("    }\n");
            },
        }
        proof {
            assert(out@ =~= cluster_section(g, cfg));
        }
        out
    }

    /// The node statements of the output, over the sorted order.
    #[verifier::loop_isolation(false)]
    fn render_nodes(&self) -> (out: String)
        requires
            self.wf(),
        ensures
            out@ == nodes_section(self@, self.cfg@, self@.order.len() as int),
    {
        let ghost g = self@;
        let ghost cfg = self.cfg@;
        let mut out = String::new();
        let ghost base = out@;
        let mut i: usize = 0;
        while i < self.order.len()
            invariant
                0 <= i <= self.order@.len(),
                out@ == base + nodes_section(g, cfg, i as int),
            decreases self.order@.len() - i,
        {
            let v = self.order[i];
            if v < self.nodes.len() {
                let live = self.node_has_live_edge(v);
                let included = self.name_allowed(&self.nodes[v].name) && (self.cfg.include_orphans
                    || live);
                if included {
                    out.append("    \"");
                    let ident = self.node_ident_of(v);
                    out.append(ident.as_str());
                    out.append("\"");
                    if !live {
                        out.append("[color=yellow]");
                    }
                    out.append(";\n");
                }
            }
            proof {
                assert(out@ =~= base + nodes_section(g, cfg, i as int + 1));
            }
            i += 1;
        }
        proof {
            assert(out@ =~= nodes_section(g, cfg, g.order.len() as int));
        }
        out
    }

    /// The edge statements of the output.
    #[verifier::loop_isolation(false)]
    fn render_edges(&self) -> (out: String)
        requires
            self.wf(),
        ensures
            out@ == edges_section(self@, self.cfg@, self@.edges.len() as int),
    {
        let ghost g = self@;
        let ghost cfg = self.cfg@;
        let mut out = String::new();
        let ghost base = out@;
        let mut e: usize = 0;
        while e < self.edges.len()
            invariant
                0 <= e <= self.edges@.len(),
                out@ == base + edges_section(g, cfg, e as int),
            decreases self.edges@.len() - e,
        {
            let p = self.edges[e].parent;
            let c = self.edges[e].child;
            proof {
                assert(0 <= self@.edges[e as int].parent < self@.nodes.len());
                assert(0 <= self@.edges[e as int].child < self@.nodes.len());
            }
            if self.name_allowed(&self.nodes[p].name) && self.name_allowed(&self.nodes[c].name) {
                proof {
                    assert(edge_included(g, cfg, e as int));
                }
                out.append("    \"");
                let pid = self.node_ident_of(p);
                out.append(pid.as_str());
                out.append("\" -> \"");
                let cid = self.node_ident_of(c);
                out.append(cid.as_str());
                out.append("\"");
                let kinds = &self.edges[e].kinds;
                if crate::graph::kind_in_vec(kinds, DepKind::Regular) {
                } else if crate::graph::kind_in_vec(kinds, DepKind::Build) {
                    out.append("[color=purple]");
                } else if crate::graph::kind_in_vec(kinds, DepKind::Dev) {
                    out.append("[color=blue]");
                } else if crate::graph::kind_in_vec(kinds, DepKind::Optional) {
                    out.append("[color=red]");
                }
                out.append(";\n");
            } else {
                proof {
                    assert(!edge_included(g, cfg, e as int));
                }
            }
            proof {
                assert(out@ =~= base + edges_section(g, cfg, e as int + 1));
            }
            e += 1;
        }
        proof {
            assert(out@ =~= edges_section(g, cfg, g.edges.len() as int));
        }
        out
    }

    /// Renders the sorted graph as a dot document: a directed graph with
    /// one statement per surviving node and edge, the configured names
    /// clustered, colors keyed to edge kinds, and orphans pruned unless
    /// kept. Rendering reads the graph and writes nothing into it.
    pub fn render_dot(&self) -> (out: String)
        requires
            self.wf(),
        ensures
            out@ == render_spec(self@, self.cfg@),
    {
        let ghost g = self@;
        let ghost cfg = self.cfg@;
        let mut out = String::from_str("digraph dependencies {\n");
        let cluster = self.render_cluster();
        out.append(cluster.as_str());
        let nodes = self.render_nodes();
        out.append(nodes.as_str());
        let edges = self.render_edges();
        out.append(edges.as_str());
        out.append("}\n");
        proof {
            assert(out@ =~= render_spec(g, cfg));
        }
        out
    }
}

} // verus!
