use cargo_deps::config::{Config, resolve_kind_flags};
use cargo_deps::dep::DepKind;
use cargo_deps::doc::DocValue;
use cargo_deps::error::CliError;
use cargo_deps::graph::DepGraph;
use cargo_deps::project::{Project, RootDepsMap};
use cargo_deps::util::is_cargo_toml;

fn base_config() -> Config {
    Config {
        manifest_path: String::from("Cargo.toml"),
        dot_file: None,
        filter: None,
        subgraph: None,
        subgraph_name: None,
        include_orphans: false,
        include_vers: false,
        regular_deps: true,
        build_deps: false,
        dev_deps: false,
        optional_deps: false,
    }
}

fn table(entries: Vec<(&str, DocValue)>) -> DocValue {
    DocValue::Table(entries.into_iter().map(|(k, v)| (String::from(k), v)).collect())
}

fn s(v: &str) -> DocValue {
    DocValue::Str(String::from(v))
}

fn manifest_foo() -> DocValue {
    table(vec![
        ("package", table(vec![("name", s("foo")), ("version", s("1.0"))])),
        ("dependencies", table(vec![("bar", s("0.1"))])),
    ])
}

fn lock_foo() -> DocValue {
    table(vec![(
        "package",
        DocValue::Arr(vec![
            table(vec![
                ("name", s("foo")),
                ("version", s("1.0")),
                ("dependencies", DocValue::Arr(vec![s("bar 0.1")])),
            ]),
            table(vec![("name", s("bar")), ("version", s("0.1"))]),
        ]),
    )])
}

#[test]
fn root_crate_appears_in_graph() {
    let project = Project::with_config(base_config()).unwrap();
    let g = project.graph(&manifest_foo(), &lock_foo()).unwrap();
    assert_eq!(g.find("foo", "1.0"), Some(0));
    assert_eq!(g.find("bar", "0.1"), Some(1));
}

#[test]
fn root_version_mismatch_is_consistency_error() {
    let lock = table(vec![(
        "package",
        DocValue::Arr(vec![table(vec![("name", s("foo")), ("version", s("2.0"))])]),
    )]);
    let project = Project::with_config(base_config()).unwrap();
    let err = project.graph(&manifest_foo(), &lock).unwrap_err();
    assert!(matches!(err, CliError::Generic(_)));
}

#[test]
fn missing_root_in_lock_is_error() {
    let lock = table(vec![(
        "package",
        DocValue::Arr(vec![table(vec![("name", s("bar")), ("version", s("0.1"))])]),
    )]);
    let project = Project::with_config(base_config()).unwrap();
    let err = project.graph(&manifest_foo(), &lock).unwrap_err();
    assert!(matches!(err, CliError::Toml(_)));
}

#[test]
fn missing_package_table_is_error() {
    let project = Project::with_config(base_config()).unwrap();
    let err = project.graph(&table(vec![]), &lock_foo()).unwrap_err();
    assert!(matches!(err, CliError::Toml(_)));
    assert_eq!(err.message(), "No [package] table found");
}

#[test]
fn find_or_add_is_idempotent() {
    let mut g = DepGraph::new(base_config(), RootDepsMap::new());
    let a = g.find_or_add("foo", "1.0");
    let b = g.find_or_add("foo", "1.0");
    assert_eq!(a, b);
    assert_eq!(g.nodes.len(), 1);
    let c = g.find_or_add("foo", "2.0");
    assert_ne!(a, c);
    assert_eq!(g.nodes.len(), 2);
}

#[test]
fn add_child_merges_kinds_into_one_edge() {
    let mut g = DepGraph::new(base_config(), RootDepsMap::new());
    let p = g.find_or_add("foo", "1.0");
    let c1 = g.add_child(p, "bar", "0.1", &vec![DepKind::Build]);
    let c2 = g.add_child(p, "bar", "0.1", &vec![DepKind::Dev]);
    assert_eq!(c1, c2);
    assert_eq!(g.edges.len(), 1);
    assert!(g.edges[0].kinds.contains(&DepKind::Build));
    assert!(g.edges[0].kinds.contains(&DepKind::Dev));
    assert_eq!(g.edges[0].kinds.len(), 2);
}

#[test]
fn topological_sort_places_parents_first() {
    let mut g = DepGraph::new(base_config(), RootDepsMap::new());
    let a = g.find_or_add("a", "1");
    let b = g.find_or_add("b", "1");
    let c = g.find_or_add("c", "1");
    g.add_child(a, "b", "1", &vec![]);
    g.add_child(b, "c", "1", &vec![]);
    g.topological_sort().unwrap();
    let pos = |v: usize| g.order.iter().position(|&x| x == v).unwrap();
    assert!(pos(a) < pos(b));
    assert!(pos(b) < pos(c));
    assert_eq!(g.order.len(), 3);
}

#[test]
fn topological_sort_is_deterministic() {
    let build = || {
        let mut g = DepGraph::new(base_config(), RootDepsMap::new());
        let a = g.find_or_add("a", "1");
        let b = g.find_or_add("b", "1");
        let c = g.find_or_add("c", "1");
        g.add_child(a, "c", "1", &vec![]);
        g.add_child(b, "c", "1", &vec![]);
        g.topological_sort().unwrap();
        g.order.clone()
    };
    assert_eq!(build(), build());
}

#[test]
fn cycle_is_reported_not_looped() {
    let mut g = DepGraph::new(base_config(), RootDepsMap::new());
    let a = g.find_or_add("a", "1");
    let b = g.find_or_add("b", "1");
    g.add_child(a, "b", "1", &vec![]);
    g.add_child(b, "a", "1", &vec![]);
    let err = g.topological_sort().unwrap_err();
    assert!(matches!(err, CliError::Cycle(_)));
}

#[test]
fn duplicates_marked_exactly_on_shared_names() {
    let mut g = DepGraph::new(base_config(), RootDepsMap::new());
    let f1 = g.find_or_add("foo", "1.0");
    let f2 = g.find_or_add("foo", "2.0");
    let b = g.find_or_add("bar", "1.0");
    g.show_version_on_duplicates();
    assert!(g.nodes[f1].duplicate);
    assert!(g.nodes[f2].duplicate);
    assert!(!g.nodes[b].duplicate);
}

#[test]
fn render_plain_graph() {
    let mut g = DepGraph::new(base_config(), RootDepsMap::new());
    let a = g.find_or_add("A", "1");
    g.find_or_add("B", "1");
    g.add_child(a, "B", "1", &vec![DepKind::Regular]);
    g.topological_sort().unwrap();
    let out = g.render_dot();
    assert_eq!(
        out,
        "digraph dependencies {\n    \"A\";\n    \"B\";\n    \"A\" -> \"B\";\n}\n"
    );
}

#[test]
fn render_styles_non_regular_edges() {
    let mut cfg = base_config();
    cfg.include_orphans = true;
    let mut g = DepGraph::new(cfg, RootDepsMap::new());
    let a = g.find_or_add("A", "1");
    g.add_child(a, "B", "1", &vec![DepKind::Build]);
    g.topological_sort().unwrap();
    let out = g.render_dot();
    assert!(out.contains("\"A\" -> \"B\"[color=purple];\n"));
}

#[test]
fn filter_removes_nodes_and_their_edges() {
    let mut cfg = base_config();
    cfg.filter = Some(vec![String::from("foo")]);
    let mut g = DepGraph::new(cfg, RootDepsMap::new());
    let f = g.find_or_add("foo", "1");
    let b = g.find_or_add("bar", "1");
    g.add_child(f, "bar", "1", &vec![]);
    g.add_child(b, "baz", "1", &vec![]);
    g.topological_sort().unwrap();
    let out = g.render_dot();
    assert!(!out.contains("bar"));
    assert!(!out.contains("baz"));
    // with orphan pruning on by default, foo is left with no edge and is dropped too
    assert_eq!(out, "digraph dependencies {\n}\n");
}

#[test]
fn include_orphans_keeps_filtered_survivor() {
    let mut cfg = base_config();
    cfg.filter = Some(vec![String::from("foo")]);
    cfg.include_orphans = true;
    let mut g = DepGraph::new(cfg, RootDepsMap::new());
    let f = g.find_or_add("foo", "1");
    g.find_or_add("bar", "1");
    g.add_child(f, "bar", "1", &vec![]);
    g.topological_sort().unwrap();
    let out = g.render_dot();
    assert_eq!(out, "digraph dependencies {\n    \"foo\"[color=yellow];\n}\n");
}

#[test]
fn versions_shown_on_duplicates_only() {
    let project = Project::with_config(base_config()).unwrap();
    let manifest = table(vec![
        ("package", table(vec![("name", s("foo")), ("version", s("1.0"))])),
        ("dependencies", table(vec![("bar", s("*")), ("baz", s("*"))])),
    ]);
    let lock = table(vec![(
        "package",
        DocValue::Arr(vec![
            table(vec![
                ("name", s("foo")),
                ("version", s("1.0")),
                ("dependencies", DocValue::Arr(vec![s("bar 0.1"), s("baz 0.2")])),
            ]),
            table(vec![
                ("name", s("bar")),
                ("version", s("0.1")),
                ("dependencies", DocValue::Arr(vec![s("baz 0.3")])),
            ]),
            table(vec![("name", s("baz")), ("version", s("0.2"))]),
            table(vec![("name", s("baz")), ("version", s("0.3"))]),
        ]),
    )]);
    let g = project.graph(&manifest, &lock).unwrap();
    let out = g.render_dot();
    assert!(out.contains("\"baz v0.2\""));
    assert!(out.contains("\"baz v0.3\""));
    assert!(out.contains("\"bar\""));
    assert!(!out.contains("\"bar v0.1\""));
}

#[test]
fn optional_dep_excluded_when_disabled() {
    let manifest = table(vec![
        ("package", table(vec![("name", s("foo")), ("version", s("1.0"))])),
        (
            "dependencies",
            table(vec![
                ("bar", s("*")),
                ("opt", table(vec![("optional", DocValue::Bool(true))])),
            ]),
        ),
    ]);
    let project = Project::with_config(base_config()).unwrap();
    let (roots, map) = project.parse_root_deps(&manifest).unwrap();
    assert_eq!(roots.len(), 1);
    let kinds = map.get("foo").unwrap();
    assert!(kinds.get("bar").is_some());
    assert!(kinds.get("opt").is_none());
}

#[test]
fn optional_dep_included_when_enabled() {
    let manifest = table(vec![
        ("package", table(vec![("name", s("foo")), ("version", s("1.0"))])),
        (
            "dependencies",
            table(vec![("opt", table(vec![("optional", DocValue::Bool(true))]))]),
        ),
    ]);
    let mut cfg = base_config();
    cfg.optional_deps = true;
    let project = Project::with_config(cfg).unwrap();
    let (_, map) = project.parse_root_deps(&manifest).unwrap();
    let kinds = map.get("foo").unwrap();
    assert_eq!(kinds.get("opt").unwrap(), &vec![DepKind::Optional]);
}

#[test]
fn build_and_dev_tables_add_kinds() {
    let manifest = table(vec![
        ("package", table(vec![("name", s("foo")), ("version", s("1.0"))])),
        ("dependencies", table(vec![("bar", s("*"))])),
        ("build-dependencies", table(vec![("bar", s("*")), ("cc", s("*"))])),
        ("dev-dependencies", table(vec![("tst", s("*"))])),
    ]);
    let mut cfg = base_config();
    cfg.build_deps = true;
    cfg.dev_deps = true;
    let project = Project::with_config(cfg).unwrap();
    let (_, map) = project.parse_root_deps(&manifest).unwrap();
    let kinds = map.get("foo").unwrap();
    assert_eq!(kinds.get("bar").unwrap(), &vec![DepKind::Regular, DepKind::Build]);
    assert_eq!(kinds.get("cc").unwrap(), &vec![DepKind::Build]);
    assert_eq!(kinds.get("tst").unwrap(), &vec![DepKind::Dev]);
}

#[test]
fn subgraph_cluster_is_emitted() {
    let mut cfg = base_config();
    cfg.subgraph = Some(vec![String::from("A")]);
    cfg.subgraph_name = Some(String::from("mine"));
    let mut g = DepGraph::new(cfg, RootDepsMap::new());
    let a = g.find_or_add("A", "1");
    g.find_or_add("B", "1");
    g.add_child(a, "B", "1", &vec![]);
    g.topological_sort().unwrap();
    let out = g.render_dot();
    assert!(out.starts_with(
        "digraph dependencies {\n    subgraph cluster_0 {\n        label=\"mine\";\n        \"A\";\n    }\n"
    ));
}

#[test]
fn manifest_file_name_is_checked() {
    assert!(is_cargo_toml("Cargo.toml").is_ok());
    assert!(is_cargo_toml("/some/dir/Cargo.toml").is_ok());
    assert!(is_cargo_toml("other.toml").is_err());
    assert!(is_cargo_toml("dir/").is_err());
    assert!(is_cargo_toml("..").is_err());
}

#[test]
fn kind_flags_resolution() {
    assert_eq!(resolve_kind_flags(false, false, false, false, false), (true, false, false, false));
    assert_eq!(resolve_kind_flags(true, false, false, false, false), (true, true, true, true));
    assert_eq!(resolve_kind_flags(true, true, false, false, false), (false, true, true, true));
    assert_eq!(resolve_kind_flags(false, false, true, false, true), (true, true, false, true));
}

#[test]
fn malformed_dependency_string_is_error() {
    let lock = table(vec![(
        "package",
        DocValue::Arr(vec![table(vec![
            ("name", s("foo")),
            ("version", s("1.0")),
            ("dependencies", DocValue::Arr(vec![s("nosep")])),
        ])]),
    )]);
    let project = Project::with_config(base_config()).unwrap();
    let err = project.graph(&manifest_foo(), &lock).unwrap_err();
    assert!(matches!(err, CliError::Toml(_)));
}

#[test]
fn transitive_edges_resolve_regular() {
    let project = Project::with_config(base_config()).unwrap();
    let manifest = table(vec![
        ("package", table(vec![("name", s("foo")), ("version", s("1.0"))])),
        ("dependencies", table(vec![("bar", s("*"))])),
    ]);
    let lock = table(vec![(
        "package",
        DocValue::Arr(vec![
            table(vec![
                ("name", s("foo")),
                ("version", s("1.0")),
                ("dependencies", DocValue::Arr(vec![s("bar 0.1")])),
            ]),
            table(vec![
                ("name", s("bar")),
                ("version", s("0.1")),
                ("dependencies", DocValue::Arr(vec![s("baz 0.2")])),
            ]),
            table(vec![("name", s("baz")), ("version", s("0.2"))]),
        ]),
    )]);
    let g = project.graph(&manifest, &lock).unwrap();
    for e in &g.edges {
        assert!(!e.kinds.is_empty());
    }
    let out = g.render_dot();
    assert!(out.contains("\"bar\" -> \"baz\";\n"));
}
