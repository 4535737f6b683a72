use vstd::prelude::*;

verus! {

/// The mathematical value of a `Config`: every list of names becomes a
/// sequence of character sequences.
pub ghost struct ConfigView {
    pub manifest_path: Seq<char>,
    pub dot_file: Option<Seq<char>>,
    pub filter: Option<Seq<Seq<char>>>,
    pub subgraph: Option<Seq<Seq<char>>>,
    pub subgraph_name: Option<Seq<char>>,
    pub include_orphans: bool,
    pub include_vers: bool,
    pub regular_deps: bool,
    pub build_deps: bool,
    pub dev_deps: bool,
    pub optional_deps: bool,
}

/// The immutable rendering and filtering options, supplied fully formed
/// before the graph is built.
#[derive(Debug)]
pub struct Config {
    /// Location of the manifest document.
    pub manifest_path: String,
    /// Output file; standard output when absent.
    pub dot_file: Option<String>,
    /// When present, only crates with these names are kept.
    pub filter: Option<Vec<String>>,
    /// Crates to group in a visual cluster of their own.
    pub subgraph: Option<Vec<String>>,
    /// Optional label of that cluster.
    pub subgraph_name: Option<String>,
    /// Keep nodes that are left without edges.
    pub include_orphans: bool,
    /// Show the version on every node label.
    pub include_vers: bool,
    /// Walk dependencies declared under the plain dependencies table.
    pub regular_deps: bool,
    /// Walk build dependencies.
    pub build_deps: bool,
    /// Walk dev dependencies.
    pub dev_deps: bool,
    /// Walk dependencies marked optional.
    pub optional_deps: bool,
}

pub open spec fn view_of_names(v: Option<Vec<String>>) -> Option<Seq<Seq<char>>> {
    match v {
        Some(names) => Some(names.deep_view()),
        None => None,
    }
}

pub open spec fn view_of_name(v: Option<String>) -> Option<Seq<char>> {
    match v {
        Some(name) => Some(name@),
        None => None,
    }
}

impl View for Config {
    type V = ConfigView;

    open spec fn view(&self) -> ConfigView {
        ConfigView {
            manifest_path: self.manifest_path@,
            dot_file: view_of_name(self.dot_file),
            filter: view_of_names(self.filter),
            subgraph: view_of_names(self.subgraph),
            subgraph_name: view_of_name(self.subgraph_name),
            include_orphans: self.include_orphans,
            include_vers: self.include_vers,
            regular_deps: self.regular_deps,
            build_deps: self.build_deps,
            dev_deps: self.dev_deps,
            optional_deps: self.optional_deps,
        }
    }
}

/// Whether a sequence of names contains `name`, compared by characters.
pub open spec fn names_contain(names: Seq<Seq<char>>, name: Seq<char>) -> bool {
    exists|i: int| 0 <= i < names.len() && names[i] == name
}

/// Whether the configured filter lets a crate of this name through: no
/// filter admits every name.
pub open spec fn filter_allows(cfg: ConfigView, name: Seq<char>) -> bool {
    match cfg.filter {
        None => true,
        Some(names) => names_contain(names, name),
    }
}

/// Whether the configured subgraph list holds this name.
pub open spec fn subgraph_holds(cfg: ConfigView, name: Seq<char>) -> bool {
    match cfg.subgraph {
        None => false,
        Some(names) => names_contain(names, name),
    }
}

impl Config {
    /// A copy whose every option reads the same.
    pub fn duplicate(&self) -> (c: Config)
        ensures
            c@ == self@,
    {
        let filter = match &self.filter {
            None => None,
            Some(v) => Some(crate::util::clone_names(v)),
        };
        let subgraph = match &self.subgraph {
            None => None,
            Some(v) => Some(crate::util::clone_names(v)),
        };
        let subgraph_name = match &self.subgraph_name {
            None => None,
            Some(v) => Some(v.clone()),
        };
        let dot_file = match &self.dot_file {
            None => None,
            Some(v) => Some(v.clone()),
        };
        Config {
            manifest_path: self.manifest_path.clone(),
            dot_file,
            filter,
            subgraph,
            subgraph_name,
            include_orphans: self.include_orphans,
            include_vers: self.include_vers,
            regular_deps: self.regular_deps,
            build_deps: self.build_deps,
            dev_deps: self.dev_deps,
            optional_deps: self.optional_deps,
        }
    }
}

/// Turns the five kind switches of the command line into the four walk
/// flags: the all switch turns every extra kind on, and the no-regular
/// switch alone turns the default kind off.
pub fn resolve_kind_flags(
    all_deps: bool,
    no_regular_deps: bool,
    build_deps: bool,
    dev_deps: bool,
    optional_deps: bool,
) -> (r: (bool, bool, bool, bool))
    ensures
        r.0 == !no_regular_deps,
        r.1 == (all_deps || build_deps),
        r.2 == (all_deps || dev_deps),
        r.3 == (all_deps || optional_deps),
{
    (
        !no_regular_deps,
        all_deps || build_deps,
        all_deps || dev_deps,
        all_deps || optional_deps,
    )
}

} // verus!
