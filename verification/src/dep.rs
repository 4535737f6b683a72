use vstd::prelude::*;

verus! {

/// Why a dependency edge exists: the classification the manifest gives it.
/// A package may reach the same dependency under several kinds at once, so
/// edges carry a set of kinds rather than a single value.
#[derive(Clone, Copy, Debug, PartialEq, Eq, Structural)]
pub enum DepKind {
    Regular,
    Build,
    Dev,
    Optional,
}

/// The package a manifest itself declares; used only to cross-check the
/// lock document against the manifest.
#[derive(Debug)]
pub struct RootCrate {
    pub name: String,
    pub ver: String,
}

} // verus!
