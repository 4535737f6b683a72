use vstd::prelude::*;

verus! {

/// The fatal error kinds of the pipeline: input-shape and consistency faults
/// found while reading the two documents, and a structural fault (a cycle)
/// found while ordering the graph.
#[derive(Debug)]
pub enum CliError {
    /// A consistency fault, such as a root crate whose locked version does
    /// not match the manifest.
    Generic(String),
    /// An input-shape fault in the manifest or lock document.
    Toml(String),
    /// A dependency cycle, named by its participants.
    Cycle(String),
}

pub type CliResult<T> = Result<T, CliError>;

impl CliError {
    /// The text carried by the error, whichever kind it is.
    pub open spec fn spec_message(&self) -> Seq<char> {
        match self {
            CliError::Generic(s) => s@,
            CliError::Toml(s) => s@,
            CliError::Cycle(s) => s@,
        }
    }

    /// The user-facing description of the fault.
    pub fn message(&self) -> (m: String)
        ensures
            m@ == self.spec_message(),
    {
        match self {
            CliError::Generic(s) => s.clone(),
            CliError::Toml(s) => s.clone(),
            CliError::Cycle(s) => s.clone(),
        }
    }
}

} // verus!
