use vstd::prelude::*;

verus! {

/// How the server was configured: where it listens, and the primary it follows, if any.
#[derive(Debug)]
pub struct Args {
    pub addr: String,
    pub port: String,
    pub replicaof: Option<Vec<String>>,
}

impl Args {
    /// The primary's host and port as given, if any.
    pub open spec fn replicaof_view(&self) -> Option<Seq<Seq<char>>> {
        match self.replicaof {
            Some(p) => Some(p@.map_values(|s: String| s@)),
            None => None,
        }
    }
}

} // verus!
