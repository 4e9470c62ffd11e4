//! Graph metadata: entities, components and systems as nodes, their
//! relations and dependencies as edges; system dependencies compile to an
//! execution plan.

pub mod meta;
pub mod plan;
pub mod query;

pub use meta::{GraphEdge, GraphNode, MetaGraph};
pub use plan::{ExecutionPhase, ExecutionPlan, SystemExecution};
pub use query::{GraphQuery, TraversalMode};

use vstd::prelude::*;
use vstd::string::StringExecFns;

verus! {

/// A system node, by its node index.
#[derive(Clone, Copy, Debug, PartialEq, Eq, Structural, Hash)]
pub struct SystemHandle(pub usize);

/// Why a graph operation failed.
#[derive(Debug, Clone)]
pub enum GraphError {
    /// System dependencies form a cycle; the names along it.
    CyclicDependency(Vec<String>),
    /// No system of that name.
    SystemNotFound(String),
    /// Two systems write one component with no order between them.
    ConflictingWrites { system_a: String, system_b: String, component: String },
    /// A traversal could not be run.
    InvalidTraversal(String),
}

/// `parts` joined with `sep` between neighbours.
pub open spec fn joined(parts: Seq<Seq<char>>, sep: Seq<char>) -> Seq<char>
    decreases parts.len(),
{
    if parts.len() == 0 {
        Seq::empty()
    } else if parts.len() == 1 {
        parts[0]
    } else {
        joined(parts.drop_last(), sep) + sep + parts.last()
    }
}

/// The message of an error.
pub open spec fn error_message(e: GraphError) -> Seq<char> {
    match e {
        GraphError::CyclicDependency(cycle) => "Dependency cycle detected: "@
            + joined(cycle@.map_values(|s: String| s@), " → "@),
        GraphError::SystemNotFound(name) => "System '"@ + name@ + "' not found"@,
        GraphError::ConflictingWrites { system_a, system_b, component } => "Systems '"@ + system_a@
            + "' and '"@ + system_b@ + "' both write component '"@ + component@ + "' without dependency"@,
        GraphError::InvalidTraversal(msg) => "Invalid traversal: "@ + msg@,
    }
}

impl GraphError {
    /// The error as a message.
    pub fn describe(&self) -> (s: String)
        ensures
            s@ == error_message(*self),
    {
        match self {
            GraphError::CyclicDependency(cycle) => {
                let mut s = String::from_str("Dependency cycle detected: ");
                let ghost head = s@;
                let ghost parts = cycle@.map_values(|x: String| x@);
                let mut i: usize = 0;
                while i < cycle.len()
                    invariant
                        parts == cycle@.map_values(|x: String| x@),
                        i <= cycle@.len(),
                        s@ == head + joined(parts.subrange(0, i as int), " → "@),
                    decreases cycle@.len() - i,
                {
                    let ghost before = s@;
                    if i > 0 {
                        s.append(" → ");
                    }
                    s.append(cycle[i].as_str());
                    i = i + 1;
                    proof {
                        let p = parts.subrange(0, i as int);
                        assert(p.drop_last() =~= parts.subrange(0, i - 1));
                        assert(p.last() == cycle@[i - 1]@);
                        if i == 1 {
                            assert(parts.subrange(0, 0) =~= Seq::<Seq<char>>::empty());
                            assert(joined(p, " → "@) == p[0]);
                            assert(s@ =~= head + joined(p, " → "@));
                        } else {
                            assert(s@ =~= head + joined(p, " → "@));
                        }
                    }
                }
                proof {
                    assert(parts.subrange(0, cycle@.len() as int) =~= parts);
                }
                s
            },
            GraphError::SystemNotFound(name) => {
                let mut s = String::from_str("System '");
                s.append(name.as_str());
                s.append("' not found");
                s
            },
            GraphError::ConflictingWrites { system_a, system_b, component } => {
                let mut s = String::from_str("Systems '");
                s.append(system_a.as_str());
                s.append("' and '");
                s.append(system_b.as_str());
                s.append("' both write component '");
                s.append(component.as_str());
                s.append("' without dependency");
                s
            },
            GraphError::InvalidTraversal(msg) => {
                let mut s = String::from_str("Invalid traversal: ");
                s.append(msg.as_str());
                s
            },
        }
    }
}

} // verus!
