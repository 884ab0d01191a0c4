//! Request bodies of the web interface, as plain values. The web layer
//! decodes JSON into copies of these and hands the fields to the services.
use vstd::prelude::*;
use crate::execution_model::InstanceStatus;
use crate::trace_model::TraceNodeKind;

verus! {

/// Renames a project.
pub struct RenameProject {
    pub name: String,
}

/// Creates a trace node by hand.
pub struct CreateTraceNode {
    pub kind: TraceNodeKind,
    pub external_source: String,
    pub external_ref: String,
    pub module: Option<String>,
    pub title: String,
    pub description: Option<String>,
}

/// Freezes the project's trace graph under a name.
pub struct CreateBaseline {
    pub name: String,
    pub reason: Option<String>,
}

/// Creates a document template.
pub struct CreateTemplate {
    pub name: String,
    pub kind: String,
    pub description: Option<String>,
}

/// Changes the given fields of a document template.
pub struct UpdateTemplate {
    pub name: Option<String>,
    pub kind: Option<String>,
    pub description: Option<String>,
}

/// Changes the status and/or the stage of an execution instance.
pub struct UpdateExecution {
    pub status: Option<InstanceStatus>,
    pub stage: Option<String>,
}

} // verus!
