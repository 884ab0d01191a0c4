//! Trace graph records: typed nodes of the five test stages and typed links
//! with a single canonical direction (`source` = lower stage, `target` =
//! the upper stage it answers to).
use vstd::prelude::*;
use crate::ids::{default_project_id, new_id, now_micros, spec_default_project_id};
use crate::json::{empty_object, json_is_object, json_get};
use crate::text::{ascii_lower_seq, str_eq, to_ascii_lowercase};

verus! {

/// The five stages of the requirement-to-report pipeline, lowest first.
#[derive(Debug, Clone, Copy, PartialEq, Eq, Hash, Structural)]
pub enum TraceNodeKind {
    TestReport,
    TestRecord,
    TestCase,
    TestItem,
    SoftwareRequirement,
}

pub open spec fn kind_name(k: TraceNodeKind) -> Seq<char> {
    match k {
        TraceNodeKind::SoftwareRequirement => "software_requirement"@,
        TraceNodeKind::TestItem => "test_item"@,
        TraceNodeKind::TestCase => "test_case"@,
        TraceNodeKind::TestRecord => "test_record"@,
        TraceNodeKind::TestReport => "test_report"@,
    }
}

/// The kind named by an already lower-cased name.
pub open spec fn kind_of_name(s: Seq<char>) -> Option<TraceNodeKind> {
    if s == "software_requirement"@ {
        Some(TraceNodeKind::SoftwareRequirement)
    } else if s == "test_item"@ {
        Some(TraceNodeKind::TestItem)
    } else if s == "test_case"@ {
        Some(TraceNodeKind::TestCase)
    } else if s == "test_record"@ {
        Some(TraceNodeKind::TestRecord)
    } else if s == "test_report"@ {
        Some(TraceNodeKind::TestReport)
    } else {
        None
    }
}

impl TraceNodeKind {
    /// Case-insensitive (ASCII) parse of a stage name.
    pub fn parse(value: &str) -> (r: Option<TraceNodeKind>)
        ensures
            r == kind_of_name(ascii_lower_seq(value@)),
    {
        let l = to_ascii_lowercase(value);
        let s = l.as_str();
        if str_eq(s, "software_requirement") {
            Some(TraceNodeKind::SoftwareRequirement)
        } else if str_eq(s, "test_item") {
            Some(TraceNodeKind::TestItem)
        } else if str_eq(s, "test_case") {
            Some(TraceNodeKind::TestCase)
        } else if str_eq(s, "test_record") {
            Some(TraceNodeKind::TestRecord)
        } else if str_eq(s, "test_report") {
            Some(TraceNodeKind::TestReport)
        } else {
            None
        }
    }

    pub fn as_str(&self) -> (r: &'static str)
        ensures
            r@ == kind_name(*self),
    {
        match self {
            TraceNodeKind::SoftwareRequirement => "software_requirement",
            TraceNodeKind::TestItem => "test_item",
            TraceNodeKind::TestCase => "test_case",
            TraceNodeKind::TestRecord => "test_record",
            TraceNodeKind::TestReport => "test_report",
        }
    }
}

/// Link types, stored in one canonical direction only.
#[derive(Debug, Clone, Copy, PartialEq, Eq, Hash, Structural)]
pub enum LinkType {
    DerivesFrom,
    Verifies,
    Satisfies,
    Refines,
    PartOf,
}

pub open spec fn link_type_name(t: LinkType) -> Seq<char> {
    match t {
        LinkType::DerivesFrom => "derives_from"@,
        LinkType::Verifies => "verifies"@,
        LinkType::Satisfies => "satisfies"@,
        LinkType::Refines => "refines"@,
        LinkType::PartOf => "part_of"@,
    }
}

/// The link type named by an already lower-cased name.
pub open spec fn link_type_of_name(s: Seq<char>) -> Option<LinkType> {
    if s == "derives_from"@ {
        Some(LinkType::DerivesFrom)
    } else if s == "verifies"@ {
        Some(LinkType::Verifies)
    } else if s == "satisfies"@ {
        Some(LinkType::Satisfies)
    } else if s == "refines"@ {
        Some(LinkType::Refines)
    } else if s == "part_of"@ {
        Some(LinkType::PartOf)
    } else {
        None
    }
}

impl LinkType {
    /// Case-insensitive (ASCII) parse of a link type name.
    pub fn parse(value: &str) -> (r: Option<LinkType>)
        ensures
            r == link_type_of_name(ascii_lower_seq(value@)),
    {
        let l = to_ascii_lowercase(value);
        let s = l.as_str();
        if str_eq(s, "derives_from") {
            Some(LinkType::DerivesFrom)
        } else if str_eq(s, "verifies") {
            Some(LinkType::Verifies)
        } else if str_eq(s, "satisfies") {
            Some(LinkType::Satisfies)
        } else if str_eq(s, "refines") {
            Some(LinkType::Refines)
        } else if str_eq(s, "part_of") {
            Some(LinkType::PartOf)
        } else {
            None
        }
    }

    pub fn as_str(&self) -> (r: &'static str)
        ensures
            r@ == link_type_name(*self),
    {
        match self {
            LinkType::DerivesFrom => "derives_from",
            LinkType::Verifies => "verifies",
            LinkType::Satisfies => "satisfies",
            LinkType::Refines => "refines",
            LinkType::PartOf => "part_of",
        }
    }
}

/// A copy of an optional string.
pub fn clone_opt_string(s: &Option<String>) -> (r: Option<String>)
    ensures
        r == *s,
{
    match s {
        Some(x) => Some(x.clone()),
        None => None,
    }
}

/// A trace node: one requirement / test object of a project.
/// `external_source + external_ref` is the idempotency key inside a project;
/// `sort_key` is the user-chosen order inside the node's stage.
pub struct TraceNode {
    pub id: u128,
    pub project_id: u128,
    pub kind: TraceNodeKind,
    pub external_source: String,
    pub external_ref: String,
    pub module: Option<String>,
    pub title: String,
    pub description: Option<String>,
    pub attributes: serde_json::Value,
    pub sort_key: i32,
    pub created_at: i64,
    pub updated_at: i64,
}

impl Clone for TraceNode {
    fn clone(&self) -> (r: Self)
        ensures
            r == *self,
    {
        TraceNode {
            id: self.id,
            project_id: self.project_id,
            kind: self.kind,
            external_source: self.external_source.clone(),
            external_ref: self.external_ref.clone(),
            module: clone_opt_string(&self.module),
            title: self.title.clone(),
            description: clone_opt_string(&self.description),
            attributes: self.attributes.clone(),
            sort_key: self.sort_key,
            created_at: self.created_at,
            updated_at: self.updated_at,
        }
    }
}

impl TraceNode {
    /// A new node with a fresh id, the default project as placeholder owner,
    /// an empty attribute object, sort key 0 and both timestamps set to now.
    pub fn new(
        kind: TraceNodeKind,
        external_source: String,
        external_ref: String,
        module: Option<String>,
        title: String,
        description: Option<String>,
    ) -> (n: TraceNode)
        ensures
            n.project_id == spec_default_project_id(),
            n.kind == kind,
            n.external_source == external_source,
            n.external_ref == external_ref,
            n.module == module,
            n.title == title,
            n.description == description,
            json_is_object(n.attributes),
            forall|k: Seq<char>| #[trigger] json_get(n.attributes, k) is None,
            n.sort_key == 0,
            n.created_at == n.updated_at,
    {
        let now = now_micros();
        TraceNode {
            id: new_id(),
            project_id: default_project_id(),
            kind,
            external_source,
            external_ref,
            module,
            title,
            description,
            attributes: empty_object(),
            sort_key: 0,
            created_at: now,
            updated_at: now,
        }
    }
}

/// A typed, directed link `source -> target` inside one project.
pub struct TraceLink {
    pub id: u128,
    pub project_id: u128,
    pub source_node_id: u128,
    pub target_node_id: u128,
    pub link_type: LinkType,
    pub attributes: serde_json::Value,
    pub created_at: i64,
    pub updated_at: i64,
}

impl Clone for TraceLink {
    fn clone(&self) -> (r: Self)
        ensures
            r == *self,
    {
        TraceLink {
            id: self.id,
            project_id: self.project_id,
            source_node_id: self.source_node_id,
            target_node_id: self.target_node_id,
            link_type: self.link_type,
            attributes: self.attributes.clone(),
            created_at: self.created_at,
            updated_at: self.updated_at,
        }
    }
}

impl TraceLink {
    /// A new link with a fresh id, the default project as placeholder owner
    /// and an empty attribute object.
    pub fn new(source_node_id: u128, target_node_id: u128, link_type: LinkType) -> (l: TraceLink)
        ensures
            l.project_id == spec_default_project_id(),
            l.source_node_id == source_node_id,
            l.target_node_id == target_node_id,
            l.link_type == link_type,
            json_is_object(l.attributes),
            forall|k: Seq<char>| #[trigger] json_get(l.attributes, k) is None,
            l.created_at == l.updated_at,
    {
        let now = now_micros();
        TraceLink {
            id: new_id(),
            project_id: default_project_id(),
            source_node_id,
            target_node_id,
            link_type,
            attributes: empty_object(),
            created_at: now,
            updated_at: now,
        }
    }
}

/// A frozen snapshot of a project's trace graph (for comparison only).
pub struct TraceBaseline {
    pub id: u128,
    pub project_id: u128,
    pub name: String,
    pub reason: Option<String>,
    pub snapshot_json: serde_json::Value,
    pub created_at: i64,
}

impl Clone for TraceBaseline {
    fn clone(&self) -> (r: Self)
        ensures
            r == *self,
    {
        TraceBaseline {
            id: self.id,
            project_id: self.project_id,
            name: self.name.clone(),
            reason: clone_opt_string(&self.reason),
            snapshot_json: self.snapshot_json.clone(),
            created_at: self.created_at,
        }
    }
}

} // verus!
