//! Execution records: a checklist derived from a document template for one
//! project and one execution stage. The template's structure is derived; what
//! the executor fills in is data of its own.
use vstd::prelude::*;
use crate::ids::{new_id, now_micros};
use crate::json::{empty_object, json_is_object, json_get};
use crate::text::{ascii_lower_seq, str_eq, to_ascii_lowercase};

verus! {

/// State of an execution instance.
#[derive(Debug, Clone, Copy, PartialEq, Eq, Structural)]
pub enum InstanceStatus {
    Draft,
    InProgress,
    Completed,
}

pub open spec fn instance_status_name(s: InstanceStatus) -> Seq<char> {
    match s {
        InstanceStatus::Draft => "draft"@,
        InstanceStatus::InProgress => "in_progress"@,
        InstanceStatus::Completed => "completed"@,
    }
}

/// The instance status named by an already lower-cased name.
pub open spec fn instance_status_of_name(s: Seq<char>) -> Option<InstanceStatus> {
    if s == "draft"@ {
        Some(InstanceStatus::Draft)
    } else if s == "in_progress"@ {
        Some(InstanceStatus::InProgress)
    } else if s == "completed"@ {
        Some(InstanceStatus::Completed)
    } else {
        None
    }
}

impl InstanceStatus {
    /// Case-insensitive (ASCII) parse of a status name.
    pub fn parse(value: &str) -> (r: Option<InstanceStatus>)
        ensures
            r == instance_status_of_name(ascii_lower_seq(value@)),
    {
        let l = to_ascii_lowercase(value);
        let s = l.as_str();
        if str_eq(s, "draft") {
            Some(InstanceStatus::Draft)
        } else if str_eq(s, "in_progress") {
            Some(InstanceStatus::InProgress)
        } else if str_eq(s, "completed") {
            Some(InstanceStatus::Completed)
        } else {
            None
        }
    }

    pub fn as_str(&self) -> (r: &'static str)
        ensures
            r@ == instance_status_name(*self),
    {
        match self {
            InstanceStatus::Draft => "draft",
            InstanceStatus::InProgress => "in_progress",
            InstanceStatus::Completed => "completed",
        }
    }
}

/// State of one checklist item.
#[derive(Debug, Clone, Copy, PartialEq, Eq, Structural)]
pub enum ItemStatus {
    Pending,
    InProgress,
    Completed,
    Skipped,
}

pub open spec fn item_status_name(s: ItemStatus) -> Seq<char> {
    match s {
        ItemStatus::Pending => "pending"@,
        ItemStatus::InProgress => "in_progress"@,
        ItemStatus::Completed => "completed"@,
        ItemStatus::Skipped => "skipped"@,
    }
}

/// The item status named by an already lower-cased name.
pub open spec fn item_status_of_name(s: Seq<char>) -> Option<ItemStatus> {
    if s == "pending"@ {
        Some(ItemStatus::Pending)
    } else if s == "in_progress"@ {
        Some(ItemStatus::InProgress)
    } else if s == "completed"@ {
        Some(ItemStatus::Completed)
    } else if s == "skipped"@ {
        Some(ItemStatus::Skipped)
    } else {
        None
    }
}

impl ItemStatus {
    /// Case-insensitive (ASCII) parse of a status name.
    pub fn parse(value: &str) -> (r: Option<ItemStatus>)
        ensures
            r == item_status_of_name(ascii_lower_seq(value@)),
    {
        let l = to_ascii_lowercase(value);
        let s = l.as_str();
        if str_eq(s, "pending") {
            Some(ItemStatus::Pending)
        } else if str_eq(s, "in_progress") {
            Some(ItemStatus::InProgress)
        } else if str_eq(s, "completed") {
            Some(ItemStatus::Completed)
        } else if str_eq(s, "skipped") {
            Some(ItemStatus::Skipped)
        } else {
            None
        }
    }

    pub fn as_str(&self) -> (r: &'static str)
        ensures
            r@ == item_status_name(*self),
    {
        match self {
            ItemStatus::Pending => "pending",
            ItemStatus::InProgress => "in_progress",
            ItemStatus::Completed => "completed",
            ItemStatus::Skipped => "skipped",
        }
    }
}

/// One instantiation of a template for one project in one execution stage.
pub struct ExecutionInstance {
    pub id: u128,
    pub project_id: u128,
    pub template_id: u128,
    pub stage: Option<String>,
    pub status: InstanceStatus,
    pub created_at: i64,
    pub updated_at: i64,
}

impl Clone for ExecutionInstance {
    fn clone(&self) -> (r: Self)
        ensures
            r == *self,
    {
        ExecutionInstance {
            id: self.id,
            project_id: self.project_id,
            template_id: self.template_id,
            stage: crate::trace_model::clone_opt_string(&self.stage),
            status: self.status,
            created_at: self.created_at,
            updated_at: self.updated_at,
        }
    }
}

impl ExecutionInstance {
    /// A new draft instance with a fresh id and both timestamps set to now.
    pub fn new(project_id: u128, template_id: u128, stage: Option<String>) -> (r: ExecutionInstance)
        ensures
            r.project_id == project_id,
            r.template_id == template_id,
            r.stage == stage,
            r.status == InstanceStatus::Draft,
            r.created_at == r.updated_at,
    {
        let now = now_micros();
        ExecutionInstance {
            id: new_id(),
            project_id,
            template_id,
            stage,
            status: InstanceStatus::Draft,
            created_at: now,
            updated_at: now,
        }
    }
}

/// One checklist item, derived from a template node; `content` is what the
/// executor wrote.
pub struct ExecutionItem {
    pub id: u128,
    pub instance_id: u128,
    pub template_node_id: u128,
    pub title: String,
    pub status: ItemStatus,
    pub content: serde_json::Value,
    pub sort_key: i32,
    pub created_at: i64,
    pub updated_at: i64,
}

impl Clone for ExecutionItem {
    fn clone(&self) -> (r: Self)
        ensures
            r == *self,
    {
        ExecutionItem {
            id: self.id,
            instance_id: self.instance_id,
            template_node_id: self.template_node_id,
            title: self.title.clone(),
            status: self.status,
            content: self.content.clone(),
            sort_key: self.sort_key,
            created_at: self.created_at,
            updated_at: self.updated_at,
        }
    }
}

impl ExecutionItem {
    /// A new pending item with a fresh id and an empty content object.
    pub fn new(instance_id: u128, template_node_id: u128, title: String, sort_key: i32) -> (r:
        ExecutionItem)
        ensures
            r.instance_id == instance_id,
            r.template_node_id == template_node_id,
            r.title == title,
            r.status == ItemStatus::Pending,
            json_is_object(r.content),
            forall|k: Seq<char>| #[trigger] json_get(r.content, k) is None,
            r.sort_key == sort_key,
            r.created_at == r.updated_at,
    {
        let now = now_micros();
        ExecutionItem {
            id: new_id(),
            instance_id,
            template_node_id,
            title,
            status: ItemStatus::Pending,
            content: empty_object(),
            sort_key,
            created_at: now,
            updated_at: now,
        }
    }
}

} // verus!
