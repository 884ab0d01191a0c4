//! Document templates: a template is a flat set of nodes (chapters, sections,
//! tables, …) joined by typed edges; `contains` edges (source = parent,
//! target = child) give the document structure.
use vstd::prelude::*;
use crate::ids::{new_id, now_micros};
use crate::json::json_is_object;
use crate::text::{ascii_lower_seq, str_eq, to_ascii_lowercase};
use crate::trace_model::clone_opt_string;

verus! {

/// The element types of a document template.
#[derive(Debug, Clone, Copy, PartialEq, Eq, Structural)]
pub enum TemplateNodeType {
    FrontMatter,
    Chapter,
    Section,
    Paragraph,
    Table,
    Figure,
    Appendix,
    TraceView,
}

pub open spec fn node_type_name(t: TemplateNodeType) -> Seq<char> {
    match t {
        TemplateNodeType::FrontMatter => "frontmatter"@,
        TemplateNodeType::Chapter => "chapter"@,
        TemplateNodeType::Section => "section"@,
        TemplateNodeType::Paragraph => "paragraph"@,
        TemplateNodeType::Table => "table"@,
        TemplateNodeType::Figure => "figure"@,
        TemplateNodeType::Appendix => "appendix"@,
        TemplateNodeType::TraceView => "trace_view"@,
    }
}

/// The node type named by an already lower-cased name.
pub open spec fn node_type_of_name(s: Seq<char>) -> Option<TemplateNodeType> {
    if s == "frontmatter"@ {
        Some(TemplateNodeType::FrontMatter)
    } else if s == "chapter"@ {
        Some(TemplateNodeType::Chapter)
    } else if s == "section"@ {
        Some(TemplateNodeType::Section)
    } else if s == "paragraph"@ {
        Some(TemplateNodeType::Paragraph)
    } else if s == "table"@ {
        Some(TemplateNodeType::Table)
    } else if s == "figure"@ {
        Some(TemplateNodeType::Figure)
    } else if s == "appendix"@ {
        Some(TemplateNodeType::Appendix)
    } else if s == "trace_view"@ {
        Some(TemplateNodeType::TraceView)
    } else {
        None
    }
}

impl TemplateNodeType {
    /// Case-insensitive (ASCII) parse of a node type name.
    pub fn parse(value: &str) -> (r: Option<TemplateNodeType>)
        ensures
            r == node_type_of_name(ascii_lower_seq(value@)),
    {
        let l = to_ascii_lowercase(value);
        let s = l.as_str();
        if str_eq(s, "frontmatter") {
            Some(TemplateNodeType::FrontMatter)
        } else if str_eq(s, "chapter") {
            Some(TemplateNodeType::Chapter)
        } else if str_eq(s, "section") {
            Some(TemplateNodeType::Section)
        } else if str_eq(s, "paragraph") {
            Some(TemplateNodeType::Paragraph)
        } else if str_eq(s, "table") {
            Some(TemplateNodeType::Table)
        } else if str_eq(s, "figure") {
            Some(TemplateNodeType::Figure)
        } else if str_eq(s, "appendix") {
            Some(TemplateNodeType::Appendix)
        } else if str_eq(s, "trace_view") {
            Some(TemplateNodeType::TraceView)
        } else {
            None
        }
    }

    pub fn as_str(&self) -> (r: &'static str)
        ensures
            r@ == node_type_name(*self),
    {
        match self {
            TemplateNodeType::FrontMatter => "frontmatter",
            TemplateNodeType::Chapter => "chapter",
            TemplateNodeType::Section => "section",
            TemplateNodeType::Paragraph => "paragraph",
            TemplateNodeType::Table => "table",
            TemplateNodeType::Figure => "figure",
            TemplateNodeType::Appendix => "appendix",
            TemplateNodeType::TraceView => "trace_view",
        }
    }
}

/// A document template (the structure definition of one document).
pub struct DocumentTemplate {
    pub id: u128,
    pub name: String,
    /// The document class (outline / report / …).
    pub kind: String,
    pub description: Option<String>,
    pub created_at: i64,
    pub updated_at: i64,
}

impl Clone for DocumentTemplate {
    fn clone(&self) -> (r: Self)
        ensures
            r == *self,
    {
        DocumentTemplate {
            id: self.id,
            name: self.name.clone(),
            kind: self.kind.clone(),
            description: clone_opt_string(&self.description),
            created_at: self.created_at,
            updated_at: self.updated_at,
        }
    }
}

impl DocumentTemplate {
    /// A new template with a fresh id and both timestamps set to now.
    pub fn new(name: String, kind: String, description: Option<String>) -> (t: DocumentTemplate)
        ensures
            t.name == name,
            t.kind == kind,
            t.description == description,
            t.created_at == t.updated_at,
    {
        let now = now_micros();
        DocumentTemplate { id: new_id(), name, kind, description, created_at: now, updated_at: now }
    }
}

/// A template node; `content_spec` declares what content goes here.
pub struct TemplateNode {
    pub id: u128,
    pub template_id: u128,
    pub node_type: TemplateNodeType,
    pub title: String,
    pub content_spec: serde_json::Value,
    pub tex_component: Option<String>,
    pub sort_key: i32,
    pub created_at: i64,
    pub updated_at: i64,
}

impl Clone for TemplateNode {
    fn clone(&self) -> (r: Self)
        ensures
            r == *self,
    {
        TemplateNode {
            id: self.id,
            template_id: self.template_id,
            node_type: self.node_type,
            title: self.title.clone(),
            content_spec: self.content_spec.clone(),
            tex_component: clone_opt_string(&self.tex_component),
            sort_key: self.sort_key,
            created_at: self.created_at,
            updated_at: self.updated_at,
        }
    }
}

impl TemplateNode {
    /// A new node with a fresh id, no tex component and both timestamps set to now.
    pub fn new(
        template_id: u128,
        node_type: TemplateNodeType,
        title: String,
        content_spec: serde_json::Value,
        sort_key: i32,
    ) -> (n: TemplateNode)
        ensures
            n.template_id == template_id,
            n.node_type == node_type,
            n.title == title,
            n.content_spec == content_spec,
            n.tex_component is None,
            n.sort_key == sort_key,
            n.created_at == n.updated_at,
    {
        let now = now_micros();
        TemplateNode {
            id: new_id(),
            template_id,
            node_type,
            title,
            content_spec,
            tex_component: None,
            sort_key,
            created_at: now,
            updated_at: now,
        }
    }
}

/// An edge between two template nodes (`contains`: source = parent).
pub struct TemplateEdge {
    pub id: u128,
    pub template_id: u128,
    pub source_node_id: u128,
    pub target_node_id: u128,
    pub edge_type: String,
    pub created_at: i64,
}

impl Clone for TemplateEdge {
    fn clone(&self) -> (r: Self)
        ensures
            r == *self,
    {
        TemplateEdge {
            id: self.id,
            template_id: self.template_id,
            source_node_id: self.source_node_id,
            target_node_id: self.target_node_id,
            edge_type: self.edge_type.clone(),
            created_at: self.created_at,
        }
    }
}

} // verus!
