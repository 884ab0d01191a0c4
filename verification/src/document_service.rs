//! The document template service: templates, nodes and edges, with the
//! deterministic structural order. Templates are shared by all projects.
use vstd::prelude::*;
use crate::document_model::{DocumentTemplate, TemplateEdge, TemplateNode, TemplateNodeType};
use crate::document_order::{isort, node_le, node_of, ordered_spec};
use crate::error::ServiceError;
use crate::ids::{new_id, now_micros};
use crate::json::empty_object;
use crate::text::{is_blank, is_blank_seq, trim, trim_seq};

verus! {

pub open spec fn flat_order(nodes: Seq<TemplateNode>) -> Seq<TemplateNode> {
    isort(nodes, |a: TemplateNode, b: TemplateNode| node_le(a, b))
}

/// The nodes of template `t`, in store order.
pub open spec fn nodes_in(nodes: Seq<TemplateNode>, t: u128) -> Seq<TemplateNode>
    decreases nodes.len(),
{
    if nodes.len() == 0 {
        Seq::empty()
    } else if nodes.last().template_id == t {
        nodes_in(nodes.drop_last(), t).push(nodes.last())
    } else {
        nodes_in(nodes.drop_last(), t)
    }
}

/// The edges of template `t`, in store order.
pub open spec fn edges_in(edges: Seq<TemplateEdge>, t: u128) -> Seq<TemplateEdge>
    decreases edges.len(),
{
    if edges.len() == 0 {
        Seq::empty()
    } else if edges.last().template_id == t {
        edges_in(edges.drop_last(), t).push(edges.last())
    } else {
        edges_in(edges.drop_last(), t)
    }
}

/// The nodes of other templates than `t`.
pub open spec fn nodes_not_in(nodes: Seq<TemplateNode>, t: u128) -> Seq<TemplateNode>
    decreases nodes.len(),
{
    if nodes.len() == 0 {
        Seq::empty()
    } else if nodes.last().template_id != t {
        nodes_not_in(nodes.drop_last(), t).push(nodes.last())
    } else {
        nodes_not_in(nodes.drop_last(), t)
    }
}

/// The edges that neither belong to template `t` nor touch node `n`.
pub open spec fn edges_kept(edges: Seq<TemplateEdge>, t: Option<u128>, n: Option<u128>) -> Seq<
    TemplateEdge,
>
    decreases edges.len(),
{
    if edges.len() == 0 {
        Seq::empty()
    } else {
        let e = edges.last();
        let rest = edges_kept(edges.drop_last(), t, n);
        let gone = (t is Some && e.template_id == t->0) || (n is Some && (e.source_node_id == n->0
            || e.target_node_id == n->0));
        if gone {
            rest
        } else {
            rest.push(e)
        }
    }
}

/// The nodes without those with id `id`.
pub open spec fn nodes_without(nodes: Seq<TemplateNode>, id: u128) -> Seq<TemplateNode>
    decreases nodes.len(),
{
    if nodes.len() == 0 {
        Seq::empty()
    } else if nodes.last().id != id {
        nodes_without(nodes.drop_last(), id).push(nodes.last())
    } else {
        nodes_without(nodes.drop_last(), id)
    }
}

/// The nodes after the orders are applied to those of template `t`.
pub open spec fn nodes_reordered(nodes: Seq<TemplateNode>, t: u128, orders: Seq<(u128, i32)>) -> Seq<
    TemplateNode,
> {
    Seq::new(
        nodes.len(),
        |j: int|
            if nodes[j].template_id == t {
                TemplateNode {
                    sort_key: crate::trace_service::key_after(orders, nodes[j].id, nodes[j].sort_key),
                    ..nodes[j]
                }
            } else {
                nodes[j]
            },
    )
}

/// What `update_node` makes of a node (the update time aside).
pub open spec fn tnode_updated(
    old: TemplateNode,
    node_type: Option<TemplateNodeType>,
    title: Option<Seq<char>>,
    content_spec: Option<serde_json::Value>,
    sort_key: Option<i32>,
    tex_component: Option<String>,
    n: TemplateNode,
) -> bool {
    &&& n.id == old.id
    &&& n.template_id == old.template_id
    &&& n.created_at == old.created_at
    &&& n.node_type == match node_type {
        Some(t) => t,
        None => old.node_type,
    }
    &&& match title {
        Some(t) => n.title@ == trim_seq(t),
        None => n.title == old.title,
    }
    &&& n.content_spec == match content_spec {
        Some(c) => c,
        None => old.content_spec,
    }
    &&& n.sort_key == match sort_key {
        Some(k) => k,
        None => old.sort_key,
    }
    &&& n.tex_component == match tex_component {
        Some(t) => Some(t),
        None => old.tex_component,
    }
}

/// Whether some node has this id.
pub open spec fn has_tnode_id(nodes: Seq<TemplateNode>, id: u128) -> bool {
    exists|j: int| 0 <= j < nodes.len() && #[trigger] nodes[j].id == id
}

/// Whether a node of template `t` has this id.
pub open spec fn node_in_template(nodes: Seq<TemplateNode>, t: u128, id: u128) -> bool {
    exists|i: int| 0 <= i < nodes.len() && #[trigger] nodes[i].id == id && nodes[i].template_id == t
}

pub open spec fn template_of(ts: Seq<DocumentTemplate>, id: u128) -> Option<DocumentTemplate>
    decreases ts.len(),
{
    if ts.len() == 0 {
        None
    } else if ts.last().id == id {
        Some(ts.last())
    } else {
        template_of(ts.drop_last(), id)
    }
}

/// What `update_template` makes of a template (the update time aside).
pub open spec fn template_updated(
    old: DocumentTemplate,
    name: Option<Seq<char>>,
    kind: Option<Seq<char>>,
    description: Option<String>,
    t: DocumentTemplate,
) -> bool {
    &&& t.id == old.id
    &&& t.created_at == old.created_at
    &&& match name {
        Some(n) => t.name@ == trim_seq(n),
        None => t.name == old.name,
    }
    &&& match kind {
        Some(k) => t.kind@ == trim_seq(k),
        None => t.kind == old.kind,
    }
    &&& t.description == match description {
        Some(d) => Some(d),
        None => old.description,
    }
}

/// The document template service over the templates, nodes and edges of all templates.
pub struct DocumentService {
    pub templates: Vec<DocumentTemplate>,
    pub nodes: Vec<TemplateNode>,
    pub edges: Vec<TemplateEdge>,
}

impl DocumentService {
    /// Every edge joins two nodes of its own template.
    pub open spec fn wf(&self) -> bool {
        forall|i: int|
            0 <= i < self.edges@.len() ==> node_in_template(
                self.nodes@,
                (#[trigger] self.edges@[i]).template_id,
                self.edges@[i].source_node_id,
            ) && node_in_template(
                self.nodes@,
                self.edges@[i].template_id,
                self.edges@[i].target_node_id,
            )
    }

    pub fn new() -> (s: DocumentService)
        ensures
            s.wf(),
            s.templates@.len() == 0,
            s.nodes@.len() == 0,
            s.edges@.len() == 0,
    {
        DocumentService { templates: Vec::new(), nodes: Vec::new(), edges: Vec::new() }
    }

    pub fn list_templates(&self) -> (r: Vec<DocumentTemplate>)
        ensures
            r@ == self.templates@,
    {
        let mut r: Vec<DocumentTemplate> = Vec::new();
        let mut i: usize = 0;
        while i < self.templates.len()
            invariant
                i <= self.templates@.len(),
                r@ == self.templates@.take(i as int),
            decreases self.templates.len() - i,
        {
            r.push(self.templates[i].clone());
            i = i + 1;
            assert(r@ =~= self.templates@.take(i as int));
        }
        assert(self.templates@.take(self.templates@.len() as int) =~= self.templates@);
        r
    }

    /// The template `id`; NotFound (`document_template_not_found`) otherwise.
    pub fn get_template(&self, id: u128) -> (r: Result<DocumentTemplate, ServiceError>)
        ensures
            match r {
                Ok(t) => template_of(self.templates@, id) == Some(t),
                Err(e) => template_of(self.templates@, id) is None && e is NotFound && e.message()
                    == "document_template_not_found"@,
            },
    {
        let mut i: usize = self.templates.len();
        assert(self.templates@.take(i as int) =~= self.templates@);
        while i > 0
            invariant
                i <= self.templates@.len(),
                template_of(self.templates@, id) == template_of(self.templates@.take(i as int), id),
            decreases i,
        {
            assert(self.templates@.take(i as int).drop_last() =~= self.templates@.take(i - 1));
            if self.templates[i - 1].id == id {
                return Ok(self.templates[i - 1].clone());
            }
            i = i - 1;
        }
        Err(ServiceError::NotFound(String::from_str("document_template_not_found")))
    }

    /// Creates a template with the trimmed name and kind. Validation when the
    /// name (`template name must not be empty`) or the kind (`template kind
    /// must not be empty`) is blank.
    pub fn create_template(&mut self, name: String, kind: String, description: Option<String>) -> (r:
        Result<DocumentTemplate, ServiceError>)
        requires
            old(self).wf(),
        ensures
            final(self).wf(),
            final(self).nodes@ == old(self).nodes@,
            final(self).edges@ == old(self).edges@,
            match r {
                Ok(t) => !is_blank_seq(name@) && !is_blank_seq(kind@) && t.name@ == trim_seq(name@)
                    && t.kind@ == trim_seq(kind@) && t.description == description
                    && final(self).templates@ == old(self).templates@.push(t),
                Err(e) => final(self).templates@ == old(self).templates@ && e is Validation && if is_blank_seq(
                    name@,
                ) {
                    e.message() == "template name must not be empty"@
                } else {
                    is_blank_seq(kind@) && e.message() == "template kind must not be empty"@
                },
            },
    {
        if is_blank(name.as_str()) {
            return Err(ServiceError::Validation(String::from_str("template name must not be empty")));
        }
        if is_blank(kind.as_str()) {
            return Err(ServiceError::Validation(String::from_str("template kind must not be empty")));
        }
        let tpl = DocumentTemplate::new(trim(name.as_str()), trim(kind.as_str()), description);
        self.templates.push(tpl.clone());
        Ok(tpl)
    }

    /// Updates the given fields of template `id` (name and kind trimmed) and
    /// stamps the update time. NotFound (`document_template_not_found`);
    /// Validation for a blank name or kind.
    pub fn update_template(
        &mut self,
        id: u128,
        name: Option<String>,
        kind: Option<String>,
        description: Option<String>,
    ) -> (r: Result<DocumentTemplate, ServiceError>)
        requires
            old(self).wf(),
        ensures
            final(self).wf(),
            final(self).nodes@ == old(self).nodes@,
            final(self).edges@ == old(self).edges@,
            match r {
                Ok(t) => template_of(old(self).templates@, id) is Some && template_updated(
                    template_of(old(self).templates@, id)->0,
                    crate::text::opt_view(name),
                    crate::text::opt_view(kind),
                    description,
                    t,
                ) && final(self).templates@.len() == old(self).templates@.len() && forall|j: int|
                    0 <= j < old(self).templates@.len() ==> (#[trigger] final(self).templates@[j])
                        == if old(self).templates@[j].id == id {
                        t
                    } else {
                        old(self).templates@[j]
                    },
                Err(e) => final(self).templates@ == old(self).templates@ && if template_of(
                    old(self).templates@,
                    id,
                ) is None {
                    e is NotFound && e.message() == "document_template_not_found"@
                } else {
                    e is Validation && ((name matches Some(n) && is_blank_seq(n@)) || (
                    kind matches Some(k) && is_blank_seq(k@)))
                },
            },
    {
        let mut tpl = match self.get_template(id) {
            Ok(t) => t,
            Err(e) => {
                return Err(e);
            },
        };
        proof {
            lemma_template_of_id(self.templates@, id);
        }
        if let Some(n) = name {
            if is_blank(n.as_str()) {
                return Err(ServiceError::Validation(String::from_str("template name must not be empty")));
            }
            tpl.name = trim(n.as_str());
        }
        if let Some(k) = kind {
            if is_blank(k.as_str()) {
                return Err(ServiceError::Validation(String::from_str("template kind must not be empty")));
            }
            tpl.kind = trim(k.as_str());
        }
        if let Some(d) = description {
            tpl.description = Some(d);
        }
        tpl.updated_at = now_micros();
        let ghost before = self.templates@;
        let mut j: usize = 0;
        while j < self.templates.len()
            invariant
                j <= self.templates@.len(),
                self.templates@.len() == before.len(),
                self.nodes@ == old(self).nodes@,
                self.edges@ == old(self).edges@,
                old(self).wf(),
                tpl.id == id,
                forall|x: int|
                    0 <= x < before.len() ==> (#[trigger] self.templates@[x]) == if x < j
                        && before[x].id == id {
                        tpl
                    } else {
                        before[x]
                    },
            decreases self.templates.len() - j,
        {
            if self.templates[j].id == id {
                self.templates.set(j, tpl.clone());
            }
            j = j + 1;
        }
        Ok(tpl)
    }

    /// Deletes template `id` with its nodes and edges. NotFound
    /// (`document_template_not_found`) when there is no such template.
    pub fn delete_template(&mut self, id: u128) -> (r: Result<(), ServiceError>)
        requires
            old(self).wf(),
        ensures
            final(self).wf(),
            match r {
                Ok(()) => template_of(old(self).templates@, id) is Some && final(self).nodes@
                    == nodes_not_in(old(self).nodes@, id) && final(self).edges@ == edges_kept(
                    old(self).edges@,
                    Some(id),
                    None,
                ) && forall|x: int|
                    0 <= x < final(self).templates@.len() ==> (#[trigger] final(self).templates@[x]).id
                        != id,
                Err(e) => template_of(old(self).templates@, id) is None && e is NotFound
                    && e.message() == "document_template_not_found"@ && final(self).templates@ == old(
                    self,
                ).templates@ && final(self).nodes@ == old(self).nodes@ && final(self).edges@ == old(
                    self,
                ).edges@,
            },
    {
        if let Err(e) = self.get_template(id) {
            return Err(e);
        }
        let mut ts: Vec<DocumentTemplate> = Vec::new();
        let mut i: usize = 0;
        while i < self.templates.len()
            invariant
                i <= self.templates@.len(),
                forall|x: int| 0 <= x < ts@.len() ==> (#[trigger] ts@[x]).id != id,
            decreases self.templates.len() - i,
        {
            if self.templates[i].id != id {
                ts.push(self.templates[i].clone());
            }
            i = i + 1;
        }
        let ghost old_nodes = self.nodes@;
        let ghost old_edges = self.edges@;
        let mut ns: Vec<TemplateNode> = Vec::new();
        let mut i: usize = 0;
        while i < self.nodes.len()
            invariant
                i <= self.nodes@.len(),
                self.nodes@ == old_nodes,
                ns@ == nodes_not_in(old_nodes.take(i as int), id),
            decreases self.nodes.len() - i,
        {
            assert(old_nodes.take(i + 1).drop_last() =~= old_nodes.take(i as int));
            if self.nodes[i].template_id != id {
                ns.push(self.nodes[i].clone());
            }
            i = i + 1;
        }
        assert(old_nodes.take(old_nodes.len() as int) =~= old_nodes);
        let mut es: Vec<TemplateEdge> = Vec::new();
        let mut i: usize = 0;
        while i < self.edges.len()
            invariant
                i <= self.edges@.len(),
                self.edges@ == old_edges,
                es@ == edges_kept(old_edges.take(i as int), Some(id), None),
            decreases self.edges.len() - i,
        {
            assert(old_edges.take(i + 1).drop_last() =~= old_edges.take(i as int));
            if self.edges[i].template_id != id {
                es.push(self.edges[i].clone());
            }
            i = i + 1;
        }
        assert(old_edges.take(old_edges.len() as int) =~= old_edges);
        proof {
            lemma_edges_kept_sub(old_edges, Some(id), None);
            lemma_nodes_not_in_keeps(old_nodes, id);
            assert forall|k: int| 0 <= k < es@.len() implies node_in_template(
                ns@,
                (#[trigger] es@[k]).template_id,
                es@[k].source_node_id,
            ) && node_in_template(ns@, es@[k].template_id, es@[k].target_node_id) by {
                let e = es@[k];
                assert(old_edges.contains(e));
                let w = choose|w: int| 0 <= w < old_edges.len() && old_edges[w] == e;
                assert(node_in_template(old_nodes, old_edges[w].template_id, old_edges[w].source_node_id));
                assert(node_in_template(old_nodes, old_edges[w].template_id, old_edges[w].target_node_id));
                assert(e.template_id != id);
            }
        }
        self.templates = ts;
        self.nodes = ns;
        self.edges = es;
        Ok(())
    }

    /// The nodes of template `t` in store order, and its edges.
    pub fn template_graph(&self, t: u128) -> (r: (Vec<TemplateNode>, Vec<TemplateEdge>))
        requires
            self.wf(),
        ensures
            r.0@ == nodes_in(self.nodes@, t),
            r.1@ == edges_in(self.edges@, t),
            forall|i: int|
                0 <= i < r.1@.len() ==> has_tnode_id(r.0@, (#[trigger] r.1@[i]).target_node_id),
    {
        let mut ns: Vec<TemplateNode> = Vec::new();
        let mut i: usize = 0;
        while i < self.nodes.len()
            invariant
                i <= self.nodes@.len(),
                ns@ == nodes_in(self.nodes@.take(i as int), t),
            decreases self.nodes.len() - i,
        {
            assert(self.nodes@.take(i + 1).drop_last() =~= self.nodes@.take(i as int));
            if self.nodes[i].template_id == t {
                ns.push(self.nodes[i].clone());
            }
            i = i + 1;
        }
        assert(self.nodes@.take(self.nodes@.len() as int) =~= self.nodes@);
        let mut es: Vec<TemplateEdge> = Vec::new();
        let mut i: usize = 0;
        while i < self.edges.len()
            invariant
                i <= self.edges@.len(),
                es@ == edges_in(self.edges@.take(i as int), t),
            decreases self.edges.len() - i,
        {
            assert(self.edges@.take(i + 1).drop_last() =~= self.edges@.take(i as int));
            if self.edges[i].template_id == t {
                es.push(self.edges[i].clone());
            }
            i = i + 1;
        }
        assert(self.edges@.take(self.edges@.len() as int) =~= self.edges@);
        proof {
            lemma_edges_in_sub(self.edges@, t);
            assert forall|i: int| 0 <= i < es@.len() implies has_tnode_id(ns@, (#[trigger] es@[i]).target_node_id) by {
                let e = es@[i];
                assert(self.edges@.contains(e));
                let w = choose|w: int| 0 <= w < self.edges@.len() && self.edges@[w] == e;
                assert(node_in_template(self.nodes@, self.edges@[w].template_id, self.edges@[w].target_node_id));
                lemma_nodes_in_has(self.nodes@, t, e.target_node_id);
            }
        }
        (ns, es)
    }

    /// The flat deterministic order: stable sort by `(sort_key, created_at, id)`.
    pub fn sort_nodes(nodes: Vec<TemplateNode>) -> (r: Vec<TemplateNode>)
        ensures
            r@ == flat_order(nodes@),
    {
        crate::document_order::sort_nodes(nodes)
    }

    /// Document order (see `document_order::ordered_nodes`).
    pub fn ordered_nodes(nodes: Vec<TemplateNode>, edges: &[TemplateEdge]) -> (r: Vec<TemplateNode>)
        ensures
            r@ == ordered_spec(nodes@, edges@),
    {
        crate::document_order::ordered_nodes(nodes, edges)
    }

    /// Template `id` with its nodes in flat order and its edges; NotFound
    /// (`document_template_not_found`).
    pub fn get_template_full(&self, id: u128) -> (r: Result<
        (DocumentTemplate, Vec<TemplateNode>, Vec<TemplateEdge>),
        ServiceError,
    >)
        requires
            self.wf(),
        ensures
            match r {
                Ok((t, ns, es)) => {
                    &&& template_of(self.templates@, id) == Some(t)
                    &&& ns@ == flat_order(nodes_in(self.nodes@, id))
                    &&& es@ == edges_in(self.edges@, id)
                    &&& forall|i: int|
                        0 <= i < es@.len() ==> node_of(ns@, (#[trigger] es@[i]).target_node_id) is Some
                },
                Err(e) => template_of(self.templates@, id) is None && e is NotFound && e.message()
                    == "document_template_not_found"@,
            },
    {
        let tpl = match self.get_template(id) {
            Ok(t) => t,
            Err(e) => {
                return Err(e);
            },
        };
        let (ns, es) = self.template_graph(id);
        let ghost unsorted = ns@;
        let sorted = Self::sort_nodes(ns);
        proof {
            assert forall|i: int| 0 <= i < es@.len() implies node_of(sorted@, (#[trigger] es@[i]).target_node_id) is Some by {
                assert(has_tnode_id(unsorted, es@[i].target_node_id));
                let j = choose|j: int| 0 <= j < unsorted.len() && #[trigger] unsorted[j].id == es@[i].target_node_id;
                assert(unsorted.contains(unsorted[j]));
                crate::document_order::lemma_isort_contains(
                    unsorted,
                    |a: TemplateNode, b: TemplateNode| node_le(a, b),
                    unsorted[j],
                );
                let k = choose|k: int| 0 <= k < sorted@.len() && sorted@[k] == unsorted[j];
                assert(sorted@[k].id == es@[i].target_node_id);
                lemma_node_of_iff(sorted@, es@[i].target_node_id);
            }
        }
        Ok((tpl, sorted, es))
    }

    /// The nodes of template `id` in flat order; NotFound (`document_template_not_found`).
    pub fn list_nodes(&self, template_id: u128) -> (r: Result<Vec<TemplateNode>, ServiceError>)
        requires
            self.wf(),
        ensures
            match r {
                Ok(ns) => template_of(self.templates@, template_id) is Some && ns@ == flat_order(
                    nodes_in(self.nodes@, template_id),
                ),
                Err(e) => template_of(self.templates@, template_id) is None && e is NotFound
                    && e.message() == "document_template_not_found"@,
            },
    {
        if let Err(e) = self.get_template(template_id) {
            return Err(e);
        }
        let (ns, _es) = self.template_graph(template_id);
        Ok(Self::sort_nodes(ns))
    }

    /// Adds a node to template `template_id` with the trimmed title, the given
    /// content spec (an empty object when absent) and sort key (0 when
    /// absent). NotFound (`document_template_not_found`); Validation (`node
    /// title must not be empty`) for a blank title.
    pub fn create_node(
        &mut self,
        template_id: u128,
        node_type: TemplateNodeType,
        title: String,
        content_spec: Option<serde_json::Value>,
        sort_key: Option<i32>,
    ) -> (r: Result<TemplateNode, ServiceError>)
        requires
            old(self).wf(),
        ensures
            final(self).wf(),
            final(self).templates@ == old(self).templates@,
            final(self).edges@ == old(self).edges@,
            match r {
                Ok(n) => {
                    &&& template_of(old(self).templates@, template_id) is Some
                    &&& !is_blank_seq(title@)
                    &&& n.template_id == template_id
                    &&& n.node_type == node_type
                    &&& n.title@ == trim_seq(title@)
                    &&& (content_spec matches Some(c) ==> n.content_spec == c)
                    &&& (content_spec is None ==> crate::json::json_is_object(n.content_spec))
                    &&& n.sort_key == match sort_key {
                        Some(k) => k,
                        None => 0i32,
                    }
                    &&& final(self).nodes@ == old(self).nodes@.push(n)
                },
                Err(e) => final(self).nodes@ == old(self).nodes@ && if template_of(
                    old(self).templates@,
                    template_id,
                ) is None {
                    e is NotFound && e.message() == "document_template_not_found"@
                } else {
                    is_blank_seq(title@) && e is Validation && e.message()
                        == "node title must not be empty"@
                },
            },
    {
        if let Err(e) = self.get_template(template_id) {
            return Err(e);
        }
        if is_blank(title.as_str()) {
            return Err(ServiceError::Validation(String::from_str("node title must not be empty")));
        }
        let spec = match content_spec {
            Some(c) => c,
            None => empty_object(),
        };
        let key = match sort_key {
            Some(k) => k,
            None => 0,
        };
        let node = TemplateNode::new(template_id, node_type, trim(title.as_str()), spec, key);
        let ghost before = self.nodes@;
        self.nodes.push(node.clone());
        proof {
            assert forall|i: int| 0 <= i < self.edges@.len() implies node_in_template(
                self.nodes@,
                (#[trigger] self.edges@[i]).template_id,
                self.edges@[i].source_node_id,
            ) && node_in_template(self.nodes@, self.edges@[i].template_id, self.edges@[i].target_node_id) by {
                let a = choose|a: int| 0 <= a < before.len() && #[trigger] before[a].id == self.edges@[i].source_node_id
                    && before[a].template_id == self.edges@[i].template_id;
                let b = choose|b: int| 0 <= b < before.len() && #[trigger] before[b].id == self.edges@[i].target_node_id
                    && before[b].template_id == self.edges@[i].template_id;
                assert(self.nodes@[a] == before[a]);
                assert(self.nodes@[b] == before[b]);
            }
        }
        Ok(node)
    }

    /// Updates the given fields of node `id` (the title trimmed) and stamps
    /// the update time. NotFound (`document_template_node_not_found`);
    /// Validation (`node title must not be empty`) for a blank title.
    pub fn update_node(
        &mut self,
        id: u128,
        node_type: Option<TemplateNodeType>,
        title: Option<String>,
        content_spec: Option<serde_json::Value>,
        sort_key: Option<i32>,
        tex_component: Option<String>,
    ) -> (r: Result<TemplateNode, ServiceError>)
        requires
            old(self).wf(),
        ensures
            final(self).wf(),
            final(self).templates@ == old(self).templates@,
            final(self).edges@ == old(self).edges@,
            match r {
                Ok(n) => {
                    &&& node_of(old(self).nodes@, id) is Some
                    &&& tnode_updated(
                        node_of(old(self).nodes@, id)->0,
                        node_type,
                        crate::text::opt_view(title),
                        content_spec,
                        sort_key,
                        tex_component,
                        n,
                    )
                    &&& exists|j: int|
                        0 <= j < old(self).nodes@.len() && #[trigger] old(self).nodes@[j].id == id
                            && final(self).nodes@ == old(self).nodes@.update(j, n)
                },
                Err(e) => final(self).nodes@ == old(self).nodes@ && if node_of(old(self).nodes@, id) is None {
                    e is NotFound && e.message() == "document_template_node_not_found"@
                } else {
                    title matches Some(t) && is_blank_seq(t@) && e is Validation && e.message()
                        == "node title must not be empty"@
                },
            },
    {
        let mut p = self.nodes.len();
        assert(self.nodes@.take(p as int) =~= self.nodes@);
        while p > 0 && self.nodes[p - 1].id != id
            invariant
                p <= self.nodes@.len(),
                node_of(self.nodes@, id) == node_of(self.nodes@.take(p as int), id),
            decreases p,
        {
            assert(self.nodes@.take(p as int).drop_last() =~= self.nodes@.take(p - 1));
            p = p - 1;
        }
        if p == 0 {
            return Err(ServiceError::NotFound(String::from_str("document_template_node_not_found")));
        }
        let j = p - 1;
        assert(self.nodes@.take(p as int).drop_last() =~= self.nodes@.take(j as int));
        let mut node = self.nodes[j].clone();
        if let Some(t) = node_type {
            node.node_type = t;
        }
        if let Some(t) = title {
            if is_blank(t.as_str()) {
                return Err(ServiceError::Validation(String::from_str("node title must not be empty")));
            }
            node.title = trim(t.as_str());
        }
        if let Some(c) = content_spec {
            node.content_spec = c;
        }
        if let Some(k) = sort_key {
            node.sort_key = k;
        }
        if let Some(t) = tex_component {
            node.tex_component = Some(t);
        }
        node.updated_at = now_micros();
        let ghost before = self.nodes@;
        self.nodes.set(j, node.clone());
        proof {
            assert(before[j as int].id == id);
            assert forall|i: int| 0 <= i < self.edges@.len() implies node_in_template(
                self.nodes@,
                (#[trigger] self.edges@[i]).template_id,
                self.edges@[i].source_node_id,
            ) && node_in_template(self.nodes@, self.edges@[i].template_id, self.edges@[i].target_node_id) by {
                let a = choose|a: int| 0 <= a < before.len() && #[trigger] before[a].id == self.edges@[i].source_node_id
                    && before[a].template_id == self.edges@[i].template_id;
                let b = choose|b: int| 0 <= b < before.len() && #[trigger] before[b].id == self.edges@[i].target_node_id
                    && before[b].template_id == self.edges@[i].template_id;
                assert(self.nodes@[a].id == before[a].id && self.nodes@[a].template_id == before[a].template_id);
                assert(self.nodes@[b].id == before[b].id && self.nodes@[b].template_id == before[b].template_id);
            }
        }
        Ok(node)
    }

    /// Deletes the node `id` and the edges that touch it. NotFound
    /// (`document_template_node_not_found`).
    pub fn delete_node(&mut self, id: u128) -> (r: Result<(), ServiceError>)
        requires
            old(self).wf(),
        ensures
            final(self).wf(),
            final(self).templates@ == old(self).templates@,
            match r {
                Ok(()) => has_tnode_id(old(self).nodes@, id) && final(self).nodes@ == nodes_without(
                    old(self).nodes@,
                    id,
                ) && final(self).edges@ == edges_kept(old(self).edges@, None, Some(id)),
                Err(e) => !has_tnode_id(old(self).nodes@, id) && e is NotFound && e.message()
                    == "document_template_node_not_found"@ && final(self).nodes@ == old(self).nodes@
                    && final(self).edges@ == old(self).edges@,
            },
    {
        let mut found = false;
        let mut i: usize = 0;
        while i < self.nodes.len()
            invariant
                i <= self.nodes@.len(),
                found == exists|j: int| 0 <= j < i && #[trigger] self.nodes@[j].id == id,
            decreases self.nodes.len() - i,
        {
            if self.nodes[i].id == id {
                found = true;
            }
            i = i + 1;
        }
        if !found {
            return Err(ServiceError::NotFound(String::from_str("document_template_node_not_found")));
        }
        let ghost old_nodes = self.nodes@;
        let ghost old_edges = self.edges@;
        let mut ns: Vec<TemplateNode> = Vec::new();
        let mut i: usize = 0;
        while i < self.nodes.len()
            invariant
                i <= self.nodes@.len(),
                self.nodes@ == old_nodes,
                ns@ == nodes_without(old_nodes.take(i as int), id),
            decreases self.nodes.len() - i,
        {
            assert(old_nodes.take(i + 1).drop_last() =~= old_nodes.take(i as int));
            if self.nodes[i].id != id {
                ns.push(self.nodes[i].clone());
            }
            i = i + 1;
        }
        assert(old_nodes.take(old_nodes.len() as int) =~= old_nodes);
        let mut es: Vec<TemplateEdge> = Vec::new();
        let mut i: usize = 0;
        while i < self.edges.len()
            invariant
                i <= self.edges@.len(),
                self.edges@ == old_edges,
                es@ == edges_kept(old_edges.take(i as int), None, Some(id)),
            decreases self.edges.len() - i,
        {
            assert(old_edges.take(i + 1).drop_last() =~= old_edges.take(i as int));
            if self.edges[i].source_node_id != id && self.edges[i].target_node_id != id {
                es.push(self.edges[i].clone());
            }
            i = i + 1;
        }
        assert(old_edges.take(old_edges.len() as int) =~= old_edges);
        proof {
            lemma_edges_kept_sub(old_edges, None, Some(id));
            lemma_nodes_without_keeps(old_nodes, id);
            assert forall|k: int| 0 <= k < es@.len() implies node_in_template(
                ns@,
                (#[trigger] es@[k]).template_id,
                es@[k].source_node_id,
            ) && node_in_template(ns@, es@[k].template_id, es@[k].target_node_id) by {
                let e = es@[k];
                assert(old_edges.contains(e));
                let w = choose|w: int| 0 <= w < old_edges.len() && old_edges[w] == e;
                assert(node_in_template(old_nodes, old_edges[w].template_id, old_edges[w].source_node_id));
                assert(node_in_template(old_nodes, old_edges[w].template_id, old_edges[w].target_node_id));
            }
        }
        self.nodes = ns;
        self.edges = es;
        Ok(())
    }

    /// Writes `(id, sort_key)` orders onto the nodes of template `t` (other
    /// ids ignored, the last order of an id wins) and gives back the
    /// template's nodes in flat order. NotFound (`document_template_not_found`).
    pub fn reorder_nodes(&mut self, template_id: u128, orders: Vec<(u128, i32)>) -> (r: Result<
        Vec<TemplateNode>,
        ServiceError,
    >)
        requires
            old(self).wf(),
        ensures
            final(self).wf(),
            final(self).templates@ == old(self).templates@,
            final(self).edges@ == old(self).edges@,
            match r {
                Ok(ns) => template_of(old(self).templates@, template_id) is Some && final(self).nodes@
                    == nodes_reordered(old(self).nodes@, template_id, orders@) && ns@ == flat_order(
                    nodes_in(final(self).nodes@, template_id),
                ),
                Err(e) => template_of(old(self).templates@, template_id) is None && e is NotFound
                    && e.message() == "document_template_not_found"@ && final(self).nodes@ == old(
                    self,
                ).nodes@,
            },
    {
        if let Err(e) = self.get_template(template_id) {
            return Err(e);
        }
        let ghost before = self.nodes@;
        let mut j: usize = 0;
        while j < self.nodes.len()
            invariant
                j <= self.nodes@.len(),
                self.nodes@.len() == before.len(),
                self.templates@ == old(self).templates@,
                self.edges@ == old(self).edges@,
                before == old(self).nodes@,
                old(self).wf(),
                forall|x: int|
                    0 <= x < before.len() ==> (#[trigger] self.nodes@[x]) == if x < j {
                        nodes_reordered(before, template_id, orders@)[x]
                    } else {
                        before[x]
                    },
            decreases self.nodes.len() - j,
        {
            if self.nodes[j].template_id == template_id {
                let k = key_after_exec(&orders, self.nodes[j].id, self.nodes[j].sort_key);
                let mut n = self.nodes[j].clone();
                n.sort_key = k;
                self.nodes.set(j, n);
            }
            j = j + 1;
        }
        assert(self.nodes@ =~= nodes_reordered(before, template_id, orders@));
        proof {
            assert forall|i: int| 0 <= i < self.edges@.len() implies node_in_template(
                self.nodes@,
                (#[trigger] self.edges@[i]).template_id,
                self.edges@[i].source_node_id,
            ) && node_in_template(self.nodes@, self.edges@[i].template_id, self.edges@[i].target_node_id) by {
                let a = choose|a: int| 0 <= a < before.len() && #[trigger] before[a].id == self.edges@[i].source_node_id
                    && before[a].template_id == self.edges@[i].template_id;
                let b = choose|b: int| 0 <= b < before.len() && #[trigger] before[b].id == self.edges@[i].target_node_id
                    && before[b].template_id == self.edges@[i].template_id;
                assert(self.nodes@[a].id == before[a].id && self.nodes@[a].template_id == before[a].template_id);
                assert(self.nodes@[b].id == before[b].id && self.nodes@[b].template_id == before[b].template_id);
            }
        }
        let (ns, _es) = self.template_graph(template_id);
        Ok(Self::sort_nodes(ns))
    }

    /// Adds an edge `source -> target` to template `t`; a blank type becomes
    /// `contains`. NotFound (`document_template_not_found`); Validation (`edge
    /// source and target must differ`); NotFound (`edge endpoint node not in
    /// template`) when an end is not a node of the template.
    pub fn add_edge(
        &mut self,
        template_id: u128,
        source_node_id: u128,
        target_node_id: u128,
        edge_type: String,
    ) -> (r: Result<TemplateEdge, ServiceError>)
        requires
            old(self).wf(),
        ensures
            final(self).wf(),
            final(self).templates@ == old(self).templates@,
            final(self).nodes@ == old(self).nodes@,
            match r {
                Ok(e) => {
                    &&& template_of(old(self).templates@, template_id) is Some
                    &&& source_node_id != target_node_id
                    &&& node_in_template(old(self).nodes@, template_id, source_node_id)
                    &&& node_in_template(old(self).nodes@, template_id, target_node_id)
                    &&& e.template_id == template_id
                    &&& e.source_node_id == source_node_id
                    &&& e.target_node_id == target_node_id
                    &&& e.edge_type@ == if is_blank_seq(edge_type@) {
                        "contains"@
                    } else {
                        edge_type@
                    }
                    &&& final(self).edges@ == old(self).edges@.push(e)
                },
                Err(e) => final(self).edges@ == old(self).edges@ && if template_of(
                    old(self).templates@,
                    template_id,
                ) is None {
                    e is NotFound && e.message() == "document_template_not_found"@
                } else if source_node_id == target_node_id {
                    e is Validation && e.message() == "edge source and target must differ"@
                } else {
                    !(node_in_template(old(self).nodes@, template_id, source_node_id)
                        && node_in_template(old(self).nodes@, template_id, target_node_id))
                        && e is NotFound && e.message() == "edge endpoint node not in template"@
                },
            },
    {
        if let Err(e) = self.get_template(template_id) {
            return Err(e);
        }
        if source_node_id == target_node_id {
            return Err(ServiceError::Validation(String::from_str("edge source and target must differ")));
        }
        let mut has_s = false;
        let mut has_t = false;
        let mut i: usize = 0;
        while i < self.nodes.len()
            invariant
                i <= self.nodes@.len(),
                has_s == exists|j: int| 0 <= j < i && #[trigger] self.nodes@[j].id == source_node_id
                    && self.nodes@[j].template_id == template_id,
                has_t == exists|j: int| 0 <= j < i && #[trigger] self.nodes@[j].id == target_node_id
                    && self.nodes@[j].template_id == template_id,
            decreases self.nodes.len() - i,
        {
            if self.nodes[i].template_id == template_id {
                if self.nodes[i].id == source_node_id {
                    has_s = true;
                }
                if self.nodes[i].id == target_node_id {
                    has_t = true;
                }
            }
            i = i + 1;
        }
        if !has_s || !has_t {
            return Err(ServiceError::NotFound(String::from_str("edge endpoint node not in template")));
        }
        let kind = if is_blank(edge_type.as_str()) {
            String::from_str("contains")
        } else {
            edge_type
        };
        let edge = TemplateEdge {
            id: new_id(),
            template_id,
            source_node_id,
            target_node_id,
            edge_type: kind,
            created_at: now_micros(),
        };
        self.edges.push(edge.clone());
        Ok(edge)
    }

    /// Removes the edge `id`. NotFound (`document_template_edge_not_found`).
    pub fn remove_edge(&mut self, id: u128) -> (r: Result<(), ServiceError>)
        requires
            old(self).wf(),
        ensures
            final(self).wf(),
            final(self).templates@ == old(self).templates@,
            final(self).nodes@ == old(self).nodes@,
            match r {
                Ok(()) => exists|j: int|
                    0 <= j < old(self).edges@.len() && #[trigger] old(self).edges@[j].id == id
                        && final(self).edges@ == old(self).edges@.remove(j),
                Err(e) => final(self).edges@ == old(self).edges@ && e is NotFound && e.message()
                    == "document_template_edge_not_found"@ && forall|j: int|
                    0 <= j < old(self).edges@.len() ==> (#[trigger] old(self).edges@[j]).id != id,
            },
    {
        let mut j: usize = 0;
        while j < self.edges.len()
            invariant
                self.edges@ == old(self).edges@,
                j <= self.edges@.len(),
                forall|x: int| 0 <= x < j ==> (#[trigger] self.edges@[x]).id != id,
            ensures
                self.edges@ == old(self).edges@,
                j <= self.edges@.len(),
                j < self.edges@.len() ==> self.edges@[j as int].id == id,
                forall|x: int| 0 <= x < j ==> (#[trigger] self.edges@[x]).id != id,
            decreases self.edges.len() - j,
        {
            if self.edges[j].id == id {
                break;
            }
            j = j + 1;
        }
        if j >= self.edges.len() {
            return Err(ServiceError::NotFound(String::from_str("document_template_edge_not_found")));
        }
        let ghost before = self.edges@;
        self.edges.remove(j);
        proof {
            assert(before[j as int].id == id);
            assert forall|i: int| 0 <= i < self.edges@.len() implies node_in_template(
                self.nodes@,
                (#[trigger] self.edges@[i]).template_id,
                self.edges@[i].source_node_id,
            ) && node_in_template(self.nodes@, self.edges@[i].template_id, self.edges@[i].target_node_id) by {
                let i0 = if i < j { i } else { i + 1 };
                assert(self.edges@[i] == before[i0]);
            }
        }
        Ok(())
    }
}

/// `node_of` finds a node exactly when some node has the id.
pub proof fn lemma_node_of_iff(s: Seq<TemplateNode>, id: u128)
    ensures
        node_of(s, id) is Some <==> has_tnode_id(s, id),
    decreases s.len(),
{
    if s.len() > 0 {
        lemma_node_of_iff(s.drop_last(), id);
        if exists|i: int| 0 <= i < s.len() && #[trigger] s[i].id == id {
            let i = choose|i: int| 0 <= i < s.len() && #[trigger] s[i].id == id;
            if i < s.len() - 1 {
                assert(s.drop_last()[i].id == id);
            }
        }
        if exists|i: int| 0 <= i < s.drop_last().len() && #[trigger] s.drop_last()[i].id == id {
            let i = choose|i: int| 0 <= i < s.drop_last().len() && #[trigger] s.drop_last()[i].id == id;
            assert(s[i].id == id);
        }
    }
}

/// A node of template `t` is among `nodes_in(nodes, t)`.
pub proof fn lemma_nodes_in_has(nodes: Seq<TemplateNode>, t: u128, id: u128)
    requires
        node_in_template(nodes, t, id),
    ensures
        has_tnode_id(nodes_in(nodes, t), id),
    decreases nodes.len(),
{
    let w = choose|w: int| 0 <= w < nodes.len() && #[trigger] nodes[w].id == id && nodes[w].template_id == t;
    let r = nodes_in(nodes, t);
    let d = nodes_in(nodes.drop_last(), t);
    if nodes.last().template_id == t {
        assert(r == d.push(nodes.last()));
    } else {
        assert(r == d);
    }
    if w == nodes.len() - 1 {
        assert(r[r.len() - 1].id == id);
    } else {
        assert(nodes.drop_last()[w].id == id);
        lemma_nodes_in_has(nodes.drop_last(), t, id);
        let v = choose|v: int| 0 <= v < d.len() && #[trigger] d[v].id == id;
        assert(r[v] == d[v]);
    }
}

/// Every edge of `edges_in(edges, t)` is an edge of template `t`.
pub proof fn lemma_edges_in_sub(edges: Seq<TemplateEdge>, t: u128)
    ensures
        forall|k: int|
            0 <= k < edges_in(edges, t).len() ==> edges.contains(#[trigger] edges_in(edges, t)[k])
                && edges_in(edges, t)[k].template_id == t,
    decreases edges.len(),
{
    if edges.len() > 0 {
        lemma_edges_in_sub(edges.drop_last(), t);
        let r = edges_in(edges, t);
        let d = edges_in(edges.drop_last(), t);
        assert forall|k: int| 0 <= k < r.len() implies edges.contains(#[trigger] r[k])
            && r[k].template_id == t by {
            if k < d.len() {
                assert(r[k] == d[k]);
                assert(edges.drop_last().contains(d[k]));
                let w = choose|w: int| 0 <= w < edges.drop_last().len() && edges.drop_last()[w] == d[k];
                assert(edges[w] == d[k]);
            } else {
                assert(edges[edges.len() - 1] == r[k]);
            }
        }
    }
}

/// The order `key_after` picks for `id`: the last one naming it, else `cur`.
fn key_after_exec(orders: &Vec<(u128, i32)>, id: u128, cur: i32) -> (r: i32)
    ensures
        r == crate::trace_service::key_after(orders@, id, cur),
{
    let mut i: usize = orders.len();
    assert(orders@.take(i as int) =~= orders@);
    while i > 0
        invariant
            i <= orders@.len(),
            crate::trace_service::key_after(orders@, id, cur) == crate::trace_service::key_after(
                orders@.take(i as int),
                id,
                cur,
            ),
        decreases i,
    {
        assert(orders@.take(i as int).drop_last() =~= orders@.take(i - 1));
        if orders[i - 1].0 == id {
            return orders[i - 1].1;
        }
        i = i - 1;
    }
    cur
}

/// A node with another id stays in `nodes_without`.
pub proof fn lemma_nodes_without_keeps(nodes: Seq<TemplateNode>, id: u128)
    ensures
        forall|t2: u128, id2: u128|
            id2 != id && node_in_template(nodes, t2, id2) ==> #[trigger] node_in_template(
                nodes_without(nodes, id),
                t2,
                id2,
            ),
    decreases nodes.len(),
{
    if nodes.len() > 0 {
        lemma_nodes_without_keeps(nodes.drop_last(), id);
        assert forall|t2: u128, id2: u128|
            id2 != id && node_in_template(nodes, t2, id2) implies #[trigger] node_in_template(
            nodes_without(nodes, id),
            t2,
            id2,
        ) by {
            let w = choose|w: int| 0 <= w < nodes.len() && #[trigger] nodes[w].id == id2 && nodes[w].template_id == t2;
            let r = nodes_without(nodes, id);
            let d = nodes_without(nodes.drop_last(), id);
            if nodes.last().id != id {
                assert(r == d.push(nodes.last()));
            } else {
                assert(r == d);
            }
            if w == nodes.len() - 1 {
                assert(r[r.len() - 1].id == id2);
            } else {
                assert(nodes.drop_last()[w].id == id2);
                assert(node_in_template(nodes.drop_last(), t2, id2));
                assert(node_in_template(d, t2, id2));
                let v = choose|v: int| 0 <= v < d.len() && #[trigger] d[v].id == id2 && d[v].template_id == t2;
                assert(r[v] == d[v]);
            }
        }
    }
}

/// The template found for an id has that id.
pub proof fn lemma_template_of_id(ts: Seq<DocumentTemplate>, id: u128)
    ensures
        template_of(ts, id) matches Some(t) ==> t.id == id,
    decreases ts.len(),
{
    if ts.len() > 0 {
        lemma_template_of_id(ts.drop_last(), id);
    }
}

/// Every kept edge is an edge of the input, and none is removed by the filter.
pub proof fn lemma_edges_kept_sub(edges: Seq<TemplateEdge>, t: Option<u128>, n: Option<u128>)
    ensures
        forall|k: int|
            0 <= k < edges_kept(edges, t, n).len() ==> edges.contains(
                #[trigger] edges_kept(edges, t, n)[k],
            ) && !(t is Some && edges_kept(edges, t, n)[k].template_id == t->0) && !(n is Some && (
            edges_kept(edges, t, n)[k].source_node_id == n->0 || edges_kept(edges, t, n)[k].target_node_id
                == n->0)),
    decreases edges.len(),
{
    if edges.len() > 0 {
        lemma_edges_kept_sub(edges.drop_last(), t, n);
        let r = edges_kept(edges, t, n);
        let d = edges_kept(edges.drop_last(), t, n);
        assert forall|k: int| 0 <= k < r.len() implies edges.contains(#[trigger] r[k]) by {
            if k < d.len() {
                assert(r[k] == d[k]);
                assert(edges.drop_last().contains(d[k]));
                let w = choose|w: int| 0 <= w < edges.drop_last().len() && edges.drop_last()[w] == d[k];
                assert(edges[w] == d[k]);
            } else {
                assert(r[k] == edges.last());
                assert(edges[edges.len() - 1] == r[k]);
            }
        }
        assert forall|k: int| 0 <= k < r.len() implies !(t is Some && (#[trigger] r[k]).template_id
            == t->0) && !(n is Some && (r[k].source_node_id == n->0 || r[k].target_node_id == n->0)) by {
            if k < d.len() {
                assert(r[k] == d[k]);
            }
        }
    }
}

/// A node of another template than `t` stays in `nodes_not_in`.
pub proof fn lemma_nodes_not_in_keeps(nodes: Seq<TemplateNode>, t: u128)
    ensures
        forall|t2: u128, id: u128|
            t2 != t && node_in_template(nodes, t2, id) ==> #[trigger] node_in_template(
                nodes_not_in(nodes, t),
                t2,
                id,
            ),
    decreases nodes.len(),
{
    if nodes.len() > 0 {
        lemma_nodes_not_in_keeps(nodes.drop_last(), t);
        assert forall|t2: u128, id: u128|
            t2 != t && node_in_template(nodes, t2, id) implies #[trigger] node_in_template(
            nodes_not_in(nodes, t),
            t2,
            id,
        ) by {
            let w = choose|w: int| 0 <= w < nodes.len() && #[trigger] nodes[w].id == id && nodes[w].template_id == t2;
            let r = nodes_not_in(nodes, t);
            let d0 = nodes_not_in(nodes.drop_last(), t);
            if nodes.last().template_id != t {
                assert(r == d0.push(nodes.last()));
            } else {
                assert(r == d0);
            }
            if w == nodes.len() - 1 {
                assert(r[r.len() - 1].id == id);
            } else {
                assert(nodes.drop_last()[w].id == id);
                assert(node_in_template(nodes.drop_last(), t2, id));
                let d = nodes_not_in(nodes.drop_last(), t);
                assert(node_in_template(d, t2, id));
                let v = choose|v: int| 0 <= v < d.len() && #[trigger] d[v].id == id && d[v].template_id == t2;
                assert(r[v] == d[v]);
            }
        }
    }
}

} // verus!
