//! The trace service: single-record operations, bulk ingest, requirement
//! upload, derived views and baselines, all scoped to one project. A record
//! of another project is treated as absent.
use vstd::prelude::*;
use crate::error::ServiceError;
use crate::graph::Edge;
use crate::ids::now_micros;
use crate::text::{is_blank, is_blank_seq, opt_view, trim, trim_seq};
use crate::trace_model::{LinkType, TraceBaseline, TraceLink, TraceNode, TraceNodeKind};
use crate::trace_store::{
    foreign_links_apart, lemma_kept_link_remove, lemma_kept_node_remove, lemma_kept_node_upsert,
    lemma_nodes_of_pointwise, other_baselines_kept, other_links_kept, other_nodes_kept, others_kept,
    baselines_of, has_key, has_link_id, has_node_id, has_node_in, links_of, node_by_key, node_in, nodes_of, same_key, same_link_key,
    TraceStore,
};

verus! {

/// The slot of a stage in the per-stage counters.
pub open spec fn kind_slot(k: TraceNodeKind) -> int {
    match k {
        TraceNodeKind::TestReport => 0,
        TraceNodeKind::TestRecord => 1,
        TraceNodeKind::TestCase => 2,
        TraceNodeKind::TestItem => 3,
        TraceNodeKind::SoftwareRequirement => 4,
    }
}

/// The largest sort key of the stage `k` in project `p`, or -1 when the stage is empty.
pub open spec fn stage_max(nodes: Seq<TraceNode>, p: u128, k: TraceNodeKind) -> int
    decreases nodes.len(),
{
    if nodes.len() == 0 {
        -1
    } else {
        let m = stage_max(nodes.drop_last(), p, k);
        let n = nodes.last();
        if n.project_id == p && n.kind == k && n.sort_key > m {
            n.sort_key as int
        } else {
            m
        }
    }
}

/// The stored form of every link: `(source, target, type)`.
pub open spec fn edges_spec(links: Seq<TraceLink>) -> Seq<Edge> {
    links.map_values(|l: TraceLink| (l.source_node_id, l.target_node_id, l.link_type))
}

/// `Some(s.trim())` unless absent or blank.
pub open spec fn trimmed_nonblank(s: Option<Seq<char>>) -> Option<Seq<char>> {
    match s {
        Some(m) => if trim_seq(m).len() == 0 {
            None
        } else {
            Some(trim_seq(m))
        },
        None => None,
    }
}

/// `n` is `old` after an update: the given fields replaced (title,
/// description and module trimmed), id, project, key, sort key and creation
/// time kept; the update time is the clock's.
pub open spec fn node_updated(
    old: TraceNode,
    kind: Option<TraceNodeKind>,
    title: Option<Seq<char>>,
    description: Option<Seq<char>>,
    module: Option<Seq<char>>,
    attributes: Option<serde_json::Value>,
    n: TraceNode,
) -> bool {
    &&& n.id == old.id
    &&& n.project_id == old.project_id
    &&& n.external_source == old.external_source
    &&& n.external_ref == old.external_ref
    &&& n.sort_key == old.sort_key
    &&& n.created_at == old.created_at
    &&& n.kind == (match kind {
        Some(k) => k,
        None => old.kind,
    })
    &&& match title {
        Some(t) => n.title@ == trim_seq(t),
        None => n.title == old.title,
    }
    &&& match description {
        Some(d) => opt_view(n.description) == Some(trim_seq(d)),
        None => n.description == old.description,
    }
    &&& match module {
        Some(m) => opt_view(n.module) == Some(trim_seq(m)),
        None => n.module == old.module,
    }
    &&& n.attributes == (match attributes {
        Some(a) => a,
        None => old.attributes,
    })
}

/// A link of project `p` has this id.
pub open spec fn has_link_in(links: Seq<TraceLink>, p: u128, id: u128) -> bool {
    exists|i: int| 0 <= i < links.len() && #[trigger] links[i].id == id && links[i].project_id == p
}

/// The sort key that the orders give node `id`: the last order naming it,
/// else `cur`.
pub open spec fn key_after(orders: Seq<(u128, i32)>, id: u128, cur: i32) -> i32
    decreases orders.len(),
{
    if orders.len() == 0 {
        cur
    } else if orders.last().0 == id {
        orders.last().1
    } else {
        key_after(orders.drop_last(), id, cur)
    }
}

pub open spec fn with_sort_key(n: TraceNode, k: i32) -> TraceNode {
    TraceNode { sort_key: k, ..n }
}

/// The store after the orders are applied to the nodes of project `p`
/// (orders naming other ids change nothing).
pub open spec fn reordered(nodes: Seq<TraceNode>, p: u128, orders: Seq<(u128, i32)>) -> Seq<
    TraceNode,
> {
    Seq::new(
        nodes.len(),
        |j: int|
            if nodes[j].project_id == p {
                with_sort_key(nodes[j], key_after(orders, nodes[j].id, nodes[j].sort_key))
            } else {
                nodes[j]
            },
    )
}

/// Reordering the nodes of project `p` leaves every other project's nodes as they were.
pub proof fn lemma_reordered_kept(nodes: Seq<TraceNode>, p: u128, orders: Seq<(u128, i32)>, q: u128)
    requires
        q != p,
    ensures
        nodes_of(reordered(nodes, p, orders), q) == nodes_of(nodes, q),
{
    lemma_nodes_of_pointwise(nodes, reordered(nodes, p, orders), q);
}

/// The trace graph service over the store of all projects.
pub struct TraceService {
    pub store: TraceStore,
}

fn slot(k: TraceNodeKind) -> (r: usize)
    ensures
        r == kind_slot(k),
{
    match k {
        TraceNodeKind::TestReport => 0,
        TraceNodeKind::TestRecord => 1,
        TraceNodeKind::TestCase => 2,
        TraceNodeKind::TestItem => 3,
        TraceNodeKind::SoftwareRequirement => 4,
    }
}

fn not_found_node() -> (e: ServiceError)
    ensures
        e is NotFound,
        e.message() == "trace_node_not_found"@,
{
    ServiceError::NotFound(String::from_str("trace_node_not_found"))
}

pub(crate) fn trim_opt_nonblank(s: Option<String>) -> (r: Option<String>)
    ensures
        opt_view(r) == trimmed_nonblank(opt_view(s)),
{
    match s {
        Some(m) => {
            let t = trim(m.as_str());
            if t.as_str().is_empty() {
                None
            } else {
                Some(t)
            }
        },
        None => None,
    }
}

impl TraceService {
    pub open spec fn wf(&self) -> bool {
        self.store.wf()
    }

    /// An empty service.
    pub fn new() -> (s: TraceService)
        ensures
            s.wf(),
            s.store.nodes@.len() == 0,
            s.store.links@.len() == 0,
            s.store.baselines@.len() == 0,
    {
        TraceService { store: TraceStore::new() }
    }

    /// The node `id` of project `p`; a node of another project is NotFound
    /// too (`trace_node_not_found`).
    pub fn get_node(&self, project_id: u128, id: u128) -> (r: Result<TraceNode, ServiceError>)
        ensures
            match r {
                Ok(n) => node_in(self.store.nodes@, project_id, id) == Some(n),
                Err(e) => node_in(self.store.nodes@, project_id, id) is None && e is NotFound
                    && e.message() == "trace_node_not_found"@,
            },
    {
        match self.store.find_node_in(project_id, id) {
            Some(n) => Ok(n),
            None => Err(not_found_node()),
        }
    }

    pub fn list_nodes(&self, project_id: u128) -> (r: Vec<TraceNode>)
        ensures
            r@ == nodes_of(self.store.nodes@, project_id),
    {
        self.store.list_nodes(project_id)
    }

    pub fn list_links(&self, project_id: u128) -> (r: Vec<TraceLink>)
        ensures
            r@ == links_of(self.store.links@, project_id),
    {
        self.store.list_links(project_id)
    }

    pub fn list_baselines(&self, project_id: u128) -> (r: Vec<TraceBaseline>)
        ensures
            r@ == baselines_of(self.store.baselines@, project_id),
    {
        self.store.list_baselines(project_id)
    }

    /// The links of project `p` as `(source, target, type)`, in store order.
    pub fn graph_edges(&self, project_id: u128) -> (r: Vec<Edge>)
        ensures
            r@ == edges_spec(links_of(self.store.links@, project_id)),
    {
        let links = self.store.list_links(project_id);
        let mut r: Vec<Edge> = Vec::new();
        let mut i: usize = 0;
        while i < links.len()
            invariant
                i <= links@.len(),
                r@ == edges_spec(links@.take(i as int)),
            decreases links.len() - i,
        {
            let l = &links[i];
            r.push((l.source_node_id, l.target_node_id, l.link_type));
            i = i + 1;
            assert(edges_spec(links@.take(i as int)) =~= r@);
        }
        assert(links@.take(links@.len() as int) =~= links@);
        r
    }

    /// Per stage (by `kind_slot`), the largest sort key in project `p`, -1 for an empty stage.
    pub(crate) fn next_sort_map(&self, project_id: u128) -> (r: Vec<i32>)
        ensures
            r@.len() == 5,
            forall|k: TraceNodeKind|
                r@[#[trigger] kind_slot(k)] == stage_max(self.store.nodes@, project_id, k),
    {
        let mut r: Vec<i32> = vec![-1, -1, -1, -1, -1];
        let ghost nodes = self.store.nodes@;
        let mut i: usize = 0;
        while i < self.store.nodes.len()
            invariant
                nodes == self.store.nodes@,
                i <= nodes.len(),
                r@.len() == 5,
                forall|k: TraceNodeKind|
                    r@[#[trigger] kind_slot(k)] == stage_max(nodes.take(i as int), project_id, k),
            decreases self.store.nodes.len() - i,
        {
            assert(nodes.take(i + 1).drop_last() =~= nodes.take(i as int));
            let n = &self.store.nodes[i];
            if n.project_id == project_id {
                let s = slot(n.kind);
                if n.sort_key > r[s] {
                    r.set(s, n.sort_key);
                }
            }
            i = i + 1;
            assert forall|k: TraceNodeKind|
                r@[#[trigger] kind_slot(k)] == stage_max(nodes.take(i as int), project_id, k) by {
                assert(kind_slot(k) == kind_slot(n.kind) ==> k == n.kind);
            }
        }
        assert(nodes.take(nodes.len() as int) =~= nodes);
        r
    }

    /// The next sort key of stage `kind`, counting it as taken.
    /// Whether stage `kind` of project `p` has room for `added` more nodes:
    /// their sort keys, after the stage's largest one, still fit in an `i32`.
    pub fn stage_has_room(&self, project_id: u128, kind: TraceNodeKind, added: usize) -> (r: bool)
        ensures
            r == (stage_max(self.store.nodes@, project_id, kind) + added <= i32::MAX),
    {
        let next = self.next_sort_map(project_id);
        let m = next[slot(kind)];
        (m as i128) + (added as i128) <= 2147483647i128
    }

    pub(crate) fn take_next(next: &mut Vec<i32>, kind: TraceNodeKind) -> (r: i32)
        requires
            old(next)@.len() == 5,
            old(next)@[kind_slot(kind)] < i32::MAX,
        ensures
            r == old(next)@[kind_slot(kind)] + 1,
            final(next)@ == old(next)@.update(kind_slot(kind), r),
    {
        let s = slot(kind);
        let v = next[s] + 1;
        next.set(s, v);
        v
    }

    /// Creates a node at the end of its stage. Validation when the trimmed
    /// source or reference is empty (`external_source and external_ref must
    /// not be empty`) or the title is blank (`title must not be empty`);
    /// Conflict when the project already has a node with that key. The stored
    /// node has the trimmed key and title, the module trimmed (a blank one
    /// dropped), a fresh id and the next sort key of its stage; a Repository
    /// error, with nothing stored, when that fresh id is already taken.
    pub fn create_node(
        &mut self,
        project_id: u128,
        kind: TraceNodeKind,
        external_source: String,
        external_ref: String,
        module: Option<String>,
        title: String,
        description: Option<String>,
    ) -> (r: Result<TraceNode, ServiceError>)
        requires
            old(self).wf(),
            stage_max(old(self).store.nodes@, project_id, kind) < i32::MAX,
        ensures
            others_kept(old(self).store, final(self).store, project_id),
            final(self).wf(),
            final(self).store.links@ == old(self).store.links@,
            final(self).store.baselines@ == old(self).store.baselines@,
            match r {
                Ok(n) => {
                    &&& trim_seq(external_source@).len() > 0
                    &&& trim_seq(external_ref@).len() > 0
                    &&& !is_blank_seq(title@)
                    &&& node_by_key(
                        old(self).store.nodes@,
                        project_id,
                        trim_seq(external_source@),
                        trim_seq(external_ref@),
                    ) is None
                    &&& n.project_id == project_id
                    &&& n.kind == kind
                    &&& n.external_source@ == trim_seq(external_source@)
                    &&& n.external_ref@ == trim_seq(external_ref@)
                    &&& opt_view(n.module) == trimmed_nonblank(opt_view(module))
                    &&& n.title@ == trim_seq(title@)
                    &&& n.description == description
                    &&& n.sort_key == stage_max(old(self).store.nodes@, project_id, kind) + 1
                    &&& !has_node_id(old(self).store.nodes@, n.id)
                    &&& final(self).store.nodes@ == old(self).store.nodes@.push(n)
                },
                Err(e) => {
                    &&& final(self).store.nodes@ == old(self).store.nodes@
                    &&& if trim_seq(external_source@).len() == 0 || trim_seq(external_ref@).len()
                        == 0 {
                        e is Validation && e.message()
                            == "external_source and external_ref must not be empty"@
                    } else if is_blank_seq(title@) {
                        e is Validation && e.message() == "title must not be empty"@
                    } else if node_by_key(
                        old(self).store.nodes@,
                        project_id,
                        trim_seq(external_source@),
                        trim_seq(external_ref@),
                    ) is Some {
                        e is Conflict && e.message()
                            == "trace node with this external key already exists"@
                    } else {
                        e is Repository && exists|id: u128| #[trigger] has_node_id(old(self).store.nodes@, id)
                    }
                },
            },
    {
        let source = trim(external_source.as_str());
        let reference = trim(external_ref.as_str());
        if source.as_str().is_empty() || reference.as_str().is_empty() {
            return Err(
                ServiceError::Validation(
                    String::from_str("external_source and external_ref must not be empty"),
                ),
            );
        }
        if is_blank(title.as_str()) {
            return Err(ServiceError::Validation(String::from_str("title must not be empty")));
        }
        if self.store.find_by_external(project_id, source.as_str(), reference.as_str()).is_some() {
            return Err(
                ServiceError::Conflict(
                    String::from_str("trace node with this external key already exists"),
                ),
            );
        }
        let mut next = self.next_sort_map(project_id);
        let mut node = TraceNode::new(
            kind,
            source,
            reference,
            trim_opt_nonblank(module),
            trim(title.as_str()),
            description,
        );
        node.project_id = project_id;
        node.sort_key = Self::take_next(&mut next, kind);
        proof {
            lemma_no_key_when_none(old(self).store.nodes@, node);
        }
        match self.store.upsert_node(node.clone()) {
            Ok(_) => {
                proof {
                    lemma_kept_node_upsert(old(self).store, self.store, node, project_id);
                }
                Ok(node)
            },
            Err(e) => {
                assert(has_node_id(old(self).store.nodes@, node.id));
                Err(e)
            },
        }
    }

    /// Updates the given fields of node `id` of project `p` (title,
    /// description and module trimmed) and stamps the update time. NotFound
    /// (`trace_node_not_found`) when the project has no such node; Validation
    /// (`title must not be empty`) for a blank title; nothing changes then.
    pub fn update_node(
        &mut self,
        project_id: u128,
        id: u128,
        kind: Option<TraceNodeKind>,
        title: Option<String>,
        description: Option<String>,
        module: Option<String>,
        attributes: Option<serde_json::Value>,
    ) -> (r: Result<TraceNode, ServiceError>)
        requires
            old(self).wf(),
        ensures
            others_kept(old(self).store, final(self).store, project_id),
            final(self).wf(),
            final(self).store.links@ == old(self).store.links@,
            final(self).store.baselines@ == old(self).store.baselines@,
            match r {
                Ok(n) => {
                    &&& node_in(old(self).store.nodes@, project_id, id) is Some
                    &&& !(title matches Some(t) && is_blank_seq(t@))
                    &&& node_updated(
                        node_in(old(self).store.nodes@, project_id, id)->0,
                        kind,
                        opt_view(title),
                        opt_view(description),
                        opt_view(module),
                        attributes,
                        n,
                    )
                    &&& exists|j: int|
                        0 <= j < old(self).store.nodes@.len() && #[trigger] old(
                            self,
                        ).store.nodes@[j].id == id && final(self).store.nodes@ == old(
                            self,
                        ).store.nodes@.update(j, n)
                },
                Err(e) => {
                    &&& final(self).store.nodes@ == old(self).store.nodes@
                    &&& if node_in(old(self).store.nodes@, project_id, id) is None {
                        e is NotFound && e.message() == "trace_node_not_found"@
                    } else {
                        title matches Some(t) && is_blank_seq(t@) && e is Validation && e.message()
                            == "title must not be empty"@
                    }
                },
            },
    {
        let mut node = match self.get_node(project_id, id) {
            Ok(n) => n,
            Err(e) => {
                return Err(e);
            },
        };
        let ghost old_node = node;
        if let Some(k) = kind {
            node.kind = k;
        }
        if let Some(t) = title {
            if is_blank(t.as_str()) {
                return Err(ServiceError::Validation(String::from_str("title must not be empty")));
            }
            node.title = trim(t.as_str());
        }
        if let Some(d) = description {
            node.description = Some(trim(d.as_str()));
        }
        if let Some(m) = module {
            node.module = Some(trim(m.as_str()));
        }
        if let Some(a) = attributes {
            node.attributes = a;
        }
        node.updated_at = now_micros();
        proof {
            lemma_node_in_index(old(self).store.nodes@, project_id, id);
        }
        let ghost before = self.store.nodes@;
        let res = self.store.upsert_node(node.clone());
        proof {
            let j = choose|j: int|
                0 <= j < before.len() && before[j] == old_node && #[trigger] before[j].id == id
                    && before[j].project_id == project_id;
            assert(same_key(before[j], node));
            assert(has_key(before, node));
            let i = choose|i: int|
                0 <= i < before.len() && #[trigger] same_key(before[i], node) && self.store.nodes@
                    == before.update(i, crate::trace_store::merged_node(before[i], node));
            assert(i == j) by {
                if i != j {
                    assert(same_key(before[i], before[j]));
                    if i < j {
                        assert(!same_key(before[i], before[j]));
                    } else {
                        assert(!same_key(before[j], before[i]));
                    }
                }
            }
            assert(crate::trace_store::merged_node(before[j], node) == node);
            lemma_kept_node_upsert(old(self).store, self.store, node, project_id);
        }
        Ok(node)
    }

    /// Deletes node `id` of project `p`; NotFound (`trace_node_not_found`)
    /// when the project has no such node.
    pub fn delete_node(&mut self, project_id: u128, id: u128) -> (r: Result<(), ServiceError>)
        requires
            old(self).wf(),
        ensures
            others_kept(old(self).store, final(self).store, project_id),
            final(self).wf(),
            final(self).store.links@ == old(self).store.links@,
            final(self).store.baselines@ == old(self).store.baselines@,
            match r {
                Ok(()) => exists|j: int|
                    0 <= j < old(self).store.nodes@.len() && #[trigger] old(
                        self,
                    ).store.nodes@[j].id == id && old(self).store.nodes@[j].project_id == project_id
                        && final(self).store.nodes@ == old(self).store.nodes@.remove(j),
                Err(e) => final(self).store.nodes@ == old(self).store.nodes@ && !has_node_in(
                    old(self).store.nodes@,
                    project_id,
                    id,
                ) && e is NotFound && e.message() == "trace_node_not_found"@,
            },
    {
        proof {
            lemma_node_in_none(self.store.nodes@, project_id, id);
        }
        if let Err(e) = self.get_node(project_id, id) {
            return Err(e);
        }
        let mut j: usize = 0;
        while j < self.store.nodes.len()
            invariant
                self.store == old(self).store,
                has_node_in(self.store.nodes@, project_id, id),
                j <= self.store.nodes@.len(),
                forall|x: int| 0 <= x < j ==> !(#[trigger] self.store.nodes@[x].id == id
                    && self.store.nodes@[x].project_id == project_id),
            ensures
                self.store == old(self).store,
                j <= self.store.nodes@.len(),
                j < self.store.nodes@.len() ==> self.store.nodes@[j as int].id == id
                    && self.store.nodes@[j as int].project_id == project_id,
                forall|x: int| 0 <= x < j ==> !(#[trigger] self.store.nodes@[x].id == id
                    && self.store.nodes@[x].project_id == project_id),
            decreases self.store.nodes.len() - j,
        {
            if self.store.nodes[j].id == id && self.store.nodes[j].project_id == project_id {
                break;
            }
            j = j + 1;
        }
        if j >= self.store.nodes.len() {
            proof {
                let x = choose|x: int|
                    0 <= x < self.store.nodes@.len() && #[trigger] self.store.nodes@[x].id == id
                        && self.store.nodes@[x].project_id == project_id;
                assert(false);
            }
            return Ok(());
        }
        let ghost before = self.store.nodes@;
        assert(before[j as int].id == id);
        self.store.nodes.remove(j);
        proof {
            assert forall|a: int, b: int| 0 <= a < b < self.store.nodes@.len() implies self.store.nodes@[a].id
                != self.store.nodes@[b].id && !same_key(self.store.nodes@[a], self.store.nodes@[b]) by {
                let a0 = if a < j { a } else { a + 1 };
                let b0 = if b < j { b } else { b + 1 };
                assert(self.store.nodes@[a] == before[a0]);
                assert(self.store.nodes@[b] == before[b0]);
            }
            lemma_kept_node_remove(old(self).store, self.store, j as int, project_id);
        }
        Ok(())
    }

    /// Links `source -> target` in project `p`. Validation (`source and target
    /// must differ`) for a self-link; NotFound (`trace_node_not_found`) when
    /// an end is not a node of the project. The link is upserted by
    /// `(source, target, type)`; the link as built (with its fresh id) is
    /// given back. A Repository error only when no link has these ends and
    /// type and the fresh id is already taken: re-creating a link succeeds.
    pub fn create_link(
        &mut self,
        project_id: u128,
        source: u128,
        target: u128,
        link_type: LinkType,
    ) -> (r: Result<TraceLink, ServiceError>)
        requires
            old(self).wf(),
        ensures
            other_nodes_kept(old(self).store, final(self).store, project_id),
            other_baselines_kept(old(self).store, final(self).store, project_id),
            foreign_links_apart(old(self).store.links@, old(self).store.nodes@, project_id)
                ==> other_links_kept(old(self).store, final(self).store, project_id),
            final(self).wf(),
            final(self).store.nodes@ == old(self).store.nodes@,
            final(self).store.baselines@ == old(self).store.baselines@,
            match r {
                Ok(l) => {
                    &&& source != target
                    &&& node_in(old(self).store.nodes@, project_id, source) is Some
                    &&& node_in(old(self).store.nodes@, project_id, target) is Some
                    &&& l.project_id == project_id
                    &&& l.source_node_id == source
                    &&& l.target_node_id == target
                    &&& l.link_type == link_type
                    &&& crate::trace_store::link_upserted(
                        old(self).store.links@,
                        l,
                        final(self).store.links@,
                    )
                },
                Err(e) => {
                    &&& final(self).store.links@ == old(self).store.links@
                    &&& if source == target {
                        e is Validation && e.message() == "source and target must differ"@
                    } else if node_in(old(self).store.nodes@, project_id, source) is None || node_in(
                        old(self).store.nodes@,
                        project_id,
                        target,
                    ) is None {
                        e is NotFound && e.message() == "trace_node_not_found"@
                    } else {
                        &&& e is Repository
                        &&& !exists|i: int|
                            0 <= i < old(self).store.links@.len() && #[trigger] old(
                                self,
                            ).store.links@[i].source_node_id == source && old(self).store.links@[i].target_node_id
                                == target && old(self).store.links@[i].link_type == link_type
                        &&& exists|id: u128| #[trigger] has_link_id(old(self).store.links@, id)
                    }
                },
            },
    {
        if source == target {
            return Err(ServiceError::Validation(String::from_str("source and target must differ")));
        }
        if let Err(e) = self.get_node(project_id, source) {
            return Err(e);
        }
        if let Err(e) = self.get_node(project_id, target) {
            return Err(e);
        }
        let mut link = TraceLink::new(source, target, link_type);
        link.project_id = project_id;
        match self.store.upsert_link(link.clone()) {
            Ok(_) => {
                proof {
                    if foreign_links_apart(old(self).store.links@, old(self).store.nodes@, project_id) {
                        lemma_node_in_index(old(self).store.nodes@, project_id, source);
                        let j = choose|j: int|
                            0 <= j < old(self).store.nodes@.len() && old(self).store.nodes@[j] == node_in(
                                old(self).store.nodes@,
                                project_id,
                                source,
                            )->0 && #[trigger] old(self).store.nodes@[j].id == source
                                && old(self).store.nodes@[j].project_id == project_id;
                        assert(has_node_in(old(self).store.nodes@, project_id, source));
                        assert forall|q: u128| q != project_id implies #[trigger] links_of(
                            self.store.links@,
                            q,
                        ) == links_of(old(self).store.links@, q) by {
                            crate::laws::law_link_upsert_isolated(
                                old(self).store.links@,
                                link,
                                self.store.links@,
                                q,
                            );
                        }
                    }
                }
                Ok(link)
            },
            Err(e) => {
                proof {
                    assert forall|i: int|
                        0 <= i < old(self).store.links@.len() && #[trigger] old(self).store.links@[i].source_node_id
                            == source && old(self).store.links@[i].target_node_id == target
                            && old(self).store.links@[i].link_type == link_type implies false by {
                        assert(same_link_key(old(self).store.links@[i], link));
                    }
                    assert(has_link_id(old(self).store.links@, link.id));
                }
                Err(e)
            },
        }
    }

    /// Deletes link `id` of project `p`; NotFound (`trace_link_not_found`)
    /// when the project has no such link.
    pub fn delete_link(&mut self, project_id: u128, id: u128) -> (r: Result<(), ServiceError>)
        requires
            old(self).wf(),
        ensures
            others_kept(old(self).store, final(self).store, project_id),
            final(self).wf(),
            final(self).store.nodes@ == old(self).store.nodes@,
            final(self).store.baselines@ == old(self).store.baselines@,
            match r {
                Ok(()) => exists|j: int|
                    0 <= j < old(self).store.links@.len() && #[trigger] old(
                        self,
                    ).store.links@[j].id == id && old(self).store.links@[j].project_id == project_id
                        && final(self).store.links@ == old(self).store.links@.remove(j),
                Err(e) => final(self).store.links@ == old(self).store.links@ && !has_link_in(
                    old(self).store.links@,
                    project_id,
                    id,
                ) && e is NotFound && e.message() == "trace_link_not_found"@,
            },
    {
        let mut j: usize = 0;
        while j < self.store.links.len()
            invariant
                self.store == old(self).store,
                j <= self.store.links@.len(),
                forall|x: int| 0 <= x < j ==> !(#[trigger] self.store.links@[x].id == id
                    && self.store.links@[x].project_id == project_id),
            ensures
                self.store == old(self).store,
                j <= self.store.links@.len(),
                j < self.store.links@.len() ==> self.store.links@[j as int].id == id
                    && self.store.links@[j as int].project_id == project_id,
                forall|x: int| 0 <= x < j ==> !(#[trigger] self.store.links@[x].id == id
                    && self.store.links@[x].project_id == project_id),
            decreases self.store.links.len() - j,
        {
            if self.store.links[j].id == id && self.store.links[j].project_id == project_id {
                break;
            }
            j = j + 1;
        }
        if j >= self.store.links.len() {
            proof {
                if has_link_in(self.store.links@, project_id, id) {
                    let x = choose|x: int|
                        0 <= x < self.store.links@.len() && #[trigger] self.store.links@[x].id == id
                            && self.store.links@[x].project_id == project_id;
                    assert(false);
                }
            }
            return Err(ServiceError::NotFound(String::from_str("trace_link_not_found")));
        }
        let ghost before = self.store.links@;
        assert(before[j as int].id == id);
        self.store.links.remove(j);
        proof {
            assert forall|a: int, b: int| 0 <= a < b < self.store.links@.len() implies self.store.links@[a].id
                != self.store.links@[b].id && !crate::trace_store::same_link_key(
                self.store.links@[a],
                self.store.links@[b],
            ) by {
                let a0 = if a < j { a } else { a + 1 };
                let b0 = if b < j { b } else { b + 1 };
                assert(self.store.links@[a] == before[a0]);
                assert(self.store.links@[b] == before[b0]);
            }
            lemma_kept_link_remove(old(self).store, self.store, j as int, project_id);
        }
        Ok(())
    }

    /// Writes the orders `(id, sort_key)` onto the nodes of project `p`, in
    /// order; ids that are not nodes of the project are ignored.
    fn set_sort_keys(&mut self, project_id: u128, orders: &Vec<(u128, i32)>)
        requires
            old(self).wf(),
        ensures
            final(self).wf(),
            final(self).store.links@ == old(self).store.links@,
            final(self).store.baselines@ == old(self).store.baselines@,
            final(self).store.nodes@ == reordered(old(self).store.nodes@, project_id, orders@),
    {
        let ghost start = self.store.nodes@;
        let mut i: usize = 0;
        assert(self.store.nodes@ =~= reordered(start, project_id, orders@.take(0)));
        while i < orders.len()
            invariant
                self.wf(),
                self.store.links@ == old(self).store.links@,
                self.store.baselines@ == old(self).store.baselines@,
                start == old(self).store.nodes@,
                i <= orders@.len(),
                self.store.nodes@ == reordered(start, project_id, orders@.take(i as int)),
            decreases orders.len() - i,
        {
            let (id, key) = orders[i];
            assert(orders@.take(i + 1).drop_last() =~= orders@.take(i as int));
            let ghost cur = self.store.nodes@;
            let mut j: usize = 0;
            while j < self.store.nodes.len()
                invariant
                    self.store.nodes@ == cur,
                    self.store.links@ == old(self).store.links@,
                    self.store.baselines@ == old(self).store.baselines@,
                    self.wf(),
                    j <= self.store.nodes@.len(),
                    forall|x: int| 0 <= x < j ==> !(#[trigger] self.store.nodes@[x].id == id
                        && self.store.nodes@[x].project_id == project_id),
                ensures
                    self.store.nodes@ == cur,
                    self.store.links@ == old(self).store.links@,
                    self.store.baselines@ == old(self).store.baselines@,
                    self.wf(),
                    j <= self.store.nodes@.len(),
                    j < self.store.nodes@.len() ==> self.store.nodes@[j as int].id == id
                        && self.store.nodes@[j as int].project_id == project_id,
                    forall|x: int| 0 <= x < j ==> !(#[trigger] self.store.nodes@[x].id == id
                        && self.store.nodes@[x].project_id == project_id),
                decreases self.store.nodes.len() - j,
            {
                if self.store.nodes[j].id == id && self.store.nodes[j].project_id == project_id {
                    break;
                }
                j = j + 1;
            }
            let ghost before = self.store.nodes@;
            if j < self.store.nodes.len() {
                let mut n = self.store.nodes[j].clone();
                n.sort_key = key;
                self.store.nodes.set(j, n);
                proof {
                    assert forall|a: int, b: int| 0 <= a < b < self.store.nodes@.len() implies self.store.nodes@[a].id
                        != self.store.nodes@[b].id && !same_key(
                        self.store.nodes@[a],
                        self.store.nodes@[b],
                    ) by {
                        assert(before[a].id != before[b].id && !same_key(before[a], before[b]));
                    }
                    assert forall|x: int| 0 <= x < start.len() implies self.store.nodes@[x]
                        == reordered(start, project_id, orders@.take(i + 1))[x] by {
                        if x != j && start[x].project_id == project_id {
                            assert(before[x].id != id);
                        }
                    }
                }
            } else {
                proof {
                    assert forall|x: int| 0 <= x < start.len() implies self.store.nodes@[x]
                        == reordered(start, project_id, orders@.take(i + 1))[x] by {
                        if start[x].project_id == project_id {
                            assert(before[x].id == start[x].id);
                            assert(!(before[x].id == id && before[x].project_id == project_id));
                        }
                    }
                }
            }
            assert(self.store.nodes@ =~= reordered(start, project_id, orders@.take(i + 1)));
            i = i + 1;
        }
        assert(orders@.take(orders@.len() as int) =~= orders@);
    }

    /// Manual ordering: writes `(id, sort_key)` pairs onto the nodes of
    /// project `p` (unknown or other projects' ids ignored) and gives back the
    /// project's nodes.
    pub fn apply_order(&mut self, project_id: u128, orders: Vec<(u128, i32)>) -> (r: Vec<TraceNode>)
        requires
            old(self).wf(),
        ensures
            others_kept(old(self).store, final(self).store, project_id),
            final(self).wf(),
            final(self).store.links@ == old(self).store.links@,
            final(self).store.baselines@ == old(self).store.baselines@,
            final(self).store.nodes@ == reordered(old(self).store.nodes@, project_id, orders@),
            r@ == nodes_of(final(self).store.nodes@, project_id),
    {
        self.set_sort_keys(project_id, &orders);
        proof {
            assert forall|q: u128| q != project_id implies #[trigger] nodes_of(self.store.nodes@, q) == nodes_of(
                old(self).store.nodes@,
                q,
            ) by {
                lemma_reordered_kept(old(self).store.nodes@, project_id, orders@, q);
            }
        }
        self.store.list_nodes(project_id)
    }

    /// "Arrange": renumbers every stage of project `p` in the
    /// requirement-anchored order and gives back the project's nodes.
    pub fn arrange(&mut self, project_id: u128) -> (r: Vec<TraceNode>)
        requires
            old(self).wf(),
        ensures
            others_kept(old(self).store, final(self).store, project_id),
            final(self).wf(),
            final(self).store.links@ == old(self).store.links@,
            final(self).store.baselines@ == old(self).store.baselines@,
            exists|orders: Seq<(u128, i32)>, srs: Seq<usize>, blocks: Seq<Seq<usize>>|
                crate::arrange::arrangement_ok(
                    nodes_of(old(self).store.nodes@, project_id),
                    edges_spec(links_of(old(self).store.links@, project_id)),
                    srs,
                    blocks,
                    orders,
                ) && final(self).store.nodes@ == reordered(
                    old(self).store.nodes@,
                    project_id,
                    orders,
                ),
            r@ == nodes_of(final(self).store.nodes@, project_id),
    {
        let nodes = self.store.list_nodes(project_id);
        let edges = self.graph_edges(project_id);
        let orders = crate::arrange::requirement_anchored_order(nodes.as_slice(), edges.as_slice());
        self.set_sort_keys(project_id, &orders);
        proof {
            assert forall|q: u128| q != project_id implies #[trigger] nodes_of(self.store.nodes@, q) == nodes_of(
                old(self).store.nodes@,
                q,
            ) by {
                lemma_reordered_kept(old(self).store.nodes@, project_id, orders@, q);
            }
        }
        self.store.list_nodes(project_id)
    }
}

/// The node that `node_in` finds sits at some index of the store.
pub proof fn lemma_node_in_index(nodes: Seq<TraceNode>, p: u128, id: u128)
    requires
        node_in(nodes, p, id) is Some,
    ensures
        exists|j: int|
            0 <= j < nodes.len() && nodes[j] == node_in(nodes, p, id)->0 && #[trigger] nodes[j].id
                == id && nodes[j].project_id == p,
    decreases nodes.len(),
{
    if nodes.last().id == id && nodes.last().project_id == p {
        assert(nodes[nodes.len() - 1].id == id);
    } else {
        lemma_node_in_index(nodes.drop_last(), p, id);
        let j = choose|j: int|
            0 <= j < nodes.drop_last().len() && nodes.drop_last()[j] == node_in(
                nodes.drop_last(),
                p,
                id,
            )->0 && #[trigger] nodes.drop_last()[j].id == id && nodes.drop_last()[j].project_id
                == p;
        assert(nodes[j] == nodes.drop_last()[j]);
    }
}

/// `node_in` finds nothing exactly when no node of `p` has the id.
pub proof fn lemma_node_in_none(nodes: Seq<TraceNode>, p: u128, id: u128)
    ensures
        node_in(nodes, p, id) is None <==> !has_node_in(nodes, p, id),
    decreases nodes.len(),
{
    if nodes.len() > 0 {
        lemma_node_in_none(nodes.drop_last(), p, id);
        if has_node_in(nodes.drop_last(), p, id) {
            let j = choose|j: int|
                0 <= j < nodes.drop_last().len() && #[trigger] nodes.drop_last()[j].id == id
                    && nodes.drop_last()[j].project_id == p;
            assert(nodes[j].id == id);
        }
        if has_node_in(nodes, p, id) {
            let j = choose|j: int| 0 <= j < nodes.len() && #[trigger] nodes[j].id == id
                && nodes[j].project_id == p;
            if j < nodes.len() - 1 {
                assert(nodes.drop_last()[j].id == id);
            }
        }
    } else {
        assert(!has_node_in(nodes, p, id));
    }
}

/// No node carries the key when the lookup by key finds none.
pub proof fn lemma_no_key_when_none(nodes: Seq<TraceNode>, n: TraceNode)
    requires
        node_by_key(nodes, n.project_id, n.external_source@, n.external_ref@) is None,
    ensures
        !has_key(nodes, n),
    decreases nodes.len(),
{
    if nodes.len() > 0 {
        lemma_no_key_when_none(nodes.drop_last(), n);
        assert forall|i: int| 0 <= i < nodes.len() implies !#[trigger] same_key(nodes[i], n) by {
            if i < nodes.len() - 1 {
                assert(nodes.drop_last()[i] == nodes[i]);
            }
        }
    }
}

} // verus!
