//! The stored trace graph: nodes, links and baselines of every project, with
//! the uniqueness rules of their keys, and the idempotent writes ("upserts")
//! that the services build on.
use vstd::prelude::*;
use crate::error::ServiceError;
use crate::trace_model::{TraceBaseline, TraceLink, TraceNode, TraceNodeKind};

verus! {

/// Two nodes share the idempotency key: same project, same external source and reference.
pub open spec fn same_key(a: TraceNode, b: TraceNode) -> bool {
    &&& a.project_id == b.project_id
    &&& a.external_source@ == b.external_source@
    &&& a.external_ref@ == b.external_ref@
}

/// A node of `nodes` carries `key`'s idempotency key.
pub open spec fn has_key(nodes: Seq<TraceNode>, key: TraceNode) -> bool {
    exists|i: int| 0 <= i < nodes.len() && #[trigger] same_key(nodes[i], key)
}

pub open spec fn has_node_id(nodes: Seq<TraceNode>, id: u128) -> bool {
    exists|i: int| 0 <= i < nodes.len() && #[trigger] nodes[i].id == id
}

/// A node of project `p` has this id.
pub open spec fn has_node_in(nodes: Seq<TraceNode>, p: u128, id: u128) -> bool {
    exists|i: int| 0 <= i < nodes.len() && #[trigger] nodes[i].id == id && nodes[i].project_id == p
}

/// The node of project `p` with this id, when there is one.
pub open spec fn node_in(nodes: Seq<TraceNode>, p: u128, id: u128) -> Option<TraceNode>
    decreases nodes.len(),
{
    if nodes.len() == 0 {
        None
    } else if nodes.last().id == id && nodes.last().project_id == p {
        Some(nodes.last())
    } else {
        node_in(nodes.drop_last(), p, id)
    }
}

/// The node of project `p` with this idempotency key, when there is one.
pub open spec fn node_by_key(
    nodes: Seq<TraceNode>,
    p: u128,
    src: Seq<char>,
    rf: Seq<char>,
) -> Option<TraceNode>
    decreases nodes.len(),
{
    if nodes.len() == 0 {
        None
    } else if nodes.last().project_id == p && nodes.last().external_source@ == src
        && nodes.last().external_ref@ == rf {
        Some(nodes.last())
    } else {
        node_by_key(nodes.drop_last(), p, src, rf)
    }
}

/// The nodes of project `p`, in store order.
pub open spec fn nodes_of(nodes: Seq<TraceNode>, p: u128) -> Seq<TraceNode>
    decreases nodes.len(),
{
    if nodes.len() == 0 {
        Seq::empty()
    } else if nodes.last().project_id == p {
        nodes_of(nodes.drop_last(), p).push(nodes.last())
    } else {
        nodes_of(nodes.drop_last(), p)
    }
}

/// The links of project `p`, in store order.
pub open spec fn links_of(links: Seq<TraceLink>, p: u128) -> Seq<TraceLink>
    decreases links.len(),
{
    if links.len() == 0 {
        Seq::empty()
    } else if links.last().project_id == p {
        links_of(links.drop_last(), p).push(links.last())
    } else {
        links_of(links.drop_last(), p)
    }
}

/// The baselines of project `p`, in store order.
pub open spec fn baselines_of(bs: Seq<TraceBaseline>, p: u128) -> Seq<TraceBaseline>
    decreases bs.len(),
{
    if bs.len() == 0 {
        Seq::empty()
    } else if bs.last().project_id == p {
        baselines_of(bs.drop_last(), p).push(bs.last())
    } else {
        baselines_of(bs.drop_last(), p)
    }
}

/// What an upsert keeps of a stored node and takes from the written one:
/// id, project, key, sort key and creation time stay; the rest is replaced.
pub open spec fn merged_node(old: TraceNode, n: TraceNode) -> TraceNode {
    TraceNode {
        id: old.id,
        project_id: old.project_id,
        kind: n.kind,
        external_source: old.external_source,
        external_ref: old.external_ref,
        module: n.module,
        title: n.title,
        description: n.description,
        attributes: n.attributes,
        sort_key: old.sort_key,
        created_at: old.created_at,
        updated_at: n.updated_at,
    }
}

/// `after` is `before` with `n` upserted: the node with `n`'s key is merged
/// with `n` in place, or `n` is appended when no node has that key.
pub open spec fn node_upserted(before: Seq<TraceNode>, n: TraceNode, after: Seq<TraceNode>) -> bool {
    if has_key(before, n) {
        exists|i: int|
            0 <= i < before.len() && #[trigger] same_key(before[i], n) && after == before.update(
                i,
                merged_node(before[i], n),
            )
    } else {
        after == before.push(n)
    }
}

/// Two links share the link key: same source, target and type.
pub open spec fn same_link_key(a: TraceLink, b: TraceLink) -> bool {
    &&& a.source_node_id == b.source_node_id
    &&& a.target_node_id == b.target_node_id
    &&& a.link_type == b.link_type
}

pub open spec fn has_link_key(links: Seq<TraceLink>, key: TraceLink) -> bool {
    exists|i: int| 0 <= i < links.len() && #[trigger] same_link_key(links[i], key)
}

pub open spec fn has_link_id(links: Seq<TraceLink>, id: u128) -> bool {
    exists|i: int| 0 <= i < links.len() && #[trigger] links[i].id == id
}

/// What a link upsert keeps: everything but the attributes and the update time.
pub open spec fn merged_link(old: TraceLink, l: TraceLink) -> TraceLink {
    TraceLink { attributes: l.attributes, updated_at: l.updated_at, ..old }
}

/// `after` is `before` with `l` upserted by link key.
pub open spec fn link_upserted(before: Seq<TraceLink>, l: TraceLink, after: Seq<TraceLink>) -> bool {
    if has_link_key(before, l) {
        exists|i: int|
            0 <= i < before.len() && #[trigger] same_link_key(before[i], l) && after
                == before.update(i, merged_link(before[i], l))
    } else {
        after == before.push(l)
    }
}

/// The trace graph of all projects.
pub struct TraceStore {
    pub nodes: Vec<TraceNode>,
    pub links: Vec<TraceLink>,
    pub baselines: Vec<TraceBaseline>,
}

impl TraceStore {
    /// Ids are unique; a node key is unique; a link key is unique.
    pub open spec fn wf(&self) -> bool {
        &&& forall|i: int, j: int|
            0 <= i < j < self.nodes@.len() ==> self.nodes@[i].id != self.nodes@[j].id
        &&& forall|i: int, j: int|
            0 <= i < j < self.nodes@.len() ==> !same_key(self.nodes@[i], self.nodes@[j])
        &&& forall|i: int, j: int|
            0 <= i < j < self.links@.len() ==> self.links@[i].id != self.links@[j].id
        &&& forall|i: int, j: int|
            0 <= i < j < self.links@.len() ==> !same_link_key(self.links@[i], self.links@[j])
    }

    pub fn new() -> (s: TraceStore)
        ensures
            s.wf(),
            s.nodes@.len() == 0,
            s.links@.len() == 0,
            s.baselines@.len() == 0,
    {
        TraceStore { nodes: Vec::new(), links: Vec::new(), baselines: Vec::new() }
    }

    /// The node with this id, in any project.
    pub fn find_node(&self, id: u128) -> (r: Option<TraceNode>)
        requires
            self.wf(),
        ensures
            match r {
                Some(n) => n.id == id && self.nodes@.contains(n),
                None => !has_node_id(self.nodes@, id),
            },
    {
        let mut i: usize = 0;
        while i < self.nodes.len()
            invariant
                i <= self.nodes@.len(),
                forall|j: int| 0 <= j < i ==> self.nodes@[j].id != id,
            decreases self.nodes.len() - i,
        {
            if self.nodes[i].id == id {
                return Some(self.nodes[i].clone());
            }
            i = i + 1;
        }
        None
    }

    /// The node of project `p` with this id.
    pub fn find_node_in(&self, p: u128, id: u128) -> (r: Option<TraceNode>)
        ensures
            r == node_in(self.nodes@, p, id),
    {
        let mut i: usize = self.nodes.len();
        assert(self.nodes@.take(i as int) =~= self.nodes@);
        while i > 0
            invariant
                i <= self.nodes@.len(),
                node_in(self.nodes@, p, id) == node_in(self.nodes@.take(i as int), p, id),
            decreases i,
        {
            assert(self.nodes@.take(i as int).drop_last() =~= self.nodes@.take(i - 1));
            if self.nodes[i - 1].id == id && self.nodes[i - 1].project_id == p {
                return Some(self.nodes[i - 1].clone());
            }
            i = i - 1;
        }
        None
    }

    /// The node of project `p` with this idempotency key.
    pub fn find_by_external(&self, p: u128, src: &str, rf: &str) -> (r: Option<TraceNode>)
        ensures
            r == node_by_key(self.nodes@, p, src@, rf@),
    {
        let mut i: usize = self.nodes.len();
        assert(self.nodes@.take(i as int) =~= self.nodes@);
        while i > 0
            invariant
                i <= self.nodes@.len(),
                node_by_key(self.nodes@, p, src@, rf@) == node_by_key(
                    self.nodes@.take(i as int),
                    p,
                    src@,
                    rf@,
                ),
            decreases i,
        {
            assert(self.nodes@.take(i as int).drop_last() =~= self.nodes@.take(i - 1));
            let n = &self.nodes[i - 1];
            if n.project_id == p && crate::text::str_eq(n.external_source.as_str(), src)
                && crate::text::str_eq(n.external_ref.as_str(), rf) {
                return Some(n.clone());
            }
            i = i - 1;
        }
        None
    }

    /// The nodes of project `p`, in store order.
    pub fn list_nodes(&self, p: u128) -> (r: Vec<TraceNode>)
        ensures
            r@ == nodes_of(self.nodes@, p),
    {
        let mut r: Vec<TraceNode> = Vec::new();
        let mut i: usize = 0;
        while i < self.nodes.len()
            invariant
                i <= self.nodes@.len(),
                r@ == nodes_of(self.nodes@.take(i as int), p),
            decreases self.nodes.len() - i,
        {
            assert(self.nodes@.take(i + 1).drop_last() =~= self.nodes@.take(i as int));
            if self.nodes[i].project_id == p {
                r.push(self.nodes[i].clone());
            }
            i = i + 1;
        }
        assert(self.nodes@.take(self.nodes@.len() as int) =~= self.nodes@);
        r
    }

    /// The links of project `p`, in store order.
    pub fn list_links(&self, p: u128) -> (r: Vec<TraceLink>)
        ensures
            r@ == links_of(self.links@, p),
    {
        let mut r: Vec<TraceLink> = Vec::new();
        let mut i: usize = 0;
        while i < self.links.len()
            invariant
                i <= self.links@.len(),
                r@ == links_of(self.links@.take(i as int), p),
            decreases self.links.len() - i,
        {
            assert(self.links@.take(i + 1).drop_last() =~= self.links@.take(i as int));
            if self.links[i].project_id == p {
                r.push(self.links[i].clone());
            }
            i = i + 1;
        }
        assert(self.links@.take(self.links@.len() as int) =~= self.links@);
        r
    }

    /// The baselines of project `p`, in store order.
    pub fn list_baselines(&self, p: u128) -> (r: Vec<TraceBaseline>)
        ensures
            r@ == baselines_of(self.baselines@, p),
    {
        let mut r: Vec<TraceBaseline> = Vec::new();
        let mut i: usize = 0;
        while i < self.baselines.len()
            invariant
                i <= self.baselines@.len(),
                r@ == baselines_of(self.baselines@.take(i as int), p),
            decreases self.baselines.len() - i,
        {
            assert(self.baselines@.take(i + 1).drop_last() =~= self.baselines@.take(i as int));
            if self.baselines[i].project_id == p {
                r.push(self.baselines[i].clone());
            }
            i = i + 1;
        }
        assert(self.baselines@.take(self.baselines@.len() as int) =~= self.baselines@);
        r
    }

    /// Idempotent node write: the node with `n`'s key takes `n`'s kind,
    /// module, title, description, attributes and update time and keeps its
    /// id, sort key and creation time; without such a node `n` is added, unless
    /// `n`'s id is already taken (a Repository error, nothing written).
    /// Gives back the id of the stored node.
    pub fn upsert_node(&mut self, n: TraceNode) -> (r: Result<u128, ServiceError>)
        requires
            old(self).wf(),
        ensures
            final(self).wf(),
            final(self).links@ == old(self).links@,
            final(self).baselines@ == old(self).baselines@,
            match r {
                Ok(id) => node_upserted(old(self).nodes@, n, final(self).nodes@) && (if has_key(
                    old(self).nodes@,
                    n,
                ) {
                    exists|i: int|
                        0 <= i < old(self).nodes@.len() && #[trigger] same_key(
                            old(self).nodes@[i],
                            n,
                        ) && old(self).nodes@[i].id == id
                } else {
                    id == n.id && !has_node_id(old(self).nodes@, n.id)
                }),
                Err(e) => e is Repository && !has_key(old(self).nodes@, n) && has_node_id(
                    old(self).nodes@,
                    n.id,
                ) && final(self).nodes@ == old(self).nodes@,
            },
    {
        let mut i: usize = 0;
        while i < self.nodes.len()
            invariant
                i <= self.nodes@.len(),
                self.nodes@ == old(self).nodes@,
                self.links@ == old(self).links@,
                self.baselines@ == old(self).baselines@,
                old(self).wf(),
                forall|j: int| 0 <= j < i ==> !same_key(#[trigger] self.nodes@[j], n),
            decreases self.nodes.len() - i,
        {
            if self.nodes[i].project_id == n.project_id && crate::text::str_eq(
                self.nodes[i].external_source.as_str(),
                n.external_source.as_str(),
            ) && crate::text::str_eq(self.nodes[i].external_ref.as_str(), n.external_ref.as_str()) {
                let ghost before = self.nodes@;
                let old_node = self.nodes[i].clone();
                let id = old_node.id;
                let m = TraceNode {
                    id: old_node.id,
                    project_id: old_node.project_id,
                    kind: n.kind,
                    external_source: old_node.external_source,
                    external_ref: old_node.external_ref,
                    module: n.module,
                    title: n.title,
                    description: n.description,
                    attributes: n.attributes,
                    sort_key: old_node.sort_key,
                    created_at: old_node.created_at,
                    updated_at: n.updated_at,
                };
                self.nodes.set(i, m);
                assert(same_key(before[i as int], n));
                assert(self.nodes@ == before.update(i as int, merged_node(before[i as int], n)));
                assert forall|a: int, b: int| 0 <= a < b < self.nodes@.len() implies !same_key(
                    self.nodes@[a],
                    self.nodes@[b],
                ) by {
                    assert(!same_key(before[a], before[b]));
                }
                return Ok(id);
            }
            i = i + 1;
        }
        let mut k: usize = 0;
        while k < self.nodes.len()
            invariant
                k <= self.nodes@.len(),
                self.nodes@ == old(self).nodes@,
                self.links@ == old(self).links@,
                self.baselines@ == old(self).baselines@,
                old(self).wf(),
                forall|j: int| 0 <= j < self.nodes@.len() ==> !same_key(#[trigger] self.nodes@[j], n),
                forall|j: int| 0 <= j < k ==> self.nodes@[j].id != n.id,
            decreases self.nodes.len() - k,
        {
            if self.nodes[k].id == n.id {
                assert(self.nodes@[k as int].id == n.id);
                return Err(ServiceError::Repository(String::from_str("duplicate trace node id")));
            }
            k = k + 1;
        }
        let id = n.id;
        self.nodes.push(n);
        Ok(id)
    }

    /// Idempotent link write by `(source, target, type)`: an existing link
    /// takes the new attributes and update time; otherwise the link is added,
    /// unless its id is already taken (a Repository error, nothing written).
    pub fn upsert_link(&mut self, l: TraceLink) -> (r: Result<u128, ServiceError>)
        requires
            old(self).wf(),
        ensures
            final(self).wf(),
            final(self).nodes@ == old(self).nodes@,
            final(self).baselines@ == old(self).baselines@,
            match r {
                Ok(id) => link_upserted(old(self).links@, l, final(self).links@) && (
                !has_link_key(old(self).links@, l) ==> id == l.id && !has_link_id(
                    old(self).links@,
                    l.id,
                )),
                Err(e) => e is Repository && !has_link_key(old(self).links@, l) && has_link_id(
                    old(self).links@,
                    l.id,
                ) && final(self).links@ == old(self).links@,
            },
    {
        let mut i: usize = 0;
        while i < self.links.len()
            invariant
                i <= self.links@.len(),
                self.nodes@ == old(self).nodes@,
                self.links@ == old(self).links@,
                self.baselines@ == old(self).baselines@,
                old(self).wf(),
                forall|j: int| 0 <= j < i ==> !same_link_key(#[trigger] self.links@[j], l),
            decreases self.links.len() - i,
        {
            if self.links[i].source_node_id == l.source_node_id && self.links[i].target_node_id
                == l.target_node_id && self.links[i].link_type == l.link_type {
                let ghost before = self.links@;
                let old_link = self.links[i].clone();
                let id = old_link.id;
                let m = TraceLink {
                    attributes: l.attributes,
                    updated_at: l.updated_at,
                    ..old_link
                };
                self.links.set(i, m);
                assert(same_link_key(before[i as int], l));
                assert(self.links@ == before.update(i as int, merged_link(before[i as int], l)));
                assert forall|a: int, b: int|
                    0 <= a < b < self.links@.len() implies !same_link_key(
                    self.links@[a],
                    self.links@[b],
                ) by {
                    assert(!same_link_key(before[a], before[b]));
                }
                return Ok(id);
            }
            i = i + 1;
        }
        let mut k: usize = 0;
        while k < self.links.len()
            invariant
                k <= self.links@.len(),
                self.nodes@ == old(self).nodes@,
                self.links@ == old(self).links@,
                self.baselines@ == old(self).baselines@,
                old(self).wf(),
                forall|j: int| 0 <= j < self.links@.len() ==> !same_link_key(#[trigger] self.links@[j], l),
                forall|j: int| 0 <= j < k ==> self.links@[j].id != l.id,
            decreases self.links.len() - k,
        {
            if self.links[k].id == l.id {
                assert(self.links@[k as int].id == l.id);
                return Err(ServiceError::Repository(String::from_str("duplicate trace link id")));
            }
            k = k + 1;
        }
        let id = l.id;
        self.links.push(l);
        Ok(id)
    }
}

/// Removing a node of another project leaves project `q`'s nodes as they were.
/// Records none of which belongs to project `p` give `p` nothing.
pub proof fn lemma_none_of(ns: Seq<TraceNode>, ls: Seq<TraceLink>, bs: Seq<TraceBaseline>, p: u128)
    requires
        forall|i: int| 0 <= i < ns.len() ==> (#[trigger] ns[i]).project_id != p,
        forall|i: int| 0 <= i < ls.len() ==> (#[trigger] ls[i]).project_id != p,
        forall|i: int| 0 <= i < bs.len() ==> (#[trigger] bs[i]).project_id != p,
    ensures
        nodes_of(ns, p).len() == 0,
        links_of(ls, p).len() == 0,
        baselines_of(bs, p).len() == 0,
    decreases ns.len() + ls.len() + bs.len(),
{
    if ns.len() > 0 {
        assert(ns.last() == ns[ns.len() - 1]);
        lemma_none_of(ns.drop_last(), ls, bs, p);
    } else if ls.len() > 0 {
        assert(ls.last() == ls[ls.len() - 1]);
        lemma_none_of(ns, ls.drop_last(), bs, p);
    } else if bs.len() > 0 {
        assert(bs.last() == bs[bs.len() - 1]);
        lemma_none_of(ns, ls, bs.drop_last(), p);
    }
}

/// The nodes of every project other than `p` are in `b` as they were in `a`.
pub open spec fn other_nodes_kept(a: TraceStore, b: TraceStore, p: u128) -> bool {
    forall|q: u128| q != p ==> #[trigger] nodes_of(b.nodes@, q) == nodes_of(a.nodes@, q)
}

/// The links of every project other than `p` are in `b` as they were in `a`.
pub open spec fn other_links_kept(a: TraceStore, b: TraceStore, p: u128) -> bool {
    forall|q: u128| q != p ==> #[trigger] links_of(b.links@, q) == links_of(a.links@, q)
}

/// The baselines of every project other than `p` are in `b` as they were in `a`.
pub open spec fn other_baselines_kept(a: TraceStore, b: TraceStore, p: u128) -> bool {
    forall|q: u128| q != p ==> #[trigger] baselines_of(b.baselines@, q) == baselines_of(a.baselines@, q)
}

/// The nodes, links and baselines of every project other than `p` are in
/// `b` as they were in `a`.
pub open spec fn others_kept(a: TraceStore, b: TraceStore, p: u128) -> bool {
    &&& other_nodes_kept(a, b, p)
    &&& other_links_kept(a, b, p)
    &&& other_baselines_kept(a, b, p)
}

/// No link of another project than `p` starts at a node of `p`. (Links are
/// keyed by their ends and type alone, so a write of a link of `p` could
/// otherwise meet a link of another project.)
pub open spec fn foreign_links_apart(links: Seq<TraceLink>, nodes: Seq<TraceNode>, p: u128) -> bool {
    forall|i: int|
        0 <= i < links.len() && links[i].project_id != p ==> !has_node_in(
            nodes,
            p,
            #[trigger] links[i].source_node_id,
        )
}

/// A link upsert of a link of `p` keeps the links of other projects apart
/// from the nodes of `p`.
pub proof fn lemma_apart_step(s: Seq<TraceLink>, l: TraceLink, t: Seq<TraceLink>, nodes: Seq<TraceNode>, p: u128)
    requires
        link_upserted(s, l, t),
        l.project_id == p,
        foreign_links_apart(s, nodes, p),
    ensures
        foreign_links_apart(t, nodes, p),
{
    if has_link_key(s, l) {
        let i = choose|i: int|
            0 <= i < s.len() && #[trigger] same_link_key(s[i], l) && t == s.update(i, merged_link(s[i], l));
        assert forall|x: int| 0 <= x < t.len() && t[x].project_id != p implies !has_node_in(
            nodes,
            p,
            #[trigger] t[x].source_node_id,
        ) by {
            assert(s[x].project_id == t[x].project_id && s[x].source_node_id == t[x].source_node_id);
        }
    } else {
        assert forall|x: int| 0 <= x < t.len() && t[x].project_id != p implies !has_node_in(
            nodes,
            p,
            #[trigger] t[x].source_node_id,
        ) by {
            if x < s.len() {
                assert(t[x] == s[x]);
            }
        }
    }
}

/// The node found by key belongs to `p` and is one of the nodes.
pub proof fn lemma_by_key_in(nodes: Seq<TraceNode>, p: u128, src: Seq<char>, rf: Seq<char>)
    ensures
        node_by_key(nodes, p, src, rf) matches Some(n) ==> n.project_id == p && has_node_in(nodes, p, n.id),
    decreases nodes.len(),
{
    if nodes.len() > 0 {
        lemma_by_key_in(nodes.drop_last(), p, src, rf);
        if let Some(n) = node_by_key(nodes, p, src, rf) {
            if nodes.last().project_id == p && nodes.last().external_source@ == src
                && nodes.last().external_ref@ == rf {
                assert(nodes[nodes.len() - 1].id == n.id);
            } else {
                let i = choose|i: int|
                    0 <= i < nodes.drop_last().len() && #[trigger] nodes.drop_last()[i].id == n.id
                        && nodes.drop_last()[i].project_id == p;
                assert(nodes[i].id == n.id);
            }
        }
    }
}

/// Position by position the same project, and the same node wherever one
/// of the two belongs to `q`: the nodes of `q` are the same.
pub proof fn lemma_nodes_of_pointwise(a: Seq<TraceNode>, b: Seq<TraceNode>, q: u128)
    requires
        a.len() == b.len(),
        forall|j: int|
            0 <= j < a.len() ==> (#[trigger] b[j]).project_id == a[j].project_id && (a[j].project_id == q
                ==> b[j] == a[j]),
    ensures
        nodes_of(b, q) == nodes_of(a, q),
    decreases a.len(),
{
    if a.len() > 0 {
        assert(b.last() == b[b.len() - 1]);
        assert(b.last().project_id == a.last().project_id);
        lemma_nodes_of_pointwise(a.drop_last(), b.drop_last(), q);
    }
}

pub proof fn lemma_kept_node_upsert(a: TraceStore, b: TraceStore, n: TraceNode, p: u128)
    requires
        node_upserted(a.nodes@, n, b.nodes@),
        n.project_id == p,
        b.links@ == a.links@,
        b.baselines@ == a.baselines@,
    ensures
        others_kept(a, b, p),
{
    assert forall|q: u128| q != p implies #[trigger] nodes_of(b.nodes@, q) == nodes_of(a.nodes@, q) by {
        crate::laws::law_node_upsert_isolated(a.nodes@, n, b.nodes@, q);
    }
}

pub proof fn lemma_kept_node_remove(a: TraceStore, b: TraceStore, j: int, p: u128)
    requires
        0 <= j < a.nodes@.len(),
        a.nodes@[j].project_id == p,
        b.nodes@ == a.nodes@.remove(j),
        b.links@ == a.links@,
        b.baselines@ == a.baselines@,
    ensures
        others_kept(a, b, p),
{
    assert forall|q: u128| q != p implies #[trigger] nodes_of(b.nodes@, q) == nodes_of(a.nodes@, q) by {
        lemma_nodes_of_remove(a.nodes@, j, q);
    }
}

pub proof fn lemma_kept_link_remove(a: TraceStore, b: TraceStore, j: int, p: u128)
    requires
        0 <= j < a.links@.len(),
        a.links@[j].project_id == p,
        b.links@ == a.links@.remove(j),
        b.nodes@ == a.nodes@,
        b.baselines@ == a.baselines@,
    ensures
        others_kept(a, b, p),
{
    assert forall|q: u128| q != p implies #[trigger] links_of(b.links@, q) == links_of(a.links@, q) by {
        lemma_links_of_remove(a.links@, j, q);
    }
}

pub proof fn lemma_nodes_of_remove(s: Seq<TraceNode>, i: int, q: u128)
    requires
        0 <= i < s.len(),
        s[i].project_id != q,
    ensures
        nodes_of(s.remove(i), q) == nodes_of(s, q),
    decreases s.len(),
{
    if i == s.len() - 1 {
        assert(s.remove(i) =~= s.drop_last());
    } else {
        lemma_nodes_of_remove(s.drop_last(), i, q);
        assert(s.remove(i).drop_last() =~= s.drop_last().remove(i));
        assert(s.remove(i).last() == s.last());
    }
}

pub proof fn lemma_links_of_remove(s: Seq<TraceLink>, i: int, q: u128)
    requires
        0 <= i < s.len(),
        s[i].project_id != q,
    ensures
        links_of(s.remove(i), q) == links_of(s, q),
    decreases s.len(),
{
    if i == s.len() - 1 {
        assert(s.remove(i) =~= s.drop_last());
    } else {
        lemma_links_of_remove(s.drop_last(), i, q);
        assert(s.remove(i).drop_last() =~= s.drop_last().remove(i));
        assert(s.remove(i).last() == s.last());
    }
}

pub proof fn lemma_baselines_of_remove(s: Seq<TraceBaseline>, i: int, q: u128)
    requires
        0 <= i < s.len(),
        s[i].project_id != q,
    ensures
        baselines_of(s.remove(i), q) == baselines_of(s, q),
    decreases s.len(),
{
    if i == s.len() - 1 {
        assert(s.remove(i) =~= s.drop_last());
    } else {
        lemma_baselines_of_remove(s.drop_last(), i, q);
        assert(s.remove(i).drop_last() =~= s.drop_last().remove(i));
        assert(s.remove(i).last() == s.last());
    }
}

impl TraceStore {
    /// Removes every node, link and baseline of project `p`; the other
    /// projects' records stay as they were.
    pub fn remove_project(&mut self, p: u128)
        requires
            old(self).wf(),
        ensures
            final(self).wf(),
            forall|q: u128| q != p ==> #[trigger] nodes_of(final(self).nodes@, q) == nodes_of(old(self).nodes@, q),
            forall|q: u128| q != p ==> #[trigger] links_of(final(self).links@, q) == links_of(old(self).links@, q),
            forall|q: u128|
                q != p ==> #[trigger] baselines_of(final(self).baselines@, q) == baselines_of(
                    old(self).baselines@,
                    q,
                ),
            forall|i: int| 0 <= i < final(self).nodes@.len() ==> (#[trigger] final(self).nodes@[i]).project_id != p,
            forall|i: int| 0 <= i < final(self).links@.len() ==> (#[trigger] final(self).links@[i]).project_id != p,
            forall|i: int|
                0 <= i < final(self).baselines@.len() ==> (#[trigger] final(self).baselines@[i]).project_id != p,
    {
        let mut i: usize = 0;
        while i < self.nodes.len()
            invariant
                self.wf(),
                self.links@ == old(self).links@,
                self.baselines@ == old(self).baselines@,
                i <= self.nodes@.len(),
                forall|q: u128| q != p ==> #[trigger] nodes_of(self.nodes@, q) == nodes_of(old(self).nodes@, q),
                forall|x: int| 0 <= x < i ==> (#[trigger] self.nodes@[x]).project_id != p,
            decreases self.nodes@.len() - i,
        {
            if self.nodes[i].project_id == p {
                let ghost before = self.nodes@;
                self.nodes.remove(i);
                proof {
                    assert forall|q: u128| q != p implies #[trigger] nodes_of(self.nodes@, q) == nodes_of(old(self).nodes@, q) by {
                        lemma_nodes_of_remove(before, i as int, q);
                    }
                    assert forall|a: int, b: int| 0 <= a < b < self.nodes@.len() implies self.nodes@[a].id
                        != self.nodes@[b].id && !same_key(self.nodes@[a], self.nodes@[b]) by {
                        let a0 = if a < i { a } else { a + 1 };
                        let b0 = if b < i { b } else { b + 1 };
                        assert(self.nodes@[a] == before[a0]);
                        assert(self.nodes@[b] == before[b0]);
                    }
                    assert forall|x: int| 0 <= x < i implies (#[trigger] self.nodes@[x]).project_id != p by {
                        assert(self.nodes@[x] == before[x]);
                    }
                }
            } else {
                i = i + 1;
            }
        }
        let mut i: usize = 0;
        while i < self.links.len()
            invariant
                self.wf(),
                self.baselines@ == old(self).baselines@,
                i <= self.links@.len(),
                forall|q: u128| q != p ==> #[trigger] nodes_of(self.nodes@, q) == nodes_of(old(self).nodes@, q),
                forall|x: int| 0 <= x < self.nodes@.len() ==> (#[trigger] self.nodes@[x]).project_id != p,
                forall|q: u128| q != p ==> #[trigger] links_of(self.links@, q) == links_of(old(self).links@, q),
                forall|x: int| 0 <= x < i ==> (#[trigger] self.links@[x]).project_id != p,
            decreases self.links@.len() - i,
        {
            if self.links[i].project_id == p {
                let ghost before = self.links@;
                self.links.remove(i);
                proof {
                    assert forall|q: u128| q != p implies #[trigger] links_of(self.links@, q) == links_of(old(self).links@, q) by {
                        lemma_links_of_remove(before, i as int, q);
                    }
                    assert forall|a: int, b: int| 0 <= a < b < self.links@.len() implies self.links@[a].id
                        != self.links@[b].id && !same_link_key(self.links@[a], self.links@[b]) by {
                        let a0 = if a < i { a } else { a + 1 };
                        let b0 = if b < i { b } else { b + 1 };
                        assert(self.links@[a] == before[a0]);
                        assert(self.links@[b] == before[b0]);
                    }
                    assert forall|x: int| 0 <= x < i implies (#[trigger] self.links@[x]).project_id != p by {
                        assert(self.links@[x] == before[x]);
                    }
                }
            } else {
                i = i + 1;
            }
        }
        let mut i: usize = 0;
        while i < self.baselines.len()
            invariant
                self.wf(),
                i <= self.baselines@.len(),
                forall|q: u128| q != p ==> #[trigger] nodes_of(self.nodes@, q) == nodes_of(old(self).nodes@, q),
                forall|x: int| 0 <= x < self.nodes@.len() ==> (#[trigger] self.nodes@[x]).project_id != p,
                forall|q: u128| q != p ==> #[trigger] links_of(self.links@, q) == links_of(old(self).links@, q),
                forall|x: int| 0 <= x < self.links@.len() ==> (#[trigger] self.links@[x]).project_id != p,
                forall|q: u128|
                    q != p ==> #[trigger] baselines_of(self.baselines@, q) == baselines_of(old(self).baselines@, q),
                forall|x: int| 0 <= x < i ==> (#[trigger] self.baselines@[x]).project_id != p,
            decreases self.baselines@.len() - i,
        {
            if self.baselines[i].project_id == p {
                let ghost before = self.baselines@;
                self.baselines.remove(i);
                proof {
                    assert forall|q: u128| q != p implies #[trigger] baselines_of(self.baselines@, q) == baselines_of(
                        old(self).baselines@,
                        q,
                    ) by {
                        lemma_baselines_of_remove(before, i as int, q);
                    }
                    assert forall|x: int| 0 <= x < i implies (#[trigger] self.baselines@[x]).project_id != p by {
                        assert(self.baselines@[x] == before[x]);
                    }
                }
            } else {
                i = i + 1;
            }
        }
    }
}

} // verus!
