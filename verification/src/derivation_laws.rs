//! What the read-time derivations promise, stated over their inputs with the
//! link types, depths and keys written out rather than through the helper
//! predicates that the operations themselves use.
use vstd::prelude::*;
use crate::assembly_service::{block_at, blocks_ok, contains_parent, depth_at, last_at, ResolvedBlock};
use crate::content::ContentSpec;
use crate::document_model::{TemplateEdge, TemplateNode};
use crate::execution_model::ExecutionItem;
use crate::graph::{direct_sources_spec, uncovered_spec, Edge};
use crate::projectdata::ProjectDataView;
use crate::scheme::{norm_doc_kind, norm_field, norm_fields, FieldSpecV};
use crate::text::trim_seq;
use crate::trace_model::{LinkType, TraceNode, TraceNodeKind};
use crate::trace_service::edges_spec;
use crate::trace_store::{links_of, node_in, nodes_of, TraceStore};
use crate::trace_views::{cover_pairs, covering_types, matrix_ok, requirements, TraceMatrixRow};

verus! {

/// A link type that covers a requirement, written out: derives_from, satisfies
/// or verifies.
pub open spec fn covers(t: LinkType) -> bool {
    ||| t == LinkType::DerivesFrom
    ||| t == LinkType::Satisfies
    ||| t == LinkType::Verifies
}

/// Coverage: an id is reported as uncovered exactly when it is the id of a
/// software requirement and no link of type derives_from, satisfies or
/// verifies has it as its target. A verifies link from a test item is enough
/// to cover a requirement.
pub proof fn law_coverage_by_link_types(nodes: Seq<TraceNode>, links: Seq<Edge>, id: u128)
    ensures
        uncovered_spec(nodes, links).contains(id) <==> (
            (exists|i: int|
                0 <= i < nodes.len() && #[trigger] nodes[i].id == id && nodes[i].kind
                    == TraceNodeKind::SoftwareRequirement)
            && !(exists|j: int| 0 <= j < links.len() && #[trigger] links[j].1 == id && covers(links[j].2))
        ),
    decreases nodes.len(),
{
    if nodes.len() > 0 {
        let init = nodes.drop_last();
        let n = nodes.last();
        law_coverage_by_link_types(init, links, id);
        let rest = uncovered_spec(init, links);
        let res = uncovered_spec(nodes, links);
        let is_sr = exists|i: int|
            0 <= i < nodes.len() && #[trigger] nodes[i].id == id && nodes[i].kind
                == TraceNodeKind::SoftwareRequirement;
        let init_sr = exists|i: int|
            0 <= i < init.len() && #[trigger] init[i].id == id && init[i].kind
                == TraceNodeKind::SoftwareRequirement;
        assert(is_sr <==> init_sr || (n.id == id && n.kind == TraceNodeKind::SoftwareRequirement)) by {
            if init_sr {
                let i = choose|i: int|
                    0 <= i < init.len() && #[trigger] init[i].id == id && init[i].kind
                        == TraceNodeKind::SoftwareRequirement;
                assert(nodes[i] == init[i]);
            }
            if n.id == id && n.kind == TraceNodeKind::SoftwareRequirement {
                assert(nodes[nodes.len() - 1] == n);
            }
            if is_sr {
                let i = choose|i: int|
                    0 <= i < nodes.len() && #[trigger] nodes[i].id == id && nodes[i].kind
                        == TraceNodeKind::SoftwareRequirement;
                if i < init.len() {
                    assert(init[i] == nodes[i]);
                }
            }
        }
        if n.kind == TraceNodeKind::SoftwareRequirement && !crate::graph::has_covering_link(links, n.id) {
            assert(res == rest.push(n.id));
            assert(res.contains(id) <==> rest.contains(id) || n.id == id) by {
                if res.contains(id) {
                    let w = choose|w: int| 0 <= w < res.len() && res[w] == id;
                    if w < rest.len() {
                        assert(rest[w] == id);
                    }
                }
                if rest.contains(id) {
                    let w = choose|w: int| 0 <= w < rest.len() && rest[w] == id;
                    assert(res[w] == id);
                }
                if n.id == id {
                    assert(res[res.len() - 1] == id);
                }
            }
            if n.id == id {
                assert(!(exists|j: int| 0 <= j < links.len() && #[trigger] links[j].1 == id && covers(links[j].2)));
            }
        } else {
            assert(res == rest);
            if n.id == id && n.kind == TraceNodeKind::SoftwareRequirement {
                assert(crate::graph::has_covering_link(links, id));
                let j = choose|j: int|
                    0 <= j < links.len() && crate::graph::is_covering_type(links[j].2) && #[trigger] links[j].1 == id;
                assert(covers(links[j].2));
            }
        }
    }
}

/// The last `contains` edge into `id` names the parent.
proof fn lemma_parent_from_edge(edges: Seq<TemplateEdge>, id: u128, e: int)
    requires
        0 <= e < edges.len(),
        edges[e].edge_type@ == "contains"@,
        edges[e].target_node_id == id,
        forall|f: int|
            e < f < edges.len() ==> !(#[trigger] edges[f].edge_type@ == "contains"@ && edges[f].target_node_id
                == id),
    ensures
        contains_parent(edges, id) == Some(edges[e].source_node_id),
    decreases edges.len(),
{
    if e < edges.len() - 1 {
        let last = edges.len() - 1;
        assert(!(edges[last].edge_type@ == "contains"@ && edges[last].target_node_id == id));
        assert forall|f: int|
            e < f < edges.drop_last().len() implies !(#[trigger] edges.drop_last()[f].edge_type@ == "contains"@
                && edges.drop_last()[f].target_node_id == id) by {
            assert(edges.drop_last()[f] == edges[f]);
        }
        lemma_parent_from_edge(edges.drop_last(), id, e);
    }
}

/// With no `contains` edge into `id`, the node has no parent.
proof fn lemma_no_parent(edges: Seq<TemplateEdge>, id: u128)
    requires
        forall|f: int|
            0 <= f < edges.len() ==> !(#[trigger] edges[f].edge_type@ == "contains"@ && edges[f].target_node_id
                == id),
    ensures
        contains_parent(edges, id) is None,
    decreases edges.len(),
{
    if edges.len() > 0 {
        let last = edges.len() - 1;
        assert(!(edges[last].edge_type@ == "contains"@ && edges[last].target_node_id == id));
        assert forall|f: int|
            0 <= f < edges.drop_last().len() implies !(#[trigger] edges.drop_last()[f].edge_type@
                == "contains"@ && edges.drop_last()[f].target_node_id == id) by {
            assert(edges.drop_last()[f] == edges[f]);
        }
        lemma_no_parent(edges.drop_last(), id);
    }
}

/// The last position before `i` holding `id` is `j` when none between holds it.
proof fn lemma_last_at_is(nodes: Seq<TemplateNode>, i: int, id: u128, j: int)
    requires
        0 <= j < i <= nodes.len(),
        nodes[j].id == id,
        forall|k: int| j < k < i ==> #[trigger] nodes[k].id != id,
    ensures
        last_at(nodes, i, id) == Some(j),
    decreases i,
{
    if i - 1 > j {
        lemma_last_at_is(nodes, i - 1, id, j);
    }
}

/// Block depth follows the `contains` tree: when the last `contains` edge into
/// a block's node comes from a node whose block stands earlier (the nearest
/// such block being `j`), the block is one level deeper than that block. So a
/// chapter's section has depth 1 and the section's paragraph depth 2.
pub proof fn law_block_depth_one_below_parent(
    nodes: Seq<TemplateNode>,
    edges: Seq<TemplateEdge>,
    specs: Seq<Option<ContentSpec>>,
    scope: Seq<char>,
    view: ProjectDataView,
    slots: Seq<ExecutionItem>,
    store: TraceStore,
    project_id: u128,
    blocks: Seq<ResolvedBlock>,
    e: int,
    i: int,
    j: int,
)
    requires
        blocks_ok(nodes, edges, specs, scope, view, slots, store, project_id, blocks),
        0 <= j < i < blocks.len(),
        0 <= e < edges.len(),
        edges[e].edge_type@ == "contains"@,
        edges[e].target_node_id == blocks[i].node_id,
        forall|f: int|
            e < f < edges.len() ==> !(#[trigger] edges[f].edge_type@ == "contains"@ && edges[f].target_node_id
                == blocks[i].node_id),
        blocks[j].node_id == edges[e].source_node_id,
        forall|k: int| j < k < i ==> #[trigger] blocks[k].node_id != edges[e].source_node_id,
    ensures
        blocks[i].depth == blocks[j].depth + 1,
{
    assert(block_at(nodes, edges, specs, scope, view, slots, store, project_id, i, blocks[i]));
    assert(block_at(nodes, edges, specs, scope, view, slots, store, project_id, j, blocks[j]));
    let p = edges[e].source_node_id;
    lemma_parent_from_edge(edges, nodes[i].id, e);
    assert forall|k: int| j < k < i implies #[trigger] nodes[k].id != p by {
        assert(block_at(nodes, edges, specs, scope, view, slots, store, project_id, k, blocks[k]));
        assert(blocks[k].node_id != p);
    }
    lemma_last_at_is(nodes, i, p, j);
    assert(depth_at(nodes, edges, i) == depth_at(nodes, edges, j) + 1);
}

/// With no position before `i` holding `id`, there is no last one.
proof fn lemma_last_at_none(nodes: Seq<TemplateNode>, i: int, id: u128)
    requires
        i <= nodes.len(),
        forall|k: int| 0 <= k < i ==> #[trigger] nodes[k].id != id,
    ensures
        last_at(nodes, i, id) is None,
    decreases i,
{
    if i > 0 {
        lemma_last_at_none(nodes, i - 1, id);
    }
}

/// A block whose `contains` parent (by the last `contains` edge into its
/// node) has no block before it stands at depth 0.
pub proof fn law_block_depth_parent_not_before(
    nodes: Seq<TemplateNode>,
    edges: Seq<TemplateEdge>,
    specs: Seq<Option<ContentSpec>>,
    scope: Seq<char>,
    view: ProjectDataView,
    slots: Seq<ExecutionItem>,
    store: TraceStore,
    project_id: u128,
    blocks: Seq<ResolvedBlock>,
    e: int,
    i: int,
)
    requires
        blocks_ok(nodes, edges, specs, scope, view, slots, store, project_id, blocks),
        0 <= i < blocks.len(),
        0 <= e < edges.len(),
        edges[e].edge_type@ == "contains"@,
        edges[e].target_node_id == blocks[i].node_id,
        forall|f: int|
            e < f < edges.len() ==> !(#[trigger] edges[f].edge_type@ == "contains"@ && edges[f].target_node_id
                == blocks[i].node_id),
        forall|k: int| 0 <= k < i ==> #[trigger] blocks[k].node_id != edges[e].source_node_id,
    ensures
        blocks[i].depth == 0,
{
    assert(block_at(nodes, edges, specs, scope, view, slots, store, project_id, i, blocks[i]));
    let p = edges[e].source_node_id;
    lemma_parent_from_edge(edges, nodes[i].id, e);
    assert forall|k: int| 0 <= k < i implies #[trigger] nodes[k].id != p by {
        assert(block_at(nodes, edges, specs, scope, view, slots, store, project_id, k, blocks[k]));
        assert(blocks[k].node_id != p);
    }
    lemma_last_at_none(nodes, i, p);
}

/// A block whose node no `contains` edge points to stands at depth 0.
pub proof fn law_block_depth_root(
    nodes: Seq<TemplateNode>,
    edges: Seq<TemplateEdge>,
    specs: Seq<Option<ContentSpec>>,
    scope: Seq<char>,
    view: ProjectDataView,
    slots: Seq<ExecutionItem>,
    store: TraceStore,
    project_id: u128,
    blocks: Seq<ResolvedBlock>,
    i: int,
)
    requires
        blocks_ok(nodes, edges, specs, scope, view, slots, store, project_id, blocks),
        0 <= i < blocks.len(),
        forall|f: int|
            0 <= f < edges.len() ==> !(#[trigger] edges[f].edge_type@ == "contains"@ && edges[f].target_node_id
                == blocks[i].node_id),
    ensures
        blocks[i].depth == 0,
{
    assert(block_at(nodes, edges, specs, scope, view, slots, store, project_id, i, blocks[i]));
    lemma_no_parent(edges, nodes[i].id);
}

/// Every field's key, trimmed, is non-empty.
pub open spec fn keys_present(fs: Seq<FieldSpecV>) -> bool {
    forall|i: int| 0 <= i < fs.len() ==> trim_seq(#[trigger] fs[i].field_key).len() > 0
}

/// No two fields share both their doc kind and their key, as normalized
/// (trimmed, a blank doc kind read as `project`); one key may serve several
/// doc kinds.
pub open spec fn pairs_distinct(fs: Seq<FieldSpecV>) -> bool {
    forall|i: int, j: int|
        0 <= i < j < fs.len() ==> !(norm_doc_kind(#[trigger] fs[i].doc_kind) == norm_doc_kind(
            #[trigger] fs[j].doc_kind,
        ) && trim_seq(fs[i].field_key) == trim_seq(fs[j].field_key))
}

/// Scheme fields: normalization accepts a list exactly when every key is
/// non-empty and the `(doc_kind, field_key)` pairs are pairwise distinct, so a
/// field is rejected only for an empty key or for an earlier field with the
/// same doc kind and the same key (`(大纲, 文档标识)` and `(报告, 文档标识)`
/// both stand). What it accepts keeps every field, in order, normalized.
pub proof fn law_fields_accepted_iff_pairs_distinct(fs: Seq<FieldSpecV>)
    ensures
        norm_fields(fs) is Ok <==> keys_present(fs) && pairs_distinct(fs),
        norm_fields(fs) matches Ok(v) ==> v.len() == fs.len() && forall|i: int|
            0 <= i < fs.len() ==> #[trigger] v[i] == norm_field(fs[i]),
    decreases fs.len(),
{
    if fs.len() > 0 {
        let init = fs.drop_last();
        let last = fs.len() - 1;
        law_fields_accepted_iff_pairs_distinct(init);
        assert forall|i: int| 0 <= i < init.len() implies #[trigger] init[i] == fs[i] by {}
        let f = norm_field(fs.last());
        match norm_fields(init) {
            Err(_) => {
                if keys_present(fs) && pairs_distinct(fs) {
                    assert forall|i: int| 0 <= i < init.len() implies trim_seq(
                        #[trigger] init[i].field_key,
                    ).len() > 0 by {
                        assert(init[i] == fs[i]);
                    }
                    assert forall|i: int, j: int| 0 <= i < j < init.len() implies !(norm_doc_kind(
                        #[trigger] init[i].doc_kind,
                    ) == norm_doc_kind(#[trigger] init[j].doc_kind) && trim_seq(init[i].field_key)
                        == trim_seq(init[j].field_key)) by {
                        assert(init[i] == fs[i] && init[j] == fs[j]);
                    }
                }
            },
            Ok(prev) => {
                assert(fs[last] == fs.last());
                if f.field_key.len() == 0 {
                    assert(trim_seq(fs[last].field_key).len() == 0);
                } else if exists|i: int|
                    0 <= i < prev.len() && #[trigger] prev[i].doc_kind == f.doc_kind
                        && prev[i].field_key == f.field_key {
                    let i = choose|i: int|
                        0 <= i < prev.len() && #[trigger] prev[i].doc_kind == f.doc_kind
                            && prev[i].field_key == f.field_key;
                    assert(prev[i] == norm_field(init[i]));
                    assert(init[i] == fs[i]);
                    assert(norm_doc_kind(fs[i].doc_kind) == norm_doc_kind(fs[last].doc_kind));
                    assert(!pairs_distinct(fs));
                } else {
                    let v = prev.push(f);
                    assert(norm_fields(fs) == Ok::<Seq<FieldSpecV>, Seq<char>>(v));
                    assert forall|i: int| 0 <= i < fs.len() implies #[trigger] v[i] == norm_field(fs[i]) by {
                        if i < last {
                            assert(v[i] == prev[i]);
                            assert(prev[i] == norm_field(init[i]));
                        }
                    }
                    assert forall|i: int| 0 <= i < fs.len() implies trim_seq(#[trigger] fs[i].field_key).len()
                        > 0 by {
                        if i < last {
                            assert(init[i] == fs[i]);
                            assert(trim_seq(init[i].field_key).len() > 0);
                        }
                    }
                    assert forall|i: int, j: int| 0 <= i < j < fs.len() implies !(norm_doc_kind(
                        #[trigger] fs[i].doc_kind,
                    ) == norm_doc_kind(#[trigger] fs[j].doc_kind) && trim_seq(fs[i].field_key) == trim_seq(
                        fs[j].field_key,
                    )) by {
                        assert(init[i] == fs[i]);
                        if j < last {
                            assert(init[j] == fs[j]);
                            assert(!(norm_doc_kind(init[i].doc_kind) == norm_doc_kind(init[j].doc_kind)
                                && trim_seq(init[i].field_key) == trim_seq(init[j].field_key)));
                        } else {
                            assert(prev[i] == norm_field(init[i]));
                            assert(!(prev[i].doc_kind == f.doc_kind && prev[i].field_key == f.field_key));
                        }
                    }
                }
            },
        }
    }
}

/// An entry of the covering pairs built from the allowed links into `target`
/// comes from one such link whose source is a node of project `p`.
proof fn lemma_cover_pairs_from_links(
    nodes: Seq<TraceNode>,
    p: u128,
    edges: Seq<Edge>,
    target: u128,
    x: (TraceNode, LinkType),
)
    ensures
        cover_pairs(nodes, p, direct_sources_spec(edges, target, Some(covering_types()))).contains(x) <==> (
        exists|l: int|
            0 <= l < edges.len() && #[trigger] edges[l].1 == target && covering_types().contains(edges[l].2)
                && edges[l].2 == x.1 && node_in(nodes, p, edges[l].0) == Some(x.0)),
    decreases edges.len(),
{
    if edges.len() > 0 {
        let init = edges.drop_last();
        let e = edges.last();
        let last = edges.len() - 1;
        lemma_cover_pairs_from_links(nodes, p, init, target, x);
        let srcs0 = direct_sources_spec(init, target, Some(covering_types()));
        let srcs = direct_sources_spec(edges, target, Some(covering_types()));
        let rest = cover_pairs(nodes, p, srcs0);
        let here = e.1 == target && covering_types().contains(e.2) && e.2 == x.1 && node_in(nodes, p, e.0) == Some(
            x.0,
        );
        let found = exists|l: int|
            0 <= l < edges.len() && #[trigger] edges[l].1 == target && covering_types().contains(edges[l].2)
                && edges[l].2 == x.1 && node_in(nodes, p, edges[l].0) == Some(x.0);
        let found0 = exists|l: int|
            0 <= l < init.len() && #[trigger] init[l].1 == target && covering_types().contains(init[l].2)
                && init[l].2 == x.1 && node_in(nodes, p, init[l].0) == Some(x.0);
        assert(found <==> found0 || here) by {
            if found0 {
                let l = choose|l: int|
                    0 <= l < init.len() && #[trigger] init[l].1 == target && covering_types().contains(init[l].2)
                        && init[l].2 == x.1 && node_in(nodes, p, init[l].0) == Some(x.0);
                assert(edges[l] == init[l]);
            }
            if here {
                assert(edges[last] == e);
            }
            if found {
                let l = choose|l: int|
                    0 <= l < edges.len() && #[trigger] edges[l].1 == target && covering_types().contains(
                        edges[l].2,
                    ) && edges[l].2 == x.1 && node_in(nodes, p, edges[l].0) == Some(x.0);
                if l < last {
                    assert(init[l] == edges[l]);
                }
            }
        }
        if e.1 == target && covering_types().contains(e.2) {
            assert(srcs == srcs0.push((e.0, e.2)));
            assert(srcs.drop_last() =~= srcs0);
            let res = cover_pairs(nodes, p, srcs);
            match node_in(nodes, p, e.0) {
                Some(n) => {
                    assert(res == rest.push((n, e.2)));
                    assert(res.contains(x) <==> rest.contains(x) || x == (n, e.2)) by {
                        if res.contains(x) {
                            let w = choose|w: int| 0 <= w < res.len() && res[w] == x;
                            if w < rest.len() {
                                assert(rest[w] == x);
                            }
                        }
                        if rest.contains(x) {
                            let w = choose|w: int| 0 <= w < rest.len() && rest[w] == x;
                            assert(res[w] == x);
                        }
                        if x == (n, e.2) {
                            assert(res[res.len() - 1] == x);
                        }
                    }
                },
                None => {
                    assert(res == rest);
                },
            }
        } else {
            assert(srcs == srcs0);
        }
    }
}

/// The covering types are exactly derives_from, satisfies and verifies.
proof fn lemma_covering_types(t: LinkType)
    ensures
        covering_types().contains(t) <==> covers(t),
{
    let ct = covering_types();
    if covers(t) {
        if t == LinkType::DerivesFrom {
            assert(ct[0] == t);
        } else if t == LinkType::Satisfies {
            assert(ct[1] == t);
        } else {
            assert(ct[2] == t);
        }
    }
}

/// Traceability matrix: the row of a requirement lists `(n, t)` exactly when
/// a link of project `p` of type `t` (derives_from, satisfies or verifies)
/// runs into the requirement from `n`, a node of the project. A test item
/// that verifies a requirement appears in its row.
pub proof fn law_matrix_row_lists_covering_sources(
    store: TraceStore,
    p: u128,
    rows: Seq<TraceMatrixRow>,
    k: int,
    n: TraceNode,
    t: LinkType,
)
    requires
        matrix_ok(store, p, rows),
        0 <= k < rows.len(),
    ensures
        rows[k].covering@.contains((n, t)) <==> covers(t) && exists|l: int|
            0 <= l < links_of(store.links@, p).len() && #[trigger] links_of(store.links@, p)[l].target_node_id
                == rows[k].requirement.id && links_of(store.links@, p)[l].link_type == t && node_in(
                store.nodes@,
                p,
                links_of(store.links@, p)[l].source_node_id,
            ) == Some(n),
{
    broadcast use vstd::seq_lib::group_to_multiset_ensures;

    let ls = links_of(store.links@, p);
    let edges = edges_spec(ls);
    let target = rows[k].requirement.id;
    assert(edges.len() == ls.len());
    let cp = cover_pairs(store.nodes@, p, direct_sources_spec(edges, target, Some(covering_types())));
    assert(rows[k].covering@.to_multiset() == cp.to_multiset());
    assert(rows[k].covering@.contains((n, t)) <==> rows[k].covering@.to_multiset().count((n, t)) > 0);
    assert(cp.contains((n, t)) <==> cp.to_multiset().count((n, t)) > 0);
    lemma_cover_pairs_from_links(store.nodes@, p, edges, target, (n, t));
    lemma_covering_types(t);
    let via_edges = exists|l: int|
        0 <= l < edges.len() && #[trigger] edges[l].1 == target && covering_types().contains(edges[l].2)
            && edges[l].2 == t && node_in(store.nodes@, p, edges[l].0) == Some(n);
    let via_links = exists|l: int|
        0 <= l < ls.len() && #[trigger] ls[l].target_node_id == target && ls[l].link_type == t && node_in(
            store.nodes@,
            p,
            ls[l].source_node_id,
        ) == Some(n);
    assert(via_edges <==> covers(t) && via_links) by {
        if via_edges {
            let l = choose|l: int|
                0 <= l < edges.len() && #[trigger] edges[l].1 == target && covering_types().contains(edges[l].2)
                    && edges[l].2 == t && node_in(store.nodes@, p, edges[l].0) == Some(n);
            assert(edges[l] == (ls[l].source_node_id, ls[l].target_node_id, ls[l].link_type));
            assert(covers(t));
            assert(ls[l].target_node_id == target);
            assert(via_links);
        }
        if covers(t) && via_links {
            let l = choose|l: int|
                0 <= l < ls.len() && #[trigger] ls[l].target_node_id == target && ls[l].link_type == t && node_in(
                    store.nodes@,
                    p,
                    ls[l].source_node_id,
                ) == Some(n);
            assert(edges[l] == (ls[l].source_node_id, ls[l].target_node_id, ls[l].link_type));
            assert(edges[l].1 == target);
            assert(via_edges);
        }
    }
}

/// The requirements of a node list are its software requirements.
proof fn lemma_requirements_contains(ns: Seq<TraceNode>, r: TraceNode)
    ensures
        requirements(ns).contains(r) <==> ns.contains(r) && r.kind == TraceNodeKind::SoftwareRequirement,
    decreases ns.len(),
{
    if ns.len() > 0 {
        let init = ns.drop_last();
        lemma_requirements_contains(init, r);
        assert(ns.contains(r) <==> init.contains(r) || ns.last() == r) by {
            if ns.contains(r) {
                let w = choose|w: int| 0 <= w < ns.len() && ns[w] == r;
                if w < init.len() {
                    assert(init[w] == r);
                }
            }
            if init.contains(r) {
                let w = choose|w: int| 0 <= w < init.len() && init[w] == r;
                assert(ns[w] == r);
            }
            if ns.last() == r {
                assert(ns[ns.len() - 1] == r);
            }
        }
        let rest = requirements(init);
        if ns.last().kind == TraceNodeKind::SoftwareRequirement {
            let res = rest.push(ns.last());
            assert(res.contains(r) <==> rest.contains(r) || ns.last() == r) by {
                if res.contains(r) {
                    let w = choose|w: int| 0 <= w < res.len() && res[w] == r;
                    if w < rest.len() {
                        assert(rest[w] == r);
                    }
                }
                if rest.contains(r) {
                    let w = choose|w: int| 0 <= w < rest.len() && rest[w] == r;
                    assert(res[w] == r);
                }
                if ns.last() == r {
                    assert(res[res.len() - 1] == r);
                }
            }
        }
    }
}

/// The nodes of project `p` are the stored nodes whose project is `p`.
proof fn lemma_nodes_of_contains(ns: Seq<TraceNode>, p: u128, r: TraceNode)
    ensures
        nodes_of(ns, p).contains(r) <==> ns.contains(r) && r.project_id == p,
    decreases ns.len(),
{
    if ns.len() > 0 {
        let init = ns.drop_last();
        lemma_nodes_of_contains(init, p, r);
        assert(ns.contains(r) <==> init.contains(r) || ns.last() == r) by {
            if ns.contains(r) {
                let w = choose|w: int| 0 <= w < ns.len() && ns[w] == r;
                if w < init.len() {
                    assert(init[w] == r);
                }
            }
            if init.contains(r) {
                let w = choose|w: int| 0 <= w < init.len() && init[w] == r;
                assert(ns[w] == r);
            }
            if ns.last() == r {
                assert(ns[ns.len() - 1] == r);
            }
        }
        let rest = nodes_of(init, p);
        if ns.last().project_id == p {
            let res = rest.push(ns.last());
            assert(res.contains(r) <==> rest.contains(r) || ns.last() == r) by {
                if res.contains(r) {
                    let w = choose|w: int| 0 <= w < res.len() && res[w] == r;
                    if w < rest.len() {
                        assert(rest[w] == r);
                    }
                }
                if rest.contains(r) {
                    let w = choose|w: int| 0 <= w < rest.len() && rest[w] == r;
                    assert(res[w] == r);
                }
                if ns.last() == r {
                    assert(res[res.len() - 1] == r);
                }
            }
        }
    }
}

/// Traceability matrix: a node heads a row exactly when it is a stored
/// software requirement of project `p`.
pub proof fn law_matrix_rows_are_requirements(store: TraceStore, p: u128, rows: Seq<TraceMatrixRow>, r: TraceNode)
    requires
        matrix_ok(store, p, rows),
    ensures
        (exists|k: int| 0 <= k < rows.len() && #[trigger] rows[k].requirement == r) <==> store.nodes@.contains(r)
            && r.project_id == p && r.kind == TraceNodeKind::SoftwareRequirement,
{
    broadcast use vstd::seq_lib::group_to_multiset_ensures;

    let heads = rows.map_values(|row: TraceMatrixRow| row.requirement);
    let reqs = requirements(nodes_of(store.nodes@, p));
    assert(heads.to_multiset() == reqs.to_multiset());
    assert(heads.contains(r) <==> heads.to_multiset().count(r) > 0);
    assert(reqs.contains(r) <==> reqs.to_multiset().count(r) > 0);
    lemma_requirements_contains(nodes_of(store.nodes@, p), r);
    lemma_nodes_of_contains(store.nodes@, p, r);
    assert((exists|k: int| 0 <= k < rows.len() && #[trigger] rows[k].requirement == r) <==> heads.contains(r)) by {
        if exists|k: int| 0 <= k < rows.len() && #[trigger] rows[k].requirement == r {
            let k = choose|k: int| 0 <= k < rows.len() && #[trigger] rows[k].requirement == r;
            assert(heads[k] == r);
        }
        if heads.contains(r) {
            let k = choose|k: int| 0 <= k < heads.len() && heads[k] == r;
            assert(rows[k].requirement == r);
        }
    }
}

} // verus!
