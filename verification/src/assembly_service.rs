//! The assembly service: a template's nodes in document order, each
//! evaluated by its content spec against one project (its data view, its
//! trace graph, its checklist) into a body block. Nothing of it is stored.
use vstd::prelude::*;
use crate::assembly::{
    expand_fields, find_table, matrix_rows, matrix_rows_spec, opt_str_view, table_projection_spec,
    table_value, test_item_rows, test_item_rows_spec, view_field_spec, TableProjection, TraceValue,
};
use crate::content::{interpolate_spec, BlockKind, ContentSpec};
use crate::document_model::{TemplateEdge, TemplateNode, TemplateNodeType};
use crate::document_order::{is_contains, ordered_spec};
use crate::document_service::{edges_in, flat_order, nodes_in, template_of, DocumentService};
use crate::project_service::{empty_view, project_of, view_built, Project, ProjectDataService, ProjectService};
use crate::scheme_service::{scheme_of, schemes_view, SchemeFullV, SchemeService};
use crate::error::ServiceError;
use crate::execution_model::ExecutionItem;
use crate::execution_service::{instance_of, items_of, ExecutionService};
use crate::json::{json_str_field, value_str_field};
use crate::projectdata::ProjectDataView;
use crate::text::{opt_view, str_eq};
use crate::trace_service::TraceService;
use crate::trace_store::{nodes_of, TraceStore};
use crate::trace_views::matrix_ok;

verus! {

/// What a block shows, by its kind.
pub enum BlockValue {
    /// A text or field block: the expanded text.
    Text { text: String },
    /// A data table block.
    Table { table: TableProjection },
    /// A trace slice.
    Trace { value: TraceValue },
    /// A manual slot: the filled text, or the placeholder when unfilled.
    Slot { placeholder: String, role: Option<String>, filled: bool, text: String },
    /// Pure structure, or a content spec that could not be read.
    Empty,
}

/// One body block: a template node projected at its place in document order.
pub struct ResolvedBlock {
    pub node_id: u128,
    pub node_type: TemplateNodeType,
    pub title: String,
    /// Depth in the `contains` tree (a root is 0).
    pub depth: usize,
    pub kind: BlockKind,
    pub value: BlockValue,
}

/// An assembled document: the template's identity and the blocks in document order.
pub struct ResolvedDocument {
    pub template_id: u128,
    pub template_name: String,
    pub template_kind: String,
    pub project_id: u128,
    pub instance_id: Option<u128>,
    pub blocks: Vec<ResolvedBlock>,
}

/// The text filled in for template node `node`: that of the last item for
/// it whose content has a string `text`.
pub open spec fn slot_text(items: Seq<ExecutionItem>, node: u128) -> Option<Seq<char>>
    decreases items.len(),
{
    if items.len() == 0 {
        None
    } else if items.last().template_node_id == node && json_str_field(items.last().content, "text"@) is Some {
        json_str_field(items.last().content, "text"@)
    } else {
        slot_text(items.drop_last(), node)
    }
}

/// The checklist items that fill the slots: none without an instance or
/// when the instance belongs to another project, else the instance's items.
pub open spec fn slot_source(
    exec: ExecutionService,
    project_id: u128,
    instance_id: Option<u128>,
) -> Seq<ExecutionItem> {
    match instance_id {
        None => Seq::empty(),
        Some(iid) => match instance_of(exec.instances@, iid) {
            Some(inst) => if inst.project_id == project_id {
                items_of(exec.items@, iid)
            } else {
                Seq::empty()
            },
            None => Seq::empty(),
        },
    }
}

/// `tv` is the trace slice `view` of project `p`.
pub open spec fn trace_value_ok(store: TraceStore, p: u128, view: Seq<char>, tv: TraceValue) -> bool {
    match tv {
        TraceValue::Matrix { rows } => view == "matrix"@ && exists|m: Seq<crate::trace_views::TraceMatrixRow>|
            #[trigger] matrix_ok(store, p, m) && matrix_rows_spec(m, rows@),
        TraceValue::TestItems { items } => view == "test_items"@ && test_item_rows_spec(
            nodes_of(store.nodes@, p),
            items@,
        ),
    }
}

/// A trace view name that names no slice.
pub open spec fn bad_trace_view(view: Seq<char>) -> bool {
    view != "matrix"@ && view != "test_items"@
}

/// The trace view a block would compute, when its kind and spec both say trace.
pub open spec fn trace_view_of(kind: BlockKind, spec: Option<ContentSpec>) -> Option<Seq<char>> {
    match spec {
        Some(ContentSpec::Trace { view }) => if kind == BlockKind::Trace {
            Some(view@)
        } else {
            None
        },
        _ => None,
    }
}

/// `v` is the value of a block of kind `kind` whose content spec reads as
/// `spec`, in a document of class `scope`, against the project's data view,
/// trace store and the slot text filled for the node.
pub open spec fn block_value_ok(
    kind: BlockKind,
    spec: Option<ContentSpec>,
    scope: Seq<char>,
    view: ProjectDataView,
    filled: Option<Seq<char>>,
    store: TraceStore,
    project_id: u128,
    v: BlockValue,
) -> bool {
    match spec {
        Some(ContentSpec::Text { text }) => if kind == BlockKind::Text {
            v matches BlockValue::Text { text: t } && t@ == interpolate_spec(
                text@,
                |k: Seq<char>| view_field_spec(k, None, scope, view.fields@),
            )
        } else {
            v is Empty
        },
        Some(ContentSpec::Field { field, doc_kind }) => if kind == BlockKind::Field {
            v matches BlockValue::Text { text: t } && t@ == interpolate_spec(
                "{"@ + field@ + "}"@,
                |k: Seq<char>| view_field_spec(k, opt_view(doc_kind), scope, view.fields@),
            )
        } else {
            v is Empty
        },
        Some(ContentSpec::Table { source, party_kind, category }) => if kind == BlockKind::Table {
            v matches BlockValue::Table { table: t } && match find_table(view.tables@, source@) {
                Some(tb) => table_projection_spec(tb, opt_view(party_kind), opt_view(category), t),
                None => t.columns@.len() == 0 && t.rows@.len() == 0,
            }
        } else {
            v is Empty
        },
        Some(ContentSpec::Trace { view: tview }) => if kind == BlockKind::Trace {
            v matches BlockValue::Trace { value: tv } && trace_value_ok(store, project_id, tview@, tv)
        } else {
            v is Empty
        },
        Some(ContentSpec::Slot { placeholder, role }) => if kind == BlockKind::Slot {
            v matches BlockValue::Slot { placeholder: ph, role: r, filled: f, text: t } && ph
                == placeholder && r == role && f == (filled is Some) && t@ == match filled {
                Some(x) => x,
                None => placeholder@,
            }
        } else {
            v is Empty
        },
        None => v is Empty,
    }
}

fn opt_as_str(o: &Option<String>) -> (r: Option<&str>)
    ensures
        opt_str_view(r) == opt_view(*o),
{
    match o {
        Some(s) => Some(s.as_str()),
        None => None,
    }
}

/// The trace slice `view` of project `project_id`: `matrix` (the
/// traceability matrix, projected) or `test_items` (the test items by
/// creation time, then id); any other name is a Validation error
/// (`unknown trace view: <view>`).
pub fn trace_value(trace: &TraceService, project_id: u128, view: &str) -> (r: Result<
    TraceValue,
    ServiceError,
>)
    requires
        trace.wf(),
    ensures
        match r {
            Ok(tv) => trace_value_ok(trace.store, project_id, view@, tv),
            Err(e) => bad_trace_view(view@) && e is Validation && e.message() == "unknown trace view: "@
                + view@,
        },
{
    if str_eq(view, "matrix") {
        let m = trace.matrix(project_id);
        let rows = matrix_rows(&m);
        proof {
            assert(matrix_ok(trace.store, project_id, m.rows@));
        }
        Ok(TraceValue::Matrix { rows })
    } else if str_eq(view, "test_items") {
        let all = trace.list_nodes(project_id);
        let items = test_item_rows(&all);
        Ok(TraceValue::TestItems { items })
    } else {
        let mut m = String::from_str("unknown trace view: ");
        m.append(view);
        Err(ServiceError::Validation(m))
    }
}

/// The checklist items that fill the slots of an assembly (see
/// `slot_source`); NotFound (`execution_instance_not_found`) for an unknown
/// instance.
pub fn slot_items(exec: &ExecutionService, project_id: u128, instance_id: Option<u128>) -> (r: Result<
    Vec<ExecutionItem>,
    ServiceError,
>)
    ensures
        match r {
            Ok(items) => items@ == slot_source(*exec, project_id, instance_id) && (instance_id matches Some(
                iid,
            ) ==> instance_of(exec.instances@, iid) is Some),
            Err(e) => instance_id is Some && instance_of(exec.instances@, instance_id->0) is None
                && e is NotFound && e.message() == "execution_instance_not_found"@,
        },
{
    let iid = match instance_id {
        Some(i) => i,
        None => {
            return Ok(Vec::new());
        },
    };
    let instance = match exec.get_instance(iid) {
        Ok(x) => x,
        Err(e) => {
            return Err(e);
        },
    };
    if instance.project_id != project_id {
        return Ok(Vec::new());
    }
    exec.list_items(iid)
}

/// The text filled in for node `node` (see `slot_text`).
pub fn find_slot_text(items: &Vec<ExecutionItem>, node: u128) -> (r: Option<String>)
    ensures
        opt_view(r) == slot_text(items@, node),
{
    let mut i: usize = items.len();
    assert(items@.take(i as int) =~= items@);
    while i > 0
        invariant
            i <= items@.len(),
            slot_text(items@, node) == slot_text(items@.take(i as int), node),
        decreases i,
    {
        assert(items@.take(i as int).drop_last() =~= items@.take(i - 1));
        let it = &items[i - 1];
        if it.template_node_id == node {
            if let Some(t) = value_str_field(&it.content, "text") {
                return Some(t);
            }
        }
        i = i - 1;
    }
    None
}

/// The source of the last `contains` edge into node `id`.
pub open spec fn contains_parent(edges: Seq<TemplateEdge>, id: u128) -> Option<u128>
    decreases edges.len(),
{
    if edges.len() == 0 {
        None
    } else if is_contains(edges.last()) && edges.last().target_node_id == id {
        Some(edges.last().source_node_id)
    } else {
        contains_parent(edges.drop_last(), id)
    }
}

/// The last position before `i` that holds node `id`.
pub open spec fn last_at(nodes: Seq<TemplateNode>, i: int, id: u128) -> Option<int>
    decreases i,
{
    if i <= 0 {
        None
    } else if nodes[i - 1].id == id {
        Some(i - 1)
    } else {
        last_at(nodes, i - 1, id)
    }
}

/// The depth of the block at position `i`: one more than that of the last
/// earlier block of its `contains` parent, 0 when there is none.
pub open spec fn depth_at(nodes: Seq<TemplateNode>, edges: Seq<TemplateEdge>, i: int) -> nat
    decreases i,
{
    match contains_parent(edges, nodes[i].id) {
        Some(p) => match last_at(nodes, i, p) {
            Some(j) => if 0 <= j < i {
                depth_at(nodes, edges, j) + 1
            } else {
                0
            },
            None => 0,
        },
        None => 0,
    }
}

/// The block kind a node's content spec names.
pub open spec fn node_kind(n: TemplateNode) -> BlockKind {
    crate::content::block_kind_of(json_str_field(n.content_spec, "kind"@))
}

/// `specs[i]` is what `parse` gave for the content spec of node `i`.
pub open spec fn parsed_by<P: Fn(&serde_json::Value) -> Option<ContentSpec>>(
    parse: P,
    nodes: Seq<TemplateNode>,
    specs: Seq<Option<ContentSpec>>,
) -> bool {
    &&& specs.len() <= nodes.len()
    &&& forall|i: int|
        0 <= i < specs.len() ==> #[trigger] parse.ensures((&nodes[i].content_spec,), specs[i])
}

/// Block `i` would compute a trace slice whose name names none.
pub open spec fn bad_trace_at(nodes: Seq<TemplateNode>, specs: Seq<Option<ContentSpec>>, i: int) -> bool {
    trace_view_of(node_kind(nodes[i]), specs[i]) matches Some(w) && bad_trace_view(w)
}

/// `b` is the block of node `i`.
pub open spec fn block_at(
    nodes: Seq<TemplateNode>,
    edges: Seq<TemplateEdge>,
    specs: Seq<Option<ContentSpec>>,
    scope: Seq<char>,
    view: ProjectDataView,
    slots: Seq<ExecutionItem>,
    store: TraceStore,
    project_id: u128,
    i: int,
    b: ResolvedBlock,
) -> bool {
    let n = nodes[i];
    &&& b.node_id == n.id
    &&& b.node_type == n.node_type
    &&& b.title == n.title
    &&& b.depth == depth_at(nodes, edges, i)
    &&& b.kind == node_kind(n)
    &&& block_value_ok(b.kind, specs[i], scope, view, slot_text(slots, n.id), store, project_id, b.value)
}

/// `blocks` are the blocks of `nodes`, one per node, in their order.
pub open spec fn blocks_ok(
    nodes: Seq<TemplateNode>,
    edges: Seq<TemplateEdge>,
    specs: Seq<Option<ContentSpec>>,
    scope: Seq<char>,
    view: ProjectDataView,
    slots: Seq<ExecutionItem>,
    store: TraceStore,
    project_id: u128,
    blocks: Seq<ResolvedBlock>,
) -> bool {
    &&& blocks.len() == nodes.len()
    &&& specs.len() == nodes.len()
    &&& forall|i: int|
        0 <= i < blocks.len() ==> #[trigger] block_at(
            nodes,
            edges,
            specs,
            scope,
            view,
            slots,
            store,
            project_id,
            i,
            blocks[i],
        )
}

/// `k` is the first block whose trace slice names none, `specs` reading the
/// content specs up to it.
pub open spec fn first_bad_trace(nodes: Seq<TemplateNode>, specs: Seq<Option<ContentSpec>>, k: int) -> bool {
    &&& 0 <= k < nodes.len()
    &&& specs.len() == k + 1
    &&& bad_trace_at(nodes, specs, k)
    &&& forall|j: int| 0 <= j < k ==> !#[trigger] bad_trace_at(nodes, specs, j)
}

proof fn lemma_last_at(nodes: Seq<TemplateNode>, i: int, id: u128)
    requires
        i <= nodes.len(),
    ensures
        last_at(nodes, i, id) matches Some(j) ==> 0 <= j < i && nodes[j].id == id,
        last_at(nodes, i, id) is None ==> forall|j: int| 0 <= j < i ==> nodes[j].id != id,
    decreases i,
{
    if i > 0 && nodes[i - 1].id != id {
        lemma_last_at(nodes, i - 1, id);
    }
}

proof fn lemma_depth_bound(nodes: Seq<TemplateNode>, edges: Seq<TemplateEdge>, i: int)
    requires
        0 <= i < nodes.len(),
    ensures
        depth_at(nodes, edges, i) <= i,
    decreases i,
{
    if let Some(p) = contains_parent(edges, nodes[i].id) {
        lemma_last_at(nodes, i, p);
        if let Some(j) = last_at(nodes, i, p) {
            lemma_depth_bound(nodes, edges, j);
        }
    }
}

fn contains_parent_exec(edges: &Vec<TemplateEdge>, id: u128) -> (r: Option<u128>)
    ensures
        r == contains_parent(edges@, id),
{
    let mut i: usize = edges.len();
    assert(edges@.take(i as int) =~= edges@);
    while i > 0
        invariant
            i <= edges@.len(),
            contains_parent(edges@, id) == contains_parent(edges@.take(i as int), id),
        decreases i,
    {
        assert(edges@.take(i as int).drop_last() =~= edges@.take(i - 1));
        let e = &edges[i - 1];
        if e.target_node_id == id && str_eq(e.edge_type.as_str(), "contains") {
            return Some(e.source_node_id);
        }
        i = i - 1;
    }
    None
}

fn last_index(nodes: &Vec<TemplateNode>, i: usize, id: u128) -> (r: Option<usize>)
    requires
        i <= nodes@.len(),
    ensures
        match r {
            Some(j) => last_at(nodes@, i as int, id) == Some(j as int),
            None => last_at(nodes@, i as int, id) is None,
        },
{
    let mut k: usize = i;
    while k > 0
        invariant
            k <= i <= nodes@.len(),
            last_at(nodes@, i as int, id) == last_at(nodes@, k as int, id),
        decreases k,
    {
        if nodes[k - 1].id == id {
            return Some(k - 1);
        }
        k = k - 1;
    }
    None
}

/// The value of a block of kind `kind` whose content spec reads as `spec`
/// (see `block_value_ok`); a trace slice with an unknown name is a
/// Validation error (`unknown trace view: <view>`).
pub fn block_value(
    kind: BlockKind,
    spec: Option<ContentSpec>,
    scope: &str,
    view: &ProjectDataView,
    filled: Option<String>,
    trace: &TraceService,
    project_id: u128,
) -> (r: Result<BlockValue, ServiceError>)
    requires
        trace.wf(),
    ensures
        match r {
            Ok(v) => block_value_ok(kind, spec, scope@, *view, opt_view(filled), trace.store, project_id, v)
                && !(trace_view_of(kind, spec) matches Some(w) && bad_trace_view(w)),
            Err(e) => trace_view_of(kind, spec) matches Some(w) && bad_trace_view(w) && e is Validation
                && e.message() == "unknown trace view: "@ + w,
        },
{
    let ghost sp = spec;
    match spec {
        Some(ContentSpec::Text { text }) => {
            if kind == BlockKind::Text {
                let t = expand_fields(text.as_str(), view, scope, None);
                proof {
                    assert((|k: Seq<char>| view_field_spec(k, opt_str_view(None), scope@, view.fields@))
                        =~= (|k: Seq<char>| view_field_spec(k, None, scope@, view.fields@)));
                }
                Ok(BlockValue::Text { text: t })
            } else {
                Ok(BlockValue::Empty)
            }
        },
        Some(ContentSpec::Field { field, doc_kind }) => {
            if kind == BlockKind::Field {
                let mut placeholder = String::from_str("{");
                placeholder.append(field.as_str());
                placeholder.append("}");
                let dk = opt_as_str(&doc_kind);
                let t = expand_fields(placeholder.as_str(), view, scope, dk);
                proof {
                    assert((|k: Seq<char>| view_field_spec(k, opt_str_view(dk), scope@, view.fields@))
                        =~= (|k: Seq<char>| view_field_spec(k, opt_view(doc_kind), scope@, view.fields@)));
                }
                Ok(BlockValue::Text { text: t })
            } else {
                Ok(BlockValue::Empty)
            }
        },
        Some(ContentSpec::Table { source, party_kind, category }) => {
            if kind == BlockKind::Table {
                let t = table_value(view, source.as_str(), opt_as_str(&party_kind), opt_as_str(&category));
                Ok(BlockValue::Table { table: t })
            } else {
                Ok(BlockValue::Empty)
            }
        },
        Some(ContentSpec::Trace { view: tview }) => {
            if kind == BlockKind::Trace {
                match trace_value(trace, project_id, tview.as_str()) {
                    Ok(tv) => Ok(BlockValue::Trace { value: tv }),
                    Err(e) => Err(e),
                }
            } else {
                Ok(BlockValue::Empty)
            }
        },
        Some(ContentSpec::Slot { placeholder, role }) => {
            if kind == BlockKind::Slot {
                match filled {
                    Some(t) => Ok(BlockValue::Slot { placeholder, role, filled: true, text: t }),
                    None => {
                        let t = placeholder.clone();
                        Ok(BlockValue::Slot { placeholder, role, filled: false, text: t })
                    },
                }
            } else {
                Ok(BlockValue::Empty)
            }
        },
        None => Ok(BlockValue::Empty),
    }
}

/// The blocks of `nodes` (in that order), each content spec read by
/// `parse`: the depth from the `contains` edges, the kind from the spec's
/// `kind` entry, the value as `block_value` gives it, the slot texts from
/// `slots`. The first block with an unknown trace slice stops the assembly
/// with its Validation error.
pub fn resolve_blocks<P: Fn(&serde_json::Value) -> Option<ContentSpec>>(
    nodes: &Vec<TemplateNode>,
    edges: &Vec<TemplateEdge>,
    scope: &str,
    view: &ProjectDataView,
    slots: &Vec<ExecutionItem>,
    trace: &TraceService,
    project_id: u128,
    parse: &P,
) -> (r: Result<Vec<ResolvedBlock>, ServiceError>)
    requires
        trace.wf(),
        forall|v: &serde_json::Value| #[trigger] parse.requires((v,)),
    ensures
        match r {
            Ok(blocks) => exists|specs: Seq<Option<ContentSpec>>|
                #[trigger] parsed_by(*parse, nodes@, specs) && blocks_ok(
                    nodes@,
                    edges@,
                    specs,
                    scope@,
                    *view,
                    slots@,
                    trace.store,
                    project_id,
                    blocks@,
                ),
            Err(e) => exists|specs: Seq<Option<ContentSpec>>, k: int|
                #[trigger] parsed_by(*parse, nodes@, specs) && #[trigger] first_bad_trace(nodes@, specs, k)
                    && e is Validation && e.message() == "unknown trace view: "@ + trace_view_of(
                    node_kind(nodes@[k]),
                    specs[k],
                )->0,
        },
{
    let mut blocks: Vec<ResolvedBlock> = Vec::new();
    let ghost mut specs: Seq<Option<ContentSpec>> = Seq::empty();
    let mut i: usize = 0;
    while i < nodes.len()
        invariant
            i <= nodes@.len(),
            trace.wf(),
            forall|v: &serde_json::Value| #[trigger] parse.requires((v,)),
            specs.len() == i,
            blocks@.len() == i,
            parsed_by(*parse, nodes@, specs),
            forall|j: int|
                0 <= j < i ==> #[trigger] block_at(
                    nodes@,
                    edges@,
                    specs,
                    scope@,
                    *view,
                    slots@,
                    trace.store,
                    project_id,
                    j,
                    blocks@[j],
                ),
            forall|j: int| 0 <= j < i ==> !#[trigger] bad_trace_at(nodes@, specs, j),
        decreases nodes.len() - i,
    {
        let node = &nodes[i];
        let depth: usize = match contains_parent_exec(edges, node.id) {
            Some(p) => match last_index(nodes, i, p) {
                Some(j) => {
                    proof {
                        lemma_last_at(nodes@, i as int, p);
                        lemma_depth_bound(nodes@, edges@, j as int);
                        assert(block_at(nodes@, edges@, specs, scope@, *view, slots@, trace.store, project_id, j as int, blocks@[j as int]));
                    }
                    blocks[j].depth + 1
                },
                None => 0,
            },
            None => 0,
        };
        let kind = BlockKind::from_spec(&node.content_spec);
        let spec = parse(&node.content_spec);
        let ghost prev_specs = specs;
        proof {
            specs = specs.push(spec);
            assert forall|j: int| 0 <= j < specs.len() implies #[trigger] parse.ensures(
                (&nodes@[j].content_spec,),
                specs[j],
            ) by {
                if j < prev_specs.len() {
                    assert(parsed_by(*parse, nodes@, prev_specs));
                    assert(parse.ensures((&nodes@[j].content_spec,), prev_specs[j]));
                }
            }
            assert forall|j: int| 0 <= j < i implies !#[trigger] bad_trace_at(nodes@, specs, j) by {
                assert(!bad_trace_at(nodes@, prev_specs, j));
                assert(specs[j] == prev_specs[j]);
            }
        }
        let filled = find_slot_text(slots, node.id);
        let value = match block_value(kind, spec, scope, view, filled, trace, project_id) {
            Ok(v) => v,
            Err(e) => {
                proof {
                    assert(first_bad_trace(nodes@, specs, i as int));
                    assert(parsed_by(*parse, nodes@, specs));
                }
                return Err(e);
            },
        };
        let b = ResolvedBlock {
            node_id: node.id,
            node_type: node.node_type,
            title: node.title.clone(),
            depth,
            kind,
            value,
        };
        let ghost prev_blocks = blocks@;
        blocks.push(b);
        proof {
            assert forall|j: int|
                0 <= j < i + 1 implies #[trigger] block_at(
                nodes@,
                edges@,
                specs,
                scope@,
                *view,
                slots@,
                trace.store,
                project_id,
                j,
                blocks@[j],
            ) by {
                if j < i {
                    assert(block_at(nodes@, edges@, prev_specs, scope@, *view, slots@, trace.store, project_id, j, prev_blocks[j]));
                    assert(specs[j] == prev_specs[j]);
                    assert(blocks@[j] == prev_blocks[j]);
                }
            }
        }
        i = i + 1;
    }
    proof {
        assert(blocks_ok(nodes@, edges@, specs, scope@, *view, slots@, trace.store, project_id, blocks@));
    }
    Ok(blocks)
}

/// `v` is the data view of project `p` (see `ProjectDataService::view`).
pub open spec fn data_view_ok(
    data: ProjectDataService,
    projects: Seq<Project>,
    schemes: Seq<SchemeFullV>,
    p: u128,
    v: ProjectDataView,
) -> bool {
    match project_of(projects, p) {
        Some(pr) => match pr.scheme_id {
            None => empty_view(p, v),
            Some(sid) => match scheme_of(schemes, sid) {
                Some(def) => view_built(data.values@, data.rows@, p, def, v),
                None => v.project_id == p && v.scheme_id == Some(sid) && v.fields@.len() == 0
                    && v.tables@.len() == 0,
            },
        },
        None => false,
    }
}

/// The nodes of template `t` in document order.
pub open spec fn document_nodes(docs: DocumentService, t: u128) -> Seq<TemplateNode> {
    ordered_spec(flat_order(nodes_in(docs.nodes@, t)), edges_in(docs.edges@, t))
}

/// Assembles documents from the services that hold their sources.
pub struct AssemblyService<'a> {
    pub docs: &'a DocumentService,
    pub trace: &'a TraceService,
    pub execution: &'a ExecutionService,
    pub project_data: &'a ProjectDataService,
    pub projects: &'a ProjectService,
    pub schemes: &'a SchemeService,
}

impl<'a> AssemblyService<'a> {
    pub fn new(
        docs: &'a DocumentService,
        trace: &'a TraceService,
        execution: &'a ExecutionService,
        project_data: &'a ProjectDataService,
        projects: &'a ProjectService,
        schemes: &'a SchemeService,
    ) -> (s: Self)
        ensures
            s.docs == docs,
            s.trace == trace,
            s.execution == execution,
            s.project_data == project_data,
            s.projects == projects,
            s.schemes == schemes,
    {
        AssemblyService { docs, trace, execution, project_data, projects, schemes }
    }

    /// Assembles template `template_id` for project `project_id`: its nodes
    /// in document order, each evaluated by its content spec (read by
    /// `parse`) against the project's data view, trace graph and — when
    /// `instance_id` names an instance of this project — the texts filled in
    /// its checklist. Errors, in this order: NotFound
    /// (`document_template_not_found`), NotFound (`project_not_found`),
    /// NotFound (`execution_instance_not_found`), then the Validation error
    /// of the first block with an unknown trace slice.
    pub fn assemble<P: Fn(&serde_json::Value) -> Option<ContentSpec>>(
        &self,
        template_id: u128,
        project_id: u128,
        instance_id: Option<u128>,
        parse: P,
    ) -> (r: Result<ResolvedDocument, ServiceError>)
        requires
            self.docs.wf(),
            self.trace.wf(),
            forall|v: &serde_json::Value| #[trigger] parse.requires((v,)),
        ensures
            match r {
                Ok(doc) => {
                    &&& template_of(self.docs.templates@, template_id) is Some
                    &&& doc.template_id == template_of(self.docs.templates@, template_id)->0.id
                    &&& doc.template_name == template_of(self.docs.templates@, template_id)->0.name
                    &&& doc.template_kind == template_of(self.docs.templates@, template_id)->0.kind
                    &&& doc.project_id == project_id
                    &&& doc.instance_id == instance_id
                    &&& project_of(self.projects.projects@, project_id) is Some
                    &&& (instance_id matches Some(iid) ==> instance_of(self.execution.instances@, iid) is Some)
                    &&& exists|v: ProjectDataView, specs: Seq<Option<ContentSpec>>|
                        #[trigger] data_view_ok(
                            *self.project_data,
                            self.projects.projects@,
                            schemes_view(self.schemes.schemes@),
                            project_id,
                            v,
                        ) && #[trigger] parsed_by(parse, document_nodes(*self.docs, template_id), specs)
                            && blocks_ok(
                            document_nodes(*self.docs, template_id),
                            edges_in(self.docs.edges@, template_id),
                            specs,
                            doc.template_kind@,
                            v,
                            slot_source(*self.execution, project_id, instance_id),
                            self.trace.store,
                            project_id,
                            doc.blocks@,
                        )
                },
                Err(e) => if template_of(self.docs.templates@, template_id) is None {
                    e is NotFound && e.message() == "document_template_not_found"@
                } else if project_of(self.projects.projects@, project_id) is None {
                    e is NotFound && e.message() == "project_not_found"@
                } else if instance_id is Some && instance_of(self.execution.instances@, instance_id->0) is None {
                    e is NotFound && e.message() == "execution_instance_not_found"@
                } else {
                    exists|specs: Seq<Option<ContentSpec>>, k: int|
                        #[trigger] parsed_by(parse, document_nodes(*self.docs, template_id), specs)
                            && #[trigger] first_bad_trace(document_nodes(*self.docs, template_id), specs, k)
                            && e is Validation && e.message() == "unknown trace view: "@ + trace_view_of(
                            node_kind(document_nodes(*self.docs, template_id)[k]),
                            specs[k],
                        )->0
                },
            },
    {
        let (tpl, nodes, edges) = match self.docs.get_template_full(template_id) {
            Ok(x) => x,
            Err(e) => {
                return Err(e);
            },
        };
        let ordered = DocumentService::ordered_nodes(nodes, edges.as_slice());
        assert(ordered@ == document_nodes(*self.docs, template_id));
        let view = match self.project_data.view(project_id, self.projects, self.schemes) {
            Ok(v) => v,
            Err(e) => {
                return Err(e);
            },
        };
        let slots = match slot_items(self.execution, project_id, instance_id) {
            Ok(s) => s,
            Err(e) => {
                return Err(e);
            },
        };
        let blocks = match resolve_blocks(
            &ordered,
            &edges,
            tpl.kind.as_str(),
            &view,
            &slots,
            self.trace,
            project_id,
            &parse,
        ) {
            Ok(b) => b,
            Err(e) => {
                proof {
                    let (specs, k) = choose|specs: Seq<Option<ContentSpec>>, k: int|
                        #[trigger] parsed_by(parse, ordered@, specs) && #[trigger] first_bad_trace(ordered@, specs, k)
                            && e is Validation && e.message() == "unknown trace view: "@ + trace_view_of(
                            node_kind(ordered@[k]),
                            specs[k],
                        )->0;
                    assert(parsed_by(parse, document_nodes(*self.docs, template_id), specs));
                    assert(first_bad_trace(document_nodes(*self.docs, template_id), specs, k));
                }
                return Err(e);
            },
        };
        proof {
            let specs = choose|specs: Seq<Option<ContentSpec>>|
                #[trigger] parsed_by(parse, ordered@, specs) && blocks_ok(
                    ordered@,
                    edges@,
                    specs,
                    tpl.kind@,
                    view,
                    slots@,
                    self.trace.store,
                    project_id,
                    blocks@,
                );
            assert(parsed_by(parse, document_nodes(*self.docs, template_id), specs));
            assert(data_view_ok(
                *self.project_data,
                self.projects.projects@,
                schemes_view(self.schemes.schemes@),
                project_id,
                view,
            ));
        }
        Ok(
            ResolvedDocument {
                template_id: tpl.id,
                template_name: tpl.name,
                template_kind: tpl.kind,
                project_id,
                instance_id,
                blocks,
            },
        )
    }
}

} // verus!
