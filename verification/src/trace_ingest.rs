//! Bulk writes into a project's trace graph: the idempotent ingest of nodes
//! and links from the wider system, and the upload of structured requirements.
use vstd::prelude::*;
use crate::error::ServiceError;
use crate::json::{empty_object, json_as_str, json_get, json_is_object, set_str_field, value_is_object};
use crate::text::{opt_view, strs_view, trim, trim_seq};
use crate::trace_model::{clone_opt_string, LinkType, TraceLink, TraceNode, TraceNodeKind};
use crate::trace_service::{kind_slot, stage_max, trimmed_nonblank, TraceService};
use crate::trace_store::{
    foreign_links_apart, lemma_apart_step, lemma_by_key_in, lemma_kept_node_upsert, link_upserted, links_of,
    has_key, has_link_id, has_link_key, has_node_id, node_by_key, node_upserted, other_links_kept, other_nodes_kept, same_key,
    same_link_key,
};

verus! {

/// A node as the wider system sends it.
pub struct IngestNode {
    pub kind: TraceNodeKind,
    pub external_source: String,
    pub external_ref: String,
    pub module: Option<String>,
    pub title: String,
    pub description: Option<String>,
    pub attributes: serde_json::Value,
}

/// The idempotency key of a node in the wider system.
pub struct ExternalKey {
    pub external_source: String,
    pub external_ref: String,
}

/// A link between two nodes named by their external keys.
pub struct IngestLink {
    pub source: ExternalKey,
    pub target: ExternalKey,
    pub link_type: LinkType,
    pub attributes: serde_json::Value,
}

/// What an ingest did: nodes and links written, and the links whose ends
/// were not found (`src:ref -> src:ref`).
pub struct IngestReport {
    pub nodes_upserted: usize,
    pub links_upserted: usize,
    pub unresolved_links: Vec<String>,
}

/// One structured requirement: `id` becomes the external reference; the
/// section, when given, lands in the attributes as `source_section`.
pub struct UploadRequirement {
    pub id: String,
    pub title: Option<String>,
    pub description: Option<String>,
    pub module: Option<String>,
    pub section: Option<String>,
    pub attributes: serde_json::Value,
}

/// What an upload did: requirements written, and the skipped ones.
pub struct UploadReport {
    pub uploaded: usize,
    pub skipped: Vec<String>,
}

/// How many nodes of the batch have stage `k`.
pub open spec fn kind_count(batch: Seq<IngestNode>, k: TraceNodeKind) -> int
    decreases batch.len(),
{
    if batch.len() == 0 {
        0
    } else {
        kind_count(batch.drop_last(), k) + if batch.last().kind == k {
            1int
        } else {
            0int
        }
    }
}

pub proof fn lemma_kind_count_prefix(batch: Seq<IngestNode>, i: int, k: TraceNodeKind)
    requires
        0 <= i <= batch.len(),
    ensures
        0 <= kind_count(batch.take(i), k) <= kind_count(batch, k),
    decreases batch.len() - i,
{
    if i < batch.len() {
        lemma_kind_count_prefix(batch, i + 1, k);
        assert(batch.take(i + 1).drop_last() =~= batch.take(i));
    } else {
        assert(batch.take(i) =~= batch);
    }
    lemma_kind_count_nonneg(batch.take(i), k);
}

pub proof fn lemma_kind_count_nonneg(batch: Seq<IngestNode>, k: TraceNodeKind)
    ensures
        kind_count(batch, k) >= 0,
    decreases batch.len(),
{
    if batch.len() > 0 {
        lemma_kind_count_nonneg(batch.drop_last(), k);
    }
}

/// The node an ingested entry becomes: trimmed key and title, in project `p`,
/// at sort key `sort_key` (kept only when the node is new).
pub open spec fn ingest_built(b: IngestNode, p: u128, sort_key: int, n: TraceNode) -> bool {
    &&& n.project_id == p
    &&& n.kind == b.kind
    &&& n.external_source@ == trim_seq(b.external_source@)
    &&& n.external_ref@ == trim_seq(b.external_ref@)
    &&& n.module == b.module
    &&& n.title@ == trim_seq(b.title@)
    &&& n.description == b.description
    &&& n.attributes == b.attributes
    &&& n.sort_key == sort_key
    &&& n.created_at == n.updated_at
}

/// The sort key the `j`-th entry is given: after the stage's largest key,
/// counting the earlier entries of the same stage.
pub open spec fn ingest_sort_key(before: Seq<TraceNode>, p: u128, batch: Seq<IngestNode>, j: int) -> int {
    stage_max(before, p, batch[j].kind) + kind_count(batch.take(j), batch[j].kind) + 1
}

/// The first `n` entries of the batch were upserted one by one, through `states`.
pub open spec fn ingest_nodes_upto(
    before: Seq<TraceNode>,
    p: u128,
    batch: Seq<IngestNode>,
    states: Seq<Seq<TraceNode>>,
    built: Seq<TraceNode>,
    n: int,
) -> bool {
    &&& 0 <= n <= batch.len()
    &&& states.len() == n + 1
    &&& built.len() == n
    &&& states[0] == before
    &&& forall|j: int|
        0 <= j < n ==> ingest_built(
            batch[j],
            p,
            ingest_sort_key(before, p, batch, j),
            #[trigger] built[j],
        ) && node_upserted(states[j], built[j], states[j + 1])
}

/// `after` is `before` with every node of the batch upserted in order.
pub open spec fn ingest_nodes_rel(
    before: Seq<TraceNode>,
    p: u128,
    batch: Seq<IngestNode>,
    after: Seq<TraceNode>,
) -> bool {
    exists|states: Seq<Seq<TraceNode>>, built: Seq<TraceNode>|
        ingest_nodes_upto(before, p, batch, states, built, batch.len() as int) && states.last()
            == after
}

/// The node of project `p` with the given external key (as sent, untrimmed).
pub open spec fn resolve(nodes: Seq<TraceNode>, p: u128, k: ExternalKey) -> Option<TraceNode> {
    node_by_key(nodes, p, k.external_source@, k.external_ref@)
}

/// A link entry whose two ends were found.
pub open spec fn link_resolves(nodes: Seq<TraceNode>, p: u128, l: IngestLink) -> bool {
    resolve(nodes, p, l.source) is Some && resolve(nodes, p, l.target) is Some
}

/// A link entry that is written: both ends found and distinct.
pub open spec fn link_written(nodes: Seq<TraceNode>, p: u128, l: IngestLink) -> bool {
    link_resolves(nodes, p, l) && resolve(nodes, p, l.source)->0.id != resolve(
        nodes,
        p,
        l.target,
    )->0.id
}

/// The link an entry becomes.
pub open spec fn link_built(nodes: Seq<TraceNode>, p: u128, l: IngestLink, x: TraceLink) -> bool {
    &&& x.project_id == p
    &&& x.source_node_id == resolve(nodes, p, l.source)->0.id
    &&& x.target_node_id == resolve(nodes, p, l.target)->0.id
    &&& x.link_type == l.link_type
    &&& x.attributes == l.attributes
    &&& x.created_at == x.updated_at
}

/// The first `n` link entries were handled in order through `states`: a
/// written entry upserts its link, the others change nothing.
pub open spec fn ingest_links_upto(
    nodes: Seq<TraceNode>,
    before: Seq<TraceLink>,
    p: u128,
    batch: Seq<IngestLink>,
    states: Seq<Seq<TraceLink>>,
    built: Seq<TraceLink>,
    n: int,
) -> bool {
    &&& 0 <= n <= batch.len()
    &&& states.len() == n + 1
    &&& built.len() == n
    &&& states[0] == before
    &&& forall|j: int|
        #![trigger batch[j]]
        0 <= j < n ==> if link_written(nodes, p, batch[j]) {
            link_built(nodes, p, batch[j], built[j]) && link_upserted(
                states[j],
                built[j],
                states[j + 1],
            )
        } else {
            states[j + 1] == states[j]
        }
}

/// `after` is `before` with every written link of the batch upserted in order.
pub open spec fn ingest_links_rel(
    nodes: Seq<TraceNode>,
    before: Seq<TraceLink>,
    p: u128,
    batch: Seq<IngestLink>,
    after: Seq<TraceLink>,
) -> bool {
    exists|states: Seq<Seq<TraceLink>>, built: Seq<TraceLink>|
        ingest_links_upto(nodes, before, p, batch, states, built, batch.len() as int)
            && states.last() == after
}

/// The node writes stopped at entry `j`: the entries before it were upserted
/// in order, reaching `after`, and entry `j` became a node with a key not yet
/// held whose freshly drawn id a node of `after` already holds.
pub open spec fn ingest_nodes_clash(
    before: Seq<TraceNode>,
    p: u128,
    batch: Seq<IngestNode>,
    after: Seq<TraceNode>,
) -> bool {
    exists|j: int, states: Seq<Seq<TraceNode>>, built: Seq<TraceNode>, n: TraceNode|
        #![trigger ingest_nodes_upto(before, p, batch, states, built, j), ingest_built(batch[j], p, ingest_sort_key(before, p, batch, j), n)]
        0 <= j < batch.len() && ingest_nodes_upto(before, p, batch, states, built, j) && states.last() == after
            && ingest_built(batch[j], p, ingest_sort_key(before, p, batch, j), n) && !has_key(after, n)
            && has_node_id(after, n.id)
}

/// The link writes stopped at entry `j`: the entries before it were handled
/// in order, reaching `after`, and entry `j` is written as a link with a key
/// not yet held whose freshly drawn id a link of `after` already holds.
pub open spec fn ingest_links_clash(
    nodes: Seq<TraceNode>,
    before: Seq<TraceLink>,
    p: u128,
    batch: Seq<IngestLink>,
    after: Seq<TraceLink>,
) -> bool {
    exists|j: int, states: Seq<Seq<TraceLink>>, built: Seq<TraceLink>, l: TraceLink|
        #![trigger ingest_links_upto(nodes, before, p, batch, states, built, j), link_built(nodes, p, batch[j], l)]
        0 <= j < batch.len() && ingest_links_upto(nodes, before, p, batch, states, built, j) && states.last()
            == after && link_written(nodes, p, batch[j]) && link_built(nodes, p, batch[j], l) && !has_link_key(
            after,
            l,
        ) && has_link_id(after, l.id)
}

/// Every node entry's trimmed key is already held by a node of project `p`.
pub open spec fn node_keys_held(nodes: Seq<TraceNode>, p: u128, batch: Seq<IngestNode>) -> bool {
    forall|j: int|
        #![trigger batch[j]]
        0 <= j < batch.len() ==> node_by_key(
            nodes,
            p,
            trim_seq(batch[j].external_source@),
            trim_seq(batch[j].external_ref@),
        ) is Some
}

/// Every link entry that would be written (both ends found among `nodes`,
/// and distinct) already has its link: one with the same ends and type.
pub open spec fn link_keys_held(
    nodes: Seq<TraceNode>,
    links: Seq<TraceLink>,
    p: u128,
    batch: Seq<IngestLink>,
) -> bool {
    forall|j: int|
        #![trigger batch[j]]
        0 <= j < batch.len() && link_written(nodes, p, batch[j]) ==> exists|i: int|
            0 <= i < links.len() && #[trigger] links[i].source_node_id == resolve(nodes, p, batch[j].source)->0.id
                && links[i].target_node_id == resolve(nodes, p, batch[j].target)->0.id
                && links[i].link_type == batch[j].link_type
}

/// Every accepted requirement's key `(p, source, trimmed id)` is already held.
pub open spec fn upload_keys_held(
    nodes: Seq<TraceNode>,
    p: u128,
    source: Seq<char>,
    items: Seq<UploadRequirement>,
) -> bool {
    forall|j: int|
        #![trigger items[j]]
        0 <= j < items.len() && upload_accepted(items[j]) ==> node_by_key(nodes, p, source, upload_ref(items[j]))
            is Some
}

/// A key found by `node_by_key` is a key some node holds.
pub proof fn lemma_by_key_has_key(nodes: Seq<TraceNode>, p: u128, src: Seq<char>, rf: Seq<char>, x: TraceNode)
    requires
        node_by_key(nodes, p, src, rf) is Some,
        x.project_id == p,
        x.external_source@ == src,
        x.external_ref@ == rf,
    ensures
        has_key(nodes, x),
    decreases nodes.len(),
{
    let l = nodes.len() - 1;
    if nodes[l].project_id == p && nodes[l].external_source@ == src && nodes[l].external_ref@ == rf {
        assert(same_key(nodes[l], x));
    } else {
        lemma_by_key_has_key(nodes.drop_last(), p, src, rf, x);
        let i = choose|i: int| 0 <= i < nodes.drop_last().len() && #[trigger] same_key(nodes.drop_last()[i], x);
        assert(same_key(nodes[i], x));
    }
}

/// How many link entries are written.
pub open spec fn written_count(nodes: Seq<TraceNode>, p: u128, batch: Seq<IngestLink>) -> nat
    decreases batch.len(),
{
    if batch.len() == 0 {
        0
    } else {
        written_count(nodes, p, batch.drop_last()) + if link_written(nodes, p, batch.last()) {
            1nat
        } else {
            0nat
        }
    }
}

/// `src:ref -> src:ref` for a link entry.
pub open spec fn unresolved_message(l: IngestLink) -> Seq<char> {
    l.source.external_source@ + ":"@ + l.source.external_ref@ + " -> "@ + l.target.external_source@
        + ":"@ + l.target.external_ref@
}

/// The messages of the entries whose ends were not both found, in order.
pub open spec fn unresolved_messages(nodes: Seq<TraceNode>, p: u128, batch: Seq<IngestLink>) -> Seq<
    Seq<char>,
>
    decreases batch.len(),
{
    if batch.len() == 0 {
        Seq::empty()
    } else {
        let rest = unresolved_messages(nodes, p, batch.drop_last());
        if link_resolves(nodes, p, batch.last()) {
            rest
        } else {
            rest.push(unresolved_message(batch.last()))
        }
    }
}

fn unresolved_text(l: &IngestLink) -> (r: String)
    ensures
        r@ == unresolved_message(*l),
{
    let mut m = l.source.external_source.clone();
    m.append(":");
    m.append(l.source.external_ref.as_str());
    m.append(" -> ");
    m.append(l.target.external_source.as_str());
    m.append(":");
    m.append(l.target.external_ref.as_str());
    m
}

/// The external reference an uploaded requirement gets: its trimmed id.
pub open spec fn upload_ref(it: UploadRequirement) -> Seq<char> {
    trim_seq(it.id@)
}

/// The title an uploaded requirement gets: its title, or else its reference, trimmed.
pub open spec fn upload_title(it: UploadRequirement) -> Seq<char> {
    trim_seq(
        match it.title {
            Some(t) => t@,
            None => upload_ref(it),
        },
    )
}

/// A requirement is written when its reference and title are not empty.
pub open spec fn upload_accepted(it: UploadRequirement) -> bool {
    upload_ref(it).len() > 0 && upload_title(it).len() > 0
}

pub open spec fn accepted_count(items: Seq<UploadRequirement>) -> int
    decreases items.len(),
{
    if items.len() == 0 {
        0
    } else {
        accepted_count(items.drop_last()) + if upload_accepted(items.last()) {
            1int
        } else {
            0int
        }
    }
}

pub proof fn lemma_accepted_count_prefix(items: Seq<UploadRequirement>, i: int)
    requires
        0 <= i <= items.len(),
    ensures
        0 <= accepted_count(items.take(i)) <= accepted_count(items),
    decreases items.len() - i,
{
    if i < items.len() {
        lemma_accepted_count_prefix(items, i + 1);
        assert(items.take(i + 1).drop_last() =~= items.take(i));
    } else {
        assert(items.take(i) =~= items);
    }
    lemma_accepted_count_nonneg(items.take(i));
}

pub proof fn lemma_accepted_count_nonneg(items: Seq<UploadRequirement>)
    ensures
        0 <= accepted_count(items) <= items.len(),
    decreases items.len(),
{
    if items.len() > 0 {
        lemma_accepted_count_nonneg(items.drop_last());
    }
}

/// Why each skipped requirement was skipped: `<empty id>`, or its reference
/// when its title is empty.
pub open spec fn skip_messages(items: Seq<UploadRequirement>) -> Seq<Seq<char>>
    decreases items.len(),
{
    if items.len() == 0 {
        Seq::empty()
    } else {
        let rest = skip_messages(items.drop_last());
        let it = items.last();
        if upload_ref(it).len() == 0 {
            rest.push("<empty id>"@)
        } else if upload_title(it).len() == 0 {
            rest.push(upload_ref(it))
        } else {
            rest
        }
    }
}

/// The attributes an uploaded requirement gets: its own entries when they
/// form an object (every entry, of any JSON type), else none; a non-blank
/// section is set as the string entry `source_section` (trimmed).
pub open spec fn upload_attributes(it: UploadRequirement, a: serde_json::Value) -> bool {
    let sec = trimmed_nonblank(opt_view(it.section));
    &&& json_is_object(a)
    &&& forall|k: Seq<char>|
        !(sec is Some && k == "source_section"@) ==> #[trigger] json_get(a, k) == if json_is_object(
            it.attributes,
        ) {
            json_get(it.attributes, k)
        } else {
            None
        }
    &&& sec is Some ==> json_get(a, "source_section"@) is Some && json_as_str(json_get(a, "source_section"@)->0)
        == sec
    &&& (sec is None && json_is_object(it.attributes) ==> a == it.attributes)
}

/// The node an accepted requirement becomes.
pub open spec fn upload_built(
    it: UploadRequirement,
    p: u128,
    source: Seq<char>,
    sort_key: int,
    n: TraceNode,
) -> bool {
    &&& n.project_id == p
    &&& n.kind == TraceNodeKind::SoftwareRequirement
    &&& n.external_source@ == source
    &&& n.external_ref@ == upload_ref(it)
    &&& opt_view(n.module) == trimmed_nonblank(opt_view(it.module))
    &&& n.title@ == upload_title(it)
    &&& n.description == it.description
    &&& upload_attributes(it, n.attributes)
    &&& n.sort_key == sort_key
    &&& n.created_at == n.updated_at
}

/// The first `n` requirements were handled in order through `states`.
pub open spec fn upload_upto(
    before: Seq<TraceNode>,
    p: u128,
    source: Seq<char>,
    items: Seq<UploadRequirement>,
    states: Seq<Seq<TraceNode>>,
    built: Seq<TraceNode>,
    n: int,
) -> bool {
    &&& 0 <= n <= items.len()
    &&& states.len() == n + 1
    &&& built.len() == n
    &&& states[0] == before
    &&& forall|j: int|
        #![trigger items[j]]
        0 <= j < n ==> if upload_accepted(items[j]) {
            upload_built(
                items[j],
                p,
                source,
                stage_max(before, p, TraceNodeKind::SoftwareRequirement) + accepted_count(
                    items.take(j),
                ) + 1,
                built[j],
            ) && node_upserted(states[j], built[j], states[j + 1])
        } else {
            states[j + 1] == states[j]
        }
}

/// The upload stopped at requirement `j`: the requirements before it were
/// handled in order, reaching `after`, and requirement `j` is written as a
/// node with a key not yet held whose freshly drawn id a node of `after`
/// already holds.
pub open spec fn upload_clash(
    before: Seq<TraceNode>,
    p: u128,
    source: Seq<char>,
    items: Seq<UploadRequirement>,
    after: Seq<TraceNode>,
) -> bool {
    exists|j: int, states: Seq<Seq<TraceNode>>, built: Seq<TraceNode>, n: TraceNode|
        #![trigger upload_upto(before, p, source, items, states, built, j), upload_built(items[j], p, source, stage_max(before, p, TraceNodeKind::SoftwareRequirement) + accepted_count(items.take(j)) + 1, n)]
        0 <= j < items.len() && upload_upto(before, p, source, items, states, built, j) && states.last() == after
            && upload_accepted(items[j]) && upload_built(
            items[j],
            p,
            source,
            stage_max(before, p, TraceNodeKind::SoftwareRequirement) + accepted_count(items.take(j)) + 1,
            n,
        ) && !has_key(after, n) && has_node_id(after, n.id)
}

/// `after` is `before` with every accepted requirement upserted in order.
pub open spec fn upload_rel(
    before: Seq<TraceNode>,
    p: u128,
    source: Seq<char>,
    items: Seq<UploadRequirement>,
    after: Seq<TraceNode>,
) -> bool {
    exists|states: Seq<Seq<TraceNode>>, built: Seq<TraceNode>|
        upload_upto(before, p, source, items, states, built, items.len() as int) && states.last()
            == after
}

fn upload_attributes_of(it: &UploadRequirement) -> (r: serde_json::Value)
    ensures
        upload_attributes(*it, r),
{
    let mut attributes = clone_value(&it.attributes);
    if !value_is_object(&attributes) {
        attributes = empty_object();
    }
    let ghost base = attributes;
    if let Some(s) = &it.section {
        let s = trim(s.as_str());
        if !s.as_str().is_empty() {
            set_str_field(&mut attributes, "source_section", s);
            proof {
                reveal_strlit("source_section");
            }
        }
    }
    attributes
}

fn clone_value(v: &serde_json::Value) -> (r: serde_json::Value)
    ensures
        r == *v,
{
    v.clone()
}

/// How many entries of the batch are of stage `k`.
fn kind_count_of(batch: &Vec<IngestNode>, k: TraceNodeKind) -> (r: usize)
    ensures
        r == kind_count(batch@, k),
{
    let mut c: usize = 0;
    let mut i: usize = 0;
    while i < batch.len()
        invariant
            i <= batch@.len(),
            c <= i,
            c == kind_count(batch@.take(i as int), k),
        decreases batch.len() - i,
    {
        proof {
            assert(batch@.take(i + 1).drop_last() =~= batch@.take(i as int));
            assert(batch@.take(i + 1).last() == batch@[i as int]);
        }
        if batch[i].kind == k {
            c = c + 1;
        }
        i = i + 1;
    }
    assert(batch@.take(batch@.len() as int) =~= batch@);
    c
}

/// Whether a requirement is written (its trimmed id and title are not empty).
fn is_accepted(it: &UploadRequirement) -> (r: bool)
    ensures
        r == upload_accepted(*it),
{
    let reference = trim(it.id.as_str());
    let title = match &it.title {
        Some(t) => trim(t.as_str()),
        None => trim(reference.as_str()),
    };
    !reference.as_str().is_empty() && !title.as_str().is_empty()
}

/// How many requirements are written.
fn accepted_count_of(items: &Vec<UploadRequirement>) -> (r: usize)
    ensures
        r == accepted_count(items@),
{
    let mut c: usize = 0;
    let mut i: usize = 0;
    while i < items.len()
        invariant
            i <= items@.len(),
            c <= i,
            c == accepted_count(items@.take(i as int)),
        decreases items.len() - i,
    {
        proof {
            assert(items@.take(i + 1).drop_last() =~= items@.take(i as int));
            assert(items@.take(i + 1).last() == items@[i as int]);
        }
        if is_accepted(&items[i]) {
            c = c + 1;
        }
        i = i + 1;
    }
    assert(items@.take(items@.len() as int) =~= items@);
    c
}

impl TraceService {
    /// Whether every stage of project `p` has room for the batch's nodes of
    /// that stage (what `ingest` requires).
    pub fn ingest_has_room(&self, project_id: u128, nodes: &Vec<IngestNode>) -> (r: bool)
        ensures
            r == forall|k: TraceNodeKind|
                #[trigger] stage_max(self.store.nodes@, project_id, k) + kind_count(nodes@, k) <= i32::MAX,
    {
        let a = self.stage_has_room(project_id, TraceNodeKind::TestReport, kind_count_of(nodes, TraceNodeKind::TestReport));
        let b = self.stage_has_room(project_id, TraceNodeKind::TestRecord, kind_count_of(nodes, TraceNodeKind::TestRecord));
        let c = self.stage_has_room(project_id, TraceNodeKind::TestCase, kind_count_of(nodes, TraceNodeKind::TestCase));
        let d = self.stage_has_room(project_id, TraceNodeKind::TestItem, kind_count_of(nodes, TraceNodeKind::TestItem));
        let e = self.stage_has_room(
            project_id,
            TraceNodeKind::SoftwareRequirement,
            kind_count_of(nodes, TraceNodeKind::SoftwareRequirement),
        );
        proof {
            if a && b && c && d && e {
                assert forall|k: TraceNodeKind|
                    #[trigger] stage_max(self.store.nodes@, project_id, k) + kind_count(nodes@, k) <= i32::MAX by {
                    match k {
                        TraceNodeKind::TestReport => {},
                        TraceNodeKind::TestRecord => {},
                        TraceNodeKind::TestCase => {},
                        TraceNodeKind::TestItem => {},
                        TraceNodeKind::SoftwareRequirement => {},
                    }
                }
            } else {
                assert(stage_max(self.store.nodes@, project_id, TraceNodeKind::TestReport) + kind_count(nodes@, TraceNodeKind::TestReport) <= i32::MAX ==> a);
                assert(stage_max(self.store.nodes@, project_id, TraceNodeKind::TestRecord) + kind_count(nodes@, TraceNodeKind::TestRecord) <= i32::MAX ==> b);
                assert(stage_max(self.store.nodes@, project_id, TraceNodeKind::TestCase) + kind_count(nodes@, TraceNodeKind::TestCase) <= i32::MAX ==> c);
                assert(stage_max(self.store.nodes@, project_id, TraceNodeKind::TestItem) + kind_count(nodes@, TraceNodeKind::TestItem) <= i32::MAX ==> d);
                assert(stage_max(self.store.nodes@, project_id, TraceNodeKind::SoftwareRequirement) + kind_count(nodes@, TraceNodeKind::SoftwareRequirement) <= i32::MAX ==> e);
            }
        }
        a && b && c && d && e
    }

    /// Whether the requirement stage of project `p` has room for the
    /// requirements an upload writes (what `upload_requirements` requires).
    pub fn upload_has_room(&self, project_id: u128, items: &Vec<UploadRequirement>) -> (r: bool)
        ensures
            r == (stage_max(self.store.nodes@, project_id, TraceNodeKind::SoftwareRequirement) + accepted_count(items@)
                <= i32::MAX),
    {
        self.stage_has_room(project_id, TraceNodeKind::SoftwareRequirement, accepted_count_of(items))
    }

    /// Idempotent bulk ingest into project `p`: every node is upserted by
    /// its trimmed external key (a new one lands at the end of its stage; an
    /// existing one keeps its id, sort key and creation time); then every link
    /// whose ends are found by their external keys is upserted, a link from a
    /// node to itself skipped, and a link with a missing end reported as
    /// unresolved. A Repository error only when a fresh id is already taken,
    /// so a batch whose node and link keys the project already holds (a
    /// repeated batch, or an empty one) always succeeds.
    pub fn ingest(&mut self, project_id: u128, nodes: Vec<IngestNode>, links: Vec<IngestLink>) -> (r:
        Result<IngestReport, ServiceError>)
        requires
            old(self).wf(),
            forall|k: TraceNodeKind|
                #[trigger] stage_max(old(self).store.nodes@, project_id, k) + kind_count(nodes@, k)
                    <= i32::MAX,
        ensures
            other_nodes_kept(old(self).store, final(self).store, project_id),
            foreign_links_apart(old(self).store.links@, final(self).store.nodes@, project_id)
                ==> other_links_kept(old(self).store, final(self).store, project_id),
            final(self).wf(),
            final(self).store.baselines@ == old(self).store.baselines@,
            match r {
                Ok(rep) => {
                    &&& ingest_nodes_rel(
                        old(self).store.nodes@,
                        project_id,
                        nodes@,
                        final(self).store.nodes@,
                    )
                    &&& ingest_links_rel(
                        final(self).store.nodes@,
                        old(self).store.links@,
                        project_id,
                        links@,
                        final(self).store.links@,
                    )
                    &&& rep.nodes_upserted == nodes@.len()
                    &&& rep.links_upserted == written_count(
                        final(self).store.nodes@,
                        project_id,
                        links@,
                    )
                    &&& strs_view(rep.unresolved_links@) == unresolved_messages(
                        final(self).store.nodes@,
                        project_id,
                        links@,
                    )
                },
                Err(e) => {
                    &&& e is Repository
                    &&& final(self).store.baselines@ == old(self).store.baselines@
                    &&& (ingest_nodes_clash(old(self).store.nodes@, project_id, nodes@, final(self).store.nodes@)
                        && final(self).store.links@ == old(self).store.links@) || (ingest_nodes_rel(
                        old(self).store.nodes@,
                        project_id,
                        nodes@,
                        final(self).store.nodes@,
                    ) && ingest_links_clash(
                        final(self).store.nodes@,
                        old(self).store.links@,
                        project_id,
                        links@,
                        final(self).store.links@,
                    ))
                },
            },
            node_keys_held(old(self).store.nodes@, project_id, nodes@) && link_keys_held(
                old(self).store.nodes@,
                old(self).store.links@,
                project_id,
                links@,
            ) ==> r is Ok,
    {
        let ghost old_nodes = self.store.nodes@;
        let ghost held = node_keys_held(old_nodes, project_id, nodes@);
        let mut next = self.next_sort_map(project_id);
        let mut nodes_upserted: usize = 0;
        let ghost mut states: Seq<Seq<TraceNode>> = seq![self.store.nodes@];
        let ghost mut built: Seq<TraceNode> = Seq::empty();
        let mut i: usize = 0;
        assert(nodes@.take(0) =~= Seq::<IngestNode>::empty());
        while i < nodes.len()
            invariant
                self.wf(),
                self.store.baselines@ == old(self).store.baselines@,
                self.store.links@ == old(self).store.links@,
                old_nodes == old(self).store.nodes@,
                i <= nodes@.len(),
                nodes_upserted == i,
                other_nodes_kept(old(self).store, self.store, project_id),
                ingest_nodes_upto(old_nodes, project_id, nodes@, states, built, i as int),
                states.last() == self.store.nodes@,
                next@.len() == 5,
                forall|k: TraceNodeKind|
                    #[trigger] next@[kind_slot(k)] == stage_max(old_nodes, project_id, k)
                        + kind_count(nodes@.take(i as int), k),
                forall|k: TraceNodeKind|
                    #[trigger] stage_max(old_nodes, project_id, k) + kind_count(nodes@, k)
                        <= i32::MAX,
                held == node_keys_held(old_nodes, project_id, nodes@),
                forall|x: TraceNode| has_key(old_nodes, x) ==> #[trigger] has_key(self.store.nodes@, x),
                held ==> self.store.nodes@.len() == old_nodes.len() && forall|k: int|
                    0 <= k < old_nodes.len() ==> (#[trigger] self.store.nodes@[k]).id == old_nodes[k].id
                        && same_key(self.store.nodes@[k], old_nodes[k]),
            decreases nodes.len() - i,
        {
            let n = &nodes[i];
            proof {
                assert(nodes@.take(i + 1).drop_last() =~= nodes@.take(i as int));
                lemma_kind_count_prefix(nodes@, i + 1, n.kind);
            }
            let mut node = TraceNode::new(
                n.kind,
                trim(n.external_source.as_str()),
                trim(n.external_ref.as_str()),
                clone_opt_string(&n.module),
                trim(n.title.as_str()),
                clone_opt_string(&n.description),
            );
            node.project_id = project_id;
            node.attributes = clone_value(&n.attributes);
            node.sort_key = Self::take_next(&mut next, n.kind);
            let ghost store_before = self.store;
            proof {
                assert(nodes@[i as int] == *n);
                if held {
                    lemma_by_key_has_key(
                        old_nodes,
                        project_id,
                        trim_seq(n.external_source@),
                        trim_seq(n.external_ref@),
                        node,
                    );
                }
            }
            match self.store.upsert_node(node.clone()) {
                Ok(_) => {},
                Err(e) => {
                    proof {
                        assert(ingest_built(
                            nodes@[i as int],
                            project_id,
                            ingest_sort_key(old_nodes, project_id, nodes@, i as int),
                            node,
                        ));
                        assert(ingest_nodes_upto(old_nodes, project_id, nodes@, states, built, i as int));
                    }
                    return Err(e);
                },
            }
            proof {
                assert forall|x: TraceNode| has_key(old_nodes, x) implies #[trigger] has_key(
                    self.store.nodes@,
                    x,
                ) by {
                    crate::laws::law_node_upsert_keeps_keys(store_before.nodes@, node, self.store.nodes@, x);
                }
                if held {
                    crate::laws::law_node_upsert_in_place(store_before.nodes@, node, self.store.nodes@);
                    assert forall|k: int| 0 <= k < old_nodes.len() implies (#[trigger] self.store.nodes@[k]).id
                        == old_nodes[k].id && same_key(self.store.nodes@[k], old_nodes[k]) by {
                        assert(self.store.nodes@[k].id == store_before.nodes@[k].id);
                        assert(same_key(self.store.nodes@[k], store_before.nodes@[k]));
                    }
                }
                lemma_kept_node_upsert(store_before, self.store, node, project_id);
                let ghost prev_states = states;
                states = states.push(self.store.nodes@);
                built = built.push(node);
                assert forall|j: int| 0 <= j < i + 1 implies ingest_built(
                    nodes@[j],
                    project_id,
                    ingest_sort_key(old_nodes, project_id, nodes@, j),
                    #[trigger] built[j],
                ) && node_upserted(states[j], built[j], states[j + 1]) by {
                    if j < i {
                        assert(prev_states[j] == states[j]);
                        assert(prev_states[j + 1] == states[j + 1]);
                    }
                }
                assert forall|k: TraceNodeKind|
                    #[trigger] next@[kind_slot(k)] == stage_max(old_nodes, project_id, k)
                        + kind_count(nodes@.take(i + 1), k) by {
                    assert(kind_slot(k) == kind_slot(n.kind) ==> k == n.kind);
                }
            }
            nodes_upserted = nodes_upserted + 1;
            i = i + 1;
        }
        let ghost final_nodes = self.store.nodes@;
        assert(ingest_nodes_upto(old_nodes, project_id, nodes@, states, built, nodes@.len() as int));
        assert(ingest_nodes_rel(old_nodes, project_id, nodes@, final_nodes));
        let mut links_upserted: usize = 0;
        let mut unresolved: Vec<String> = Vec::new();
        let ghost mut lstates: Seq<Seq<TraceLink>> = seq![self.store.links@];
        let ghost mut lbuilt: Seq<TraceLink> = Seq::empty();
        let mut i: usize = 0;
        assert(links@.take(0) =~= Seq::<IngestLink>::empty());
        while i < links.len()
            invariant
                self.wf(),
                self.store.baselines@ == old(self).store.baselines@,
                self.store.nodes@ == final_nodes,
                other_nodes_kept(old(self).store, self.store, project_id),
                foreign_links_apart(old(self).store.links@, final_nodes, project_id) ==> (
                foreign_links_apart(self.store.links@, final_nodes, project_id) && other_links_kept(
                    old(self).store,
                    self.store,
                    project_id,
                )),
                i <= links@.len(),
                links_upserted <= i,
                ingest_links_upto(
                    final_nodes,
                    old(self).store.links@,
                    project_id,
                    links@,
                    lstates,
                    lbuilt,
                    i as int,
                ),
                lstates.last() == self.store.links@,
                links_upserted == written_count(final_nodes, project_id, links@.take(i as int)),
                strs_view(unresolved@) == unresolved_messages(
                    final_nodes,
                    project_id,
                    links@.take(i as int),
                ),
                held == node_keys_held(old_nodes, project_id, nodes@),
                old_nodes == old(self).store.nodes@,
                ingest_nodes_rel(old_nodes, project_id, nodes@, final_nodes),
                held ==> final_nodes.len() == old_nodes.len() && forall|k: int|
                    0 <= k < old_nodes.len() ==> (#[trigger] final_nodes[k]).id == old_nodes[k].id
                        && same_key(final_nodes[k], old_nodes[k]),
                forall|x: TraceLink|
                    has_link_key(old(self).store.links@, x) ==> #[trigger] has_link_key(self.store.links@, x),
            decreases links.len() - i,
        {
            let l = &links[i];
            assert(links@.take(i + 1).drop_last() =~= links@.take(i as int));
            let src = self.store.find_by_external(
                project_id,
                l.source.external_source.as_str(),
                l.source.external_ref.as_str(),
            );
            let tgt = self.store.find_by_external(
                project_id,
                l.target.external_source.as_str(),
                l.target.external_ref.as_str(),
            );
            let ghost prev_states = lstates;
            let ghost prev_built = lbuilt;
            assert(links@[i as int] == *l);
            assert(src == resolve(final_nodes, project_id, l.source));
            assert(tgt == resolve(final_nodes, project_id, l.target));
            match (src, tgt) {
                (Some(s), Some(t)) => {
                    if s.id == t.id {
                        proof {
                            assert(!link_written(final_nodes, project_id, links@[i as int]));
                            lstates = lstates.push(self.store.links@);
                            lbuilt = lbuilt.push(arbitrary());
                        }
                    } else {
                        let mut link = TraceLink::new(s.id, t.id, l.link_type);
                        link.project_id = project_id;
                        link.attributes = clone_value(&l.attributes);
                        let ghost links_before = self.store.links@;
                        let ghost store_before = self.store;
                        proof {
                            if held && link_keys_held(old_nodes, old(self).store.links@, project_id, links@) {
                                crate::laws::lemma_by_key_same(
                                    old_nodes,
                                    final_nodes,
                                    project_id,
                                    l.source.external_source@,
                                    l.source.external_ref@,
                                );
                                crate::laws::lemma_by_key_same(
                                    old_nodes,
                                    final_nodes,
                                    project_id,
                                    l.target.external_source@,
                                    l.target.external_ref@,
                                );
                                assert(link_written(old_nodes, project_id, links@[i as int]));
                                let w = choose|w: int|
                                    0 <= w < old(self).store.links@.len()
                                        && #[trigger] old(self).store.links@[w].source_node_id == resolve(
                                        old_nodes,
                                        project_id,
                                        links@[i as int].source,
                                    )->0.id && old(self).store.links@[w].target_node_id == resolve(
                                        old_nodes,
                                        project_id,
                                        links@[i as int].target,
                                    )->0.id && old(self).store.links@[w].link_type == links@[i as int].link_type;
                                assert(same_link_key(old(self).store.links@[w], link));
                                assert(has_link_key(old(self).store.links@, link));
                            }
                        }
                        match self.store.upsert_link(link.clone()) {
                            Ok(_) => {},
                            Err(e) => {
                                proof {
                                    assert(link_written(final_nodes, project_id, links@[i as int]));
                                    assert(link_built(final_nodes, project_id, links@[i as int], link));
                                    assert(ingest_links_upto(
                                        final_nodes,
                                        old(self).store.links@,
                                        project_id,
                                        links@,
                                        lstates,
                                        lbuilt,
                                        i as int,
                                    ));
                                }
                                return Err(e);
                            },
                        }
                        proof {
                            assert forall|x: TraceLink| has_link_key(old(self).store.links@, x) implies #[trigger] has_link_key(
                                self.store.links@,
                                x,
                            ) by {
                                crate::laws::law_link_upsert_keeps_keys(links_before, link, self.store.links@, x);
                            }
                            if foreign_links_apart(old(self).store.links@, final_nodes, project_id) {
                                lemma_by_key_in(
                                    final_nodes,
                                    project_id,
                                    l.source.external_source@,
                                    l.source.external_ref@,
                                );
                                lemma_apart_step(links_before, link, self.store.links@, final_nodes, project_id);
                                assert forall|q: u128| q != project_id implies #[trigger] links_of(
                                    self.store.links@,
                                    q,
                                ) == links_of(store_before.links@, q) by {
                                    crate::laws::law_link_upsert_isolated(
                                        links_before,
                                        link,
                                        self.store.links@,
                                        q,
                                    );
                                }
                            }
                            assert(link_written(final_nodes, project_id, links@[i as int]));
                            assert(link_built(final_nodes, project_id, links@[i as int], link));
                            lstates = lstates.push(self.store.links@);
                            lbuilt = lbuilt.push(link);
                        }
                        links_upserted = links_upserted + 1;
                    }
                },
                _ => {
                    unresolved.push(unresolved_text(l));
                    proof {
                        assert(!link_resolves(final_nodes, project_id, links@[i as int]));
                        lstates = lstates.push(self.store.links@);
                        lbuilt = lbuilt.push(arbitrary());
                    }
                },
            }
            proof {
                assert(lstates[i as int] == prev_states[i as int]);
                assert(lstates[0] == prev_states[0]);
                assert(lstates.len() == i + 2 && lbuilt.len() == i + 1);
                assert(lstates[i + 1] == self.store.links@);
                assert(!link_written(final_nodes, project_id, links@[i as int]) ==> lstates[i + 1]
                    == lstates[i as int]);
                assert forall|j: int| #![trigger links@[j]] 0 <= j < i + 1 implies (if link_written(
                    final_nodes,
                    project_id,
                    links@[j],
                ) {
                    link_built(final_nodes, project_id, links@[j], lbuilt[j])
                        && link_upserted(lstates[j], lbuilt[j], lstates[j + 1])
                } else {
                    lstates[j + 1] == lstates[j]
                }) by {
                    if j < i {
                        assert(prev_states[j] == lstates[j]);
                        assert(prev_states[j + 1] == lstates[j + 1]);
                        assert(prev_built[j] == lbuilt[j]);
                        assert(links@[j] == links@[j]);
                    }
                }
                assert(ingest_links_upto(
                    final_nodes,
                    old(self).store.links@,
                    project_id,
                    links@,
                    lstates,
                    lbuilt,
                    i + 1,
                ));
                assert(strs_view(unresolved@) =~= unresolved_messages(
                    final_nodes,
                    project_id,
                    links@.take(i + 1),
                ));
            }
            i = i + 1;
        }
        assert(links@.take(links@.len() as int) =~= links@);
        Ok(IngestReport { nodes_upserted, links_upserted, unresolved_links: unresolved })
    }

    /// Uploads structured requirements of project `p` from `source`: each
    /// becomes a software requirement node upserted by `(source, trimmed id)`,
    /// titled by its title or else its id; a requirement with an empty id or
    /// title is skipped and reported. Validation (`source must not be empty`)
    /// when the trimmed source is empty; a Repository error only when a fresh
    /// id is already taken, so with a non-blank source an upload whose accepted
    /// requirements the project already holds (a repeat, or an empty list)
    /// succeeds.
    pub fn upload_requirements(
        &mut self,
        project_id: u128,
        source: String,
        items: Vec<UploadRequirement>,
    ) -> (r: Result<UploadReport, ServiceError>)
        requires
            old(self).wf(),
            stage_max(old(self).store.nodes@, project_id, TraceNodeKind::SoftwareRequirement)
                + accepted_count(items@) <= i32::MAX,
        ensures
            crate::trace_store::others_kept(old(self).store, final(self).store, project_id),
            final(self).wf(),
            final(self).store.links@ == old(self).store.links@,
            final(self).store.baselines@ == old(self).store.baselines@,
            match r {
                Ok(rep) => {
                    &&& trim_seq(source@).len() > 0
                    &&& upload_rel(
                        old(self).store.nodes@,
                        project_id,
                        trim_seq(source@),
                        items@,
                        final(self).store.nodes@,
                    )
                    &&& rep.uploaded == accepted_count(items@)
                    &&& strs_view(rep.skipped@) == skip_messages(items@)
                },
                Err(e) => if trim_seq(source@).len() == 0 {
                    e is Validation && e.message() == "source must not be empty"@
                        && final(self).store.nodes@ == old(self).store.nodes@
                } else {
                    e is Repository && upload_clash(
                        old(self).store.nodes@,
                        project_id,
                        trim_seq(source@),
                        items@,
                        final(self).store.nodes@,
                    )
                },
            },
            trim_seq(source@).len() > 0 && upload_keys_held(
                old(self).store.nodes@,
                project_id,
                trim_seq(source@),
                items@,
            ) ==> r is Ok,
    {
        let src = trim(source.as_str());
        if src.as_str().is_empty() {
            return Err(ServiceError::Validation(String::from_str("source must not be empty")));
        }
        let ghost old_nodes = self.store.nodes@;
        let mut next = self.next_sort_map(project_id);
        let mut uploaded: usize = 0;
        let mut skipped: Vec<String> = Vec::new();
        let ghost mut states: Seq<Seq<TraceNode>> = seq![self.store.nodes@];
        let ghost mut built: Seq<TraceNode> = Seq::empty();
        let ghost sr = TraceNodeKind::SoftwareRequirement;
        let mut i: usize = 0;
        assert(items@.take(0) =~= Seq::<UploadRequirement>::empty());
        while i < items.len()
            invariant
                self.wf(),
                self.store.baselines@ == old(self).store.baselines@,
                self.store.links@ == old(self).store.links@,
                old_nodes == old(self).store.nodes@,
                sr == TraceNodeKind::SoftwareRequirement,
                src@ == trim_seq(source@),
                src@.len() > 0,
                i <= items@.len(),
                uploaded == accepted_count(items@.take(i as int)),
                strs_view(skipped@) == skip_messages(items@.take(i as int)),
                other_nodes_kept(old(self).store, self.store, project_id),
                upload_upto(old_nodes, project_id, src@, items@, states, built, i as int),
                states.last() == self.store.nodes@,
                next@.len() == 5,
                next@[kind_slot(sr)] == stage_max(old_nodes, project_id, sr) + accepted_count(
                    items@.take(i as int),
                ),
                stage_max(old_nodes, project_id, sr) + accepted_count(items@) <= i32::MAX,
                forall|x: TraceNode| has_key(old_nodes, x) ==> #[trigger] has_key(self.store.nodes@, x),
            decreases items.len() - i,
        {
            let it = &items[i];
            assert(items@.take(i + 1).drop_last() =~= items@.take(i as int));
            assert(items@[i as int] == *it);
            proof {
                lemma_accepted_count_prefix(items@, i + 1);
                lemma_accepted_count_prefix(items@, i as int);
                lemma_accepted_count_nonneg(items@.take(i as int));
            }
            let ghost prev_states = states;
            let ghost prev_built = built;
            let reference = trim(it.id.as_str());
            if reference.as_str().is_empty() {
                skipped.push(String::from_str("<empty id>"));
                proof {
                    states = states.push(self.store.nodes@);
                    built = built.push(arbitrary());
                }
            } else {
                let title = match &it.title {
                    Some(t) => trim(t.as_str()),
                    None => trim(reference.as_str()),
                };
                if title.as_str().is_empty() {
                    skipped.push(reference);
                    proof {
                        states = states.push(self.store.nodes@);
                        built = built.push(arbitrary());
                    }
                } else {
                    let module = crate::trace_service::trim_opt_nonblank(clone_opt_string(&it.module));
                    let attributes = upload_attributes_of(it);
                    let mut node = TraceNode::new(
                        TraceNodeKind::SoftwareRequirement,
                        src.clone(),
                        reference,
                        module,
                        title,
                        clone_opt_string(&it.description),
                    );
                    node.project_id = project_id;
                    node.attributes = attributes;
                    node.sort_key = Self::take_next(&mut next, TraceNodeKind::SoftwareRequirement);
                    let ghost store_before = self.store;
                    proof {
                        assert(upload_accepted(items@[i as int]));
                        if upload_keys_held(old_nodes, project_id, src@, items@) {
                            lemma_by_key_has_key(old_nodes, project_id, src@, upload_ref(*it), node);
                        }
                    }
                    match self.store.upsert_node(node.clone()) {
                        Ok(_) => {},
                        Err(e) => {
                            proof {
                                assert(upload_built(
                                    items@[i as int],
                                    project_id,
                                    src@,
                                    stage_max(old_nodes, project_id, TraceNodeKind::SoftwareRequirement)
                                        + accepted_count(items@.take(i as int)) + 1,
                                    node,
                                ));
                                assert(upload_upto(old_nodes, project_id, src@, items@, states, built, i as int));
                            }
                            return Err(e);
                        },
                    }
                    proof {
                        assert forall|x: TraceNode| has_key(old_nodes, x) implies #[trigger] has_key(
                            self.store.nodes@,
                            x,
                        ) by {
                            crate::laws::law_node_upsert_keeps_keys(store_before.nodes@, node, self.store.nodes@, x);
                        }
                        lemma_kept_node_upsert(store_before, self.store, node, project_id);
                        states = states.push(self.store.nodes@);
                        built = built.push(node);
                    }
                    uploaded = uploaded + 1;
                }
            }
            proof {
                assert(states[i as int] == prev_states[i as int]);
                assert(states[0] == prev_states[0]);
                assert forall|j: int| #![trigger items@[j]] 0 <= j < i + 1 implies (if upload_accepted(
                    items@[j],
                ) {
                    upload_built(
                        items@[j],
                        project_id,
                        src@,
                        stage_max(old_nodes, project_id, TraceNodeKind::SoftwareRequirement)
                            + accepted_count(items@.take(j)) + 1,
                        built[j],
                    ) && node_upserted(states[j], built[j], states[j + 1])
                } else {
                    states[j + 1] == states[j]
                }) by {
                    if j < i {
                        assert(prev_states[j] == states[j]);
                        assert(prev_states[j + 1] == states[j + 1]);
                        assert(prev_built[j] == built[j]);
                    }
                }
                assert(strs_view(skipped@) =~= skip_messages(items@.take(i + 1)));
            }
            i = i + 1;
        }
        assert(items@.take(items@.len() as int) =~= items@);
        assert(upload_upto(old_nodes, project_id, src@, items@, states, built, items@.len() as int));
        Ok(UploadReport { uploaded, skipped })
    }
}

} // verus!
