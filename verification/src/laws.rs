//! Properties that relate several operations of the library, stated over the
//! spec functions that the operations' own contracts use.
use vstd::prelude::*;
use vstd::multiset::Multiset;
use crate::content::{find_char, interp_keys, interpolate_spec, lemma_find_char, render};
use crate::graph::{adjacency_spec, closure_spec, orient, reach_within, reachable, type_allowed, Direction, Edge};
use crate::project_service::{value_for, values_not_of, values_view, written_values, FieldValue};
use crate::projectdata::FieldValueWrite;
use crate::document_model::{node_type_name, node_type_of_name, TemplateEdge, TemplateNode, TemplateNodeType};
use crate::document_order::{
    contains_children, has_parent, id_le, insert_sorted, is_contains, isort, kids, lemma_isort_contains,
    lemma_isort_perm, node_le, node_of, ordered_spec, root_candidates, roots, universe, unseen_nodes, visit,
    visit_list,
};
use crate::document_service::flat_order;
use crate::execution_model::{
    instance_status_name, instance_status_of_name, item_status_name, item_status_of_name,
    InstanceStatus, ItemStatus,
};
use crate::trace_ingest::{
    ingest_built, ingest_links_rel, ingest_links_upto, ingest_nodes_rel, ingest_nodes_upto, ingest_sort_key,
    link_keys_held, link_resolves, link_written, node_keys_held, resolve, unresolved_messages, upload_accepted,
    upload_keys_held, upload_ref, upload_rel, upload_upto, written_count, IngestLink, IngestNode,
    UploadRequirement,
};
use crate::trace_store::{
    has_key, has_link_key, link_upserted, links_of, merged_link, merged_node, node_by_key, node_upserted, nodes_of,
    same_key, same_link_key,
};
use crate::text::{ascii_lower_char, ascii_lower_seq, trim_seq};
use crate::arrange::{
    anchor_of, anchored_order, arrangement_ok, block_keys, block_le, indices_of_kind, int_order, kind_order,
    min_rank_from, rank_in, sorted_block, sr_order, tail_order,
};
use crate::natural::{
    chars_order, lemma_chars_order_antisym, lemma_chars_order_eq, lemma_chars_order_trans, lemma_natural_order_antisym,
    law_natural_order_preorder, natural_order,
};
use crate::trace_model::{TraceLink, TraceNode, kind_name, kind_of_name, link_type_name, link_type_of_name, LinkType, TraceNodeKind};

verus! {

/// A name with no ASCII capital letter is its own lower-case form.
proof fn lemma_lower_fixed(s: Seq<char>)
    requires
        forall|i: int| 0 <= i < s.len() ==> !('A' <= #[trigger] s[i] <= 'Z'),
    ensures
        ascii_lower_seq(s) == s,
{
    assert(ascii_lower_seq(s) =~= s) by {
        assert forall|i: int| 0 <= i < s.len() implies ascii_lower_seq(s)[i] == s[i] by {
            assert(ascii_lower_char(s[i]) == s[i]);
        }
    }
}

/// Parsing the name of a stage gives the stage back.
pub proof fn law_kind_name_roundtrip(k: TraceNodeKind)
    ensures
        kind_of_name(ascii_lower_seq(kind_name(k))) == Some(k),
{
    reveal_strlit("software_requirement");
    reveal_strlit("test_item");
    reveal_strlit("test_case");
    reveal_strlit("test_record");
    reveal_strlit("test_report");
    lemma_lower_fixed(kind_name(k));
    match k {
        TraceNodeKind::SoftwareRequirement => {
        },
        TraceNodeKind::TestItem => {
            assert("test_item"@.len() != "software_requirement"@.len());
        },
        TraceNodeKind::TestCase => {
            assert("test_case"@.len() != "software_requirement"@.len());
            assert("test_case"@[5] != "test_item"@[5]);
        },
        TraceNodeKind::TestRecord => {
            assert("test_record"@.len() != "software_requirement"@.len());
            assert("test_record"@.len() != "test_item"@.len());
            assert("test_record"@.len() != "test_case"@.len());
        },
        TraceNodeKind::TestReport => {
            assert("test_report"@.len() != "software_requirement"@.len());
            assert("test_report"@.len() != "test_item"@.len());
            assert("test_report"@.len() != "test_case"@.len());
            assert("test_report"@[7] != "test_record"@[7]);
        },
    }
}

/// Parsing the name of a link type gives the link type back.
pub proof fn law_link_type_name_roundtrip(t: LinkType)
    ensures
        link_type_of_name(ascii_lower_seq(link_type_name(t))) == Some(t),
{
    reveal_strlit("derives_from");
    reveal_strlit("verifies");
    reveal_strlit("satisfies");
    reveal_strlit("refines");
    reveal_strlit("part_of");
    lemma_lower_fixed(link_type_name(t));
    match t {
        LinkType::DerivesFrom => {
        },
        LinkType::Verifies => {
            assert("verifies"@.len() != "derives_from"@.len());
        },
        LinkType::Satisfies => {
            assert("satisfies"@.len() != "derives_from"@.len());
            assert("satisfies"@.len() != "verifies"@.len());
        },
        LinkType::Refines => {
            assert("refines"@.len() != "derives_from"@.len());
            assert("refines"@.len() != "verifies"@.len());
            assert("refines"@.len() != "satisfies"@.len());
        },
        LinkType::PartOf => {
            assert("part_of"@.len() != "derives_from"@.len());
            assert("part_of"@.len() != "verifies"@.len());
            assert("part_of"@.len() != "satisfies"@.len());
            assert("part_of"@[0] != "refines"@[0]);
        },
    }
}

/// Parsing the name of a template node type gives the node type back.
pub proof fn law_node_type_name_roundtrip(t: TemplateNodeType)
    ensures
        node_type_of_name(ascii_lower_seq(node_type_name(t))) == Some(t),
{
    reveal_strlit("frontmatter");
    reveal_strlit("chapter");
    reveal_strlit("section");
    reveal_strlit("paragraph");
    reveal_strlit("table");
    reveal_strlit("figure");
    reveal_strlit("appendix");
    reveal_strlit("trace_view");
    lemma_lower_fixed(node_type_name(t));
    match t {
        TemplateNodeType::FrontMatter => {
        },
        TemplateNodeType::Chapter => {
            assert("chapter"@.len() != "frontmatter"@.len());
        },
        TemplateNodeType::Section => {
            assert("section"@.len() != "frontmatter"@.len());
            assert("section"@[0] != "chapter"@[0]);
        },
        TemplateNodeType::Paragraph => {
            assert("paragraph"@.len() != "frontmatter"@.len());
            assert("paragraph"@.len() != "chapter"@.len());
            assert("paragraph"@.len() != "section"@.len());
        },
        TemplateNodeType::Table => {
            assert("table"@.len() != "frontmatter"@.len());
            assert("table"@.len() != "chapter"@.len());
            assert("table"@.len() != "section"@.len());
            assert("table"@.len() != "paragraph"@.len());
        },
        TemplateNodeType::Figure => {
            assert("figure"@.len() != "frontmatter"@.len());
            assert("figure"@.len() != "chapter"@.len());
            assert("figure"@.len() != "section"@.len());
            assert("figure"@.len() != "paragraph"@.len());
            assert("figure"@.len() != "table"@.len());
        },
        TemplateNodeType::Appendix => {
            assert("appendix"@.len() != "frontmatter"@.len());
            assert("appendix"@.len() != "chapter"@.len());
            assert("appendix"@.len() != "section"@.len());
            assert("appendix"@.len() != "paragraph"@.len());
            assert("appendix"@.len() != "table"@.len());
            assert("appendix"@.len() != "figure"@.len());
        },
        TemplateNodeType::TraceView => {
            assert("trace_view"@.len() != "frontmatter"@.len());
            assert("trace_view"@.len() != "chapter"@.len());
            assert("trace_view"@.len() != "section"@.len());
            assert("trace_view"@.len() != "paragraph"@.len());
            assert("trace_view"@.len() != "table"@.len());
            assert("trace_view"@.len() != "figure"@.len());
            assert("trace_view"@.len() != "appendix"@.len());
        },
    }
}

/// Parsing the name of an instance status gives the status back.
pub proof fn law_instance_status_name_roundtrip(s: InstanceStatus)
    ensures
        instance_status_of_name(ascii_lower_seq(instance_status_name(s))) == Some(s),
{
    reveal_strlit("draft");
    reveal_strlit("in_progress");
    reveal_strlit("completed");
    lemma_lower_fixed(instance_status_name(s));
    match s {
        InstanceStatus::Draft => {
        },
        InstanceStatus::InProgress => {
            assert("in_progress"@.len() != "draft"@.len());
        },
        InstanceStatus::Completed => {
            assert("completed"@.len() != "draft"@.len());
            assert("completed"@.len() != "in_progress"@.len());
        },
    }
}

/// Parsing the name of an item status gives the status back.
pub proof fn law_item_status_name_roundtrip(s: ItemStatus)
    ensures
        item_status_of_name(ascii_lower_seq(item_status_name(s))) == Some(s),
{
    reveal_strlit("pending");
    reveal_strlit("in_progress");
    reveal_strlit("completed");
    reveal_strlit("skipped");
    lemma_lower_fixed(item_status_name(s));
    match s {
        ItemStatus::Pending => {
        },
        ItemStatus::InProgress => {
            assert("in_progress"@.len() != "pending"@.len());
        },
        ItemStatus::Completed => {
            assert("completed"@.len() != "pending"@.len());
            assert("completed"@.len() != "in_progress"@.len());
        },
        ItemStatus::Skipped => {
            assert("skipped"@[0] != "pending"@[0]);
            assert("skipped"@.len() != "in_progress"@.len());
            assert("skipped"@.len() != "completed"@.len());
        },
    }
}

pub proof fn lemma_render_unknown(s: Seq<char>, vals: Seq<Option<Seq<char>>>)
    requires
        vals.len() >= interp_keys(s).len(),
        forall|i: int| 0 <= i < vals.len() ==> #[trigger] vals[i] is None,
    ensures
        render(s, vals) == s,
    decreases s.len(),
{
    lemma_find_char(s, '{');
    match find_char(s, '{') {
        None => {},
        Some(o) => {
            let rest = s.skip(o + 1);
            lemma_find_char(rest, '}');
            match find_char(rest, '}') {
                Some(c) => {
                    if c > 0 {
                        assert(vals[0] is None);
                        lemma_render_unknown(rest.skip(c + 1), vals.drop_first());
                        assert(s =~= s.take(o) + (seq!['{'] + rest.take(c) + seq!['}']) + rest.skip(c + 1));
                    } else {
                        lemma_render_unknown(rest, vals);
                        assert(s =~= s.take(o) + (seq!['{'] + rest));
                    }
                },
                None => {
                    lemma_render_unknown(rest, vals);
                    assert(s =~= s.take(o) + (seq!['{'] + rest));
                },
            }
        },
    }
}

/// A placeholder whose field is not found stays as written: with a lookup
/// that finds nothing, the expansion of any text is the text itself.
pub proof fn law_interpolate_keeps_unknown(s: Seq<char>)
    ensures
        interpolate_spec(s, |k: Seq<char>| None::<Seq<char>>) == s,
{
    lemma_render_unknown(s, interp_keys(s).map_values(|k: Seq<char>| None::<Seq<char>>));
}

/// A found value is put in verbatim and not scanned again: in a text
/// `p{k}s` where `p` holds no `{` and `k` is a non-empty key without `}`,
/// when the lookup finds `v` for `k`, the expansion is `p`, then `v`, then
/// the expansion of `s`; `k` is the key looked up.
pub proof fn law_interpolate_found_verbatim(
    p: Seq<char>,
    k: Seq<char>,
    s: Seq<char>,
    v: Seq<char>,
    f: spec_fn(Seq<char>) -> Option<Seq<char>>,
)
    requires
        forall|i: int| 0 <= i < p.len() ==> p[i] != '{',
        k.len() > 0,
        forall|i: int| 0 <= i < k.len() ==> k[i] != '}',
        f(k) == Some(v),
    ensures
        interp_keys(p + seq!['{'] + k + seq!['}'] + s) == seq![k] + interp_keys(s),
        interpolate_spec(p + seq!['{'] + k + seq!['}'] + s, f) == p + v + interpolate_spec(s, f),
{
    let t = p + seq!['{'] + k + seq!['}'] + s;
    lemma_find_char(t, '{');
    assert(t[p.len() as int] == '{');
    assert forall|j: int| 0 <= j < p.len() implies t[j] != '{' by {
        assert(t[j] == p[j]);
    }
    assert(find_char(t, '{') == Some(p.len() as int));
    let rest = t.skip(p.len() + 1 as int);
    assert(rest =~= k + seq!['}'] + s);
    lemma_find_char(rest, '}');
    assert(rest[k.len() as int] == '}');
    assert forall|j: int| 0 <= j < k.len() implies rest[j] != '}' by {
        assert(rest[j] == k[j]);
    }
    assert(find_char(rest, '}') == Some(k.len() as int));
    assert(rest.take(k.len() as int) =~= k);
    assert(rest.skip(k.len() + 1 as int) =~= s);
    assert(t.take(p.len() as int) =~= p);
    assert(interp_keys(t) == seq![k] + interp_keys(s));
    let vals = interp_keys(t).map_values(f);
    assert(vals[0] == Some(v));
    assert(vals.drop_first() =~= interp_keys(s).map_values(f));
    assert(render(t, vals) == p + (v + render(s, vals.drop_first())));
    assert(p + (v + interpolate_spec(s, f)) =~= p + v + interpolate_spec(s, f));
}

/// A text without `{` is its own expansion, whatever the lookup gives.
pub proof fn law_interpolate_plain_text(s: Seq<char>, f: spec_fn(Seq<char>) -> Option<Seq<char>>)
    requires
        forall|i: int| 0 <= i < s.len() ==> s[i] != '{',
    ensures
        interpolate_spec(s, f) == s,
{
    lemma_find_char(s, '{');
}

proof fn lemma_nodes_of_update(s: Seq<TraceNode>, i: int, m: TraceNode, q: u128)
    requires
        0 <= i < s.len(),
        s[i].project_id != q,
        m.project_id != q,
    ensures
        nodes_of(s.update(i, m), q) == nodes_of(s, q),
    decreases s.len(),
{
    if i == s.len() - 1 {
        assert(s.update(i, m).drop_last() =~= s.drop_last());
    } else {
        assert(s.update(i, m).drop_last() =~= s.drop_last().update(i, m));
        lemma_nodes_of_update(s.drop_last(), i, m, q);
    }
}

/// Upserting a node of one project leaves the nodes of every other project
/// as they were.
pub proof fn law_node_upsert_isolated(before: Seq<TraceNode>, n: TraceNode, after: Seq<TraceNode>, q: u128)
    requires
        node_upserted(before, n, after),
        q != n.project_id,
    ensures
        nodes_of(after, q) == nodes_of(before, q),
{
    if has_key(before, n) {
        let i = choose|i: int|
            0 <= i < before.len() && #[trigger] same_key(before[i], n) && after == before.update(
                i,
                merged_node(before[i], n),
            );
        lemma_nodes_of_update(before, i, merged_node(before[i], n), q);
    } else {
        assert(after.drop_last() =~= before);
    }
}

/// After an upsert the written node's key is present, and so is every key
/// that was present before.
pub proof fn law_node_upsert_keeps_keys(before: Seq<TraceNode>, n: TraceNode, after: Seq<TraceNode>, x: TraceNode)
    requires
        node_upserted(before, n, after),
    ensures
        has_key(after, n),
        has_key(before, x) ==> has_key(after, x),
{
    if has_key(before, n) {
        let i = choose|i: int|
            0 <= i < before.len() && #[trigger] same_key(before[i], n) && after == before.update(
                i,
                merged_node(before[i], n),
            );
        assert(same_key(after[i], n));
        if has_key(before, x) {
            let j = choose|j: int| 0 <= j < before.len() && #[trigger] same_key(before[j], x);
            assert(same_key(after[j], x));
        }
    } else {
        assert(same_key(after[before.len() as int], n));
        if has_key(before, x) {
            let j = choose|j: int| 0 <= j < before.len() && #[trigger] same_key(before[j], x);
            assert(same_key(after[j], x));
        }
    }
}

/// Upserting a node whose key is already present adds no node: every
/// position keeps its id and its key.
pub proof fn law_node_upsert_in_place(before: Seq<TraceNode>, n: TraceNode, after: Seq<TraceNode>)
    requires
        node_upserted(before, n, after),
        has_key(before, n),
    ensures
        after.len() == before.len(),
        forall|i: int|
            0 <= i < after.len() ==> (#[trigger] after[i]).id == before[i].id && same_key(after[i], before[i]),
{
}

/// Nodes that keep, position by position, their keys keep every key present.
proof fn lemma_has_key_transfer(a: Seq<TraceNode>, b: Seq<TraceNode>, x: TraceNode, y: TraceNode)
    requires
        a.len() == b.len(),
        forall|i: int| 0 <= i < a.len() ==> #[trigger] same_key(b[i], a[i]),
        has_key(a, x),
        same_key(x, y),
    ensures
        has_key(b, y),
{
    let j = choose|j: int| 0 <= j < a.len() && #[trigger] same_key(a[j], x);
    assert(same_key(b[j], a[j]));
    assert(same_key(b[j], y));
}

/// Through a run of upserts, a key present at step `k` is present at the end.
proof fn lemma_key_persists(
    before: Seq<TraceNode>,
    p: u128,
    batch: Seq<IngestNode>,
    states: Seq<Seq<TraceNode>>,
    built: Seq<TraceNode>,
    k: int,
    x: TraceNode,
)
    requires
        ingest_nodes_upto(before, p, batch, states, built, batch.len() as int),
        0 <= k <= batch.len(),
        has_key(states[k], x),
    ensures
        has_key(states[batch.len() as int], x),
    decreases batch.len() - k,
{
    if k < batch.len() {
        assert(ingest_built(batch[k], p, ingest_sort_key(before, p, batch, k), built[k]));
        law_node_upsert_keeps_keys(states[k], built[k], states[k + 1], x);
        lemma_key_persists(before, p, batch, states, built, k + 1, x);
    }
}

/// The second run: each upsert finds its key, so positions, ids and keys stay.
proof fn lemma_second_pass(
    s1: Seq<TraceNode>,
    p: u128,
    batch: Seq<IngestNode>,
    states: Seq<Seq<TraceNode>>,
    built: Seq<TraceNode>,
    n: int,
)
    requires
        ingest_nodes_upto(s1, p, batch, states, built, batch.len() as int),
        forall|j: int| 0 <= j < batch.len() ==> has_key(s1, #[trigger] built[j]),
        0 <= n <= batch.len(),
    ensures
        states[n].len() == s1.len(),
        forall|i: int|
            0 <= i < s1.len() ==> (#[trigger] states[n][i]).id == s1[i].id && same_key(states[n][i], s1[i]),
    decreases n,
{
    if n > 0 {
        lemma_second_pass(s1, p, batch, states, built, n - 1);
        let j = n - 1;
        assert(ingest_built(batch[j], p, ingest_sort_key(s1, p, batch, j), built[j]));
        assert(has_key(s1, built[j]));
        assert forall|i: int| 0 <= i < s1.len() implies #[trigger] same_key(states[j][i], s1[i]) by {}
        assert(same_key(built[j], built[j]));
        lemma_has_key_transfer(s1, states[j], built[j], built[j]);
        law_node_upsert_in_place(states[j], built[j], states[j + 1]);
        assert forall|i: int| 0 <= i < s1.len() implies (#[trigger] states[n][i]).id == s1[i].id && same_key(
            states[n][i],
            s1[i],
        ) by {
            assert(states[n][i].id == states[j][i].id);
            assert(same_key(states[n][i], states[j][i]));
        }
    }
}

proof fn lemma_nodes_of_len_same(a: Seq<TraceNode>, b: Seq<TraceNode>, q: u128)
    requires
        a.len() == b.len(),
        forall|i: int| 0 <= i < a.len() ==> (#[trigger] b[i]).project_id == a[i].project_id,
    ensures
        nodes_of(b, q).len() == nodes_of(a, q).len(),
    decreases a.len(),
{
    if a.len() > 0 {
        assert(b.last().project_id == a.last().project_id);
        lemma_nodes_of_len_same(a.drop_last(), b.drop_last(), q);
    }
}

/// Ingesting the same batch of nodes a second time adds no node: the store
/// keeps its size, every position keeps its id and key, and each project
/// keeps its number of nodes.
pub proof fn law_ingest_again_adds_no_nodes(
    s0: Seq<TraceNode>,
    s1: Seq<TraceNode>,
    s2: Seq<TraceNode>,
    p: u128,
    batch: Seq<IngestNode>,
)
    requires
        ingest_nodes_rel(s0, p, batch, s1),
        ingest_nodes_rel(s1, p, batch, s2),
    ensures
        s2.len() == s1.len(),
        forall|i: int| 0 <= i < s1.len() ==> (#[trigger] s2[i]).id == s1[i].id && same_key(s2[i], s1[i]),
        forall|q: u128| #[trigger] nodes_of(s2, q).len() == nodes_of(s1, q).len(),
{
    let (st1, b1) = choose|states: Seq<Seq<TraceNode>>, built: Seq<TraceNode>|
        ingest_nodes_upto(s0, p, batch, states, built, batch.len() as int) && states.last() == s1;
    let (st2, b2) = choose|states: Seq<Seq<TraceNode>>, built: Seq<TraceNode>|
        ingest_nodes_upto(s1, p, batch, states, built, batch.len() as int) && states.last() == s2;
    assert forall|j: int| 0 <= j < batch.len() implies has_key(s1, #[trigger] b2[j]) by {
        assert(ingest_built(batch[j], p, ingest_sort_key(s0, p, batch, j), b1[j]));
        assert(ingest_built(batch[j], p, ingest_sort_key(s1, p, batch, j), b2[j]));
        law_node_upsert_keeps_keys(st1[j], b1[j], st1[j + 1], b1[j]);
        lemma_key_persists(s0, p, batch, st1, b1, j + 1, b1[j]);
        assert(has_key(s1, b1[j]));
        let w = choose|w: int| 0 <= w < s1.len() && #[trigger] same_key(s1[w], b1[j]);
        assert(same_key(s1[w], b2[j]));
    }
    lemma_second_pass(s1, p, batch, st2, b2, batch.len() as int);
    assert forall|q: u128| #[trigger] nodes_of(s2, q).len() == nodes_of(s1, q).len() by {
        assert forall|i: int| 0 <= i < s1.len() implies (#[trigger] s2[i]).project_id == s1[i].project_id by {
            assert(same_key(s2[i], s1[i]));
        }
        lemma_nodes_of_len_same(s1, s2, q);
    }
}

/// Through a run of uploads, a key present at step `k` is present at the end.
proof fn lemma_upload_key_persists(
    before: Seq<TraceNode>,
    p: u128,
    source: Seq<char>,
    items: Seq<UploadRequirement>,
    states: Seq<Seq<TraceNode>>,
    built: Seq<TraceNode>,
    k: int,
    x: TraceNode,
)
    requires
        upload_upto(before, p, source, items, states, built, items.len() as int),
        0 <= k <= items.len(),
        has_key(states[k], x),
    ensures
        has_key(states[items.len() as int], x),
    decreases items.len() - k,
{
    if k < items.len() {
        if upload_accepted(items[k]) {
            law_node_upsert_keeps_keys(states[k], built[k], states[k + 1], x);
        }
        lemma_upload_key_persists(before, p, source, items, states, built, k + 1, x);
    }
}

/// The second upload: each accepted requirement finds its key, so positions,
/// ids and keys stay.
proof fn lemma_upload_second_pass(
    s1: Seq<TraceNode>,
    p: u128,
    source: Seq<char>,
    items: Seq<UploadRequirement>,
    states: Seq<Seq<TraceNode>>,
    built: Seq<TraceNode>,
    n: int,
)
    requires
        upload_upto(s1, p, source, items, states, built, items.len() as int),
        forall|j: int| 0 <= j < items.len() && upload_accepted(items[j]) ==> has_key(s1, #[trigger] built[j]),
        0 <= n <= items.len(),
    ensures
        states[n].len() == s1.len(),
        forall|i: int|
            0 <= i < s1.len() ==> (#[trigger] states[n][i]).id == s1[i].id && same_key(states[n][i], s1[i]),
    decreases n,
{
    if n > 0 {
        lemma_upload_second_pass(s1, p, source, items, states, built, n - 1);
        let j = n - 1;
        assert(items[j] == items[j]);
        if upload_accepted(items[j]) {
            assert(has_key(s1, built[j]));
            assert forall|i: int| 0 <= i < s1.len() implies #[trigger] same_key(states[j][i], s1[i]) by {}
            assert(same_key(built[j], built[j]));
            lemma_has_key_transfer(s1, states[j], built[j], built[j]);
            law_node_upsert_in_place(states[j], built[j], states[j + 1]);
        }
        assert forall|i: int| 0 <= i < s1.len() implies (#[trigger] states[n][i]).id == s1[i].id && same_key(
            states[n][i],
            s1[i],
        ) by {
            assert(states[n][i].id == states[j][i].id);
            assert(same_key(states[n][i], states[j][i]));
        }
    }
}

/// Uploading the same requirements from the same source a second time adds
/// no node: the store keeps its size, every position keeps its id and key,
/// and each project keeps its number of nodes.
pub proof fn law_upload_again_adds_no_nodes(
    s0: Seq<TraceNode>,
    s1: Seq<TraceNode>,
    s2: Seq<TraceNode>,
    p: u128,
    source: Seq<char>,
    items: Seq<UploadRequirement>,
)
    requires
        upload_rel(s0, p, source, items, s1),
        upload_rel(s1, p, source, items, s2),
    ensures
        s2.len() == s1.len(),
        forall|i: int| 0 <= i < s1.len() ==> (#[trigger] s2[i]).id == s1[i].id && same_key(s2[i], s1[i]),
        forall|q: u128| #[trigger] nodes_of(s2, q).len() == nodes_of(s1, q).len(),
{
    let (st1, b1) = choose|states: Seq<Seq<TraceNode>>, built: Seq<TraceNode>|
        upload_upto(s0, p, source, items, states, built, items.len() as int) && states.last() == s1;
    let (st2, b2) = choose|states: Seq<Seq<TraceNode>>, built: Seq<TraceNode>|
        upload_upto(s1, p, source, items, states, built, items.len() as int) && states.last() == s2;
    assert forall|j: int| 0 <= j < items.len() && upload_accepted(items[j]) implies has_key(s1, #[trigger] b2[j]) by {
        assert(items[j] == items[j]);
        law_node_upsert_keeps_keys(st1[j], b1[j], st1[j + 1], b1[j]);
        lemma_upload_key_persists(s0, p, source, items, st1, b1, j + 1, b1[j]);
        assert(has_key(s1, b1[j]));
        let w = choose|w: int| 0 <= w < s1.len() && #[trigger] same_key(s1[w], b1[j]);
        assert(same_key(s1[w], b2[j]));
    }
    lemma_upload_second_pass(s1, p, source, items, st2, b2, items.len() as int);
    assert forall|q: u128| #[trigger] nodes_of(s2, q).len() == nodes_of(s1, q).len() by {
        assert forall|i: int| 0 <= i < s1.len() implies (#[trigger] s2[i]).project_id == s1[i].project_id by {
            assert(same_key(s2[i], s1[i]));
        }
        lemma_nodes_of_len_same(s1, s2, q);
    }
}

/// Nodes that keep, position by position, their ids and keys resolve every
/// key to a node with the same id.
pub proof fn lemma_by_key_same(a: Seq<TraceNode>, b: Seq<TraceNode>, p: u128, src: Seq<char>, rf: Seq<char>)
    requires
        a.len() == b.len(),
        forall|i: int| 0 <= i < a.len() ==> (#[trigger] b[i]).id == a[i].id && same_key(b[i], a[i]),
    ensures
        node_by_key(a, p, src, rf) is Some <==> node_by_key(b, p, src, rf) is Some,
        node_by_key(a, p, src, rf) is Some ==> node_by_key(b, p, src, rf)->0.id == node_by_key(
            a,
            p,
            src,
            rf,
        )->0.id,
    decreases a.len(),
{
    if a.len() > 0 {
        assert(b[b.len() - 1].id == a[a.len() - 1].id && same_key(b[b.len() - 1], a[a.len() - 1]));
        lemma_by_key_same(a.drop_last(), b.drop_last(), p, src, rf);
    }
}

/// After a link upsert the written link's key is present, and so is every
/// link key that was present before.
pub proof fn law_link_upsert_keeps_keys(before: Seq<TraceLink>, l: TraceLink, after: Seq<TraceLink>, x: TraceLink)
    requires
        link_upserted(before, l, after),
    ensures
        has_link_key(after, l),
        has_link_key(before, x) ==> has_link_key(after, x),
{
    if has_link_key(before, l) {
        let i = choose|i: int|
            0 <= i < before.len() && #[trigger] same_link_key(before[i], l) && after == before.update(
                i,
                merged_link(before[i], l),
            );
        assert(same_link_key(after[i], l));
        if has_link_key(before, x) {
            let j = choose|j: int| 0 <= j < before.len() && #[trigger] same_link_key(before[j], x);
            assert(same_link_key(after[j], x));
        }
    } else {
        assert(same_link_key(after[before.len() as int], l));
        if has_link_key(before, x) {
            let j = choose|j: int| 0 <= j < before.len() && #[trigger] same_link_key(before[j], x);
            assert(same_link_key(after[j], x));
        }
    }
}

/// Upserting a link whose key is already present adds no link: every
/// position keeps its id and its key.
pub proof fn law_link_upsert_in_place(before: Seq<TraceLink>, l: TraceLink, after: Seq<TraceLink>)
    requires
        link_upserted(before, l, after),
        has_link_key(before, l),
    ensures
        after.len() == before.len(),
        forall|i: int|
            0 <= i < after.len() ==> (#[trigger] after[i]).id == before[i].id && same_link_key(
                after[i],
                before[i],
            ),
{
}

proof fn lemma_link_key_persists(
    nodes: Seq<TraceNode>,
    before: Seq<TraceLink>,
    p: u128,
    batch: Seq<IngestLink>,
    states: Seq<Seq<TraceLink>>,
    built: Seq<TraceLink>,
    k: int,
    x: TraceLink,
)
    requires
        ingest_links_upto(nodes, before, p, batch, states, built, batch.len() as int),
        0 <= k <= batch.len(),
        has_link_key(states[k], x),
    ensures
        has_link_key(states[batch.len() as int], x),
    decreases batch.len() - k,
{
    if k < batch.len() {
        assert(batch[k] == batch[k]);
        if link_written(nodes, p, batch[k]) {
            law_link_upsert_keeps_keys(states[k], built[k], states[k + 1], x);
        }
        lemma_link_key_persists(nodes, before, p, batch, states, built, k + 1, x);
    }
}

proof fn lemma_second_link_pass(
    nodes: Seq<TraceNode>,
    l1: Seq<TraceLink>,
    p: u128,
    batch: Seq<IngestLink>,
    states: Seq<Seq<TraceLink>>,
    built: Seq<TraceLink>,
    n: int,
)
    requires
        ingest_links_upto(nodes, l1, p, batch, states, built, batch.len() as int),
        forall|j: int|
            0 <= j < batch.len() && link_written(nodes, p, #[trigger] batch[j]) ==> has_link_key(l1, built[j]),
        0 <= n <= batch.len(),
    ensures
        states[n].len() == l1.len(),
        forall|i: int|
            0 <= i < l1.len() ==> (#[trigger] states[n][i]).id == l1[i].id && same_link_key(
                states[n][i],
                l1[i],
            ),
    decreases n,
{
    if n > 0 {
        lemma_second_link_pass(nodes, l1, p, batch, states, built, n - 1);
        let j = n - 1;
        assert(batch[j] == batch[j]);
        if link_written(nodes, p, batch[j]) {
            assert(has_link_key(l1, built[j]));
            let w = choose|w: int| 0 <= w < l1.len() && #[trigger] same_link_key(l1[w], built[j]);
            assert(same_link_key(states[j][w], l1[w]));
            assert(same_link_key(states[j][w], built[j]));
            law_link_upsert_in_place(states[j], built[j], states[j + 1]);
            assert forall|i: int| 0 <= i < l1.len() implies (#[trigger] states[n][i]).id == l1[i].id
                && same_link_key(states[n][i], l1[i]) by {
                assert(states[n][i].id == states[j][i].id);
                assert(same_link_key(states[n][i], states[j][i]));
            }
        }
    }
}

/// Ingesting the same batch a second time adds no link either: the links
/// keep their number, ids and keys. (The nodes of the second run are those
/// of the first, position by position, as `law_ingest_again_adds_no_nodes` shows.)
pub proof fn law_ingest_again_adds_no_links(
    n1: Seq<TraceNode>,
    n2: Seq<TraceNode>,
    l0: Seq<TraceLink>,
    l1: Seq<TraceLink>,
    l2: Seq<TraceLink>,
    p: u128,
    batch: Seq<IngestLink>,
)
    requires
        n2.len() == n1.len(),
        forall|i: int| 0 <= i < n1.len() ==> (#[trigger] n2[i]).id == n1[i].id && same_key(n2[i], n1[i]),
        ingest_links_rel(n1, l0, p, batch, l1),
        ingest_links_rel(n2, l1, p, batch, l2),
    ensures
        l2.len() == l1.len(),
        forall|i: int| 0 <= i < l1.len() ==> (#[trigger] l2[i]).id == l1[i].id && same_link_key(l2[i], l1[i]),
{
    let (st1, b1) = choose|states: Seq<Seq<TraceLink>>, built: Seq<TraceLink>|
        ingest_links_upto(n1, l0, p, batch, states, built, batch.len() as int) && states.last() == l1;
    let (st2, b2) = choose|states: Seq<Seq<TraceLink>>, built: Seq<TraceLink>|
        ingest_links_upto(n2, l1, p, batch, states, built, batch.len() as int) && states.last() == l2;
    assert forall|j: int|
        0 <= j < batch.len() && link_written(n2, p, #[trigger] batch[j]) implies has_link_key(l1, b2[j]) by {
        let e = batch[j];
        lemma_by_key_same(n1, n2, p, e.source.external_source@, e.source.external_ref@);
        lemma_by_key_same(n1, n2, p, e.target.external_source@, e.target.external_ref@);
        assert(link_written(n1, p, e));
        law_link_upsert_keeps_keys(st1[j], b1[j], st1[j + 1], b1[j]);
        lemma_link_key_persists(n1, l0, p, batch, st1, b1, j + 1, b1[j]);
        let w = choose|w: int| 0 <= w < l1.len() && #[trigger] same_link_key(l1[w], b1[j]);
        assert(same_link_key(l1[w], b2[j]));
    }
    lemma_second_link_pass(n2, l1, p, batch, st2, b2, batch.len() as int);
}

/// A held key is found by `node_by_key`.
proof fn lemma_has_key_by_key(nodes: Seq<TraceNode>, x: TraceNode)
    requires
        has_key(nodes, x),
    ensures
        node_by_key(nodes, x.project_id, x.external_source@, x.external_ref@) is Some,
    decreases nodes.len(),
{
    let l = nodes.len() - 1;
    if !same_key(nodes[l], x) {
        let w = choose|w: int| 0 <= w < nodes.len() && #[trigger] same_key(nodes[w], x);
        assert(same_key(nodes.drop_last()[w], x));
        lemma_has_key_by_key(nodes.drop_last(), x);
    }
}

/// After a successful ingest, the same batch finds every node key and every
/// link key it names; by the contract of `TraceService::ingest`, ingesting the
/// same batch again therefore succeeds.
pub proof fn law_ingest_again_keys_held(
    s0: Seq<TraceNode>,
    s1: Seq<TraceNode>,
    l0: Seq<TraceLink>,
    l1: Seq<TraceLink>,
    p: u128,
    batch: Seq<IngestNode>,
    links: Seq<IngestLink>,
)
    requires
        ingest_nodes_rel(s0, p, batch, s1),
        ingest_links_rel(s1, l0, p, links, l1),
    ensures
        node_keys_held(s1, p, batch),
        link_keys_held(s1, l1, p, links),
{
    let (st, b) = choose|states: Seq<Seq<TraceNode>>, built: Seq<TraceNode>|
        ingest_nodes_upto(s0, p, batch, states, built, batch.len() as int) && states.last() == s1;
    assert forall|j: int| 0 <= j < batch.len() implies node_by_key(
        s1,
        p,
        trim_seq((#[trigger] batch[j]).external_source@),
        trim_seq(batch[j].external_ref@),
    ) is Some by {
        assert(ingest_built(batch[j], p, ingest_sort_key(s0, p, batch, j), b[j]));
        law_node_upsert_keeps_keys(st[j], b[j], st[j + 1], b[j]);
        lemma_key_persists(s0, p, batch, st, b, j + 1, b[j]);
        lemma_has_key_by_key(s1, b[j]);
    }
    let (lst, lb) = choose|states: Seq<Seq<TraceLink>>, built: Seq<TraceLink>|
        ingest_links_upto(s1, l0, p, links, states, built, links.len() as int) && states.last() == l1;
    assert forall|j: int| 0 <= j < links.len() && link_written(s1, p, #[trigger] links[j]) implies exists|i: int|
        0 <= i < l1.len() && #[trigger] l1[i].source_node_id == resolve(s1, p, links[j].source)->0.id
            && l1[i].target_node_id == resolve(s1, p, links[j].target)->0.id && l1[i].link_type
            == links[j].link_type by {
        law_link_upsert_keeps_keys(lst[j], lb[j], lst[j + 1], lb[j]);
        lemma_link_key_persists(s1, l0, p, links, lst, lb, j + 1, lb[j]);
        let w = choose|w: int| 0 <= w < l1.len() && #[trigger] same_link_key(l1[w], lb[j]);
        assert(l1[w].source_node_id == resolve(s1, p, links[j].source)->0.id);
    }
}

proof fn lemma_link_counts_same(a: Seq<TraceNode>, b: Seq<TraceNode>, p: u128, links: Seq<IngestLink>)
    requires
        a.len() == b.len(),
        forall|i: int| 0 <= i < a.len() ==> (#[trigger] b[i]).id == a[i].id && same_key(b[i], a[i]),
    ensures
        written_count(b, p, links) == written_count(a, p, links),
        unresolved_messages(b, p, links) == unresolved_messages(a, p, links),
    decreases links.len(),
{
    if links.len() > 0 {
        let e = links.last();
        lemma_by_key_same(a, b, p, e.source.external_source@, e.source.external_ref@);
        lemma_by_key_same(a, b, p, e.target.external_source@, e.target.external_ref@);
        assert(link_resolves(a, p, e) == link_resolves(b, p, e));
        assert(link_written(a, p, e) == link_written(b, p, e));
        lemma_link_counts_same(a, b, p, links.drop_last());
    }
}

/// Ingesting a batch a second time reports what the first run reported:
/// as many links written and the same unresolved links (and, as always, one
/// upsert per node entry).
pub proof fn law_ingest_again_same_report(
    s0: Seq<TraceNode>,
    s1: Seq<TraceNode>,
    s2: Seq<TraceNode>,
    p: u128,
    batch: Seq<IngestNode>,
    links: Seq<IngestLink>,
)
    requires
        ingest_nodes_rel(s0, p, batch, s1),
        ingest_nodes_rel(s1, p, batch, s2),
    ensures
        written_count(s2, p, links) == written_count(s1, p, links),
        unresolved_messages(s2, p, links) == unresolved_messages(s1, p, links),
{
    law_ingest_again_adds_no_nodes(s0, s1, s2, p, batch);
    lemma_link_counts_same(s1, s2, p, links);
}

/// After a successful upload, every accepted requirement's key is held; by
/// the contract of `TraceService::upload_requirements`, uploading the same
/// requirements from the same source again therefore succeeds (and reports
/// the same counts, which depend on the requirements alone).
pub proof fn law_upload_again_keys_held(
    s0: Seq<TraceNode>,
    s1: Seq<TraceNode>,
    p: u128,
    source: Seq<char>,
    items: Seq<UploadRequirement>,
)
    requires
        upload_rel(s0, p, source, items, s1),
    ensures
        upload_keys_held(s1, p, source, items),
{
    let (st, b) = choose|states: Seq<Seq<TraceNode>>, built: Seq<TraceNode>|
        upload_upto(s0, p, source, items, states, built, items.len() as int) && states.last() == s1;
    assert forall|j: int| 0 <= j < items.len() && upload_accepted(#[trigger] items[j]) implies node_by_key(
        s1,
        p,
        source,
        upload_ref(items[j]),
    ) is Some by {
        law_node_upsert_keeps_keys(st[j], b[j], st[j + 1], b[j]);
        lemma_upload_key_persists(s0, p, source, items, st, b, j + 1, b[j]);
        lemma_has_key_by_key(s1, b[j]);
    }
}

proof fn lemma_links_of_update(s: Seq<TraceLink>, i: int, m: TraceLink, q: u128)
    requires
        0 <= i < s.len(),
        s[i].project_id != q,
        m.project_id != q,
    ensures
        links_of(s.update(i, m), q) == links_of(s, q),
    decreases s.len(),
{
    if i == s.len() - 1 {
        assert(s.update(i, m).drop_last() =~= s.drop_last());
    } else {
        assert(s.update(i, m).drop_last() =~= s.drop_last().update(i, m));
        lemma_links_of_update(s.drop_last(), i, m, q);
    }
}

/// Upserting a link of one project leaves the links of every other project
/// as they were — unless a link of that other project already has the
/// written link's key (links are keyed by their ends and type alone, and such
/// a link takes the new attributes).
pub proof fn law_link_upsert_isolated(before: Seq<TraceLink>, l: TraceLink, after: Seq<TraceLink>, q: u128)
    requires
        link_upserted(before, l, after),
        q != l.project_id,
        forall|i: int| 0 <= i < before.len() && #[trigger] same_link_key(before[i], l) ==> before[i].project_id != q,
    ensures
        links_of(after, q) == links_of(before, q),
{
    if has_link_key(before, l) {
        let i = choose|i: int|
            0 <= i < before.len() && #[trigger] same_link_key(before[i], l) && after == before.update(
                i,
                merged_link(before[i], l),
            );
        lemma_links_of_update(before, i, merged_link(before[i], l), q);
    } else {
        assert(after.drop_last() =~= before);
    }
}

/// `(x, y)` is one of the steps of `adj`.
pub open spec fn step(adj: Seq<(u128, u128)>, x: u128, y: u128) -> bool {
    exists|j: int| 0 <= j < adj.len() && #[trigger] adj[j] == (x, y)
}

/// `s` is a walk along the steps of `adj`.
pub open spec fn is_walk(adj: Seq<(u128, u128)>, s: Seq<u128>) -> bool {
    &&& s.len() >= 1
    &&& forall|i: int, k: int|
        #![trigger s[i], s[k]]
        0 <= i && k == i + 1 && k < s.len() ==> step(adj, s[i], s[k])
}

proof fn lemma_reach_walk(adj: Seq<(u128, u128)>, r: Set<u128>, k: nat, n: u128)
    requires
        reach_within(adj, r, k).contains(n),
    ensures
        exists|s: Seq<u128>| #[trigger] is_walk(adj, s) && r.contains(s[0]) && s.last() == n,
    decreases k,
{
    if k == 0 {
        let s = seq![n];
        assert(is_walk(adj, s));
    } else {
        let prev = reach_within(adj, r, (k - 1) as nat);
        if prev.contains(n) {
            lemma_reach_walk(adj, r, (k - 1) as nat, n);
        } else {
            let i = choose|i: int| 0 <= i < adj.len() && prev.contains(#[trigger] adj[i].0) && adj[i].1 == n;
            lemma_reach_walk(adj, r, (k - 1) as nat, adj[i].0);
            let s0 = choose|s: Seq<u128>| #[trigger] is_walk(adj, s) && r.contains(s[0]) && s.last() == adj[i].0;
            let s = s0.push(n);
            assert forall|x: int, y: int| 0 <= x && y == x + 1 && y < s.len() implies step(adj, #[trigger] s[x], #[trigger] s[y]) by {
                if y < s0.len() {
                    assert(s[x] == s0[x] && s[y] == s0[y]);
                } else {
                    assert(adj[i] == (s[x], s[y]));
                }
            }
            assert(is_walk(adj, s));
        }
    }
}

proof fn lemma_walk_reach(adj: Seq<(u128, u128)>, r: Set<u128>, s: Seq<u128>)
    requires
        is_walk(adj, s),
        r.contains(s[0]),
    ensures
        reach_within(adj, r, (s.len() - 1) as nat).contains(s.last()),
    decreases s.len(),
{
    if s.len() > 1 {
        let t = s.drop_last();
        assert forall|x: int, y: int| 0 <= x && y == x + 1 && y < t.len() implies step(adj, #[trigger] t[x], #[trigger] t[y]) by {
            assert(t[x] == s[x] && t[y] == s[y]);
        }
        lemma_walk_reach(adj, r, t);
        let x = s.len() - 2;
        assert(step(adj, s[x], s[x + 1]));
        let j = choose|j: int| 0 <= j < adj.len() && #[trigger] adj[j] == (s[x], s[x + 1]);
        let prev = reach_within(adj, r, (s.len() - 2) as nat);
        assert(prev.contains(adj[j].0) && adj[j].1 == s.last());
    }
}

/// The steps downwards are the steps upwards, each turned around.
proof fn lemma_adjacency_turned(links: Seq<Edge>, allowed: Option<Seq<LinkType>>)
    ensures
        adjacency_spec(links, Direction::Down, allowed).len() == adjacency_spec(links, Direction::Up, allowed).len(),
        forall|i: int|
            0 <= i < adjacency_spec(links, Direction::Up, allowed).len() ==> #[trigger] adjacency_spec(
                links,
                Direction::Down,
                allowed,
            )[i] == (adjacency_spec(links, Direction::Up, allowed)[i].1, adjacency_spec(
                links,
                Direction::Up,
                allowed,
            )[i].0),
    decreases links.len(),
{
    if links.len() > 0 {
        lemma_adjacency_turned(links.drop_last(), allowed);
    }
}

/// A walk along one list of steps, read backwards, is a walk along the
/// turned-around steps.
proof fn lemma_walk_turned(a: Seq<(u128, u128)>, b: Seq<(u128, u128)>, s: Seq<u128>)
    requires
        b.len() == a.len(),
        forall|i: int| 0 <= i < a.len() ==> (#[trigger] b[i]).0 == a[i].1 && b[i].1 == a[i].0,
        is_walk(a, s),
    ensures
        is_walk(b, s.reverse()),
{
    let t = s.reverse();
    assert forall|x: int, y: int| 0 <= x && y == x + 1 && y < t.len() implies step(b, #[trigger] t[x], #[trigger] t[y]) by {
        let u = s.len() - 1 - y;
        let v = u + 1;
        assert(t[x] == s[v] && t[y] == s[u]);
        assert(step(a, s[u], s[v]));
        let j = choose|j: int| 0 <= j < a.len() && #[trigger] a[j] == (s[u], s[v]);
        assert(b[j] == (t[x], t[y]));
    }
}

proof fn lemma_single_to_set(a: u128)
    ensures
        seq![a].to_set() == set![a],
{
    assert forall|x: u128| seq![a].to_set().contains(x) <==> set![a].contains(x) by {
        if x == a {
            assert(seq![a][0] == a);
        }
    }
    assert(seq![a].to_set() =~= set![a]);
}

/// Tracing up and tracing down are mirrors: `b` is in the upward closure of
/// `a` exactly when `a` is in the downward closure of `b`, under the same
/// link type filter.
pub proof fn law_closure_mirror(links: Seq<Edge>, a: u128, b: u128, allowed: Option<Seq<LinkType>>)
    requires
        a != b,
    ensures
        closure_spec(links, seq![a], Direction::Up, allowed).contains(b) <==> closure_spec(
            links,
            seq![b],
            Direction::Down,
            allowed,
        ).contains(a),
{
    let up = adjacency_spec(links, Direction::Up, allowed);
    let down = adjacency_spec(links, Direction::Down, allowed);
    lemma_adjacency_turned(links, allowed);
    lemma_single_to_set(a);
    lemma_single_to_set(b);
    assert(!seq![a].contains(b)) by {
        if seq![a].contains(b) {
            let w = choose|w: int| 0 <= w < 1 && seq![a][w] == b;
        }
    }
    assert(!seq![b].contains(a)) by {
        if seq![b].contains(a) {
            let w = choose|w: int| 0 <= w < 1 && seq![b][w] == a;
        }
    }
    if reachable(up, set![a], b) {
        let k = choose|k: nat| #[trigger] reach_within(up, set![a], k).contains(b);
        lemma_reach_walk(up, set![a], k, b);
        let s = choose|s: Seq<u128>| #[trigger] is_walk(up, s) && set![a].contains(s[0]) && s.last() == b;
        lemma_walk_turned(up, down, s);
        let t = s.reverse();
        assert(t[0] == b && t.last() == a);
        lemma_walk_reach(down, set![b], t);
        assert(reach_within(down, set![b], (t.len() - 1) as nat).contains(a));
    }
    if reachable(down, set![b], a) {
        let k = choose|k: nat| #[trigger] reach_within(down, set![b], k).contains(a);
        lemma_reach_walk(down, set![b], k, a);
        let s = choose|s: Seq<u128>| #[trigger] is_walk(down, s) && set![b].contains(s[0]) && s.last() == a;
        lemma_walk_turned(down, up, s);
        let t = s.reverse();
        assert(t[0] == a && t.last() == b);
        lemma_walk_reach(up, set![a], t);
        assert(reach_within(up, set![a], (t.len() - 1) as nat).contains(b));
    }
}

/// The value of field `f` in a written field list: the first write of `f`,
/// or empty when none writes it.
pub open spec fn written_value(ws: Seq<FieldValueWrite>, f: u128) -> Seq<char>
    decreases ws.len(),
{
    if ws.len() == 0 {
        Seq::empty()
    } else if ws[0].field_id == f {
        ws[0].value@
    } else {
        written_value(ws.drop_first(), f)
    }
}

/// The first value stored for `(p, f)` in a list of `(project, field, value)`.
pub open spec fn view_value(vv: Seq<(u128, u128, Seq<char>)>, p: u128, f: u128) -> Seq<char>
    decreases vv.len(),
{
    if vv.len() == 0 {
        Seq::empty()
    } else if vv[0].0 == p && vv[0].1 == f {
        vv[0].2
    } else {
        view_value(vv.drop_first(), p, f)
    }
}

pub open spec fn has_entry(vv: Seq<(u128, u128, Seq<char>)>, p: u128, f: u128) -> bool {
    exists|i: int| 0 <= i < vv.len() && #[trigger] vv[i].0 == p && vv[i].1 == f
}

proof fn lemma_value_for_view(vs: Seq<FieldValue>, p: u128, f: u128)
    ensures
        value_for(vs, p, f) == view_value(values_view(vs), p, f),
    decreases vs.len(),
{
    if vs.len() > 0 {
        assert(values_view(vs).drop_first() =~= values_view(vs.drop_first()));
        lemma_value_for_view(vs.drop_first(), p, f);
    }
}

proof fn lemma_view_value_concat(x: Seq<(u128, u128, Seq<char>)>, y: Seq<(u128, u128, Seq<char>)>, p: u128, f: u128)
    ensures
        view_value(x + y, p, f) == if has_entry(x, p, f) {
            view_value(x, p, f)
        } else {
            view_value(y, p, f)
        },
        has_entry(x + y, p, f) == (has_entry(x, p, f) || has_entry(y, p, f)),
    decreases x.len(),
{
    if x.len() == 0 {
        assert(x + y =~= y);
    } else {
        assert((x + y).drop_first() =~= x.drop_first() + y);
        lemma_view_value_concat(x.drop_first(), y, p, f);
        if x[0].0 == p && x[0].1 == f {
            assert(has_entry(x, p, f));
            assert((x + y)[0] == x[0]);
        } else {
            assert(has_entry(x, p, f) == has_entry(x.drop_first(), p, f)) by {
                if has_entry(x, p, f) {
                    let i = choose|i: int| 0 <= i < x.len() && #[trigger] x[i].0 == p && x[i].1 == f;
                    assert(x.drop_first()[i - 1] == x[i]);
                }
                if has_entry(x.drop_first(), p, f) {
                    let i = choose|i: int| 0 <= i < x.drop_first().len() && #[trigger] x.drop_first()[i].0 == p
                        && x.drop_first()[i].1 == f;
                    assert(x[i + 1] == x.drop_first()[i]);
                }
            }
        }
        assert(has_entry(x + y, p, f) == (has_entry(x, p, f) || has_entry(y, p, f))) by {
            if has_entry(x + y, p, f) {
                let i = choose|i: int| 0 <= i < (x + y).len() && #[trigger] (x + y)[i].0 == p && (x + y)[i].1 == f;
                if i < x.len() {
                    assert(x[i] == (x + y)[i]);
                } else {
                    assert(y[i - x.len()] == (x + y)[i]);
                }
            }
            if has_entry(x, p, f) {
                let i = choose|i: int| 0 <= i < x.len() && #[trigger] x[i].0 == p && x[i].1 == f;
                assert((x + y)[i] == x[i]);
            }
            if has_entry(y, p, f) {
                let i = choose|i: int| 0 <= i < y.len() && #[trigger] y[i].0 == p && y[i].1 == f;
                assert((x + y)[x.len() + i] == y[i]);
            }
        }
    }
}

proof fn lemma_view_value_push(x: Seq<(u128, u128, Seq<char>)>, e: (u128, u128, Seq<char>), p: u128, f: u128)
    ensures
        view_value(x.push(e), p, f) == if has_entry(x, p, f) {
            view_value(x, p, f)
        } else if e.0 == p && e.1 == f {
            e.2
        } else {
            Seq::<char>::empty()
        },
        has_entry(x.push(e), p, f) == (has_entry(x, p, f) || (e.0 == p && e.1 == f)),
{
    assert(x.push(e) =~= x + seq![e]);
    lemma_view_value_concat(x, seq![e], p, f);
    assert(seq![e].drop_first() =~= Seq::<(u128, u128, Seq<char>)>::empty());
    assert(seq![e][0] == e);
    assert(view_value(seq![e].drop_first(), p, f) == Seq::<char>::empty());
    assert(has_entry(seq![e], p, f) == (e.0 == p && e.1 == f)) by {
        if has_entry(seq![e], p, f) {
            let i = choose|i: int| 0 <= i < 1 && #[trigger] seq![e][i].0 == p && seq![e][i].1 == f;
        }
        if e.0 == p && e.1 == f {
            assert(seq![e][0] == e);
        }
    }
}

/// Taking out the values of project `p` leaves every other project's
/// lookups as they were, and leaves no value of `p`.
proof fn lemma_values_not_of(vs: Seq<FieldValue>, p: u128, q: u128, f: u128)
    ensures
        q != p ==> view_value(values_view(values_not_of(vs, p)), q, f) == view_value(values_view(vs), q, f),
        q != p ==> has_entry(values_view(values_not_of(vs, p)), q, f) == has_entry(values_view(vs), q, f),
        !has_entry(values_view(values_not_of(vs, p)), p, f),
    decreases vs.len(),
{
    if vs.len() == 0 {
        assert(values_view(values_not_of(vs, p)) =~= Seq::<(u128, u128, Seq<char>)>::empty());
    } else {
        let x = vs.last();
        let e = (x.project_id, x.field_id, x.value@);
        lemma_values_not_of(vs.drop_last(), p, q, f);
        lemma_view_value_empty(values_view(vs.drop_last()), q, f);
        lemma_view_value_empty(values_view(values_not_of(vs.drop_last(), p)), q, f);
        assert(values_view(vs) =~= values_view(vs.drop_last()).push(e));
        lemma_view_value_push(values_view(vs.drop_last()), e, q, f);
        lemma_view_value_push(values_view(vs.drop_last()), e, p, f);
        if x.project_id != p {
            assert(values_view(values_not_of(vs, p)) =~= values_view(values_not_of(vs.drop_last(), p)).push(e));
            lemma_view_value_push(values_view(values_not_of(vs.drop_last(), p)), e, q, f);
            lemma_view_value_push(values_view(values_not_of(vs.drop_last(), p)), e, p, f);
        }
    }
}

proof fn lemma_written_value(p: u128, ws: Seq<FieldValueWrite>, f: u128)
    ensures
        view_value(written_values(p, ws), p, f) == written_value(ws, f),
        forall|i: int| 0 <= i < written_values(p, ws).len() ==> (#[trigger] written_values(p, ws)[i]).0 == p,
    decreases ws.len(),
{
    if ws.len() > 0 {
        assert(written_values(p, ws).drop_first() =~= written_values(p, ws.drop_first()));
        lemma_written_value(p, ws.drop_first(), f);
    }
}

/// Reading back what was written: after a data replace that stored the
/// write `ws` for project `p` (as `ProjectDataService::replace` states), the
/// value read for field `f` of `p` is the first written value of `f` (empty
/// when none was written), and every other project reads what it read before.
pub proof fn law_replace_then_read(
    before: Seq<FieldValue>,
    after: Seq<FieldValue>,
    p: u128,
    ws: Seq<FieldValueWrite>,
    q: u128,
    f: u128,
)
    requires
        values_view(after) == values_view(values_not_of(before, p)) + written_values(p, ws),
    ensures
        value_for(after, p, f) == written_value(ws, f),
        q != p ==> value_for(after, q, f) == value_for(before, q, f),
{
    lemma_value_for_view(after, p, f);
    lemma_value_for_view(after, q, f);
    lemma_value_for_view(before, q, f);
    lemma_values_not_of(before, p, q, f);
    lemma_written_value(p, ws, f);
    lemma_view_value_concat(values_view(values_not_of(before, p)), written_values(p, ws), p, f);
    lemma_view_value_concat(values_view(values_not_of(before, p)), written_values(p, ws), q, f);
    if q != p {
        assert(!has_entry(written_values(p, ws), q, f)) by {
            if has_entry(written_values(p, ws), q, f) {
                let i = choose|i: int| 0 <= i < written_values(p, ws).len() && #[trigger] written_values(p, ws)[i].0 == q
                    && written_values(p, ws)[i].1 == f;
            }
        }
        lemma_view_value_empty(written_values(p, ws), q, f);
        lemma_view_value_empty(values_view(before), q, f);
    }
}

proof fn lemma_view_value_empty(vv: Seq<(u128, u128, Seq<char>)>, p: u128, f: u128)
    ensures
        !has_entry(vv, p, f) ==> view_value(vv, p, f) == Seq::<char>::empty(),
    decreases vv.len(),
{
    if vv.len() > 0 && !has_entry(vv, p, f) {
        assert(!(vv[0].0 == p && vv[0].1 == f));
        assert(!has_entry(vv.drop_first(), p, f)) by {
            if has_entry(vv.drop_first(), p, f) {
                let i = choose|i: int| 0 <= i < vv.drop_first().len() && #[trigger] vv.drop_first()[i].0 == p
                    && vv.drop_first()[i].1 == f;
                assert(vv[i + 1] == vv.drop_first()[i]);
            }
        }
        lemma_view_value_empty(vv.drop_first(), p, f);
    }
}

proof fn lemma_empty_ms<T>(s: Seq<T>)
    requires
        s.len() == 0,
    ensures
        s.to_multiset() == Multiset::<T>::empty(),
{
    vstd::seq_lib::to_multiset_len(s);
    vstd::multiset::lemma_multiset_empty_len(s.to_multiset());
}

/// The nodes whose id is in `ids`, in node order.
pub open spec fn nodes_with_ids(nodes: Seq<TemplateNode>, ids: Set<u128>) -> Seq<TemplateNode>
    decreases nodes.len(),
{
    if nodes.len() == 0 {
        Seq::empty()
    } else if ids.contains(nodes.last().id) {
        nodes_with_ids(nodes.drop_last(), ids).push(nodes.last())
    } else {
        nodes_with_ids(nodes.drop_last(), ids)
    }
}

/// No two nodes share an id.
pub open spec fn unique_ids(nodes: Seq<TemplateNode>) -> bool {
    forall|i: int, j: int| 0 <= i < j < nodes.len() ==> nodes[i].id != nodes[j].id
}

proof fn lemma_with_ids_union(nodes: Seq<TemplateNode>, a: Set<u128>, b: Set<u128>)
    requires
        a.disjoint(b),
    ensures
        nodes_with_ids(nodes, a.union(b)).to_multiset() == nodes_with_ids(nodes, a).to_multiset().add(
            nodes_with_ids(nodes, b).to_multiset(),
        ),
    decreases nodes.len(),
{
    broadcast use vstd::seq_lib::to_multiset_build;
    broadcast use vstd::multiset::group_multiset_axioms;

    if nodes.len() == 0 {
        lemma_empty_ms(nodes_with_ids(nodes, a));
        lemma_empty_ms(nodes_with_ids(nodes, b));
        lemma_empty_ms(nodes_with_ids(nodes, a.union(b)));
    } else {
        lemma_with_ids_union(nodes.drop_last(), a, b);
        let x = nodes.last();
        let ra = nodes_with_ids(nodes.drop_last(), a).to_multiset();
        let rb = nodes_with_ids(nodes.drop_last(), b).to_multiset();
        if a.contains(x.id) {
            assert(!b.contains(x.id));
            assert(ra.insert(x).add(rb) =~= ra.add(rb).insert(x));
        } else if b.contains(x.id) {
            assert(ra.add(rb.insert(x)) =~= ra.add(rb).insert(x));
        }
    }
}

proof fn lemma_with_ids_absent(nodes: Seq<TemplateNode>, x: u128)
    requires
        forall|i: int| 0 <= i < nodes.len() ==> (#[trigger] nodes[i]).id != x,
    ensures
        nodes_with_ids(nodes, set![x]) == Seq::<TemplateNode>::empty(),
    decreases nodes.len(),
{
    if nodes.len() > 0 {
        assert(nodes.last() == nodes[nodes.len() - 1]);
        lemma_with_ids_absent(nodes.drop_last(), x);
    }
}

proof fn lemma_with_ids_single(nodes: Seq<TemplateNode>, x: u128)
    requires
        unique_ids(nodes),
    ensures
        nodes_with_ids(nodes, set![x]) == match node_of(nodes, x) {
            Some(n) => seq![n],
            None => Seq::<TemplateNode>::empty(),
        },
    decreases nodes.len(),
{
    if nodes.len() > 0 {
        if nodes.last().id == x {
            assert forall|i: int| 0 <= i < nodes.drop_last().len() implies (#[trigger] nodes.drop_last()[i]).id != x by {
                assert(nodes.drop_last()[i] == nodes[i]);
                assert(nodes.last() == nodes[nodes.len() - 1]);
            }
            lemma_with_ids_absent(nodes.drop_last(), x);
            assert(Seq::<TemplateNode>::empty().push(nodes.last()) =~= seq![nodes.last()]);
        } else {
            assert(unique_ids(nodes.drop_last())) by {
                assert forall|i: int, j: int| 0 <= i < j < nodes.drop_last().len() implies nodes.drop_last()[i].id
                    != nodes.drop_last()[j].id by {
                    assert(nodes.drop_last()[i] == nodes[i] && nodes.drop_last()[j] == nodes[j]);
                }
            }
            lemma_with_ids_single(nodes.drop_last(), x);
        }
    } else {
        assert(nodes_with_ids(nodes, set![x]) =~= Seq::<TemplateNode>::empty());
    }
}

proof fn lemma_with_ids_empty(nodes: Seq<TemplateNode>, s: Set<u128>)
    requires
        s =~= Set::<u128>::empty(),
    ensures
        nodes_with_ids(nodes, s) == Seq::<TemplateNode>::empty(),
    decreases nodes.len(),
{
    if nodes.len() > 0 {
        lemma_with_ids_empty(nodes.drop_last(), s);
    }
}

proof fn lemma_with_ids_ext(nodes: Seq<TemplateNode>, a: Set<u128>, b: Set<u128>)
    requires
        a =~= b,
    ensures
        nodes_with_ids(nodes, a) == nodes_with_ids(nodes, b),
{
    assert(a == b);
}

proof fn lemma_visit_perm(
    nodes: Seq<TemplateNode>,
    edges: Seq<TemplateEdge>,
    fuel: nat,
    id: u128,
    seen: Set<u128>,
)
    requires
        unique_ids(nodes),
    ensures
        seen.subset_of(visit(nodes, edges, fuel, id, seen).1),
        visit(nodes, edges, fuel, id, seen).0.to_multiset() == nodes_with_ids(
            nodes,
            visit(nodes, edges, fuel, id, seen).1.difference(seen),
        ).to_multiset(),
    decreases fuel, 0nat,
{
    let r = visit(nodes, edges, fuel, id, seen);
    if fuel == 0 || seen.contains(id) {
        lemma_with_ids_empty(nodes, r.1.difference(seen));
    } else {
        let s1 = seen.insert(id);
        let ks = kids(nodes, edges, id);
        lemma_visit_list_perm(nodes, edges, (fuel - 1) as nat, ks, s1);
        let w = visit_list(nodes, edges, (fuel - 1) as nat, ks, s1);
        let head = match node_of(nodes, id) {
            Some(n) => seq![n],
            None => Seq::<TemplateNode>::empty(),
        };
        assert(r.0 == head + w.0);
        assert(r.1 == w.1);
        lemma_with_ids_single(nodes, id);
        assert(set![id].disjoint(w.1.difference(s1)));
        lemma_with_ids_union(nodes, set![id], w.1.difference(s1));
        lemma_with_ids_ext(nodes, set![id].union(w.1.difference(s1)), w.1.difference(seen));
        vstd::seq_lib::lemma_multiset_commutative(head, w.0);
    }
}

proof fn lemma_visit_list_perm(
    nodes: Seq<TemplateNode>,
    edges: Seq<TemplateEdge>,
    fuel: nat,
    list: Seq<u128>,
    seen: Set<u128>,
)
    requires
        unique_ids(nodes),
    ensures
        seen.subset_of(visit_list(nodes, edges, fuel, list, seen).1),
        visit_list(nodes, edges, fuel, list, seen).0.to_multiset() == nodes_with_ids(
            nodes,
            visit_list(nodes, edges, fuel, list, seen).1.difference(seen),
        ).to_multiset(),
    decreases fuel, list.len() + 1,
{
    let r = visit_list(nodes, edges, fuel, list, seen);
    if list.len() == 0 {
        lemma_with_ids_empty(nodes, r.1.difference(seen));
        lemma_empty_ms(r.0);
    } else {
        lemma_visit_perm(nodes, edges, fuel, list[0], seen);
        let a = visit(nodes, edges, fuel, list[0], seen);
        lemma_visit_list_perm(nodes, edges, fuel, list.drop_first(), a.1);
        let b = visit_list(nodes, edges, fuel, list.drop_first(), a.1);
        assert(r.0 == a.0 + b.0);
        assert(r.1 == b.1);
        assert(a.1.difference(seen).disjoint(b.1.difference(a.1)));
        lemma_with_ids_union(nodes, a.1.difference(seen), b.1.difference(a.1));
        lemma_with_ids_ext(nodes, a.1.difference(seen).union(b.1.difference(a.1)), b.1.difference(seen));
        vstd::seq_lib::lemma_multiset_commutative(a.0, b.0);
    }
}

proof fn lemma_with_and_without(nodes: Seq<TemplateNode>, s: Set<u128>)
    ensures
        nodes_with_ids(nodes, s).to_multiset().add(unseen_nodes(nodes, s).to_multiset()) == nodes.to_multiset(),
    decreases nodes.len(),
{
    broadcast use vstd::seq_lib::to_multiset_build;
    broadcast use vstd::multiset::group_multiset_axioms;

    if nodes.len() == 0 {
        lemma_empty_ms(nodes_with_ids(nodes, s));
        lemma_empty_ms(unseen_nodes(nodes, s));
        lemma_empty_ms(nodes);
    } else {
        lemma_with_and_without(nodes.drop_last(), s);
        let x = nodes.last();
        assert(nodes.drop_last().push(x) =~= nodes);
        let a = nodes_with_ids(nodes.drop_last(), s).to_multiset();
        let b = unseen_nodes(nodes.drop_last(), s).to_multiset();
        if s.contains(x.id) {
            assert(a.insert(x).add(b) =~= a.add(b).insert(x));
        } else {
            assert(a.add(b.insert(x)) =~= a.add(b).insert(x));
        }
    }
}

/// Document order takes every node of a template exactly once: when no two
/// nodes share an id, the document order is a rearrangement of the nodes,
/// whatever the edges (cycles and non-`contains` edges included).
pub proof fn law_document_order_is_permutation(nodes: Seq<TemplateNode>, edges: Seq<TemplateEdge>)
    requires
        unique_ids(nodes),
    ensures
        ordered_spec(nodes, edges).to_multiset() == nodes.to_multiset(),
{
    let fuel = (universe(nodes, edges).len() + 1) as nat;
    let walk = visit_list(nodes, edges, fuel, roots(nodes, edges), Set::empty());
    lemma_visit_list_perm(nodes, edges, fuel, roots(nodes, edges), Set::empty());
    lemma_with_ids_ext(nodes, walk.1.difference(Set::empty()), walk.1);
    let rest = unseen_nodes(nodes, walk.1);
    lemma_isort_perm(rest, |a: TemplateNode, b: TemplateNode| node_le(a, b));
    vstd::seq_lib::lemma_multiset_commutative(
        walk.0,
        isort(rest, |a: TemplateNode, b: TemplateNode| node_le(a, b)),
    );
    lemma_with_and_without(nodes, walk.1);
}


/// No edge is a `contains` edge.
pub open spec fn no_contains(edges: Seq<TemplateEdge>) -> bool {
    forall|i: int| 0 <= i < edges.len() ==> !is_contains(#[trigger] edges[i])
}

proof fn lemma_no_contains_drop_last(edges: Seq<TemplateEdge>)
    requires
        edges.len() > 0,
        no_contains(edges),
    ensures
        no_contains(edges.drop_last()),
        !is_contains(edges.last()),
{
    assert(edges.last() == edges[edges.len() - 1]);
    assert forall|i: int| 0 <= i < edges.drop_last().len() implies !is_contains(#[trigger] edges.drop_last()[i]) by {
        assert(edges.drop_last()[i] == edges[i]);
    }
}

proof fn lemma_no_children(edges: Seq<TemplateEdge>, p: u128)
    requires
        no_contains(edges),
    ensures
        contains_children(edges, p) == Seq::<u128>::empty(),
    decreases edges.len(),
{
    if edges.len() > 0 {
        lemma_no_contains_drop_last(edges);
        lemma_no_children(edges.drop_last(), p);
    }
}

proof fn lemma_all_roots(nodes: Seq<TemplateNode>, edges: Seq<TemplateEdge>)
    requires
        no_contains(edges),
    ensures
        root_candidates(nodes, edges) == nodes.map_values(|n: TemplateNode| n.id),
    decreases nodes.len(),
{
    if nodes.len() > 0 {
        lemma_all_roots(nodes.drop_last(), edges);
        assert(!has_parent(edges, nodes.last().id)) by {
            if has_parent(edges, nodes.last().id) {
                let i = choose|i: int|
                    0 <= i < edges.len() && is_contains(edges[i]) && #[trigger] edges[i].target_node_id
                        == nodes.last().id;
                assert(!is_contains(edges[i]));
            }
        }
        assert(nodes.map_values(|n: TemplateNode| n.id) =~= nodes.drop_last().map_values(
            |n: TemplateNode| n.id,
        ).push(nodes.last().id));
    } else {
        assert(nodes.map_values(|n: TemplateNode| n.id) =~= Seq::<u128>::empty());
    }
}

proof fn lemma_unique_drop_last(nodes: Seq<TemplateNode>)
    requires
        nodes.len() > 0,
        unique_ids(nodes),
    ensures
        unique_ids(nodes.drop_last()),
{
    assert forall|i: int, j: int| 0 <= i < j < nodes.drop_last().len() implies nodes.drop_last()[i].id
        != nodes.drop_last()[j].id by {
        assert(nodes.drop_last()[i] == nodes[i] && nodes.drop_last()[j] == nodes[j]);
    }
}

proof fn lemma_unique_drop_first(nodes: Seq<TemplateNode>)
    requires
        nodes.len() > 0,
        unique_ids(nodes),
    ensures
        unique_ids(nodes.drop_first()),
        forall|k: int| 0 <= k < nodes.drop_first().len() ==> (#[trigger] nodes.drop_first()[k]).id != nodes[0].id,
{
    assert forall|i: int, j: int| 0 <= i < j < nodes.drop_first().len() implies nodes.drop_first()[i].id
        != nodes.drop_first()[j].id by {
        assert(nodes.drop_first()[i] == nodes[i + 1] && nodes.drop_first()[j] == nodes[j + 1]);
    }
    assert forall|k: int| 0 <= k < nodes.drop_first().len() implies (#[trigger] nodes.drop_first()[k]).id
        != nodes[0].id by {
        assert(nodes.drop_first()[k] == nodes[k + 1]);
    }
}

/// With unique ids, a node's id finds that node.
proof fn lemma_node_of_member(nodes: Seq<TemplateNode>, i: int)
    requires
        unique_ids(nodes),
        0 <= i < nodes.len(),
    ensures
        node_of(nodes, nodes[i].id) == Some(nodes[i]),
    decreases nodes.len(),
{
    assert(nodes.last() == nodes[nodes.len() - 1]);
    if i < nodes.len() - 1 {
        lemma_unique_drop_last(nodes);
        lemma_node_of_member(nodes.drop_last(), i);
        assert(nodes.drop_last()[i] == nodes[i]);
    }
}

/// Inserting by id order mirrors inserting by node order, when the two
/// orders agree on the inserted node.
proof fn lemma_insert_sorted_ids(nodes: Seq<TemplateNode>, r: Seq<TemplateNode>, x: TemplateNode)
    requires
        forall|k: int| 0 <= k < r.len() ==> id_le(nodes, (#[trigger] r[k]).id, x.id) == node_le(r[k], x),
    ensures
        insert_sorted(r.map_values(|n: TemplateNode| n.id), x.id, |a: u128, b: u128| id_le(nodes, a, b))
            == insert_sorted(r, x, |a: TemplateNode, b: TemplateNode| node_le(a, b)).map_values(
            |n: TemplateNode| n.id,
        ),
    decreases r.len(),
{
    let rm = r.map_values(|n: TemplateNode| n.id);
    if r.len() == 0 {
        assert(r.push(x).map_values(|n: TemplateNode| n.id) =~= rm.push(x.id));
    } else {
        assert(r.last() == r[r.len() - 1]);
        assert(rm.last() == r.last().id);
        if node_le(r.last(), x) {
            assert(r.push(x).map_values(|n: TemplateNode| n.id) =~= rm.push(x.id));
        } else {
            assert(rm.drop_last() =~= r.drop_last().map_values(|n: TemplateNode| n.id));
            assert forall|k: int| 0 <= k < r.drop_last().len() implies id_le(
                nodes,
                (#[trigger] r.drop_last()[k]).id,
                x.id,
            ) == node_le(r.drop_last()[k], x) by {
                assert(r.drop_last()[k] == r[k]);
            }
            lemma_insert_sorted_ids(nodes, r.drop_last(), x);
            let ins = insert_sorted(r.drop_last(), x, |a: TemplateNode, b: TemplateNode| node_le(a, b));
            assert(ins.map_values(|n: TemplateNode| n.id).push(r.last().id) =~= ins.push(r.last()).map_values(
                |n: TemplateNode| n.id,
            ));
        }
    }
}

/// Sorting ids by id order mirrors sorting the nodes, when the two orders agree.
proof fn lemma_isort_ids(nodes: Seq<TemplateNode>, s: Seq<TemplateNode>)
    requires
        forall|i: int, j: int|
            #![trigger s[i], s[j]]
            0 <= i < s.len() && 0 <= j < s.len() ==> id_le(nodes, s[i].id, s[j].id) == node_le(s[i], s[j]),
    ensures
        isort(s.map_values(|n: TemplateNode| n.id), |a: u128, b: u128| id_le(nodes, a, b)) == isort(
            s,
            |a: TemplateNode, b: TemplateNode| node_le(a, b),
        ).map_values(|n: TemplateNode| n.id),
    decreases s.len(),
{
    if s.len() == 0 {
        assert(s.map_values(|n: TemplateNode| n.id) =~= Seq::<u128>::empty());
        assert(s =~= Seq::<TemplateNode>::empty());
        assert(Seq::<TemplateNode>::empty().map_values(|n: TemplateNode| n.id) =~= Seq::<u128>::empty());
    } else {
        let sd = s.drop_last();
        assert forall|i: int, j: int|
            #![trigger sd[i], sd[j]]
            0 <= i < sd.len() && 0 <= j < sd.len() implies id_le(nodes, sd[i].id, sd[j].id) == node_le(
                sd[i],
                sd[j],
            ) by {
            assert(sd[i] == s[i] && sd[j] == s[j]);
        }
        lemma_isort_ids(nodes, sd);
        let sm = s.map_values(|n: TemplateNode| n.id);
        assert(sm.drop_last() =~= sd.map_values(|n: TemplateNode| n.id));
        assert(s.last() == s[s.len() - 1]);
        assert(sm.last() == s.last().id);
        let r = isort(sd, |a: TemplateNode, b: TemplateNode| node_le(a, b));
        assert forall|k: int| 0 <= k < r.len() implies id_le(nodes, (#[trigger] r[k]).id, s.last().id)
            == node_le(r[k], s.last()) by {
            assert(r.contains(r[k]));
            lemma_isort_contains(sd, |a: TemplateNode, b: TemplateNode| node_le(a, b), r[k]);
            let w = choose|w: int| 0 <= w < sd.len() && sd[w] == r[k];
            assert(sd[w] == s[w]);
        }
        lemma_insert_sorted_ids(nodes, r, s.last());
    }
}

/// With no `contains` edge, walking from a list of distinct, unseen ids, each
/// naming its node, gives back those nodes in list order and sees each id.
proof fn lemma_flat_walk(
    nodes: Seq<TemplateNode>,
    edges: Seq<TemplateEdge>,
    fuel: nat,
    l: Seq<TemplateNode>,
    seen: Set<u128>,
)
    requires
        fuel > 0,
        no_contains(edges),
        unique_ids(l),
        forall|k: int| 0 <= k < l.len() ==> !seen.contains((#[trigger] l[k]).id),
        forall|k: int| 0 <= k < l.len() ==> node_of(nodes, (#[trigger] l[k]).id) == Some(l[k]),
    ensures
        visit_list(nodes, edges, fuel, l.map_values(|n: TemplateNode| n.id), seen).0 == l,
        seen.subset_of(visit_list(nodes, edges, fuel, l.map_values(|n: TemplateNode| n.id), seen).1),
        forall|k: int|
            0 <= k < l.len() ==> visit_list(nodes, edges, fuel, l.map_values(|n: TemplateNode| n.id), seen).1.contains(
                (#[trigger] l[k]).id,
            ),
    decreases l.len(),
{
    let ids = l.map_values(|n: TemplateNode| n.id);
    if l.len() == 0 {
        assert(ids =~= Seq::<u128>::empty());
        assert(l =~= Seq::<TemplateNode>::empty());
    } else {
        let id0 = l[0].id;
        assert(ids[0] == id0);
        lemma_no_children(edges, id0);
        assert(kids(nodes, edges, id0) =~= Seq::<u128>::empty());
        let s1 = seen.insert(id0);
        assert(visit_list(nodes, edges, (fuel - 1) as nat, kids(nodes, edges, id0), s1) == (
        Seq::<TemplateNode>::empty(), s1));
        let a = visit(nodes, edges, fuel, id0, seen);
        assert(a.0 =~= seq![l[0]]);
        assert(a.1 == s1);
        let rest = l.drop_first();
        assert(ids.drop_first() =~= rest.map_values(|n: TemplateNode| n.id));
        lemma_unique_drop_first(l);
        assert forall|k: int| 0 <= k < rest.len() implies !s1.contains((#[trigger] rest[k]).id) by {
            assert(rest[k] == l[k + 1]);
        }
        assert forall|k: int| 0 <= k < rest.len() implies node_of(nodes, (#[trigger] rest[k]).id) == Some(
            rest[k],
        ) by {
            assert(rest[k] == l[k + 1]);
        }
        lemma_flat_walk(nodes, edges, fuel, rest, s1);
        let b = visit_list(nodes, edges, fuel, rest.map_values(|n: TemplateNode| n.id), s1);
        assert(visit_list(nodes, edges, fuel, ids, seen) == (a.0 + b.0, b.1));
        assert(seq![l[0]] + rest =~= l);
        assert forall|k: int| 0 <= k < l.len() implies b.1.contains((#[trigger] l[k]).id) by {
            if k > 0 {
                assert(rest[k - 1] == l[k]);
            }
        }
    }
}

proof fn lemma_none_unseen(nodes: Seq<TemplateNode>, s: Set<u128>)
    requires
        forall|k: int| 0 <= k < nodes.len() ==> s.contains((#[trigger] nodes[k]).id),
    ensures
        unseen_nodes(nodes, s) == Seq::<TemplateNode>::empty(),
    decreases nodes.len(),
{
    if nodes.len() > 0 {
        assert(nodes.last() == nodes[nodes.len() - 1]);
        assert forall|k: int| 0 <= k < nodes.drop_last().len() implies s.contains(
            (#[trigger] nodes.drop_last()[k]).id,
        ) by {
            assert(nodes.drop_last()[k] == nodes[k]);
        }
        lemma_none_unseen(nodes.drop_last(), s);
    }
}

/// The flat order of nodes with unique ids has unique ids, holds every node,
/// and each of its ids names its node.
proof fn lemma_flat_facts(nodes: Seq<TemplateNode>)
    requires
        unique_ids(nodes),
    ensures
        unique_ids(flat_order(nodes)),
        forall|k: int|
            0 <= k < flat_order(nodes).len() ==> node_of(nodes, (#[trigger] flat_order(nodes)[k]).id) == Some(
                flat_order(nodes)[k],
            ),
        forall|k: int| 0 <= k < nodes.len() ==> flat_order(nodes).contains(#[trigger] nodes[k]),
{
    broadcast use vstd::seq_lib::to_multiset_contains;

    let flat = flat_order(nodes);
    lemma_isort_perm(nodes, |a: TemplateNode, b: TemplateNode| node_le(a, b));
    assert(nodes.no_duplicates()) by {
        assert forall|i: int, j: int| 0 <= i < nodes.len() && 0 <= j < nodes.len() && i != j implies nodes[i]
            != nodes[j] by {
            if i < j {
                assert(nodes[i].id != nodes[j].id);
            } else {
                assert(nodes[j].id != nodes[i].id);
            }
        }
    }
    nodes.lemma_multiset_has_no_duplicates();
    flat.lemma_multiset_has_no_duplicates_conv();
    assert forall|k: int| 0 <= k < flat.len() implies nodes.contains(#[trigger] flat[k]) by {
        lemma_isort_contains(nodes, |a: TemplateNode, b: TemplateNode| node_le(a, b), flat[k]);
        assert(flat.contains(flat[k]));
    }
    assert forall|i: int, j: int| 0 <= i < j < flat.len() implies flat[i].id != flat[j].id by {
        assert(nodes.contains(flat[i]) && nodes.contains(flat[j]));
        let a = choose|a: int| 0 <= a < nodes.len() && nodes[a] == flat[i];
        let b = choose|b: int| 0 <= b < nodes.len() && nodes[b] == flat[j];
        assert(flat[i] != flat[j]);
        if a < b {
            assert(nodes[a].id != nodes[b].id);
        } else if b < a {
            assert(nodes[b].id != nodes[a].id);
        }
    }
    assert forall|k: int| 0 <= k < flat.len() implies node_of(nodes, (#[trigger] flat[k]).id) == Some(flat[k]) by {
        assert(nodes.contains(flat[k]));
        let a = choose|a: int| 0 <= a < nodes.len() && nodes[a] == flat[k];
        lemma_node_of_member(nodes, a);
    }
    assert forall|k: int| 0 <= k < nodes.len() implies flat.contains(#[trigger] nodes[k]) by {
        lemma_isort_contains(nodes, |a: TemplateNode, b: TemplateNode| node_le(a, b), nodes[k]);
        assert(nodes.contains(nodes[k]));
    }
}

/// Without structure there is nothing to walk: when no edge is a `contains`
/// edge and no two nodes share an id, the document order is the flat order
/// `(sort_key, created_at, id)`.
pub proof fn law_document_order_flat_without_contains(nodes: Seq<TemplateNode>, edges: Seq<TemplateEdge>)
    requires
        unique_ids(nodes),
        no_contains(edges),
    ensures
        ordered_spec(nodes, edges) == flat_order(nodes),
{
    let flat = flat_order(nodes);
    lemma_all_roots(nodes, edges);
    assert forall|i: int, j: int|
        #![trigger nodes[i], nodes[j]]
        0 <= i < nodes.len() && 0 <= j < nodes.len() implies id_le(nodes, nodes[i].id, nodes[j].id) == node_le(
            nodes[i],
            nodes[j],
        ) by {
        lemma_node_of_member(nodes, i);
        lemma_node_of_member(nodes, j);
    }
    lemma_isort_ids(nodes, nodes);
    assert(roots(nodes, edges) == flat.map_values(|n: TemplateNode| n.id));
    lemma_flat_facts(nodes);
    let fuel = (universe(nodes, edges).len() + 1) as nat;
    lemma_flat_walk(nodes, edges, fuel, flat, Set::empty());
    let walk = visit_list(nodes, edges, fuel, roots(nodes, edges), Set::empty());
    assert forall|k: int| 0 <= k < nodes.len() implies walk.1.contains((#[trigger] nodes[k]).id) by {
        assert(flat.contains(nodes[k]));
        let w = choose|w: int| 0 <= w < flat.len() && flat[w] == nodes[k];
        assert(walk.1.contains(flat[w].id));
    }
    lemma_none_unseen(nodes, walk.1);
    assert(isort(Seq::<TemplateNode>::empty(), |a: TemplateNode, b: TemplateNode| node_le(a, b)) =~= Seq::<
        TemplateNode,
    >::empty());
    assert(walk.0 + Seq::<TemplateNode>::empty() =~= flat);
}


/// A `contains` edge runs from `a` to `b`.
pub open spec fn contains_edge(edges: Seq<TemplateEdge>, a: u128, b: u128) -> bool {
    exists|e: int|
        0 <= e < edges.len() && is_contains(#[trigger] edges[e]) && edges[e].source_node_id == a
            && edges[e].target_node_id == b
}

/// An id that a `contains` edge points at and that has `contains` children
/// of its own is a node: the structure never runs through a missing node.
pub open spec fn inner_ids_are_nodes(nodes: Seq<TemplateNode>, edges: Seq<TemplateEdge>) -> bool {
    forall|e: int, f: int|
        #![trigger edges[e], edges[f]]
        0 <= e < edges.len() && 0 <= f < edges.len() && is_contains(edges[e]) && is_contains(edges[f])
            && edges[e].target_node_id == edges[f].source_node_id ==> node_of(nodes, edges[e].target_node_id) is Some
}

/// `id` is the target of a `contains` edge.
pub open spec fn is_contains_target(edges: Seq<TemplateEdge>, id: u128) -> bool {
    exists|e: int| 0 <= e < edges.len() && is_contains(#[trigger] edges[e]) && edges[e].target_node_id == id
}

/// Each output position is a start (its id is in `starts`) or follows one of
/// its `contains` parents.
pub open spec fn parents_first(out: Seq<TemplateNode>, edges: Seq<TemplateEdge>, starts: Seq<u128>) -> bool {
    forall|i: int|
        0 <= i < out.len() ==> starts.contains(#[trigger] out[i].id) || exists|j: int|
            0 <= j < i && contains_edge(edges, #[trigger] out[j].id, out[i].id)
}

/// The part of the document order that the walk from the parentless nodes reaches.
pub open spec fn walk_part(nodes: Seq<TemplateNode>, edges: Seq<TemplateEdge>) -> Seq<TemplateNode> {
    visit_list(nodes, edges, universe(nodes, edges).len() + 1, roots(nodes, edges), Set::empty()).0
}

proof fn lemma_node_of_id(nodes: Seq<TemplateNode>, id: u128)
    ensures
        node_of(nodes, id) matches Some(n) ==> n.id == id,
    decreases nodes.len(),
{
    if nodes.len() > 0 && nodes.last().id != id {
        lemma_node_of_id(nodes.drop_last(), id);
    }
}

proof fn lemma_children_edge(edges: Seq<TemplateEdge>, p: u128, k: u128)
    requires
        contains_children(edges, p).contains(k),
    ensures
        contains_edge(edges, p, k),
    decreases edges.len(),
{
    let e = edges.last();
    let rest = contains_children(edges.drop_last(), p);
    if is_contains(e) && e.source_node_id == p && e.target_node_id == k {
        assert(edges[edges.len() - 1] == e);
    } else {
        if is_contains(e) && e.source_node_id == p {
            let w = choose|w: int| 0 <= w < rest.push(e.target_node_id).len() && rest.push(e.target_node_id)[w] == k;
            assert(w < rest.len());
            assert(rest[w] == k);
        }
        assert(rest.contains(k));
        lemma_children_edge(edges.drop_last(), p, k);
        let x = choose|x: int|
            0 <= x < edges.drop_last().len() && is_contains(#[trigger] edges.drop_last()[x])
                && edges.drop_last()[x].source_node_id == p && edges.drop_last()[x].target_node_id == k;
        assert(edges[x] == edges.drop_last()[x]);
    }
}

proof fn lemma_visit_parents(
    nodes: Seq<TemplateNode>,
    edges: Seq<TemplateEdge>,
    fuel: nat,
    id: u128,
    seen: Set<u128>,
)
    requires
        inner_ids_are_nodes(nodes, edges),
        node_of(nodes, id) is Some || is_contains_target(edges, id),
    ensures
        parents_first(visit(nodes, edges, fuel, id, seen).0, edges, seq![id]),
    decreases fuel, 0nat,
{
    let out = visit(nodes, edges, fuel, id, seen).0;
    if fuel == 0 || seen.contains(id) {
    } else if node_of(nodes, id) is None {
        let ch = contains_children(edges, id);
        if ch.len() > 0 {
            assert(ch.contains(ch[0]));
            lemma_children_edge(edges, id, ch[0]);
            let f = choose|f: int|
                0 <= f < edges.len() && is_contains(#[trigger] edges[f]) && edges[f].source_node_id == id
                    && edges[f].target_node_id == ch[0];
            let e = choose|e: int| 0 <= e < edges.len() && is_contains(#[trigger] edges[e]) && edges[e].target_node_id == id;
            assert(edges[e].target_node_id == edges[f].source_node_id);
        }
        assert(ch =~= Seq::<u128>::empty());
        assert(kids(nodes, edges, id) =~= Seq::<u128>::empty());
        assert(out =~= Seq::<TemplateNode>::empty());
    } else {
        let ks = kids(nodes, edges, id);
        assert forall|m: int| 0 <= m < ks.len() implies node_of(nodes, #[trigger] ks[m]) is Some
            || is_contains_target(edges, ks[m]) by {
            assert(ks.contains(ks[m]));
            lemma_isort_contains(contains_children(edges, id), |a: u128, b: u128| id_le(nodes, a, b), ks[m]);
            lemma_children_edge(edges, id, ks[m]);
        }
        let r = visit_list(nodes, edges, (fuel - 1) as nat, ks, seen.insert(id));
        lemma_visit_list_parents(nodes, edges, (fuel - 1) as nat, ks, seen.insert(id));
        let n = node_of(nodes, id)->0;
        lemma_node_of_id(nodes, id);
        assert(out == seq![n] + r.0);
        assert forall|i: int| 0 <= i < out.len() implies seq![id].contains(#[trigger] out[i].id) || exists|j: int|
            0 <= j < i && contains_edge(edges, #[trigger] out[j].id, out[i].id) by {
            if i == 0 {
                assert(seq![id][0] == id);
            } else {
                let x = r.0[i - 1];
                assert(out[i] == x);
                if ks.contains(x.id) {
                    lemma_isort_contains(contains_children(edges, id), |a: u128, b: u128| id_le(nodes, a, b), x.id);
                    lemma_children_edge(edges, id, x.id);
                    assert(out[0].id == id);
                    assert(contains_edge(edges, out[0].id, out[i].id));
                } else {
                    let j = choose|j: int| 0 <= j < i - 1 && contains_edge(edges, #[trigger] r.0[j].id, r.0[i - 1].id);
                    assert(out[j + 1] == r.0[j]);
                    assert(contains_edge(edges, out[j + 1].id, out[i].id));
                }
            }
        }
    }
}

proof fn lemma_visit_list_parents(
    nodes: Seq<TemplateNode>,
    edges: Seq<TemplateEdge>,
    fuel: nat,
    list: Seq<u128>,
    seen: Set<u128>,
)
    requires
        inner_ids_are_nodes(nodes, edges),
        forall|m: int| 0 <= m < list.len() ==> node_of(nodes, #[trigger] list[m]) is Some || is_contains_target(
            edges,
            list[m],
        ),
    ensures
        parents_first(visit_list(nodes, edges, fuel, list, seen).0, edges, list),
    decreases fuel, list.len() + 1,
{
    if list.len() > 0 {
        let a = visit(nodes, edges, fuel, list[0], seen);
        lemma_visit_parents(nodes, edges, fuel, list[0], seen);
        let rest = list.drop_first();
        assert forall|m: int| 0 <= m < rest.len() implies node_of(nodes, #[trigger] rest[m]) is Some
            || is_contains_target(edges, rest[m]) by {
            assert(rest[m] == list[m + 1]);
        }
        lemma_visit_list_parents(nodes, edges, fuel, rest, a.1);
        let b = visit_list(nodes, edges, fuel, rest, a.1);
        let out = visit_list(nodes, edges, fuel, list, seen).0;
        assert(out == a.0 + b.0);
        assert forall|i: int| 0 <= i < out.len() implies list.contains(#[trigger] out[i].id) || exists|j: int|
            0 <= j < i && contains_edge(edges, #[trigger] out[j].id, out[i].id) by {
            if i < a.0.len() {
                assert(out[i] == a.0[i]);
                if seq![list[0]].contains(a.0[i].id) {
                    assert(seq![list[0]][0] == list[0]);
                    assert(list[0] == out[i].id);
                } else {
                    let j = choose|j: int| 0 <= j < i && contains_edge(edges, #[trigger] a.0[j].id, a.0[i].id);
                    assert(out[j] == a.0[j]);
                }
            } else {
                let y = i - a.0.len();
                assert(out[i] == b.0[y]);
                if rest.contains(b.0[y].id) {
                    let w = choose|w: int| 0 <= w < rest.len() && rest[w] == b.0[y].id;
                    assert(list[w + 1] == rest[w]);
                } else {
                    let j = choose|j: int| 0 <= j < y && contains_edge(edges, #[trigger] b.0[j].id, b.0[y].id);
                    assert(out[j + a.0.len()] == b.0[j]);
                }
            }
        }
    }
}

proof fn lemma_roots_parentless(nodes: Seq<TemplateNode>, edges: Seq<TemplateEdge>, x: u128)
    requires
        root_candidates(nodes, edges).contains(x),
    ensures
        !has_parent(edges, x),
        exists|i: int| 0 <= i < nodes.len() && #[trigger] nodes[i].id == x,
    decreases nodes.len(),
{
    let rest = root_candidates(nodes.drop_last(), edges);
    if !has_parent(edges, nodes.last().id) && nodes.last().id == x {
        assert(nodes[nodes.len() - 1].id == x);
    } else {
        if !has_parent(edges, nodes.last().id) {
            let w = choose|w: int| 0 <= w < rest.push(nodes.last().id).len() && rest.push(nodes.last().id)[w] == x;
            assert(rest[w] == x);
        }
        assert(rest.contains(x));
        lemma_roots_parentless(nodes.drop_last(), edges, x);
        let i = choose|i: int| 0 <= i < nodes.drop_last().len() && #[trigger] nodes.drop_last()[i].id == x;
        assert(nodes[i] == nodes.drop_last()[i]);
    }
}

proof fn lemma_node_of_some(nodes: Seq<TemplateNode>, i: int)
    requires
        0 <= i < nodes.len(),
    ensures
        node_of(nodes, nodes[i].id) is Some,
    decreases nodes.len(),
{
    if i < nodes.len() - 1 && nodes.last().id != nodes[i].id {
        lemma_node_of_some(nodes.drop_last(), i);
        assert(nodes.drop_last()[i] == nodes[i]);
    }
}

/// Parents come first: in document order, every node that the walk reaches
/// (the part before the unreached nodes) and that has a `contains` parent
/// comes after one of its `contains` parents; the walk starts only at
/// parentless nodes. This holds whenever the structure never runs through a
/// missing node (an id with a `contains` parent and `contains` children is a
/// node), as in a well-formed document store, where every edge joins nodes.
pub proof fn law_document_order_parents_first(nodes: Seq<TemplateNode>, edges: Seq<TemplateEdge>)
    requires
        inner_ids_are_nodes(nodes, edges),
    ensures
        walk_part(nodes, edges).len() <= ordered_spec(nodes, edges).len(),
        forall|i: int|
            0 <= i < walk_part(nodes, edges).len() ==> ordered_spec(nodes, edges)[i] == walk_part(nodes, edges)[i],
        forall|i: int|
            0 <= i < walk_part(nodes, edges).len() && #[trigger] has_parent(edges, walk_part(nodes, edges)[i].id)
                ==> exists|j: int|
                0 <= j < i && contains_edge(edges, walk_part(nodes, edges)[j].id, walk_part(nodes, edges)[i].id),
{
    let fuel = (universe(nodes, edges).len() + 1) as nat;
    let rs = roots(nodes, edges);
    let cands = root_candidates(nodes, edges);
    assert forall|m: int| 0 <= m < rs.len() implies node_of(nodes, #[trigger] rs[m]) is Some by {
        assert(rs.contains(rs[m]));
        lemma_isort_contains(cands, |a: u128, b: u128| id_le(nodes, a, b), rs[m]);
        lemma_roots_parentless(nodes, edges, rs[m]);
        let i = choose|i: int| 0 <= i < nodes.len() && #[trigger] nodes[i].id == rs[m];
        lemma_node_of_some(nodes, i);
    }
    lemma_visit_list_parents(nodes, edges, fuel, rs, Set::empty());
    let w = walk_part(nodes, edges);
    assert forall|i: int| 0 <= i < w.len() && #[trigger] has_parent(edges, w[i].id) implies exists|j: int|
        0 <= j < i && contains_edge(edges, w[j].id, w[i].id) by {
        if rs.contains(w[i].id) {
            lemma_isort_contains(cands, |a: u128, b: u128| id_le(nodes, a, b), w[i].id);
            lemma_roots_parentless(nodes, edges, w[i].id);
        }
    }
}


proof fn lemma_adjacency_contains(links: Seq<Edge>, dir: Direction, allowed: Option<Seq<LinkType>>, pr: (u128, u128))
    ensures
        adjacency_spec(links, dir, allowed).contains(pr) <==> exists|i: int|
            0 <= i < links.len() && type_allowed(allowed, (#[trigger] links[i]).2) && orient(links[i], dir) == pr,
    decreases links.len(),
{
    if links.len() > 0 {
        lemma_adjacency_contains(links.drop_last(), dir, allowed, pr);
        let rest = adjacency_spec(links.drop_last(), dir, allowed);
        let l = links.last();
        assert(links[links.len() - 1] == l);
        if adjacency_spec(links, dir, allowed).contains(pr) {
            let w = choose|w: int| 0 <= w < adjacency_spec(links, dir, allowed).len()
                && adjacency_spec(links, dir, allowed)[w] == pr;
            if w < rest.len() {
                assert(rest[w] == pr);
                let i = choose|i: int|
                    0 <= i < links.drop_last().len() && type_allowed(allowed, (#[trigger] links.drop_last()[i]).2)
                        && orient(links.drop_last()[i], dir) == pr;
                assert(links[i] == links.drop_last()[i]);
            }
        }
        if exists|i: int| 0 <= i < links.len() && type_allowed(allowed, (#[trigger] links[i]).2) && orient(links[i], dir) == pr {
            let i = choose|i: int| 0 <= i < links.len() && type_allowed(allowed, (#[trigger] links[i]).2) && orient(links[i], dir) == pr;
            if i < links.len() - 1 {
                assert(links.drop_last()[i] == links[i]);
                assert(rest.contains(pr));
                let w = choose|w: int| 0 <= w < rest.len() && rest[w] == pr;
                if type_allowed(allowed, l.2) {
                    assert(rest.push(orient(l, dir))[w] == pr);
                }
            } else {
                assert(adjacency_spec(links, dir, allowed) == rest.push(pr));
                assert(rest.push(pr)[rest.len() as int] == pr);
            }
        }
    }
}

proof fn lemma_reach_within_same_steps(a: Seq<(u128, u128)>, b: Seq<(u128, u128)>, roots: Set<u128>, k: nat)
    requires
        forall|pr: (u128, u128)| a.contains(pr) <==> b.contains(pr),
    ensures
        reach_within(a, roots, k) == reach_within(b, roots, k),
    decreases k,
{
    if k > 0 {
        lemma_reach_within_same_steps(a, b, roots, (k - 1) as nat);
        let prev = reach_within(a, roots, (k - 1) as nat);
        assert forall|x: u128| #[trigger] reach_within(a, roots, k).contains(x) <==> reach_within(b, roots, k).contains(
            x,
        ) by {
            if exists|i: int| 0 <= i < a.len() && prev.contains(#[trigger] a[i].0) && a[i].1 == x {
                let i = choose|i: int| 0 <= i < a.len() && prev.contains(#[trigger] a[i].0) && a[i].1 == x;
                assert(a.contains(a[i]));
                let j = choose|j: int| 0 <= j < b.len() && b[j] == a[i];
                assert(prev.contains(b[j].0));
            }
            if exists|i: int| 0 <= i < b.len() && prev.contains(#[trigger] b[i].0) && b[i].1 == x {
                let i = choose|i: int| 0 <= i < b.len() && prev.contains(#[trigger] b[i].0) && b[i].1 == x;
                assert(b.contains(b[i]));
                let j = choose|j: int| 0 <= j < a.len() && a[j] == b[i];
                assert(prev.contains(a[j].0));
            }
        }
        assert(reach_within(a, roots, k) =~= reach_within(b, roots, k));
    }
}

/// The closure does not depend on the order of the links: links listed in
/// any other order (the same links, each as often) reach the same nodes.
pub proof fn law_closure_ignores_link_order(
    l1: Seq<Edge>,
    l2: Seq<Edge>,
    roots: Seq<u128>,
    dir: Direction,
    allowed: Option<Seq<LinkType>>,
)
    requires
        l1.to_multiset() == l2.to_multiset(),
    ensures
        closure_spec(l1, roots, dir, allowed) == closure_spec(l2, roots, dir, allowed),
{
    broadcast use vstd::seq_lib::to_multiset_contains;

    let a = adjacency_spec(l1, dir, allowed);
    let b = adjacency_spec(l2, dir, allowed);
    assert forall|pr: (u128, u128)| a.contains(pr) <==> b.contains(pr) by {
        lemma_adjacency_contains(l1, dir, allowed, pr);
        lemma_adjacency_contains(l2, dir, allowed, pr);
        if a.contains(pr) {
            let i = choose|i: int| 0 <= i < l1.len() && type_allowed(allowed, (#[trigger] l1[i]).2) && orient(l1[i], dir) == pr;
            assert(l1.contains(l1[i]));
            assert(l1.to_multiset().count(l1[i]) > 0);
            assert(l2.to_multiset().count(l1[i]) > 0);
            assert(l2.contains(l1[i]));
            let j = choose|j: int| 0 <= j < l2.len() && l2[j] == l1[i];
            assert(type_allowed(allowed, l2[j].2) && orient(l2[j], dir) == pr);
        }
        if b.contains(pr) {
            let i = choose|i: int| 0 <= i < l2.len() && type_allowed(allowed, (#[trigger] l2[i]).2) && orient(l2[i], dir) == pr;
            assert(l2.contains(l2[i]));
            assert(l2.to_multiset().count(l2[i]) > 0);
            assert(l1.to_multiset().count(l2[i]) > 0);
            assert(l1.contains(l2[i]));
            let j = choose|j: int| 0 <= j < l1.len() && l1[j] == l2[i];
            assert(type_allowed(allowed, l1[j].2) && orient(l1[j], dir) == pr);
        }
    }
    assert forall|n: u128| reachable(a, roots.to_set(), n) <==> reachable(b, roots.to_set(), n) by {
        if reachable(a, roots.to_set(), n) {
            let k = choose|k: nat| #[trigger] reach_within(a, roots.to_set(), k).contains(n);
            lemma_reach_within_same_steps(a, b, roots.to_set(), k);
        }
        if reachable(b, roots.to_set(), n) {
            let k = choose|k: nat| #[trigger] reach_within(b, roots.to_set(), k).contains(n);
            lemma_reach_within_same_steps(a, b, roots.to_set(), k);
        }
    }
    assert(closure_spec(l1, roots, dir, allowed) =~= closure_spec(l2, roots, dir, allowed));
}


proof fn lemma_natural_three(x: Seq<char>, y: Seq<char>, z: Seq<char>)
    ensures
        natural_order(y, x) == -natural_order(x, y),
        -1 <= natural_order(x, y) <= 1,
        natural_order(x, y) <= 0 && natural_order(y, z) <= 0 ==> natural_order(x, z) <= 0,
        natural_order(x, y) < 0 && natural_order(y, z) <= 0 ==> natural_order(x, z) < 0,
        natural_order(x, y) <= 0 && natural_order(y, z) < 0 ==> natural_order(x, z) < 0,
{
    lemma_natural_order_antisym(x, y);
    lemma_natural_order_antisym(y, z);
    lemma_natural_order_antisym(x, z);
    law_natural_order_preorder(x, y, z);
    law_natural_order_preorder(y, z, x);
    law_natural_order_preorder(z, x, y);
}

proof fn lemma_chars_three(x: Seq<char>, y: Seq<char>, z: Seq<char>)
    ensures
        chars_order(y, x) == -chars_order(x, y),
        -1 <= chars_order(x, y) <= 1,
        chars_order(x, y) == 0 ==> x == y,
        chars_order(x, y) <= 0 && chars_order(y, z) <= 0 ==> chars_order(x, z) <= 0,
{
    lemma_chars_order_antisym(x, y);
    lemma_chars_order_eq(x, y);
    if chars_order(x, y) <= 0 && chars_order(y, z) <= 0 {
        lemma_chars_order_trans(x, y, z);
    }
}

/// The tie-breakers order nodes totally, ties only between equal ids.
proof fn lemma_tail_order(a: TraceNode, b: TraceNode, c: TraceNode)
    ensures
        tail_order(b, a) == -tail_order(a, b),
        -1 <= tail_order(a, b) <= 1,
        tail_order(a, b) == 0 ==> a.id == b.id,
        tail_order(a, b) <= 0 && tail_order(b, c) <= 0 ==> tail_order(a, c) <= 0,
{
    lemma_natural_three(a.external_ref@, b.external_ref@, c.external_ref@);
    lemma_natural_three(b.external_ref@, c.external_ref@, a.external_ref@);
    lemma_natural_three(c.external_ref@, a.external_ref@, b.external_ref@);
    lemma_chars_three(a.external_source@, b.external_source@, c.external_source@);
    lemma_chars_three(b.external_source@, c.external_source@, a.external_source@);
    lemma_chars_three(c.external_source@, a.external_source@, b.external_source@);
    lemma_chars_three(a.external_source@, c.external_source@, b.external_source@);
    lemma_chars_three(b.external_source@, a.external_source@, c.external_source@);
    lemma_chars_three(c.external_source@, b.external_source@, a.external_source@);
}

/// The requirement order is total, ties only between equal ids.
proof fn lemma_sr_order(a: TraceNode, b: TraceNode, c: TraceNode)
    ensures
        sr_order(b, a) == -sr_order(a, b),
        sr_order(a, b) == 0 ==> a.id == b.id,
        sr_order(a, b) <= 0 && sr_order(b, c) <= 0 ==> sr_order(a, c) <= 0,
{
    lemma_tail_order(a, b, c);
    lemma_tail_order(b, c, a);
    lemma_tail_order(c, a, b);
}

/// The anchored order is total, ties only between equal ids.
proof fn lemma_anchored_order(a: TraceNode, b: TraceNode, c: TraceNode, x: int, y: int, z: int)
    ensures
        anchored_order(b, a, y, x) == -anchored_order(a, b, x, y),
        anchored_order(a, b, x, y) == 0 ==> a.id == b.id,
        anchored_order(a, b, x, y) <= 0 && anchored_order(b, c, y, z) <= 0 ==> anchored_order(a, c, x, z) <= 0,
{
    lemma_tail_order(a, b, c);
    lemma_tail_order(b, c, a);
    lemma_tail_order(c, a, b);
}


/// No two nodes share an id.
pub open spec fn unique_trace_ids(s: Seq<TraceNode>) -> bool {
    forall|i: int, j: int| 0 <= i < j < s.len() ==> s[i].id != s[j].id
}

/// The nodes at the given positions.
pub open spec fn picked(nodes: Seq<TraceNode>, idx: Seq<usize>) -> Seq<TraceNode> {
    idx.map_values(|i: usize| nodes[i as int])
}

proof fn lemma_sorted_all(s: Seq<TraceNode>, le: spec_fn(TraceNode, TraceNode) -> bool)
    requires
        forall|k: int| 0 <= k < s.len() - 1 ==> #[trigger] le(s[k], s[k + 1]),
        forall|a: TraceNode, b: TraceNode, c: TraceNode| #![trigger le(a, b), le(b, c)] le(a, b) && le(b, c) ==> le(a, c),
    ensures
        forall|i: int, j: int| 0 <= i < j < s.len() ==> #[trigger] le(s[i], s[j]),
    decreases s.len(),
{
    if s.len() > 1 {
        let d = s.drop_last();
        assert forall|k: int| 0 <= k < d.len() - 1 implies #[trigger] le(d[k], d[k + 1]) by {
            assert(d[k] == s[k] && d[k + 1] == s[k + 1]);
        }
        lemma_sorted_all(d, le);
        assert forall|i: int, j: int| 0 <= i < j < s.len() implies #[trigger] le(s[i], s[j]) by {
            if j < s.len() - 1 {
                assert(d[i] == s[i] && d[j] == s[j]);
            } else {
                let k = j - 1;
                assert(le(s[k], s[k + 1]));
                assert(s[k + 1] == s[j]);
                if i < k {
                    assert(d[i] == s[i] && d[k] == s[k]);
                    assert(le(d[i], d[k]));
                }
            }
        }
    }
}

/// Two sequences holding the same nodes, each with distinct ids, both sorted
/// by a transitive order whose ties have equal ids, are equal.
proof fn lemma_sorted_unique(s: Seq<TraceNode>, t: Seq<TraceNode>, le: spec_fn(TraceNode, TraceNode) -> bool)
    requires
        forall|x: TraceNode| s.contains(x) <==> t.contains(x),
        unique_trace_ids(s),
        unique_trace_ids(t),
        forall|k: int| 0 <= k < s.len() - 1 ==> #[trigger] le(s[k], s[k + 1]),
        forall|k: int| 0 <= k < t.len() - 1 ==> #[trigger] le(t[k], t[k + 1]),
        forall|a: TraceNode, b: TraceNode, c: TraceNode| #![trigger le(a, b), le(b, c)] le(a, b) && le(b, c) ==> le(a, c),
        forall|a: TraceNode, b: TraceNode| #![trigger le(a, b), le(b, a)] le(a, b) && le(b, a) ==> a.id == b.id,
    ensures
        s == t,
    decreases s.len(),
{
    if s.len() == 0 {
        if t.len() > 0 {
            assert(t.contains(t[0]));
        }
        assert(s =~= t);
    } else if t.len() == 0 {
        assert(s.contains(s[0]));
    } else {
        lemma_sorted_all(s, le);
        lemma_sorted_all(t, le);
        assert(t.contains(t[0]));
        let k = choose|k: int| 0 <= k < s.len() && s[k] == t[0];
        assert(s.contains(s[0]));
        let m = choose|m: int| 0 <= m < t.len() && t[m] == s[0];
        if k != 0 {
            assert(le(s[0], s[k]));
            if m != 0 {
                assert(le(t[0], t[m]));
            }
            assert(s[0].id == s[k].id);
        }
        assert(t[0] == s[0]);
        let s2 = s.drop_first();
        let t2 = t.drop_first();
        assert forall|x: TraceNode| s2.contains(x) <==> t2.contains(x) by {
            if s2.contains(x) {
                let w = choose|w: int| 0 <= w < s2.len() && s2[w] == x;
                assert(s[w + 1] == x);
                assert(s.contains(x));
                let v = choose|v: int| 0 <= v < t.len() && t[v] == x;
                assert(v != 0);
                assert(t2[v - 1] == x);
            }
            if t2.contains(x) {
                let w = choose|w: int| 0 <= w < t2.len() && t2[w] == x;
                assert(t[w + 1] == x);
                assert(t.contains(x));
                let v = choose|v: int| 0 <= v < s.len() && s[v] == x;
                assert(v != 0);
                assert(s2[v - 1] == x);
            }
        }
        assert forall|k2: int| 0 <= k2 < s2.len() - 1 implies #[trigger] le(s2[k2], s2[k2 + 1]) by {
            assert(s2[k2] == s[k2 + 1] && s2[k2 + 1] == s[k2 + 2]);
        }
        assert forall|k2: int| 0 <= k2 < t2.len() - 1 implies #[trigger] le(t2[k2], t2[k2 + 1]) by {
            assert(t2[k2] == t[k2 + 1] && t2[k2 + 1] == t[k2 + 2]);
        }
        assert(unique_trace_ids(s2)) by {
            assert forall|i: int, j: int| 0 <= i < j < s2.len() implies s2[i].id != s2[j].id by {
                assert(s2[i] == s[i + 1] && s2[j] == s[j + 1]);
            }
        }
        assert(unique_trace_ids(t2)) by {
            assert forall|i: int, j: int| 0 <= i < j < t2.len() implies t2[i].id != t2[j].id by {
                assert(t2[i] == t[i + 1] && t2[j] == t[j + 1]);
            }
        }
        lemma_sorted_unique(s2, t2, le);
        assert(s =~= seq![s[0]] + s2);
        assert(t =~= seq![t[0]] + t2);
    }
}

proof fn lemma_indices_of_kind(nodes: Seq<TraceNode>, k: TraceNodeKind, n: int)
    requires
        0 <= n <= nodes.len(),
        nodes.len() <= usize::MAX,
    ensures
        forall|x: usize| #[trigger] indices_of_kind(nodes, k, n).contains(x) <==> (x < n && nodes[x as int].kind == k),
        indices_of_kind(nodes, k, n).no_duplicates(),
    decreases n,
{
    if n > 0 {
        lemma_indices_of_kind(nodes, k, n - 1);
        let rest = indices_of_kind(nodes, k, n - 1);
        if nodes[n - 1].kind == k {
            let s = rest.push((n - 1) as usize);
            assert forall|x: usize| #[trigger] s.contains(x) <==> (x < n && nodes[x as int].kind == k) by {
                assert(s[rest.len() as int] == (n - 1) as usize);
                if x == n - 1 {
                    assert(s[rest.len() as int] == x);
                } else if s.contains(x) {
                    let w = choose|w: int| 0 <= w < s.len() && s[w] == x;
                    assert(w < rest.len());
                    assert(rest[w] == x);
                    assert(rest.contains(x));
                } else if x < n && nodes[x as int].kind == k {
                    assert(rest.contains(x));
                    let w = choose|w: int| 0 <= w < rest.len() && rest[w] == x;
                    assert(s[w] == x);
                }
            }
            assert forall|i: int, j: int| 0 <= i < s.len() && 0 <= j < s.len() && i != j implies s[i] != s[j] by {
                assert(s[rest.len() as int] == (n - 1) as usize);
                if i < rest.len() && j < rest.len() {
                    assert(s[i] == rest[i] && s[j] == rest[j]);
                } else if i < rest.len() {
                    assert(s[i] == rest[i]);
                    assert(rest.contains(rest[i]));
                    assert(rest[i] < n - 1);
                } else {
                    assert(s[j] == rest[j]);
                    assert(rest.contains(rest[j]));
                    assert(rest[j] < n - 1);
                }
            }
        }
    } else {
        assert forall|x: usize| #[trigger] indices_of_kind(nodes, k, n).contains(x) <==> (x < n && nodes[x as int].kind
            == k) by {}
    }
}

/// A block that holds (as a multiset) the indices of one stage picks exactly
/// that stage's nodes, each once.
proof fn lemma_block_picks(nodes: Seq<TraceNode>, k: TraceNodeKind, blk: Seq<usize>)
    requires
        blk.to_multiset() == indices_of_kind(nodes, k, nodes.len() as int).to_multiset(),
        unique_trace_ids(nodes),
        nodes.len() <= usize::MAX,
    ensures
        forall|x: TraceNode| #[trigger] picked(nodes, blk).contains(x) <==> nodes.contains(x) && x.kind == k,
        unique_trace_ids(picked(nodes, blk)),
        forall|p: int| 0 <= p < blk.len() ==> (#[trigger] blk[p]) < nodes.len(),
{
    broadcast use vstd::seq_lib::to_multiset_contains;

    let idx = indices_of_kind(nodes, k, nodes.len() as int);
    lemma_indices_of_kind(nodes, k, nodes.len() as int);
    assert forall|p: int| 0 <= p < blk.len() implies (#[trigger] blk[p]) < nodes.len() && nodes[blk[p] as int].kind
        == k by {
        assert(blk.contains(blk[p]));
        assert(blk.to_multiset().count(blk[p]) > 0);
        assert(idx.contains(blk[p]));
    }
    idx.lemma_multiset_has_no_duplicates();
    blk.lemma_multiset_has_no_duplicates_conv();
    let pk = picked(nodes, blk);
    assert forall|x: TraceNode| pk.contains(x) <==> nodes.contains(x) && x.kind == k by {
        if pk.contains(x) {
            let p = choose|p: int| 0 <= p < pk.len() && pk[p] == x;
            assert(pk[p] == nodes[blk[p] as int]);
            assert(nodes.contains(nodes[blk[p] as int]));
        }
        if nodes.contains(x) && x.kind == k {
            let i = choose|i: int| 0 <= i < nodes.len() && nodes[i] == x;
            assert(idx.contains(i as usize));
            assert(idx.to_multiset().count(i as usize) > 0);
            assert(blk.contains(i as usize));
            let p = choose|p: int| 0 <= p < blk.len() && blk[p] == i as usize;
            assert(pk[p] == nodes[blk[p] as int]);
            assert(pk[p] == x);
        }
    }
    assert forall|i: int, j: int| 0 <= i < j < pk.len() implies pk[i].id != pk[j].id by {
        assert(pk[i] == nodes[blk[i] as int] && pk[j] == nodes[blk[j] as int]);
        assert(blk[i] != blk[j]);
        if blk[i] < blk[j] {
            assert(nodes[blk[i] as int].id != nodes[blk[j] as int].id);
        } else {
            assert(nodes[blk[j] as int].id != nodes[blk[i] as int].id);
        }
    }
}

proof fn lemma_rank_same(n1: Seq<TraceNode>, s1: Seq<usize>, n2: Seq<TraceNode>, s2: Seq<usize>, id: u128)
    requires
        picked(n1, s1) == picked(n2, s2),
    ensures
        rank_in(n1, s1, id) == rank_in(n2, s2, id),
    decreases s1.len(),
{
    assert(picked(n1, s1).len() == s1.len() && picked(n2, s2).len() == s2.len());
    if s1.len() > 0 {
        assert(picked(n1, s1)[s1.len() - 1] == picked(n2, s2)[s2.len() - 1]);
        assert(picked(n1, s1)[s1.len() - 1] == n1[s1.last() as int]);
        assert(picked(n2, s2)[s2.len() - 1] == n2[s2.last() as int]);
        assert(picked(n1, s1.drop_last()) =~= picked(n1, s1).drop_last());
        assert(picked(n2, s2.drop_last()) =~= picked(n2, s2).drop_last());
        lemma_rank_same(n1, s1.drop_last(), n2, s2.drop_last(), id);
    }
}

proof fn lemma_min_rank_same(
    n1: Seq<TraceNode>,
    s1: Seq<usize>,
    n2: Seq<TraceNode>,
    s2: Seq<usize>,
    reach: Set<u128>,
    p: int,
)
    requires
        picked(n1, s1) == picked(n2, s2),
    ensures
        min_rank_from(n1, s1, reach, p) == min_rank_from(n2, s2, reach, p),
    decreases s1.len() - p,
{
    assert(picked(n1, s1).len() == s1.len() && picked(n2, s2).len() == s2.len());
    if 0 <= p < s1.len() {
        assert(picked(n1, s1)[p] == picked(n2, s2)[p]);
        assert(picked(n1, s1)[p] == n1[s1[p] as int]);
        assert(picked(n2, s2)[p] == n2[s2[p] as int]);
        lemma_rank_same(n1, s1, n2, s2, n1[s1[p] as int].id);
        lemma_min_rank_same(n1, s1, n2, s2, reach, p + 1);
    }
}

/// The anchor of node `x` (as `anchor_of` computes it for a position holding `x`).
pub open spec fn anchor_node(nodes: Seq<TraceNode>, links: Seq<Edge>, srs: Seq<usize>, x: TraceNode) -> usize {
    match rank_in(nodes, srs, x.id) {
        Some(r) => r as usize,
        None => match min_rank_from(nodes, srs, closure_spec(links, seq![x.id], Direction::Up, None), 0) {
            Some(r) => r as usize,
            None => usize::MAX,
        },
    }
}

proof fn lemma_anchor_same(
    n1: Seq<TraceNode>,
    l1: Seq<Edge>,
    s1: Seq<usize>,
    n2: Seq<TraceNode>,
    l2: Seq<Edge>,
    s2: Seq<usize>,
    x: TraceNode,
)
    requires
        picked(n1, s1) == picked(n2, s2),
        l1.to_multiset() == l2.to_multiset(),
    ensures
        anchor_node(n1, l1, s1, x) == anchor_node(n2, l2, s2, x),
{
    lemma_rank_same(n1, s1, n2, s2, x.id);
    law_closure_ignores_link_order(l1, l2, seq![x.id], Direction::Up, None);
    lemma_min_rank_same(n1, s1, n2, s2, closure_spec(l1, seq![x.id], Direction::Up, None), 0);
}

proof fn lemma_block_keys_same(n1: Seq<TraceNode>, b1: Seq<usize>, n2: Seq<TraceNode>, b2: Seq<usize>)
    requires
        picked(n1, b1) == picked(n2, b2),
    ensures
        block_keys(n1, b1) == block_keys(n2, b2),
{
    assert(picked(n1, b1).len() == b1.len() && picked(n2, b2).len() == b2.len());
    assert forall|p: int| 0 <= p < b1.len() implies n1[b1[p] as int].id == n2[b2[p] as int].id by {
        assert(picked(n1, b1)[p] == picked(n2, b2)[p]);
        assert(picked(n1, b1)[p] == n1[b1[p] as int]);
        assert(picked(n2, b2)[p] == n2[b2[p] as int]);
    }
    assert(block_keys(n1, b1) =~= block_keys(n2, b2));
}

/// The canonical order does not depend on the order of its inputs: for nodes
/// with distinct ids, listing the same nodes and the same links in any other
/// order gives the same `(id, sort_key)` list.
pub proof fn law_arrangement_ignores_input_order(
    n1: Seq<TraceNode>,
    l1: Seq<Edge>,
    srs1: Seq<usize>,
    blocks1: Seq<Seq<usize>>,
    r1: Seq<(u128, i32)>,
    n2: Seq<TraceNode>,
    l2: Seq<Edge>,
    srs2: Seq<usize>,
    blocks2: Seq<Seq<usize>>,
    r2: Seq<(u128, i32)>,
)
    requires
        n1.to_multiset() == n2.to_multiset(),
        l1.to_multiset() == l2.to_multiset(),
        unique_trace_ids(n1),
        unique_trace_ids(n2),
        n1.len() <= usize::MAX,
        arrangement_ok(n1, l1, srs1, blocks1, r1),
        arrangement_ok(n2, l2, srs2, blocks2, r2),
    ensures
        r1 == r2,
{
    broadcast use vstd::seq_lib::to_multiset_contains;

    vstd::seq_lib::to_multiset_len(n1);
    vstd::seq_lib::to_multiset_len(n2);
    assert(n2.len() == n1.len());
    assert forall|x: TraceNode| #[trigger] n1.contains(x) <==> n2.contains(x) by {
        assert(n1.contains(x) <==> n1.to_multiset().count(x) > 0);
        assert(n2.contains(x) <==> n2.to_multiset().count(x) > 0);
    }
    let sr = TraceNodeKind::SoftwareRequirement;
    let a1 = Seq::new(n1.len(), |i: int| anchor_of(n1, l1, srs1, i));
    let a2 = Seq::new(n2.len(), |i: int| anchor_of(n2, l2, srs2, i));
    // the requirements, in requirement order, are the same nodes
    let le_sr = |a: TraceNode, b: TraceNode| sr_order(a, b) <= 0;
    assert forall|a: TraceNode, b: TraceNode, c: TraceNode| #![trigger le_sr(a, b), le_sr(b, c)] le_sr(a, b) && le_sr(
        b,
        c,
    ) implies le_sr(a, c) by {
        lemma_sr_order(a, b, c);
    }
    assert forall|a: TraceNode, b: TraceNode| #![trigger le_sr(a, b), le_sr(b, a)] le_sr(a, b) && le_sr(b, a) implies a.id
        == b.id by {
        lemma_sr_order(a, b, a);
    }
    lemma_block_picks(n1, sr, srs1);
    lemma_block_picks(n2, sr, srs2);
    let p1 = picked(n1, srs1);
    let p2 = picked(n2, srs2);
    assert forall|k: int| 0 <= k < p1.len() - 1 implies #[trigger] le_sr(p1[k], p1[k + 1]) by {
        assert(block_le(n1, a1, true, srs1[k], srs1[k + 1]));
        assert(p1[k] == n1[srs1[k] as int] && p1[k + 1] == n1[srs1[k + 1] as int]);
    }
    assert forall|k: int| 0 <= k < p2.len() - 1 implies #[trigger] le_sr(p2[k], p2[k + 1]) by {
        assert(block_le(n2, a2, true, srs2[k], srs2[k + 1]));
        assert(p2[k] == n2[srs2[k] as int] && p2[k + 1] == n2[srs2[k + 1] as int]);
    }
    assert forall|x: TraceNode| p1.contains(x) <==> p2.contains(x) by {
        assert(p1.contains(x) <==> n1.contains(x) && x.kind == sr);
        assert(p2.contains(x) <==> n2.contains(x) && x.kind == sr);
        assert(n1.contains(x) <==> n2.contains(x));
    }
    lemma_sorted_unique(p1, p2, le_sr);
    // each block picks the same nodes in the same order
    assert forall|b: int| 0 <= b < 5 implies picked(n1, #[trigger] blocks1[b]) == picked(n2, blocks2[b]) by {
        let k = kind_order()[b];
        lemma_block_picks(n1, k, blocks1[b]);
        lemma_block_picks(n2, k, blocks2[b]);
        let q1 = picked(n1, blocks1[b]);
        let q2 = picked(n2, blocks2[b]);
        if k == sr {
            assert forall|j: int| 0 <= j < q1.len() - 1 implies #[trigger] le_sr(q1[j], q1[j + 1]) by {
                assert(block_le(n1, a1, true, blocks1[b][j], blocks1[b][j + 1]));
                assert(q1[j] == n1[blocks1[b][j] as int] && q1[j + 1] == n1[blocks1[b][j + 1] as int]);
            }
            assert forall|j: int| 0 <= j < q2.len() - 1 implies #[trigger] le_sr(q2[j], q2[j + 1]) by {
                assert(block_le(n2, a2, true, blocks2[b][j], blocks2[b][j + 1]));
                assert(q2[j] == n2[blocks2[b][j] as int] && q2[j + 1] == n2[blocks2[b][j + 1] as int]);
            }
            assert forall|x: TraceNode| q1.contains(x) <==> q2.contains(x) by {
                assert(q1.contains(x) <==> n1.contains(x) && x.kind == k);
                assert(q2.contains(x) <==> n2.contains(x) && x.kind == k);
                assert(n1.contains(x) <==> n2.contains(x));
            }
            lemma_sorted_unique(q1, q2, le_sr);
        } else {
            let le = |a: TraceNode, c: TraceNode|
                anchored_order(a, c, anchor_node(n1, l1, srs1, a) as int, anchor_node(n1, l1, srs1, c) as int) <= 0;
            assert forall|a: TraceNode, c: TraceNode, d: TraceNode| #![trigger le(a, c), le(c, d)] le(a, c) && le(c, d) implies le(
                a,
                d,
            ) by {
                lemma_anchored_order(
                    a,
                    c,
                    d,
                    anchor_node(n1, l1, srs1, a) as int,
                    anchor_node(n1, l1, srs1, c) as int,
                    anchor_node(n1, l1, srs1, d) as int,
                );
            }
            assert forall|a: TraceNode, c: TraceNode| #![trigger le(a, c), le(c, a)] le(a, c) && le(c, a) implies a.id
                == c.id by {
                lemma_anchored_order(
                    a,
                    c,
                    a,
                    anchor_node(n1, l1, srs1, a) as int,
                    anchor_node(n1, l1, srs1, c) as int,
                    anchor_node(n1, l1, srs1, a) as int,
                );
            }
            assert forall|j: int| 0 <= j < q1.len() - 1 implies #[trigger] le(q1[j], q1[j + 1]) by {
                assert(block_le(n1, a1, false, blocks1[b][j], blocks1[b][j + 1]));
                assert(q1[j] == n1[blocks1[b][j] as int] && q1[j + 1] == n1[blocks1[b][j + 1] as int]);
            }
            assert forall|j: int| 0 <= j < q2.len() - 1 implies #[trigger] le(q2[j], q2[j + 1]) by {
                assert(block_le(n2, a2, false, blocks2[b][j], blocks2[b][j + 1]));
                assert(q2[j] == n2[blocks2[b][j] as int] && q2[j + 1] == n2[blocks2[b][j + 1] as int]);
                lemma_anchor_same(n1, l1, srs1, n2, l2, srs2, q2[j]);
                lemma_anchor_same(n1, l1, srs1, n2, l2, srs2, q2[j + 1]);
            }
            assert forall|x: TraceNode| q1.contains(x) <==> q2.contains(x) by {
                assert(q1.contains(x) <==> n1.contains(x) && x.kind == k);
                assert(q2.contains(x) <==> n2.contains(x) && x.kind == k);
                assert(n1.contains(x) <==> n2.contains(x));
            }
            lemma_sorted_unique(q1, q2, le);
        }
    }
    assert forall|b: int| 0 <= b < 5 implies block_keys(n1, #[trigger] blocks1[b]) == block_keys(n2, blocks2[b]) by {
        assert(picked(n1, blocks1[b]) == picked(n2, blocks2[b]));
        lemma_block_keys_same(n1, blocks1[b], n2, blocks2[b]);
    }
    assert(block_keys(n1, blocks1[0]) == block_keys(n2, blocks2[0]));
    assert(block_keys(n1, blocks1[1]) == block_keys(n2, blocks2[1]));
    assert(block_keys(n1, blocks1[2]) == block_keys(n2, blocks2[2]));
    assert(block_keys(n1, blocks1[3]) == block_keys(n2, blocks2[3]));
    assert(block_keys(n1, blocks1[4]) == block_keys(n2, blocks2[4]));
}

} // verus!
