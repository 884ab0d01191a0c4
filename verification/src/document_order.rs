//! The structural order of template nodes: the flat deterministic order and
//! the document order (pre-order walk of the `contains` tree).
use vstd::prelude::*;
use crate::document_model::{TemplateEdge, TemplateNode};
use crate::graph::vec_contains;
use crate::text::str_eq;

verus! {

/// `a` may come before `b`: `(sort_key, created_at, id)` order.
pub open spec fn node_le(a: TemplateNode, b: TemplateNode) -> bool {
    a.sort_key < b.sort_key || (a.sort_key == b.sort_key && (a.created_at < b.created_at || (
    a.created_at == b.created_at && a.id <= b.id)))
}

/// Inserting `x` into `s` after the last element that may come before it.
pub open spec fn insert_sorted<T>(s: Seq<T>, x: T, le: spec_fn(T, T) -> bool) -> Seq<T>
    decreases s.len(),
{
    if s.len() == 0 || le(s.last(), x) {
        s.push(x)
    } else {
        insert_sorted(s.drop_last(), x, le).push(s.last())
    }
}

/// The stable sort of `s` by `le`.
pub open spec fn isort<T>(s: Seq<T>, le: spec_fn(T, T) -> bool) -> Seq<T>
    decreases s.len(),
{
    if s.len() == 0 {
        s
    } else {
        insert_sorted(isort(s.drop_last(), le), s.last(), le)
    }
}

/// Inserting at the first place after which nothing may come before `x` is `insert_sorted`.
pub proof fn lemma_insert_sorted<T>(r: Seq<T>, x: T, k: int, le: spec_fn(T, T) -> bool)
    requires
        0 <= k <= r.len(),
        k == 0 || le(r[k - 1], x),
        forall|m: int| k <= m < r.len() ==> !le(#[trigger] r[m], x),
    ensures
        r.insert(k, x) == insert_sorted(r, x, le),
    decreases r.len() - k,
{
    if k == r.len() {
        assert(r.insert(k, x) =~= r.push(x));
    } else {
        let d = r.drop_last();
        assert forall|m: int| k <= m < d.len() implies !le(#[trigger] d[m], x) by {
            assert(d[m] == r[m]);
        }
        if k > 0 {
            assert(d[k - 1] == r[k - 1]);
        }
        lemma_insert_sorted(d, x, k, le);
        assert(r.insert(k, x) =~= d.insert(k, x).push(r.last()));
    }
}

/// The node with id `id` (the last one when several share it).
pub open spec fn node_of(nodes: Seq<TemplateNode>, id: u128) -> Option<TemplateNode>
    decreases nodes.len(),
{
    if nodes.len() == 0 {
        None
    } else if nodes.last().id == id {
        Some(nodes.last())
    } else {
        node_of(nodes.drop_last(), id)
    }
}

/// Id order through the nodes the ids name (by id for an id without a node).
pub open spec fn id_le(nodes: Seq<TemplateNode>, a: u128, b: u128) -> bool {
    match (node_of(nodes, a), node_of(nodes, b)) {
        (Some(x), Some(y)) => node_le(x, y),
        _ => a <= b,
    }
}

pub open spec fn is_contains(e: TemplateEdge) -> bool {
    e.edge_type@ == "contains"@
}

/// The targets of the `contains` edges out of `p`, in edge order.
pub open spec fn contains_children(edges: Seq<TemplateEdge>, p: u128) -> Seq<u128>
    decreases edges.len(),
{
    if edges.len() == 0 {
        Seq::empty()
    } else {
        let rest = contains_children(edges.drop_last(), p);
        let e = edges.last();
        if is_contains(e) && e.source_node_id == p {
            rest.push(e.target_node_id)
        } else {
            rest
        }
    }
}

pub open spec fn has_parent(edges: Seq<TemplateEdge>, id: u128) -> bool {
    exists|i: int| 0 <= i < edges.len() && is_contains(edges[i]) && #[trigger] edges[i].target_node_id == id
}

/// The children of `p` in document order.
pub open spec fn kids(nodes: Seq<TemplateNode>, edges: Seq<TemplateEdge>, p: u128) -> Seq<u128> {
    isort(contains_children(edges, p), |a: u128, b: u128| id_le(nodes, a, b))
}

/// The ids of the nodes with no parent, in node order.
pub open spec fn root_candidates(nodes: Seq<TemplateNode>, edges: Seq<TemplateEdge>) -> Seq<u128>
    decreases nodes.len(),
{
    if nodes.len() == 0 {
        Seq::empty()
    } else {
        let rest = root_candidates(nodes.drop_last(), edges);
        if !has_parent(edges, nodes.last().id) {
            rest.push(nodes.last().id)
        } else {
            rest
        }
    }
}

pub open spec fn roots(nodes: Seq<TemplateNode>, edges: Seq<TemplateEdge>) -> Seq<u128> {
    isort(root_candidates(nodes, edges), |a: u128, b: u128| id_le(nodes, a, b))
}

/// Pre-order walk from `id`: the node, then its children's subtrees; a node
/// already seen is skipped. `fuel` bounds the depth (any bound above the
/// number of ids in play gives the full walk).
pub open spec fn visit(
    nodes: Seq<TemplateNode>,
    edges: Seq<TemplateEdge>,
    fuel: nat,
    id: u128,
    seen: Set<u128>,
) -> (Seq<TemplateNode>, Set<u128>)
    decreases fuel, 0nat,
{
    if fuel == 0 || seen.contains(id) {
        (Seq::empty(), seen)
    } else {
        let s1 = seen.insert(id);
        let head = match node_of(nodes, id) {
            Some(n) => seq![n],
            None => Seq::empty(),
        };
        let r = visit_list(nodes, edges, (fuel - 1) as nat, kids(nodes, edges, id), s1);
        (head + r.0, r.1)
    }
}

pub open spec fn visit_list(
    nodes: Seq<TemplateNode>,
    edges: Seq<TemplateEdge>,
    fuel: nat,
    list: Seq<u128>,
    seen: Set<u128>,
) -> (Seq<TemplateNode>, Set<u128>)
    decreases fuel, list.len() + 1,
{
    if list.len() == 0 {
        (Seq::empty(), seen)
    } else {
        let a = visit(nodes, edges, fuel, list[0], seen);
        let b = visit_list(nodes, edges, fuel, list.drop_first(), a.1);
        (a.0 + b.0, b.1)
    }
}

/// Every id that the walk can meet.
pub open spec fn universe(nodes: Seq<TemplateNode>, edges: Seq<TemplateEdge>) -> Set<u128> {
    nodes.map_values(|n: TemplateNode| n.id).to_set().union(
        edges.map_values(|e: TemplateEdge| e.target_node_id).to_set(),
    )
}

/// The nodes whose id the walk did not reach, in node order.
pub open spec fn unseen_nodes(nodes: Seq<TemplateNode>, seen: Set<u128>) -> Seq<TemplateNode>
    decreases nodes.len(),
{
    if nodes.len() == 0 {
        Seq::empty()
    } else {
        let rest = unseen_nodes(nodes.drop_last(), seen);
        if !seen.contains(nodes.last().id) {
            rest.push(nodes.last())
        } else {
            rest
        }
    }
}

/// The document order: the walk from the roots (in order), then the nodes it
/// did not reach (cycles, dangling parts) in flat order.
pub open spec fn ordered_spec(nodes: Seq<TemplateNode>, edges: Seq<TemplateEdge>) -> Seq<TemplateNode> {
    let walk = visit_list(
        nodes,
        edges,
        universe(nodes, edges).len() + 1,
        roots(nodes, edges),
        Set::empty(),
    );
    walk.0 + isort(unseen_nodes(nodes, walk.1), |a: TemplateNode, b: TemplateNode| node_le(a, b))
}

fn node_le_exec(a: &TemplateNode, b: &TemplateNode) -> (r: bool)
    ensures
        r == node_le(*a, *b),
{
    a.sort_key < b.sort_key || (a.sort_key == b.sort_key && (a.created_at < b.created_at || (
    a.created_at == b.created_at && a.id <= b.id)))
}

/// The flat deterministic order: a stable sort by `(sort_key, created_at, id)`.
pub fn sort_nodes(nodes: Vec<TemplateNode>) -> (r: Vec<TemplateNode>)
    ensures
        r@ == isort(nodes@, |a: TemplateNode, b: TemplateNode| node_le(a, b)),
{
    let ghost le = |a: TemplateNode, b: TemplateNode| node_le(a, b);
    let mut r: Vec<TemplateNode> = Vec::new();
    let mut i: usize = 0;
    assert(nodes@.take(0) =~= Seq::<TemplateNode>::empty());
    while i < nodes.len()
        invariant
            i <= nodes@.len(),
            r@ == isort(nodes@.take(i as int), le),
            le == (|a: TemplateNode, b: TemplateNode| node_le(a, b)),
        decreases nodes.len() - i,
    {
        let x = nodes[i].clone();
        let mut k = r.len();
        while k > 0 && !node_le_exec(&r[k - 1], &x)
            invariant
                k <= r@.len(),
                le == (|a: TemplateNode, b: TemplateNode| node_le(a, b)),
                forall|m: int| k <= m < r@.len() ==> !le(#[trigger] r@[m], x),
            decreases k,
        {
            k = k - 1;
        }
        proof {
            lemma_insert_sorted(r@, x, k as int, le);
            assert(nodes@.take(i + 1).drop_last() =~= nodes@.take(i as int));
        }
        r.insert(k, x);
        i = i + 1;
    }
    assert(nodes@.take(nodes@.len() as int) =~= nodes@);
    r
}

/// Sorting keeps the elements.
pub proof fn lemma_isort_perm<T>(s: Seq<T>, le: spec_fn(T, T) -> bool)
    ensures
        isort(s, le).to_multiset() == s.to_multiset(),
    decreases s.len(),
{
    broadcast use vstd::seq_lib::to_multiset_build;

    if s.len() > 0 {
        lemma_isort_perm(s.drop_last(), le);
        lemma_insert_sorted_perm(isort(s.drop_last(), le), s.last(), le);
        assert(s.drop_last().push(s.last()) =~= s);
    }
}

pub proof fn lemma_insert_sorted_perm<T>(s: Seq<T>, x: T, le: spec_fn(T, T) -> bool)
    ensures
        insert_sorted(s, x, le).to_multiset() == s.to_multiset().insert(x),
    decreases s.len(),
{
    broadcast use vstd::seq_lib::to_multiset_build;

    if s.len() > 0 && !le(s.last(), x) {
        lemma_insert_sorted_perm(s.drop_last(), x, le);
        assert(s.drop_last().push(s.last()) =~= s);
        assert(s.drop_last().to_multiset().insert(x).insert(s.last()) =~= s.drop_last().to_multiset().insert(
            s.last(),
        ).insert(x));
    }
}

pub proof fn lemma_isort_contains<T>(s: Seq<T>, le: spec_fn(T, T) -> bool, x: T)
    ensures
        isort(s, le).contains(x) <==> s.contains(x),
{
    broadcast use vstd::seq_lib::to_multiset_contains;

    lemma_isort_perm(s, le);
    assert(isort(s, le).to_multiset().count(x) == s.to_multiset().count(x));
}

/// The index of the node with id `id` (the last such node).
fn node_index(nodes: &Vec<TemplateNode>, id: u128) -> (r: Option<usize>)
    ensures
        match r {
            Some(i) => i < nodes@.len() && node_of(nodes@, id) == Some(nodes@[i as int]),
            None => node_of(nodes@, id) is None,
        },
{
    let mut p = nodes.len();
    assert(nodes@.take(p as int) =~= nodes@);
    while p > 0
        invariant
            p <= nodes@.len(),
            node_of(nodes@, id) == node_of(nodes@.take(p as int), id),
        decreases p,
    {
        assert(nodes@.take(p as int).last() == nodes@[p - 1]);
        if nodes[p - 1].id == id {
            return Some(p - 1);
        }
        assert(nodes@.take(p as int).drop_last() =~= nodes@.take(p - 1));
        p = p - 1;
    }
    None
}

fn id_le_exec(nodes: &Vec<TemplateNode>, a: u128, b: u128) -> (r: bool)
    ensures
        r == id_le(nodes@, a, b),
{
    match (node_index(nodes, a), node_index(nodes, b)) {
        (Some(i), Some(j)) => node_le_exec(&nodes[i], &nodes[j]),
        _ => a <= b,
    }
}

/// Stable sort of ids by `id_le`.
fn sort_ids(nodes: &Vec<TemplateNode>, ids: &Vec<u128>) -> (r: Vec<u128>)
    ensures
        r@ == isort(ids@, |a: u128, b: u128| id_le(nodes@, a, b)),
{
    let ghost le = |a: u128, b: u128| id_le(nodes@, a, b);
    let mut r: Vec<u128> = Vec::new();
    let mut i: usize = 0;
    assert(ids@.take(0) =~= Seq::<u128>::empty());
    while i < ids.len()
        invariant
            i <= ids@.len(),
            r@ == isort(ids@.take(i as int), le),
            le == (|a: u128, b: u128| id_le(nodes@, a, b)),
        decreases ids.len() - i,
    {
        let x = ids[i];
        let mut k = r.len();
        while k > 0 && !id_le_exec(nodes, r[k - 1], x)
            invariant
                k <= r@.len(),
                le == (|a: u128, b: u128| id_le(nodes@, a, b)),
                forall|m: int| k <= m < r@.len() ==> !le(#[trigger] r@[m], x),
            decreases k,
        {
            k = k - 1;
        }
        proof {
            lemma_insert_sorted(r@, x, k as int, le);
            assert(ids@.take(i + 1).drop_last() =~= ids@.take(i as int));
        }
        r.insert(k, x);
        i = i + 1;
    }
    assert(ids@.take(ids@.len() as int) =~= ids@);
    r
}

fn is_contains_exec(e: &TemplateEdge) -> (r: bool)
    ensures
        r == is_contains(*e),
{
    str_eq(e.edge_type.as_str(), "contains")
}

/// The children of `p` in document order.
fn kids_exec(nodes: &Vec<TemplateNode>, edges: &[TemplateEdge], p: u128) -> (r: Vec<u128>)
    ensures
        r@ == kids(nodes@, edges@, p),
        forall|x: u128|
            r@.contains(x) ==> edges@.map_values(|e: TemplateEdge| e.target_node_id).contains(x),
{
    let mut c: Vec<u128> = Vec::new();
    let mut i: usize = 0;
    while i < edges.len()
        invariant
            i <= edges@.len(),
            c@ == contains_children(edges@.take(i as int), p),
            forall|x: u128|
                c@.contains(x) ==> edges@.map_values(|e: TemplateEdge| e.target_node_id).contains(x),
        decreases edges.len() - i,
    {
        assert(edges@.take(i + 1).drop_last() =~= edges@.take(i as int));
        let e = &edges[i];
        if is_contains_exec(e) && e.source_node_id == p {
            let ghost old_c = c@;
            c.push(e.target_node_id);
            assert forall|x: u128| c@.contains(x) implies edges@.map_values(
                |e: TemplateEdge| e.target_node_id,
            ).contains(x) by {
                let w = choose|w: int| 0 <= w < c@.len() && c@[w] == x;
                if w < old_c.len() {
                    assert(old_c[w] == x);
                    assert(old_c.contains(x));
                } else {
                    assert(edges@.map_values(|e: TemplateEdge| e.target_node_id)[i as int] == x);
                }
            }
        }
        i = i + 1;
    }
    assert(edges@.take(edges@.len() as int) =~= edges@);
    let r = sort_ids(nodes, &c);
    proof {
        assert forall|x: u128| r@.contains(x) implies edges@.map_values(
            |e: TemplateEdge| e.target_node_id,
        ).contains(x) by {
            lemma_isort_contains(c@, |a: u128, b: u128| id_le(nodes@, a, b), x);
        }
    }
    r
}

fn has_parent_exec(edges: &[TemplateEdge], id: u128) -> (r: bool)
    ensures
        r == has_parent(edges@, id),
{
    let mut i: usize = 0;
    while i < edges.len()
        invariant
            i <= edges@.len(),
            forall|j: int| 0 <= j < i ==> !(is_contains(edges@[j]) && #[trigger] edges@[j].target_node_id == id),
        decreases edges.len() - i,
    {
        if is_contains_exec(&edges[i]) && edges[i].target_node_id == id {
            return true;
        }
        i = i + 1;
    }
    false
}

/// Removing a seen id leaves one less unseen id.
proof fn lemma_unseen_shrinks(u: Set<u128>, seen: Set<u128>, id: u128)
    requires
        u.finite(),
        u.contains(id),
        !seen.contains(id),
    ensures
        u.difference(seen.insert(id)).len() + 1 == u.difference(seen).len(),
        u.difference(seen).finite(),
{
    vstd::set_lib::lemma_len_subset(u.difference(seen), u);
    assert(u.difference(seen.insert(id)) =~= u.difference(seen).remove(id));
}

/// Seeing more leaves fewer unseen ids.
proof fn lemma_unseen_monotone(u: Set<u128>, a: Set<u128>, b: Set<u128>)
    requires
        u.finite(),
        a.subset_of(b),
    ensures
        u.difference(b).len() <= u.difference(a).len(),
{
    vstd::set_lib::lemma_len_subset(u.difference(a), u);
    vstd::set_lib::lemma_len_subset(u.difference(b), u.difference(a));
}

proof fn lemma_universe_finite(nodes: Seq<TemplateNode>, edges: Seq<TemplateEdge>)
    ensures
        universe(nodes, edges).finite(),
{
    broadcast use vstd::seq_lib::seq_to_set_is_finite;

}

fn visit_exec(
    nodes: &Vec<TemplateNode>,
    edges: &[TemplateEdge],
    Ghost(fuel): Ghost<nat>,
    id: u128,
    seen: &mut Vec<u128>,
    out: &mut Vec<TemplateNode>,
)
    requires
        universe(nodes@, edges@).contains(id),
        fuel >= universe(nodes@, edges@).difference(old(seen)@.to_set()).len() + 1,
    ensures
        final(out)@ == old(out)@ + visit(nodes@, edges@, fuel, id, old(seen)@.to_set()).0,
        final(seen)@.to_set() == visit(nodes@, edges@, fuel, id, old(seen)@.to_set()).1,
        old(seen)@.to_set().subset_of(final(seen)@.to_set()),
    decreases fuel, 0nat,
{
    let ghost u = universe(nodes@, edges@);
    let ghost s0 = seen@.to_set();
    if vec_contains(seen, id) {
        assert(out@ + Seq::<TemplateNode>::empty() =~= out@);
        return ;
    }
    proof {
        lemma_universe_finite(nodes@, edges@);
        lemma_unseen_shrinks(u, s0, id);
    }
    proof {
        crate::seq_facts::lemma_push_to_set(seen@, id);
    }
    seen.push(id);
    let ghost out0 = out@;
    match node_index(nodes, id) {
        Some(i) => {
            out.push(nodes[i].clone());
        },
        None => {},
    }
    let ks = kids_exec(nodes, edges, id);
    proof {
        assert forall|j: int| 0 <= j < ks@.len() implies u.contains(#[trigger] ks@[j]) by {
            assert(ks@.contains(ks@[j]));
        }
    }
    let ghost out1 = out@;
    visit_list_exec(nodes, edges, Ghost((fuel - 1) as nat), &ks, seen, out);
    proof {
        let head = match node_of(nodes@, id) {
            Some(n) => seq![n],
            None => Seq::<TemplateNode>::empty(),
        };
        assert(out1 =~= out0 + head);
        assert(out@ =~= out0 + (head + visit_list(
            nodes@,
            edges@,
            (fuel - 1) as nat,
            kids(nodes@, edges@, id),
            s0.insert(id),
        ).0));
    }
}

fn visit_list_exec(
    nodes: &Vec<TemplateNode>,
    edges: &[TemplateEdge],
    Ghost(fuel): Ghost<nat>,
    list: &Vec<u128>,
    seen: &mut Vec<u128>,
    out: &mut Vec<TemplateNode>,
)
    requires
        forall|j: int| 0 <= j < list@.len() ==> universe(nodes@, edges@).contains(#[trigger] list@[j]),
        fuel >= universe(nodes@, edges@).difference(old(seen)@.to_set()).len() + 1,
    ensures
        final(out)@ == old(out)@ + visit_list(nodes@, edges@, fuel, list@, old(seen)@.to_set()).0,
        final(seen)@.to_set() == visit_list(nodes@, edges@, fuel, list@, old(seen)@.to_set()).1,
        old(seen)@.to_set().subset_of(final(seen)@.to_set()),
    decreases fuel, 1nat,
{
    let ghost u = universe(nodes@, edges@);
    let ghost s0 = seen@.to_set();
    let ghost out0 = out@;
    let mut j: usize = 0;
    assert(list@.skip(0) =~= list@);
    assert(out@ + Seq::<TemplateNode>::empty() =~= out@);
    while j < list.len()
        invariant
            j <= list@.len(),
            u == universe(nodes@, edges@),
            forall|m: int| 0 <= m < list@.len() ==> u.contains(#[trigger] list@[m]),
            fuel >= u.difference(s0).len() + 1,
            s0.subset_of(seen@.to_set()),
            out0 + visit_list(nodes@, edges@, fuel, list@, s0).0 == out@ + visit_list(
                nodes@,
                edges@,
                fuel,
                list@.skip(j as int),
                seen@.to_set(),
            ).0,
            visit_list(nodes@, edges@, fuel, list@, s0).1 == visit_list(
                nodes@,
                edges@,
                fuel,
                list@.skip(j as int),
                seen@.to_set(),
            ).1,
        decreases list.len() - j,
        {
        proof {
            lemma_universe_finite(nodes@, edges@);
            lemma_unseen_monotone(u, s0, seen@.to_set());
        }
        let ghost sj = seen@.to_set();
        let ghost outj = out@;
        let ghost rest = list@.skip(j as int);
        assert(rest[0] == list@[j as int]);
        assert(rest.drop_first() =~= list@.skip(j + 1));
        visit_exec(nodes, edges, Ghost(fuel), list[j], seen, out);
        proof {
            let a = visit(nodes@, edges@, fuel, list@[j as int], sj);
            let b = visit_list(nodes@, edges@, fuel, list@.skip(j + 1), a.1);
            assert(visit_list(nodes@, edges@, fuel, rest, sj) == (a.0 + b.0, b.1));
            assert(out@ + b.0 =~= outj + (a.0 + b.0));
        }
        j = j + 1;
    }
    assert(list@.skip(list@.len() as int) =~= Seq::<u128>::empty());
    assert(out@ + Seq::<TemplateNode>::empty() =~= out@);
}

/// Document order (pre-order over `contains` edges, source = parent): each
/// parent comes before its children, siblings in `(sort_key, created_at, id)`
/// order, top-level nodes likewise; nodes the walk does not reach (cycles,
/// dangling structure) follow in flat order. Non-`contains` edges are ignored.
pub fn ordered_nodes(nodes: Vec<TemplateNode>, edges: &[TemplateEdge]) -> (r: Vec<TemplateNode>)
    ensures
        r@ == ordered_spec(nodes@, edges@),
{
    let ghost u = universe(nodes@, edges@);
    let ghost ids = nodes@.map_values(|n: TemplateNode| n.id);
    let mut cands: Vec<u128> = Vec::new();
    let mut i: usize = 0;
    while i < nodes.len()
        invariant
            i <= nodes@.len(),
            ids == nodes@.map_values(|n: TemplateNode| n.id),
            cands@ == root_candidates(nodes@.take(i as int), edges@),
            forall|x: u128| cands@.contains(x) ==> ids.contains(x),
        decreases nodes.len() - i,
    {
        assert(nodes@.take(i + 1).drop_last() =~= nodes@.take(i as int));
        let id = nodes[i].id;
        if !has_parent_exec(edges, id) {
            let ghost old_c = cands@;
            cands.push(id);
            assert forall|x: u128| cands@.contains(x) implies ids.contains(x) by {
                let w = choose|w: int| 0 <= w < cands@.len() && cands@[w] == x;
                if w < old_c.len() {
                    assert(old_c[w] == x);
                    assert(old_c.contains(x));
                } else {
                    assert(ids[i as int] == x);
                }
            }
        }
        i = i + 1;
    }
    assert(nodes@.take(nodes@.len() as int) =~= nodes@);
    let rs = sort_ids(&nodes, &cands);
    proof {
        assert forall|j: int| 0 <= j < rs@.len() implies u.contains(#[trigger] rs@[j]) by {
            assert(rs@.contains(rs@[j]));
            lemma_isort_contains(cands@, |a: u128, b: u128| id_le(nodes@, a, b), rs@[j]);
        }
        lemma_universe_finite(nodes@, edges@);
        assert(u.difference(Seq::<u128>::empty().to_set()) =~= u);
    }
    let mut seen: Vec<u128> = Vec::new();
    let mut out: Vec<TemplateNode> = Vec::new();
    assert(seen@.to_set() =~= Set::<u128>::empty());
    visit_list_exec(&nodes, edges, Ghost(u.len() + 1), &rs, &mut seen, &mut out);
    let ghost walk = visit_list(nodes@, edges@, u.len() + 1, roots(nodes@, edges@), Set::empty());
    assert(out@ =~= walk.0);
    let mut left: Vec<TemplateNode> = Vec::new();
    let mut i: usize = 0;
    while i < nodes.len()
        invariant
            i <= nodes@.len(),
            seen@.to_set() == walk.1,
            left@ == unseen_nodes(nodes@.take(i as int), walk.1),
        decreases nodes.len() - i,
    {
        assert(nodes@.take(i + 1).drop_last() =~= nodes@.take(i as int));
        if !vec_contains(&seen, nodes[i].id) {
            left.push(nodes[i].clone());
        }
        i = i + 1;
    }
    assert(nodes@.take(nodes@.len() as int) =~= nodes@);
    let sorted_left = sort_nodes(left);
    let mut k: usize = 0;
    let ghost base = out@;
    while k < sorted_left.len()
        invariant
            k <= sorted_left@.len(),
            out@ == base + sorted_left@.take(k as int),
        decreases sorted_left.len() - k,
    {
        out.push(sorted_left[k].clone());
        assert(sorted_left@.take(k + 1) =~= sorted_left@.take(k as int).push(sorted_left@[k as int]));
        k = k + 1;
    }
    assert(sorted_left@.take(sorted_left@.len() as int) =~= sorted_left@);
    out
}

} // verus!
