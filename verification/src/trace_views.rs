//! Read-time views of a project's trace graph: reachable sets, coverage and
//! the traceability matrix. Nothing of them is stored.
use vstd::prelude::*;
use crate::graph::{
    closure, closure_spec, direct_sources, direct_sources_spec, opt_types, uncovered,
    uncovered_spec, vec_contains, Direction, Edge,
};
use crate::trace_model::{LinkType, TraceNode, TraceNodeKind};
use crate::trace_service::{edges_spec, TraceService};
use crate::trace_store::{links_of, node_in, nodes_of, TraceStore};

verus! {

broadcast use vstd::seq_lib::to_multiset_build, vstd::seq_lib::to_multiset_insert;

/// Creation time first, then id.
pub open spec fn created_le(a: TraceNode, b: TraceNode) -> bool {
    a.created_at < b.created_at || (a.created_at == b.created_at && a.id <= b.id)
}

/// The order a sort uses: by id alone, or by creation time then id.
pub open spec fn node_le(by_id: bool, a: TraceNode, b: TraceNode) -> bool {
    if by_id {
        a.id <= b.id
    } else {
        created_le(a, b)
    }
}

/// Every neighbouring pair is in order.
pub open spec fn nodes_sorted(by_id: bool, s: Seq<TraceNode>) -> bool {
    forall|k: int| 0 <= k < s.len() - 1 ==> node_le(by_id, #[trigger] s[k], s[k + 1])
}

/// The nodes whose id is in `ids`, in order.
pub open spec fn select_in(nodes: Seq<TraceNode>, ids: Set<u128>) -> Seq<TraceNode>
    decreases nodes.len(),
{
    if nodes.len() == 0 {
        Seq::empty()
    } else if ids.contains(nodes.last().id) {
        select_in(nodes.drop_last(), ids).push(nodes.last())
    } else {
        select_in(nodes.drop_last(), ids)
    }
}

/// The software requirements among the nodes, in order.
pub open spec fn requirements(nodes: Seq<TraceNode>) -> Seq<TraceNode>
    decreases nodes.len(),
{
    if nodes.len() == 0 {
        Seq::empty()
    } else if nodes.last().kind == TraceNodeKind::SoftwareRequirement {
        requirements(nodes.drop_last()).push(nodes.last())
    } else {
        requirements(nodes.drop_last())
    }
}

/// Link types in the alphabetical order of their names (`derives_from` <
/// `part_of` < `refines` < `satisfies` < `verifies`).
pub open spec fn link_type_rank(t: LinkType) -> int {
    match t {
        LinkType::DerivesFrom => 0,
        LinkType::PartOf => 1,
        LinkType::Refines => 2,
        LinkType::Satisfies => 3,
        LinkType::Verifies => 4,
    }
}

/// The matrix order of covering entries: link type name, creation time, id.
pub open spec fn cover_le(a: (TraceNode, LinkType), b: (TraceNode, LinkType)) -> bool {
    link_type_rank(a.1) < link_type_rank(b.1) || (link_type_rank(a.1) == link_type_rank(b.1)
        && created_le(a.0, b.0))
}

pub open spec fn cover_sorted(s: Seq<(TraceNode, LinkType)>) -> bool {
    forall|k: int| 0 <= k < s.len() - 1 ==> cover_le(#[trigger] s[k], s[k + 1])
}

/// The covering entries of a requirement: each direct source that is a
/// node of project `p`, with the link type.
pub open spec fn cover_pairs(
    nodes: Seq<TraceNode>,
    p: u128,
    srcs: Seq<(u128, LinkType)>,
) -> Seq<(TraceNode, LinkType)>
    decreases srcs.len(),
{
    if srcs.len() == 0 {
        Seq::empty()
    } else {
        let rest = cover_pairs(nodes, p, srcs.drop_last());
        match node_in(nodes, p, srcs.last().0) {
            Some(n) => rest.push((n, srcs.last().1)),
            None => rest,
        }
    }
}

/// The link types a requirement is covered through.
pub open spec fn covering_types() -> Seq<LinkType> {
    seq![LinkType::DerivesFrom, LinkType::Satisfies, LinkType::Verifies]
}

/// A matrix row: a software requirement and what traces directly into it.
/// `rows` is the traceability matrix of project `p`: one row per software
/// requirement of the project, ordered by id; each row lists the project's
/// nodes that trace directly into the requirement through derives_from /
/// satisfies / verifies links, in matrix order.
pub open spec fn matrix_ok(store: TraceStore, p: u128, rows: Seq<TraceMatrixRow>) -> bool {
    &&& rows.map_values(|row: TraceMatrixRow| row.requirement).to_multiset() == requirements(
        nodes_of(store.nodes@, p),
    ).to_multiset()
    &&& nodes_sorted(true, rows.map_values(|row: TraceMatrixRow| row.requirement))
    &&& forall|k: int|
        0 <= k < rows.len() ==> (#[trigger] rows[k]).covering@.to_multiset() == cover_pairs(
            store.nodes@,
            p,
            direct_sources_spec(
                edges_spec(links_of(store.links@, p)),
                rows[k].requirement.id,
                Some(covering_types()),
            ),
        ).to_multiset() && cover_sorted(rows[k].covering@)
}

pub struct TraceMatrixRow {
    pub requirement: TraceNode,
    pub covering: Vec<(TraceNode, LinkType)>,
}

pub struct TraceMatrix {
    pub rows: Vec<TraceMatrixRow>,
}

fn node_le_exec(by_id: bool, a: &TraceNode, b: &TraceNode) -> (r: bool)
    ensures
        r == node_le(by_id, *a, *b),
{
    if by_id {
        a.id <= b.id
    } else {
        a.created_at < b.created_at || (a.created_at == b.created_at && a.id <= b.id)
    }
}

/// Insertion sort of nodes by id, or by creation time then id.
pub fn sort_trace_nodes(v: &Vec<TraceNode>, by_id: bool) -> (r: Vec<TraceNode>)
    ensures
        r@.to_multiset() == v@.to_multiset(),
        nodes_sorted(by_id, r@),
{
    let mut r: Vec<TraceNode> = Vec::new();
    let mut i: usize = 0;
    assert(v@.take(0) =~= r@);
    while i < v.len()
        invariant
            i <= v@.len(),
            r@.to_multiset() == v@.take(i as int).to_multiset(),
            nodes_sorted(by_id, r@),
        decreases v.len() - i,
    {
        let x = v[i].clone();
        let mut k = r.len();
        while k > 0 && !node_le_exec(by_id, &r[k - 1], &x)
            invariant
                k <= r@.len(),
                forall|m: int| k <= m < r@.len() ==> !node_le(by_id, #[trigger] r@[m], x),
            decreases k,
        {
            k = k - 1;
        }
        let ghost old_r = r@;
        r.insert(k, x);
        proof {
            assert(v@.take(i + 1) =~= v@.take(i as int).push(x));
            assert forall|m: int| 0 <= m < r@.len() - 1 implies node_le(
                by_id,
                #[trigger] r@[m],
                r@[m + 1],
            ) by {
                if m < k - 1 {
                    assert(r@[m] == old_r[m] && r@[m + 1] == old_r[m + 1]);
                } else if m == k - 1 {
                } else if m == k {
                } else {
                    assert(r@[m] == old_r[m - 1] && r@[m + 1] == old_r[m]);
                }
            }
        }
        i = i + 1;
    }
    assert(v@.take(v@.len() as int) =~= v@);
    r
}

fn cover_le_exec(a: &(TraceNode, LinkType), b: &(TraceNode, LinkType)) -> (r: bool)
    ensures
        r == cover_le(*a, *b),
{
    let ra: u8 = match a.1 {
        LinkType::DerivesFrom => 0,
        LinkType::PartOf => 1,
        LinkType::Refines => 2,
        LinkType::Satisfies => 3,
        LinkType::Verifies => 4,
    };
    let rb: u8 = match b.1 {
        LinkType::DerivesFrom => 0,
        LinkType::PartOf => 1,
        LinkType::Refines => 2,
        LinkType::Satisfies => 3,
        LinkType::Verifies => 4,
    };
    ra < rb || (ra == rb && node_le_exec(false, &a.0, &b.0))
}

fn clone_pair(x: &(TraceNode, LinkType)) -> (r: (TraceNode, LinkType))
    ensures
        r == *x,
{
    (x.0.clone(), x.1)
}

/// Insertion sort of covering entries in matrix order.
pub fn sort_covering(v: &Vec<(TraceNode, LinkType)>) -> (r: Vec<(TraceNode, LinkType)>)
    ensures
        r@.to_multiset() == v@.to_multiset(),
        cover_sorted(r@),
{
    let mut r: Vec<(TraceNode, LinkType)> = Vec::new();
    let mut i: usize = 0;
    assert(v@.take(0) =~= r@);
    while i < v.len()
        invariant
            i <= v@.len(),
            r@.to_multiset() == v@.take(i as int).to_multiset(),
            cover_sorted(r@),
        decreases v.len() - i,
    {
        let x = clone_pair(&v[i]);
        let mut k = r.len();
        while k > 0 && !cover_le_exec(&r[k - 1], &x)
            invariant
                k <= r@.len(),
                forall|m: int| k <= m < r@.len() ==> !cover_le(#[trigger] r@[m], x),
            decreases k,
        {
            k = k - 1;
        }
        let ghost old_r = r@;
        r.insert(k, x);
        proof {
            assert(v@.take(i + 1) =~= v@.take(i as int).push(x));
            assert forall|m: int| 0 <= m < r@.len() - 1 implies cover_le(
                #[trigger] r@[m],
                r@[m + 1],
            ) by {
                if m < k - 1 {
                    assert(r@[m] == old_r[m] && r@[m + 1] == old_r[m + 1]);
                } else if m == k - 1 {
                } else if m == k {
                } else {
                    assert(r@[m] == old_r[m - 1] && r@[m + 1] == old_r[m]);
                }
            }
        }
        i = i + 1;
    }
    assert(v@.take(v@.len() as int) =~= v@);
    r
}

/// The nodes whose id `ids` holds, in order.
fn select_nodes(nodes: &Vec<TraceNode>, ids: &Vec<u128>) -> (r: Vec<TraceNode>)
    ensures
        r@ == select_in(nodes@, ids@.to_set()),
{
    let mut r: Vec<TraceNode> = Vec::new();
    let mut i: usize = 0;
    while i < nodes.len()
        invariant
            i <= nodes@.len(),
            r@ == select_in(nodes@.take(i as int), ids@.to_set()),
        decreases nodes.len() - i,
    {
        assert(nodes@.take(i + 1).drop_last() =~= nodes@.take(i as int));
        if vec_contains(ids, nodes[i].id) {
            r.push(nodes[i].clone());
        }
        i = i + 1;
    }
    assert(nodes@.take(nodes@.len() as int) =~= nodes@);
    r
}

impl TraceService {
    /// The nodes of project `p` reachable from `roots` along `dir` through
    /// links whose type passes the filter (the roots left out), each once,
    /// ordered by id.
    pub fn reachable(
        &self,
        project_id: u128,
        roots: Vec<u128>,
        dir: Direction,
        link_types: Option<Vec<LinkType>>,
    ) -> (r: Vec<TraceNode>)
        ensures
            r@.to_multiset() == select_in(
                nodes_of(self.store.nodes@, project_id),
                closure_spec(
                    edges_spec(links_of(self.store.links@, project_id)),
                    roots@,
                    dir,
                    match link_types {
                        Some(v) => Some(v@),
                        None => None,
                    },
                ),
            ).to_multiset(),
            nodes_sorted(true, r@),
    {
        let edges = self.graph_edges(project_id);
        let ids = match &link_types {
            Some(v) => closure(edges.as_slice(), roots.as_slice(), dir, Some(v.as_slice())),
            None => closure(edges.as_slice(), roots.as_slice(), dir, None),
        };
        let ghost want = closure_spec(
            edges@,
            roots@,
            dir,
            match link_types {
                Some(v) => Some(v@),
                None => None,
            },
        );
        assert(ids@.to_set() =~= want);
        let nodes = self.store.list_nodes(project_id);
        let out = select_nodes(&nodes, &ids);
        sort_trace_nodes(&out, true)
    }

    /// Coverage analysis: the software requirements of project `p` that no
    /// derives_from / satisfies / verifies link traces into, ordered by
    /// creation time, then id.
    pub fn coverage(&self, project_id: u128) -> (r: Vec<TraceNode>)
        ensures
            r@.to_multiset() == select_in(
                nodes_of(self.store.nodes@, project_id),
                uncovered_spec(
                    nodes_of(self.store.nodes@, project_id),
                    edges_spec(links_of(self.store.links@, project_id)),
                ).to_set(),
            ).to_multiset(),
            nodes_sorted(false, r@),
    {
        let nodes = self.store.list_nodes(project_id);
        let edges = self.graph_edges(project_id);
        let unc = uncovered(nodes.as_slice(), edges.as_slice());
        let out = select_nodes(&nodes, &unc);
        sort_trace_nodes(&out, false)
    }

    /// The traceability matrix of project `p`: one row per software
    /// requirement, by id; each lists the project's nodes that trace directly
    /// into it through derives_from / satisfies / verifies, in matrix order.
    pub fn matrix(&self, project_id: u128) -> (r: TraceMatrix)
        requires
            self.wf(),
        ensures
            matrix_ok(self.store, project_id, r.rows@),
    {
        let nodes = self.store.list_nodes(project_id);
        let edges = self.graph_edges(project_id);
        let allowed: Vec<LinkType> = vec![
            LinkType::DerivesFrom,
            LinkType::Satisfies,
            LinkType::Verifies,
        ];
        assert(allowed@ =~= covering_types());
        let mut reqs: Vec<TraceNode> = Vec::new();
        let mut i: usize = 0;
        while i < nodes.len()
            invariant
                i <= nodes@.len(),
                reqs@ == requirements(nodes@.take(i as int)),
            decreases nodes.len() - i,
        {
            assert(nodes@.take(i + 1).drop_last() =~= nodes@.take(i as int));
            if nodes[i].kind == TraceNodeKind::SoftwareRequirement {
                reqs.push(nodes[i].clone());
            }
            i = i + 1;
        }
        assert(nodes@.take(nodes@.len() as int) =~= nodes@);
        let reqs = sort_trace_nodes(&reqs, true);
        let mut rows: Vec<TraceMatrixRow> = Vec::new();
        let mut k: usize = 0;
        while k < reqs.len()
            invariant
                k <= reqs@.len(),
                allowed@ == covering_types(),
                edges@ == edges_spec(links_of(self.store.links@, project_id)),
                rows@.len() == k,
                forall|m: int| 0 <= m < k ==> (#[trigger] rows@[m]).requirement == reqs@[m],
                forall|m: int|
                    0 <= m < k ==> (#[trigger] rows@[m]).covering@.to_multiset() == cover_pairs(
                        self.store.nodes@,
                        project_id,
                        direct_sources_spec(
                            edges_spec(links_of(self.store.links@, project_id)),
                            rows@[m].requirement.id,
                            Some(covering_types()),
                        ),
                    ).to_multiset() && cover_sorted(rows@[m].covering@),
            decreases reqs.len() - k,
        {
            let req = reqs[k].clone();
            let srcs = direct_sources(edges.as_slice(), req.id, Some(allowed.as_slice()));
            let mut cov: Vec<(TraceNode, LinkType)> = Vec::new();
            let mut j: usize = 0;
            while j < srcs.len()
                invariant
                    j <= srcs@.len(),
                    cov@ == cover_pairs(self.store.nodes@, project_id, srcs@.take(j as int)),
                decreases srcs.len() - j,
            {
                assert(srcs@.take(j + 1).drop_last() =~= srcs@.take(j as int));
                let (sid, lt) = srcs[j];
                match self.store.find_node_in(project_id, sid) {
                    Some(n) => {
                        cov.push((n, lt));
                    },
                    None => {},
                }
                j = j + 1;
            }
            assert(srcs@.take(srcs@.len() as int) =~= srcs@);
            let covering = sort_covering(&cov);
            rows.push(TraceMatrixRow { requirement: req, covering });
            k = k + 1;
        }
        assert(rows@.map_values(|row: TraceMatrixRow| row.requirement) =~= reqs@);
        TraceMatrix { rows }
    }
}

} // verus!
