//! The canonical order of a project's trace graph ("arrange"): requirements
//! are ordered by `(sort_key, number-aware ref)`, and every other node is
//! anchored at the front-most requirement it traces up to; inside each stage
//! nodes are ordered by `(anchor, number-aware ref)` and renumbered 0..n-1.
use vstd::prelude::*;
use crate::graph::{closure, closure_spec, vec_contains, Direction, Edge};
use crate::natural::{
    chars_compare, chars_order, lemma_chars_order_antisym, lemma_natural_order_antisym,
    natural_order, natural_sign,
};
use crate::text::chars_of;
use crate::trace_model::{TraceNode, TraceNodeKind};

verus! {

broadcast use vstd::seq_lib::to_multiset_build, vstd::seq_lib::to_multiset_insert;

pub open spec fn int_order(a: int, b: int) -> int {
    if a < b {
        -1
    } else if a > b {
        1
    } else {
        0
    }
}

/// Tie-breakers shared by both orders: number-aware ref, then source, then id.
pub open spec fn tail_order(a: TraceNode, b: TraceNode) -> int {
    let o1 = natural_order(a.external_ref@, b.external_ref@);
    if o1 != 0 {
        o1
    } else {
        let o2 = chars_order(a.external_source@, b.external_source@);
        if o2 != 0 {
            o2
        } else {
            int_order(a.id as int, b.id as int)
        }
    }
}

/// The order of requirements: `sort_key`, then the tie-breakers.
pub open spec fn sr_order(a: TraceNode, b: TraceNode) -> int {
    let o = int_order(a.sort_key as int, b.sort_key as int);
    if o != 0 {
        o
    } else {
        tail_order(a, b)
    }
}

/// The order of the other stages: anchor rank, then the tie-breakers.
pub open spec fn anchored_order(a: TraceNode, b: TraceNode, aa: int, ab: int) -> int {
    let o = int_order(aa, ab);
    if o != 0 {
        o
    } else {
        tail_order(a, b)
    }
}

/// `i` may come before `j` in a requirement block (`sr`) or in another stage's block.
pub open spec fn block_le(
    nodes: Seq<TraceNode>,
    anchors: Seq<usize>,
    sr: bool,
    i: usize,
    j: usize,
) -> bool {
    if sr {
        sr_order(nodes[i as int], nodes[j as int]) <= 0
    } else {
        anchored_order(
            nodes[i as int],
            nodes[j as int],
            anchors[i as int] as int,
            anchors[j as int] as int,
        ) <= 0
    }
}

/// Every neighbouring pair is in order.
pub open spec fn sorted_block(
    nodes: Seq<TraceNode>,
    anchors: Seq<usize>,
    sr: bool,
    s: Seq<usize>,
) -> bool {
    forall|k: int| 0 <= k < s.len() - 1 ==> block_le(nodes, anchors, sr, #[trigger] s[k], s[k + 1])
}

/// The indices (in node order) of the first `n` nodes that are of kind `k`.
pub open spec fn indices_of_kind(nodes: Seq<TraceNode>, k: TraceNodeKind, n: int) -> Seq<usize>
    decreases n,
{
    if n <= 0 {
        Seq::empty()
    } else {
        let rest = indices_of_kind(nodes, k, n - 1);
        if nodes[n - 1].kind == k {
            rest.push((n - 1) as usize)
        } else {
            rest
        }
    }
}

/// The stages in the order in which their blocks are emitted.
pub open spec fn kind_order() -> Seq<TraceNodeKind> {
    seq![
        TraceNodeKind::TestReport,
        TraceNodeKind::TestRecord,
        TraceNodeKind::TestCase,
        TraceNodeKind::TestItem,
        TraceNodeKind::SoftwareRequirement,
    ]
}

/// The rank of `id` in the requirement order: the last position holding it.
pub open spec fn rank_in(nodes: Seq<TraceNode>, srs: Seq<usize>, id: u128) -> Option<int>
    decreases srs.len(),
{
    if srs.len() == 0 {
        None
    } else if nodes[srs.last() as int].id == id {
        Some(srs.len() - 1)
    } else {
        rank_in(nodes, srs.drop_last(), id)
    }
}

/// The smallest rank at or after `p` of a requirement in `reach`.
pub open spec fn min_rank_from(
    nodes: Seq<TraceNode>,
    srs: Seq<usize>,
    reach: Set<u128>,
    p: int,
) -> Option<int>
    decreases srs.len() - p,
{
    if p >= srs.len() || p < 0 {
        None
    } else {
        let id = nodes[srs[p] as int].id;
        if reach.contains(id) && rank_in(nodes, srs, id) == Some(p) {
            Some(p)
        } else {
            min_rank_from(nodes, srs, reach, p + 1)
        }
    }
}

/// The anchor of node `i`: a requirement's own rank (for an id that a
/// requirement holds), else the smallest rank among the requirements that the
/// node traces up to, else `usize::MAX` (placed last).
pub open spec fn anchor_of(
    nodes: Seq<TraceNode>,
    links: Seq<Edge>,
    srs: Seq<usize>,
    i: int,
) -> usize {
    match rank_in(nodes, srs, nodes[i].id) {
        Some(r) => r as usize,
        None => match min_rank_from(
            nodes,
            srs,
            closure_spec(links, seq![nodes[i].id], Direction::Up, None),
            0,
        ) {
            Some(r) => r as usize,
            None => usize::MAX,
        },
    }
}

/// The output of a block: each node's id with its position in the block.
pub open spec fn block_keys(nodes: Seq<TraceNode>, s: Seq<usize>) -> Seq<(u128, i32)> {
    Seq::new(s.len(), |p: int| (nodes[s[p] as int].id, p as i32))
}

/// The whole arrangement, given the ordered requirements and the five ordered blocks.
pub open spec fn arrangement_ok(
    nodes: Seq<TraceNode>,
    links: Seq<Edge>,
    srs: Seq<usize>,
    blocks: Seq<Seq<usize>>,
    out: Seq<(u128, i32)>,
) -> bool {
    let anchors = Seq::new(nodes.len(), |i: int| anchor_of(nodes, links, srs, i));
    &&& srs.to_multiset() == indices_of_kind(
        nodes,
        TraceNodeKind::SoftwareRequirement,
        nodes.len() as int,
    ).to_multiset()
    &&& sorted_block(nodes, anchors, true, srs)
    &&& blocks.len() == 5
    &&& forall|b: int|
        0 <= b < 5 ==> (#[trigger] blocks[b]).to_multiset() == indices_of_kind(
            nodes,
            kind_order()[b],
            nodes.len() as int,
        ).to_multiset() && sorted_block(
            nodes,
            anchors,
            kind_order()[b] == TraceNodeKind::SoftwareRequirement,
            blocks[b],
        )
    &&& out == block_keys(nodes, blocks[0]) + block_keys(nodes, blocks[1]) + block_keys(
        nodes,
        blocks[2],
    ) + block_keys(nodes, blocks[3]) + block_keys(nodes, blocks[4])
}

fn id_compare(a: u128, b: u128) -> (r: i8)
    ensures
        r == int_order(a as int, b as int),
{
    if a < b {
        -1
    } else if a > b {
        1
    } else {
        0
    }
}

fn tail_compare(a: &TraceNode, b: &TraceNode) -> (r: i8)
    ensures
        r == tail_order(*a, *b),
{
    let o1 = natural_sign(a.external_ref.as_str(), b.external_ref.as_str());
    if o1 != 0 {
        return o1;
    }
    let sa = chars_of(a.external_source.as_str());
    let sb = chars_of(b.external_source.as_str());
    let o2 = chars_compare(&sa, &sb);
    if o2 != 0 {
        return o2;
    }
    id_compare(a.id, b.id)
}

fn block_le_exec(nodes: &[TraceNode], anchors: &Vec<usize>, sr: bool, i: usize, j: usize) -> (r:
    bool)
    requires
        i < nodes@.len(),
        j < nodes@.len(),
        anchors@.len() == nodes@.len(),
    ensures
        r == block_le(nodes@, anchors@, sr, i, j),
{
    let a = &nodes[i];
    let b = &nodes[j];
    let o: i8 = if sr {
        if a.sort_key < b.sort_key {
            -1
        } else if a.sort_key > b.sort_key {
            1
        } else {
            tail_compare(a, b)
        }
    } else {
        if anchors[i] < anchors[j] {
            -1
        } else if anchors[i] > anchors[j] {
            1
        } else {
            tail_compare(a, b)
        }
    };
    o <= 0
}

proof fn lemma_tail_antisym(a: TraceNode, b: TraceNode)
    ensures
        tail_order(b, a) == -tail_order(a, b),
{
    lemma_natural_order_antisym(a.external_ref@, b.external_ref@);
    lemma_chars_order_antisym(a.external_source@, b.external_source@);
}

/// Either of two indices may come first.
proof fn lemma_block_total(nodes: Seq<TraceNode>, anchors: Seq<usize>, sr: bool, i: usize, j: usize)
    requires
        i < nodes.len(),
        j < nodes.len(),
    ensures
        !block_le(nodes, anchors, sr, i, j) ==> block_le(nodes, anchors, sr, j, i),
{
    lemma_tail_antisym(nodes[i as int], nodes[j as int]);
}

/// Insertion sort of node indices by the block order.
fn sort_block(nodes: &[TraceNode], anchors: &Vec<usize>, sr: bool, idx: &Vec<usize>) -> (r: Vec<
    usize,
>)
    requires
        anchors@.len() == nodes@.len(),
        forall|k: int| 0 <= k < idx@.len() ==> #[trigger] idx@[k] < nodes@.len(),
    ensures
        r@.to_multiset() == idx@.to_multiset(),
        sorted_block(nodes@, anchors@, sr, r@),
        forall|k: int| 0 <= k < r@.len() ==> #[trigger] r@[k] < nodes@.len(),
{
    let mut r: Vec<usize> = Vec::new();
    let mut i: usize = 0;
    assert(idx@.take(0) =~= r@);
    while i < idx.len()
        invariant
            i <= idx@.len(),
            anchors@.len() == nodes@.len(),
            forall|k: int| 0 <= k < idx@.len() ==> #[trigger] idx@[k] < nodes@.len(),
            r@.to_multiset() == idx@.take(i as int).to_multiset(),
            sorted_block(nodes@, anchors@, sr, r@),
            forall|k: int| 0 <= k < r@.len() ==> #[trigger] r@[k] < nodes@.len(),
        decreases idx.len() - i,
    {
        let x = idx[i];
        let mut k = r.len();
        while k > 0 && !block_le_exec(nodes, anchors, sr, r[k - 1], x)
            invariant
                k <= r@.len(),
                x < nodes@.len(),
                anchors@.len() == nodes@.len(),
                forall|m: int| 0 <= m < r@.len() ==> #[trigger] r@[m] < nodes@.len(),
                forall|m: int| k <= m < r@.len() ==> !block_le(nodes@, anchors@, sr, #[trigger] r@[m], x),
            decreases k,
        {
            k = k - 1;
        }
        let ghost old_r = r@;
        r.insert(k, x);
        proof {
            assert(idx@.take(i + 1) =~= idx@.take(i as int).push(x));
            if k < old_r.len() {
                lemma_block_total(nodes@, anchors@, sr, old_r[k as int], x);
            }
            assert forall|m: int| 0 <= m < r@.len() - 1 implies block_le(
                nodes@,
                anchors@,
                sr,
                #[trigger] r@[m],
                r@[m + 1],
            ) by {
                if m < k - 1 {
                    assert(r@[m] == old_r[m] && r@[m + 1] == old_r[m + 1]);
                } else if m == k - 1 {
                } else if m == k {
                } else {
                    assert(r@[m] == old_r[m - 1] && r@[m + 1] == old_r[m]);
                }
            }
            assert forall|m: int| 0 <= m < r@.len() implies #[trigger] r@[m] < nodes@.len() by {
                if m < k {
                    assert(r@[m] == old_r[m]);
                } else if m > k {
                    assert(r@[m] == old_r[m - 1]);
                }
            }
        }
        i = i + 1;
    }
    assert(idx@.take(idx@.len() as int) =~= idx@);
    r
}

/// The indices (in node order) of the nodes of kind `k`.
fn kind_indices(nodes: &[TraceNode], k: TraceNodeKind) -> (r: Vec<usize>)
    ensures
        r@ == indices_of_kind(nodes@, k, nodes@.len() as int),
        forall|m: int| 0 <= m < r@.len() ==> #[trigger] r@[m] < nodes@.len(),
{
    let mut r: Vec<usize> = Vec::new();
    let mut i: usize = 0;
    while i < nodes.len()
        invariant
            i <= nodes@.len(),
            r@ == indices_of_kind(nodes@, k, i as int),
            forall|m: int| 0 <= m < r@.len() ==> #[trigger] r@[m] < i,
        decreases nodes.len() - i,
    {
        if nodes[i].kind == k {
            r.push(i);
        }
        i = i + 1;
    }
    r
}

/// The rank of `id` among the ordered requirements (its last position).
fn rank_exec(nodes: &[TraceNode], srs: &Vec<usize>, id: u128) -> (r: Option<usize>)
    requires
        forall|m: int| 0 <= m < srs@.len() ==> #[trigger] srs@[m] < nodes@.len(),
    ensures
        match r {
            Some(p) => rank_in(nodes@, srs@, id) == Some(p as int),
            None => rank_in(nodes@, srs@, id) is None,
        },
{
    let mut p = srs.len();
    assert(srs@.take(p as int) =~= srs@);
    while p > 0
        invariant
            p <= srs@.len(),
            forall|m: int| 0 <= m < srs@.len() ==> #[trigger] srs@[m] < nodes@.len(),
            rank_in(nodes@, srs@, id) == rank_in(nodes@, srs@.take(p as int), id),
        decreases p,
    {
        assert(srs@.take(p as int).last() == srs@[p - 1]);
        if nodes[srs[p - 1]].id == id {
            return Some(p - 1);
        }
        assert(srs@.take(p as int).drop_last() =~= srs@.take(p - 1));
        p = p - 1;
    }
    None
}

/// The anchor of node `i` (see `anchor_of`).
fn anchor_exec(nodes: &[TraceNode], links: &[Edge], srs: &Vec<usize>, i: usize) -> (r: usize)
    requires
        i < nodes@.len(),
        forall|m: int| 0 <= m < srs@.len() ==> #[trigger] srs@[m] < nodes@.len(),
    ensures
        r == anchor_of(nodes@, links@, srs@, i as int),
{
    let id = nodes[i].id;
    match rank_exec(nodes, srs, id) {
        Some(p) => p,
        None => {
            let roots: Vec<u128> = vec![id];
            let reach = closure(links, roots.as_slice(), Direction::Up, None);
            let ghost rset = closure_spec(links@, seq![id], Direction::Up, None);
            assert(roots@ =~= seq![id]);
            let mut p: usize = 0;
            while p < srs.len()
                invariant
                    p <= srs@.len(),
                    forall|m: int| 0 <= m < srs@.len() ==> #[trigger] srs@[m] < nodes@.len(),
                    forall|x: u128| reach@.contains(x) <==> rset.contains(x),
                    i < nodes@.len(),
                    id == nodes@[i as int].id,
                    rank_in(nodes@, srs@, id) is None,
                    rset == closure_spec(links@, seq![id], Direction::Up, None),
                    min_rank_from(nodes@, srs@, rset, 0) == min_rank_from(nodes@, srs@, rset, p as int),
                decreases srs.len() - p,
            {
                let pid = nodes[srs[p]].id;
                if vec_contains(&reach, pid) {
                    match rank_exec(nodes, srs, pid) {
                        Some(q) => {
                            if q == p {
                                return p;
                            }
                        },
                        None => {},
                    }
                }
                p = p + 1;
            }
            usize::MAX
        },
    }
}

/// Appends a block's `(id, position)` pairs.
fn emit_block(nodes: &[TraceNode], blk: &Vec<usize>, out: &mut Vec<(u128, i32)>)
    requires
        forall|m: int| 0 <= m < blk@.len() ==> #[trigger] blk@[m] < nodes@.len(),
    ensures
        final(out)@ == old(out)@ + block_keys(nodes@, blk@),
{
    let ghost start = out@;
    let mut p: usize = 0;
    while p < blk.len()
        invariant
            p <= blk@.len(),
            forall|m: int| 0 <= m < blk@.len() ==> #[trigger] blk@[m] < nodes@.len(),
            out@ == start + block_keys(nodes@, blk@.take(p as int)),
        decreases blk.len() - p,
    {
        out.push((nodes[blk[p]].id, p as i32));
        assert(block_keys(nodes@, blk@.take(p + 1)) =~= block_keys(nodes@, blk@.take(p as int)).push(
            (nodes@[blk@[p as int] as int].id, p as i32),
        ));
        p = p + 1;
    }
    assert(blk@.take(blk@.len() as int) =~= blk@);
}

/// The canonical order of the whole graph as `(node id, sort_key)` pairs,
/// stage by stage (reports first, requirements last), each stage numbered
/// 0..n-1: requirements by `(sort_key, number-aware ref, source, id)`; the
/// others by `(anchor, number-aware ref, source, id)` where the anchor is the
/// rank of the front-most requirement the node traces up to (orphans last).
pub fn requirement_anchored_order(nodes: &[TraceNode], links: &[Edge]) -> (r: Vec<(u128, i32)>)
    ensures
        exists|srs: Seq<usize>, blocks: Seq<Seq<usize>>|
            arrangement_ok(nodes@, links@, srs, blocks, r@),
{
    // requirements in requirement order
    let sr_idx = kind_indices(nodes, TraceNodeKind::SoftwareRequirement);
    let mut zeros: Vec<usize> = Vec::new();
    let mut i: usize = 0;
    while i < nodes.len()
        invariant
            i <= nodes@.len(),
            zeros@.len() == i,
        decreases nodes.len() - i,
    {
        zeros.push(0);
        i = i + 1;
    }
    let srs = sort_block(nodes, &zeros, true, &sr_idx);
    // each node's anchor
    let mut anchors: Vec<usize> = Vec::new();
    let mut i: usize = 0;
    while i < nodes.len()
        invariant
            i <= nodes@.len(),
            forall|m: int| 0 <= m < srs@.len() ==> #[trigger] srs@[m] < nodes@.len(),
            anchors@ =~= Seq::new(i as nat, |j: int| anchor_of(nodes@, links@, srs@, j)),
        decreases nodes.len() - i,
    {
        let a = anchor_exec(nodes, links, &srs, i);
        anchors.push(a);
        i = i + 1;
    }
    let ghost anchors_spec = Seq::new(nodes@.len(), |j: int| anchor_of(nodes@, links@, srs@, j));
    assert(anchors@ == anchors_spec);
    assert(sorted_block(nodes@, anchors_spec, true, srs@)) by {
        assert forall|k: int| 0 <= k < srs@.len() - 1 implies block_le(
            nodes@,
            anchors_spec,
            true,
            #[trigger] srs@[k],
            srs@[k + 1],
        ) by {
            assert(block_le(nodes@, zeros@, true, srs@[k], srs@[k + 1]));
        }
    }
    let mut out: Vec<(u128, i32)> = Vec::new();
    let i0 = kind_indices(nodes, TraceNodeKind::TestReport);
    let b0 = sort_block(nodes, &anchors, false, &i0);
    emit_block(nodes, &b0, &mut out);
    let i1 = kind_indices(nodes, TraceNodeKind::TestRecord);
    let b1 = sort_block(nodes, &anchors, false, &i1);
    emit_block(nodes, &b1, &mut out);
    let i2 = kind_indices(nodes, TraceNodeKind::TestCase);
    let b2 = sort_block(nodes, &anchors, false, &i2);
    emit_block(nodes, &b2, &mut out);
    let i3 = kind_indices(nodes, TraceNodeKind::TestItem);
    let b3 = sort_block(nodes, &anchors, false, &i3);
    emit_block(nodes, &b3, &mut out);
    let i4 = kind_indices(nodes, TraceNodeKind::SoftwareRequirement);
    let b4 = sort_block(nodes, &anchors, true, &i4);
    emit_block(nodes, &b4, &mut out);
    proof {
        let blocks = seq![b0@, b1@, b2@, b3@, b4@];
        assert(Seq::<u128>::empty() + Seq::<u128>::empty() =~= Seq::<u128>::empty());
        assert(out@ =~= block_keys(nodes@, blocks[0]) + block_keys(nodes@, blocks[1])
            + block_keys(nodes@, blocks[2]) + block_keys(nodes@, blocks[3]) + block_keys(
            nodes@,
            blocks[4],
        ));
        assert(forall|b: int|
            0 <= b < 5 ==> (#[trigger] blocks[b]).to_multiset() == indices_of_kind(
                nodes@,
                kind_order()[b],
                nodes@.len() as int,
            ).to_multiset() && sorted_block(
                nodes@,
                anchors_spec,
                kind_order()[b] == TraceNodeKind::SoftwareRequirement,
                blocks[b],
            ));
        assert(arrangement_ok(nodes@, links@, srs@, blocks, out@));
    }
    out
}

} // verus!
